use hashstorage_utils::convert::{public_key_to_bytes, str_to_bytes_sized, Point, U256};
use hashstorage_utils::crypto::{public_key_matches, sha256_hash, sha256_pack};

fn hex32(h: &str) -> [u8; 32] {
    let mut out = [0u8; 32];
    for i in 0..32 {
        out[i] = u8::from_str_radix(&h[2 * i..2 * i + 2], 16).unwrap();
    }
    out
}

#[test]
fn sha256_known_vectors() {
    assert_eq!(
        sha256_hash(b"abc"),
        hex32("ba7816bf8f01cfea414140de5dae2223b00361a396177a9cb410ff61f20015ad")
    );
    assert_eq!(
        sha256_hash(b""),
        hex32("e3b0c44298fc1c149afbf4c8996fb92427ae41e4649b934ca495991b7852b855")
    );
}

#[test]
fn sha256_pack_hashes_group_key_version_data() {
    let group: [u8; 32] = str_to_bytes_sized("my group").unwrap();
    let key: [u8; 32] = str_to_bytes_sized("my key").unwrap();
    let data = b"my test data";
    let mut bytes = Vec::new();
    bytes.extend_from_slice(&group);
    bytes.extend_from_slice(&key);
    bytes.extend_from_slice(&[1, 0, 0, 0, 0, 0, 0, 0]);
    bytes.extend_from_slice(data);
    assert_eq!(sha256_pack(&group, &key, 1, data), sha256_hash(&bytes));
}

#[test]
fn sha256_pack_deterministic_and_version_sensitive() {
    let group = [3u8; 32];
    let key = [4u8; 32];
    let a = sha256_pack(&group, &key, 7, b"data");
    assert_eq!(a, sha256_pack(&group, &key, 7, b"data"));
    assert_ne!(a, sha256_pack(&group, &key, 8, b"data"));
    assert_ne!(a, sha256_pack(&group, &key, 7 | (1 << 40), b"data"));
    assert_ne!(a, sha256_pack(&group, &key, 7, b"datb"));
    let mut group2 = group;
    group2[31] ^= 1;
    assert_ne!(a, sha256_pack(&group2, &key, 7, b"data"));
    let mut key2 = key;
    key2[0] ^= 0x80;
    assert_ne!(a, sha256_pack(&group, &key2, 7, b"data"));
}

#[test]
fn public_key_matches_same_point_only() {
    let p = Point {
        x: U256 { digits: [5, 6, 7, 8] },
        y: U256 { digits: [9, 10, 11, 12] },
    };
    let bytes = public_key_to_bytes(&p);
    assert!(public_key_matches(&bytes, &p));
    let q = Point { x: p.x, y: U256 { digits: [9, 10, 11, 13] } };
    assert!(!public_key_matches(&bytes, &q));
    let mut other = bytes;
    other[0] ^= 1;
    assert!(!public_key_matches(&other, &p));
}
