use hashstorage_utils::convert::{
    hex_from_bytes, hex_to_bytes, hex_to_bytes_vec, private_key_from_bytes, private_key_to_bytes,
    public_key_from_bytes, public_key_to_bytes, signature_from_bytes, signature_to_bytes,
    str_from_bytes, str_to_bytes_sized, ConvertError, Point, U256,
};

#[test]
fn hex_to_bytes_fixed_two() {
    let bytes: [u8; 2] = hex_to_bytes("C18B").unwrap();
    assert_eq!(bytes, [139u8, 193]);
    assert_eq!(bytes, [0x8B, 0xC1]);
}

#[test]
fn hex_to_bytes_vec_reverses_pairs() {
    assert_eq!(hex_to_bytes_vec("0102A0ff").unwrap(), vec![0xFF, 0xA0, 0x02, 0x01]);
    assert_eq!(hex_to_bytes_vec("").unwrap(), Vec::<u8>::new());
}

#[test]
fn hex_to_bytes_vec_rejects_malformed() {
    assert_eq!(hex_to_bytes_vec("C18"), Err(ConvertError::MalformedHex));
    assert_eq!(hex_to_bytes_vec("C1G8"), Err(ConvertError::MalformedHex));
    assert_eq!(hex_to_bytes_vec("é1"), Err(ConvertError::MalformedHex));
    assert_eq!(hex_to_bytes_vec("0x"), Err(ConvertError::MalformedHex));
}

#[test]
fn hex_to_bytes_length_mismatch() {
    let r: Result<[u8; 3], ConvertError> = hex_to_bytes("C18B");
    assert_eq!(r, Err(ConvertError::LengthMismatch));
    let r: Result<[u8; 1], ConvertError> = hex_to_bytes("C1Z");
    assert_eq!(r, Err(ConvertError::MalformedHex));
}

#[test]
fn hex_from_bytes_upper_case_reversed() {
    assert_eq!(hex_from_bytes(&[0x8B, 0xC1]), "C18B");
    assert_eq!(hex_from_bytes(&[0x00, 0x0A, 0xF0]), "F00A00");
    assert_eq!(hex_from_bytes(&[]), "");
}

#[test]
fn hex_round_trip_upper_cases() {
    let h = "deadBEEF0001";
    assert_eq!(hex_from_bytes(&hex_to_bytes_vec(h).unwrap()), "DEADBEEF0001");
    let b = vec![0u8, 1, 2, 254, 255];
    assert_eq!(hex_to_bytes_vec(&hex_from_bytes(&b)).unwrap(), b);
}

#[test]
fn str_to_bytes_sized_pads_with_zeros() {
    let bytes: [u8; 11] = str_to_bytes_sized("hello world").unwrap();
    assert_eq!(&bytes, b"hello world");
    let group: [u8; 32] = str_to_bytes_sized("my group").unwrap();
    assert_eq!(&group[..8], b"my group");
    assert!(group[8..].iter().all(|&b| b == 0));
}

#[test]
fn str_to_bytes_sized_too_long() {
    let r: Result<[u8; 4], ConvertError> = str_to_bytes_sized("hello");
    assert_eq!(r, Err(ConvertError::StringTooLong));
    let r: Result<[u8; 2], ConvertError> = str_to_bytes_sized("é!");
    assert_eq!(r, Err(ConvertError::StringTooLong));
}

#[test]
fn str_from_bytes_drops_trailing_zeros() {
    assert_eq!(str_from_bytes(&[b'h', 0, b'i', 0, 0]).unwrap(), "h\0i");
    assert_eq!(str_from_bytes(&[0, 0, 0]).unwrap(), "");
    assert_eq!(str_from_bytes(&[]).unwrap(), "");
}

#[test]
fn str_from_bytes_invalid_utf8() {
    assert_eq!(str_from_bytes(&[0xFF, 0x41, 0]), Err(ConvertError::InvalidUtf8));
    assert_eq!(str_from_bytes(&[0xC3, 0, 0]), Err(ConvertError::InvalidUtf8));
}

#[test]
fn str_round_trip() {
    for s in ["", "my key", "héllo wörld", "日本"] {
        let bytes: [u8; 32] = str_to_bytes_sized(s).unwrap();
        assert_eq!(str_from_bytes(&bytes).unwrap(), s);
    }
}

#[test]
fn private_key_little_endian() {
    let k = U256 { digits: [0x0807060504030201, 2, 3, 0xFF00000000000004] };
    let b = private_key_to_bytes(&k);
    assert_eq!(&b[..8], &[1, 2, 3, 4, 5, 6, 7, 8]);
    assert_eq!(&b[8..16], &[2, 0, 0, 0, 0, 0, 0, 0]);
    assert_eq!(b[16], 3);
    assert_eq!(b[24], 4);
    assert_eq!(b[31], 0xFF);
    assert_eq!(private_key_from_bytes(&b), k);
}

#[test]
fn private_key_from_bytes_round_trip() {
    let mut b = [0u8; 32];
    for (i, x) in b.iter_mut().enumerate() {
        *x = (i as u8).wrapping_mul(37).wrapping_add(5);
    }
    let k = private_key_from_bytes(&b);
    assert_eq!(k.digits[0], u64::from_le_bytes(b[..8].try_into().unwrap()));
    assert_eq!(k.digits[3], u64::from_le_bytes(b[24..].try_into().unwrap()));
    assert_eq!(private_key_to_bytes(&k), b);
}

#[test]
fn public_key_x_then_y() {
    let p = Point {
        x: U256 { digits: [1, 0, 0, 0] },
        y: U256 { digits: [0, 0, 0, u64::MAX] },
    };
    let b = public_key_to_bytes(&p);
    assert_eq!(b[0], 1);
    assert!(b[1..56].iter().all(|&x| x == 0));
    assert!(b[56..].iter().all(|&x| x == 0xFF));
    assert_eq!(public_key_from_bytes(&b), p);
}

#[test]
fn signature_r_then_s() {
    let sig = (U256 { digits: [7, 8, 9, 10] }, U256 { digits: [11, 12, 13, 14] });
    let b = signature_to_bytes(&sig);
    assert_eq!(b[0], 7);
    assert_eq!(b[24], 10);
    assert_eq!(b[32], 11);
    assert_eq!(b[56], 14);
    assert_eq!(signature_from_bytes(&b), sig);
}
