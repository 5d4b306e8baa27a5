use vstd::bytes::*;
use vstd::prelude::*;

use crate::convert::{le_to_digits, Point};

verus! {

/// The SHA-256 digest of `b`.
pub uninterp spec fn sha256_of(b: Seq<u8>) -> Seq<u8>;

/// Relies on sha2::Sha256 through `Digest::digest`: the SHA-256 digest of the
/// bytes, which depends on the bytes alone.
#[verifier::external_body]
fn sha256_digest(bytes: &[u8]) -> (r: [u8; 32])
    ensures
        r@ == sha256_of(bytes@),
{
    <sha2::Sha256 as sha2::Digest>::digest(bytes).into()
}

/// Calculates the SHA-256 digest of `bytes`.
pub fn sha256_hash(bytes: &[u8]) -> (r: [u8; 32])
    ensures
        r@ == sha256_of(bytes@),
{
    sha256_digest(bytes)
}

/// The bytes of a hashstorage record that its digest is taken over: group,
/// key, the 8 little-endian bytes of the version, then the data.
pub open spec fn packed_record(group: Seq<u8>, key: Seq<u8>, version: u64, data: Seq<u8>) -> Seq<
    u8,
> {
    group + key + spec_u64_to_le_bytes(version) + data
}

/// Appends `src` to `out`.
fn push_all(out: &mut Vec<u8>, src: &[u8])
    ensures
        final(out)@ == old(out)@ + src@,
{
    let ghost first = out@;
    for i in 0..src.len()
        invariant
            out@ == first + src@.subrange(0, i as int),
    {
        out.push(src[i]);
        assert(out@ =~= first + src@.subrange(0, i + 1));
    }
    assert(src@.subrange(0, src@.len() as int) =~= src@);
}

/// Calculates the SHA-256 digest of a hashstorage record: group, key,
/// version and data.
pub fn sha256_pack(group: &[u8; 32], key: &[u8; 32], version: u64, data: &[u8]) -> (r: [u8; 32])
    ensures
        r@ == sha256_of(packed_record(group@, key@, version, data@)),
{
    let mut bytes: Vec<u8> = Vec::new();
    push_all(&mut bytes, group.as_slice());
    push_all(&mut bytes, key.as_slice());
    let v = u64_to_le_bytes(version);
    push_all(&mut bytes, v.as_slice());
    push_all(&mut bytes, data);
    assert(bytes@ =~= packed_record(group@, key@, version, data@));
    sha256_hash(bytes.as_slice())
}

/// The digest of a record depends on the record alone: equal records give
/// equal digests.
pub proof fn lemma_pack_deterministic(
    group: Seq<u8>,
    key: Seq<u8>,
    version: u64,
    data: Seq<u8>,
    group2: Seq<u8>,
    key2: Seq<u8>,
    version2: u64,
    data2: Seq<u8>,
)
    requires
        group == group2,
        key == key2,
        version == version2,
        data == data2,
    ensures
        sha256_of(packed_record(group, key, version, data)) == sha256_of(
            packed_record(group2, key2, version2, data2),
        ),
{
}

/// Two records with 32-byte groups and keys are packed into the same bytes
/// only when they agree in every field: a change of the group, the key, the
/// version or the data changes the bytes that are hashed.
pub proof fn lemma_pack_injective(
    group: Seq<u8>,
    key: Seq<u8>,
    version: u64,
    data: Seq<u8>,
    group2: Seq<u8>,
    key2: Seq<u8>,
    version2: u64,
    data2: Seq<u8>,
)
    requires
        group.len() == 32,
        key.len() == 32,
        group2.len() == 32,
        key2.len() == 32,
        packed_record(group, key, version, data) == packed_record(group2, key2, version2, data2),
    ensures
        group == group2,
        key == key2,
        version == version2,
        data == data2,
{
    lemma_auto_spec_u64_to_from_le_bytes();
    let p = packed_record(group, key, version, data);
    let p2 = packed_record(group2, key2, version2, data2);
    assert(p.subrange(0, 32) =~= group);
    assert(p2.subrange(0, 32) =~= group2);
    assert(p.subrange(32, 64) =~= key);
    assert(p2.subrange(32, 64) =~= key2);
    assert(p.subrange(64, 72) =~= spec_u64_to_le_bytes(version));
    assert(p2.subrange(64, 72) =~= spec_u64_to_le_bytes(version2));
    assert(p.subrange(72, p.len() as int) =~= data);
    assert(p2.subrange(72, p2.len() as int) =~= data2);
}

/// Whether the 64 bytes of a public key encode the point `derived`: the last
/// step of checking that a private key and a public key belong together,
/// once the point of the private key is known.
pub fn public_key_matches(public_key: &[u8; 64], derived: &Point) -> (r: bool)
    ensures
        r == (le_to_digits(public_key@.subrange(0, 32)) == derived.x.digits@ && le_to_digits(
            public_key@.subrange(32, 64),
        ) == derived.y.digits@),
{
    let p = crate::convert::public_key_from_bytes(public_key);
    let mut same = true;
    for i in 0..4usize
        invariant
            same == (forall|j: int| 0 <= j < i ==> p.x.digits@[j] == derived.x.digits@[j]
                && p.y.digits@[j] == derived.y.digits@[j]),
    {
        same = same && p.x.digits[i] == derived.x.digits[i] && p.y.digits[i] == derived.y.digits[i];
    }
    assert(same ==> p.x.digits@ =~= derived.x.digits@ && p.y.digits@ =~= derived.y.digits@);
    same
}

} // verus!
