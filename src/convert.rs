use vstd::bytes::*;
use vstd::prelude::*;
use vstd::string::*;
use vstd::utf8::*;

verus! {

/// A 256-bit unsigned integer held as four 64-bit digits, least significant
/// digit first.
#[derive(Clone, Copy, Debug, PartialEq, Eq)]
pub struct U256 {
    pub digits: [u64; 4],
}

/// A point of an elliptic curve given by its two coordinates.
#[derive(Clone, Copy, Debug, PartialEq, Eq)]
pub struct Point {
    pub x: U256,
    pub y: U256,
}

/// The 32 little-endian bytes of a 256-bit integer given by its digits.
pub open spec fn digits_to_le(d: Seq<u64>) -> Seq<u8> {
    Seq::new(32, |k: int| spec_u64_to_le_bytes(d[k / 8])[k % 8])
}

/// The four digits of the 256-bit integer whose little-endian bytes are `b`.
pub open spec fn le_to_digits(b: Seq<u8>) -> Seq<u64> {
    Seq::new(4, |i: int| spec_u64_from_le_bytes(b.subrange(8 * i, 8 * i + 8)))
}

/// Writes the 32 little-endian bytes of `n` into `out`, from index `start` on.
fn u256_to_le<const N: usize>(n: &U256, out: &mut [u8; N], start: usize)
    requires
        start + 32 <= old(out)@.len(),
    ensures
        final(out)@.len() == old(out)@.len(),
        final(out)@.subrange(start as int, start + 32) == digits_to_le(n.digits@),
        forall|k: int|
            0 <= k < old(out)@.len() && !(start <= k < start + 32) ==> #[trigger] final(out)@[k]
                == old(out)@[k],
{
    let ghost first = out@;
    let mut i: usize = 0;
    while i < 4
        invariant
            0 <= i <= 4,
            start + 32 <= out@.len(),
            out@.len() == first.len(),
            forall|k: int|
                0 <= k < first.len() && !(start <= k < start + 8 * i) ==> #[trigger] out@[k]
                    == first[k],
            forall|k: int|
                0 <= k < 8 * i ==> #[trigger] out@[start + k] == digits_to_le(n.digits@)[k],
        decreases 4 - i,
    {
        let bytes = u64_to_le_bytes(n.digits[i]);
        proof {
            lemma_auto_spec_u64_to_from_le_bytes();
        }
        for j in 0..8usize
            invariant
                0 <= i < 4,
                start + 32 <= out@.len(),
                out@.len() == first.len(),
                bytes@ == spec_u64_to_le_bytes(n.digits@[i as int]),
                bytes@.len() == 8,
                forall|k: int|
                    0 <= k < first.len() && !(start <= k < start + 8 * i + j) ==> #[trigger] out@[k]
                        == first[k],
                forall|k: int|
                    0 <= k < 8 * i + j ==> #[trigger] out@[start + k] == digits_to_le(n.digits@)[k],
        {
            out[start + 8 * i + j] = bytes[j];
            assert(digits_to_le(n.digits@)[8 * i + j] == bytes@[j as int]);
        }
        i = i + 1;
    }
    assert forall|k: int| 0 <= k < 32 implies out@.subrange(start as int, start + 32)[k]
        == digits_to_le(n.digits@)[k] by {
        assert(out@[start + k] == digits_to_le(n.digits@)[k]);
    }
    assert(out@.subrange(start as int, start + 32) =~= digits_to_le(n.digits@));
}

/// Converts a 256-bit private key to its 32 little-endian bytes.
pub fn private_key_to_bytes(b: &U256) -> (r: [u8; 32])
    ensures
        r@ == digits_to_le(b.digits@),
{
    let mut out = [0u8; 32];
    u256_to_le(b, &mut out, 0);
    assert(out@ =~= out@.subrange(0, 32));
    out
}

/// Decodes the 32 little-endian bytes of `bytes` that begin at `start`.
fn u256_from_le<const N: usize>(bytes: &[u8; N], start: usize) -> (r: U256)
    requires
        start + 32 <= bytes@.len(),
    ensures
        r.digits@ == le_to_digits(bytes@.subrange(start as int, start + 32)),
{
    let ghost src = bytes@.subrange(start as int, start + 32);
    let mut digits = [0u64; 4];
    let mut i: usize = 0;
    while i < 4
        invariant
            0 <= i <= 4,
            start + 32 <= bytes@.len(),
            src == bytes@.subrange(start as int, start + 32),
            forall|m: int| 0 <= m < i ==> #[trigger] digits@[m] == le_to_digits(src)[m],
        decreases 4 - i,
    {
        let mut limb: Vec<u8> = Vec::new();
        for j in 0..8usize
            invariant
                0 <= i < 4,
                start + 32 <= bytes@.len(),
                limb@.len() == j,
                forall|t: int| 0 <= t < j ==> #[trigger] limb@[t] == bytes@[start + 8 * i + t],
        {
            limb.push(bytes[start + 8 * i + j]);
        }
        assert(limb@ =~= src.subrange(8 * i, 8 * i + 8));
        digits[i] = u64_from_le_bytes(limb.as_slice());
        i = i + 1;
    }
    assert(digits@ =~= le_to_digits(src));
    U256 { digits }
}

/// Converts 32 little-endian bytes to the 256-bit integer they encode, as a
/// private key.
pub fn private_key_from_bytes(bytes: &[u8; 32]) -> (r: U256)
    ensures
        r.digits@ == le_to_digits(bytes@),
{
    assert(bytes@.subrange(0, 32) =~= bytes@);
    u256_from_le(bytes, 0)
}

/// The 64 bytes of a pair of 256-bit integers: the first one's little-endian
/// bytes, then the second one's.
pub open spec fn pair_to_le(a: U256, b: U256) -> Seq<u8> {
    digits_to_le(a.digits@) + digits_to_le(b.digits@)
}

/// Encodes `a` and `b` one after the other as little-endian bytes.
fn pair_to_bytes(a: &U256, b: &U256) -> (r: [u8; 64])
    ensures
        r@ == pair_to_le(*a, *b),
{
    let mut out = [0u8; 64];
    u256_to_le(a, &mut out, 0);
    u256_to_le(b, &mut out, 32);
    assert(out@ =~= out@.subrange(0, 32) + out@.subrange(32, 64));
    out
}

/// Converts a public key, a curve point, to 64 bytes: the little-endian bytes
/// of its x coordinate, then those of its y coordinate.
pub fn public_key_to_bytes(p: &Point) -> (r: [u8; 64])
    ensures
        r@ == pair_to_le(p.x, p.y),
{
    pair_to_bytes(&p.x, &p.y)
}

/// Converts 64 bytes to a public key: x from the first 32 little-endian bytes,
/// y from the last 32.
pub fn public_key_from_bytes(bytes: &[u8; 64]) -> (r: Point)
    ensures
        r.x.digits@ == le_to_digits(bytes@.subrange(0, 32)),
        r.y.digits@ == le_to_digits(bytes@.subrange(32, 64)),
{
    Point { x: u256_from_le(bytes, 0), y: u256_from_le(bytes, 32) }
}

/// Converts a signature `(r, s)` to 64 bytes: the little-endian bytes of `r`,
/// then those of `s`.
pub fn signature_to_bytes(signature: &(U256, U256)) -> (r: [u8; 64])
    ensures
        r@ == pair_to_le(signature.0, signature.1),
{
    pair_to_bytes(&signature.0, &signature.1)
}

/// Converts 64 bytes to a signature `(r, s)`: `r` from the first 32
/// little-endian bytes, `s` from the last 32.
pub fn signature_from_bytes(bytes: &[u8; 64]) -> (r: (U256, U256))
    ensures
        r.0.digits@ == le_to_digits(bytes@.subrange(0, 32)),
        r.1.digits@ == le_to_digits(bytes@.subrange(32, 64)),
{
    (u256_from_le(bytes, 0), u256_from_le(bytes, 32))
}

/// Decoding the little-endian bytes of a 256-bit integer gives back its digits.
pub proof fn lemma_digits_round_trip(d: Seq<u64>)
    requires
        d.len() == 4,
    ensures
        le_to_digits(digits_to_le(d)) == d,
{
    lemma_auto_spec_u64_to_from_le_bytes();
    let b = digits_to_le(d);
    assert forall|i: int| 0 <= i < 4 implies #[trigger] le_to_digits(b)[i] == d[i] by {
        assert(b.subrange(8 * i, 8 * i + 8) =~= spec_u64_to_le_bytes(d[i]));
    }
    assert(le_to_digits(b) =~= d);
}

/// Encoding the digits decoded from 32 bytes gives back those bytes.
pub proof fn lemma_bytes_round_trip(b: Seq<u8>)
    requires
        b.len() == 32,
    ensures
        digits_to_le(le_to_digits(b)) == b,
{
    lemma_auto_spec_u64_to_from_le_bytes();
    let d = le_to_digits(b);
    assert forall|k: int| 0 <= k < 32 implies #[trigger] digits_to_le(d)[k] == b[k] by {
        let i = k / 8;
        assert(b.subrange(8 * i, 8 * i + 8).len() == 8);
        assert(spec_u64_to_le_bytes(d[i]) == b.subrange(8 * i, 8 * i + 8));
    }
    assert(digits_to_le(d) =~= b);
}

/// A private key read back from its bytes is the key itself.
pub proof fn lemma_private_key_round_trip(p: U256, q: U256)
    requires
        q.digits@ == le_to_digits(digits_to_le(p.digits@)),
    ensures
        q == p,
{
    lemma_digits_round_trip(p.digits@);
    lemma_same_digits(q, p);
}

/// A public key read back from its bytes is the point itself.
pub proof fn lemma_public_key_round_trip(p: Point, q: Point)
    requires
        q.x.digits@ == le_to_digits(pair_to_le(p.x, p.y).subrange(0, 32)),
        q.y.digits@ == le_to_digits(pair_to_le(p.x, p.y).subrange(32, 64)),
    ensures
        q == p,
{
    lemma_pair_round_trip(p.x, p.y);
    lemma_same_digits(q.x, p.x);
    lemma_same_digits(q.y, p.y);
}

/// A signature read back from its bytes is the signature itself.
pub proof fn lemma_signature_round_trip(signature: (U256, U256), q: (U256, U256))
    requires
        q.0.digits@ == le_to_digits(pair_to_le(signature.0, signature.1).subrange(0, 32)),
        q.1.digits@ == le_to_digits(pair_to_le(signature.0, signature.1).subrange(32, 64)),
    ensures
        q == signature,
{
    lemma_pair_round_trip(signature.0, signature.1);
    lemma_same_digits(q.0, signature.0);
    lemma_same_digits(q.1, signature.1);
}

/// Two integers with the same digits are the same integer.
proof fn lemma_same_digits(a: U256, b: U256)
    requires
        a.digits@ == b.digits@,
    ensures
        a == b,
{
    assert(a.digits =~= b.digits);
}

proof fn lemma_pair_round_trip(a: U256, b: U256)
    ensures
        le_to_digits(pair_to_le(a, b).subrange(0, 32)) == a.digits@,
        le_to_digits(pair_to_le(a, b).subrange(32, 64)) == b.digits@,
{
    lemma_digits_round_trip(a.digits@);
    lemma_digits_round_trip(b.digits@);
    assert(pair_to_le(a, b).subrange(0, 32) =~= digits_to_le(a.digits@));
    assert(pair_to_le(a, b).subrange(32, 64) =~= digits_to_le(b.digits@));
}

/// Why a conversion was refused.
#[derive(Clone, Copy, Debug, PartialEq, Eq, Structural)]
pub enum ConvertError {
    /// The input does not have the byte length that the result needs.
    LengthMismatch,
    /// The text has an odd length or a character that is not a hex digit.
    MalformedHex,
    /// The bytes, once trailing zeros are dropped, are not valid UTF-8.
    InvalidUtf8,
    /// The UTF-8 encoding of the text is longer than the array it should fit.
    StringTooLong,
}

/// `b` followed by zeros up to length `n` (for `b.len() <= n`).
pub open spec fn zero_padded(b: Seq<u8>, n: nat) -> Seq<u8> {
    Seq::new(n, |i: int| if i < b.len() { b[i] } else { 0u8 })
}

/// `b` without its trailing zero bytes.
pub open spec fn trim_trailing_zeros(b: Seq<u8>) -> Seq<u8>
    decreases b.len(),
{
    if b.len() > 0 && b.last() == 0 {
        trim_trailing_zeros(b.drop_last())
    } else {
        b
    }
}

/// Relies on String::from_utf8: it succeeds exactly when the bytes are valid
/// UTF-8, and the string then holds the characters they encode.
#[verifier::external_body]
fn string_from_utf8(bytes: Vec<u8>) -> (r: Option<String>)
    ensures
        r is Some <==> valid_utf8(bytes@),
        r matches Some(t) ==> t@ == decode_utf8(bytes@),
{
    String::from_utf8(bytes).ok()
}

/// Converts a string to its UTF-8 bytes followed by zeros, `L` bytes in all.
/// A string whose encoding is longer than `L` is refused.
pub fn str_to_bytes_sized<const L: usize>(s: &str) -> (r: Result<[u8; L], ConvertError>)
    ensures
        r is Ok <==> s.spec_bytes().len() <= L,
        r matches Ok(a) ==> a@ == zero_padded(s.spec_bytes(), L as nat),
        r matches Err(e) ==> e == ConvertError::StringTooLong,
{
    let b = s.as_bytes();
    if b.len() > L {
        return Err(ConvertError::StringTooLong);
    }
    let mut out = [0u8; L];
    assert(out@ =~= zero_padded(Seq::empty(), L as nat));
    for i in 0..b.len()
        invariant
            b@ == s.spec_bytes(),
            b@.len() <= L,
            out@ == zero_padded(b@.subrange(0, i as int), L as nat),
    {
        out[i] = b[i];
        assert(out@ =~= zero_padded(b@.subrange(0, i + 1), L as nat));
    }
    assert(b@.subrange(0, b@.len() as int) =~= b@);
    Ok(out)
}

/// Converts bytes to a string, ignoring trailing zero bytes. Fails when the
/// remaining bytes are not valid UTF-8.
pub fn str_from_bytes(bytes: &[u8]) -> (r: Result<String, ConvertError>)
    ensures
        r is Ok <==> valid_utf8(trim_trailing_zeros(bytes@)),
        r matches Ok(t) ==> t@ == decode_utf8(trim_trailing_zeros(bytes@)),
        r matches Err(e) ==> e == ConvertError::InvalidUtf8,
{
    let mut n: usize = bytes.len();
    assert(bytes@.subrange(0, n as int) =~= bytes@);
    while n > 0 && bytes[n - 1] == 0
        invariant
            n <= bytes@.len(),
            trim_trailing_zeros(bytes@.subrange(0, n as int)) == trim_trailing_zeros(bytes@),
        decreases n,
    {
        assert(bytes@.subrange(0, n - 1) =~= bytes@.subrange(0, n as int).drop_last());
        n = n - 1;
    }
    let mut kept: Vec<u8> = Vec::new();
    for i in 0..n
        invariant
            n <= bytes@.len(),
            kept@ == bytes@.subrange(0, i as int),
    {
        kept.push(bytes[i]);
        assert(kept@ =~= bytes@.subrange(0, i + 1));
    }
    assert(trim_trailing_zeros(kept@) == kept@);
    match string_from_utf8(kept) {
        Some(t) => Ok(t),
        None => Err(ConvertError::InvalidUtf8),
    }
}

/// Padding a string's encoding with zeros and then dropping the trailing
/// zeros gives back the string, when its encoding fits and does not end in a
/// zero byte.
pub proof fn lemma_str_round_trip(s: Seq<char>, len: nat)
    requires
        encode_utf8(s).len() <= len,
        encode_utf8(s).len() == 0 || encode_utf8(s).last() != 0,
    ensures
        valid_utf8(trim_trailing_zeros(zero_padded(encode_utf8(s), len))),
        decode_utf8(trim_trailing_zeros(zero_padded(encode_utf8(s), len))) == s,
{
    lemma_trim_padding(encode_utf8(s), len);
    encode_utf8_valid_utf8(s);
    encode_utf8_decode_utf8(s);
}

proof fn lemma_trim_padding(b: Seq<u8>, len: nat)
    requires
        b.len() <= len,
        b.len() == 0 || b.last() != 0,
    ensures
        trim_trailing_zeros(zero_padded(b, len)) == b,
    decreases len,
{
    let p = zero_padded(b, len);
    if len == b.len() {
        assert(p =~= b);
    } else {
        assert(p.drop_last() =~= zero_padded(b, (len - 1) as nat));
        lemma_trim_padding(b, (len - 1) as nat);
    }
}

/// Whether `c` is one of `0-9`, `a-f`, `A-F`.
pub open spec fn is_hex_digit(c: char) -> bool {
    ('0' <= c <= '9') || ('a' <= c <= 'f') || ('A' <= c <= 'F')
}

/// The value of a hex digit.
pub open spec fn hex_digit_value(c: char) -> int {
    if '0' <= c <= '9' {
        c as int - '0' as int
    } else if 'a' <= c <= 'f' {
        c as int - 'a' as int + 10
    } else {
        c as int - 'A' as int + 10
    }
}

/// Whether `h` is a hex number with a whole number of bytes: an even count of
/// hex digits.
pub open spec fn is_hex(h: Seq<char>) -> bool {
    h.len() % 2 == 0 && forall|i: int| 0 <= i < h.len() ==> is_hex_digit(#[trigger] h[i])
}

/// The bytes of the hex number `h`, least significant first: byte `k` is
/// written by the `k`-th pair of digits counted from the end of `h`.
pub open spec fn hex_decode(h: Seq<char>) -> Seq<u8> {
    Seq::new(
        h.len() / 2,
        |k: int|
            (16 * hex_digit_value(h[h.len() - 2 - 2 * k]) + hex_digit_value(
                h[h.len() - 1 - 2 * k],
            )) as u8,
    )
}

/// The upper-case hex digit of a value below 16.
pub open spec fn upper_hex_digit(v: int) -> char {
    if v < 10 {
        ((v + 48) as u8) as char
    } else {
        ((v + 55) as u8) as char
    }
}

/// The hex number, in upper-case digits, whose bytes, least significant
/// first, are `b`: two digits per byte, from the last byte to the first.
pub open spec fn hex_encode(b: Seq<u8>) -> Seq<char> {
    Seq::new(
        2 * b.len(),
        |i: int|
            if i % 2 == 0 {
                upper_hex_digit(b[b.len() - 1 - i / 2] as int / 16)
            } else {
                upper_hex_digit(b[b.len() - 1 - i / 2] as int % 16)
            },
    )
}

/// The value of the hex digit whose ASCII code is `c`, if it is one.
fn hex_digit(c: u8) -> (r: Option<u8>)
    ensures
        r is Some <==> is_hex_digit(c as char),
        r matches Some(v) ==> v == hex_digit_value(c as char) && v < 16,
{
    if 48 <= c && c <= 57 {
        Some(c - 48)
    } else if 97 <= c && c <= 102 {
        Some(c - 87)
    } else if 65 <= c && c <= 70 {
        Some(c - 55)
    } else {
        None
    }
}

/// Converts a hex number to its bytes, least significant first. The text must
/// hold an even number of hex digits and nothing else.
pub fn hex_to_bytes_vec(hex: &str) -> (r: Result<Vec<u8>, ConvertError>)
    ensures
        r is Ok <==> is_hex(hex@),
        r matches Ok(v) ==> v@ == hex_decode(hex@),
        r matches Err(e) ==> e == ConvertError::MalformedHex,
{
    if !hex.is_ascii() {
        proof {
            let i = choose|i: int| 0 <= i < hex@.len() && !('\0' <= #[trigger] hex@[i] <= '\u{7f}');
            assert(!is_hex_digit(hex@[i]));
        }
        return Err(ConvertError::MalformedHex);
    }
    let b = hex.as_bytes();
    proof {
        is_ascii_spec_bytes(hex);
    }
    let n = b.len();
    assert(n == hex@.len());
    assert forall|i: int| 0 <= i < n implies (#[trigger] b@[i]) as char == hex@[i] by {
        assert(b@[i] == hex@[i] as u8);
    }
    if n % 2 != 0 {
        return Err(ConvertError::MalformedHex);
    }
    let mut out: Vec<u8> = Vec::new();
    let mut k: usize = 0;
    while k < n / 2
        invariant
            n == b@.len(),
            n == hex@.len(),
            n % 2 == 0,
            k <= n / 2,
            forall|i: int| 0 <= i < n ==> (#[trigger] b@[i]) as char == hex@[i],
            forall|i: int| n - 2 * k <= i < n ==> is_hex_digit(#[trigger] hex@[i]),
            out@ == hex_decode(hex@).subrange(0, k as int),
        decreases n / 2 - k,
    {
        let hi = hex_digit(b[n - 2 - 2 * k]);
        let lo = hex_digit(b[n - 1 - 2 * k]);
        match (hi, lo) {
            (Some(h), Some(l)) => {
                out.push(16 * h + l);
                assert(out@ =~= hex_decode(hex@).subrange(0, k + 1));
            },
            _ => {
                assert(!is_hex_digit(hex@[n - 2 - 2 * k]) || !is_hex_digit(hex@[n - 1 - 2 * k]));
                return Err(ConvertError::MalformedHex);
            },
        }
        k = k + 1;
    }
    assert(out@ =~= hex_decode(hex@));
    Ok(out)
}

/// Converts a hex number to exactly `L` bytes, least significant first. Fails
/// as `hex_to_bytes_vec` does, and when the number does not have `L` bytes.
pub fn hex_to_bytes<const L: usize>(hex: &str) -> (r: Result<[u8; L], ConvertError>)
    ensures
        r is Ok <==> is_hex(hex@) && hex@.len() == 2 * L,
        r matches Ok(a) ==> a@ == hex_decode(hex@),
        r matches Err(e) ==> (e == ConvertError::MalformedHex <==> !is_hex(hex@)),
        r matches Err(e) ==> (e == ConvertError::MalformedHex || e == ConvertError::LengthMismatch),
{
    let v = match hex_to_bytes_vec(hex) {
        Ok(v) => v,
        Err(e) => {
            return Err(e);
        },
    };
    if v.len() != L {
        return Err(ConvertError::LengthMismatch);
    }
    let mut out = [0u8; L];
    for i in 0..L
        invariant
            v@.len() == L,
            forall|j: int| 0 <= j < i ==> #[trigger] out@[j] == v@[j],
    {
        out[i] = v[i];
    }
    assert(out@ =~= v@);
    Ok(out)
}

/// The ASCII code of the upper-case hex digit of `v`.
fn upper_hex_byte(v: u8) -> (r: u8)
    requires
        v < 16,
    ensures
        r as char == upper_hex_digit(v as int),
        r < 128,
{
    if v < 10 {
        v + 48
    } else {
        v + 55
    }
}

/// Converts bytes, least significant first, to the hex number they make, in
/// upper-case digits: two digits per byte, from the last byte to the first.
pub fn hex_from_bytes(bytes: &[u8]) -> (r: String)
    ensures
        r@ == hex_encode(bytes@),
{
    let ghost cs = hex_encode(bytes@);
    let n = bytes.len();
    let mut out: Vec<u8> = Vec::new();
    let mut i: usize = 0;
    while i < n
        invariant
            n == bytes@.len(),
            cs == hex_encode(bytes@),
            i <= n,
            out@.len() == 2 * i,
            forall|j: int| 0 <= j < 2 * i ==> (#[trigger] out@[j]) as char == cs[j] && out@[j] < 128,
        decreases n - i,
    {
        let byte = bytes[n - 1 - i];
        out.push(upper_hex_byte(byte / 16));
        out.push(upper_hex_byte(byte % 16));
        i = i + 1;
    }
    proof {
        assert(is_ascii_chars(cs));
        is_ascii_chars_encode_utf8(cs);
        assert(out@ =~= encode_utf8(cs));
        encode_utf8_valid_utf8(cs);
        encode_utf8_decode_utf8(cs);
    }
    match string_from_utf8(out) {
        Some(t) => t,
        None => String::new(),
    }
}

/// `h` with each hex digit written in upper case.
pub open spec fn to_upper_hex(h: Seq<char>) -> Seq<char> {
    h.map_values(|c: char| upper_hex_digit(hex_digit_value(c)))
}

/// Whether `h` holds only the digits `0-9` and `A-F`.
pub open spec fn is_upper_hex_digits(h: Seq<char>) -> bool {
    forall|i: int| 0 <= i < h.len() ==> ('0' <= #[trigger] h[i] <= '9') || ('A' <= h[i] <= 'F')
}

/// Reading a hex number and writing its bytes back as hex gives the number
/// in upper-case digits; a number already in upper case comes back unchanged.
pub proof fn lemma_hex_round_trip(h: Seq<char>)
    requires
        is_hex(h),
    ensures
        hex_encode(hex_decode(h)) == to_upper_hex(h),
        is_upper_hex_digits(h) ==> hex_encode(hex_decode(h)) == h,
{
    let d = hex_decode(h);
    let n = h.len();
    assert forall|i: int| 0 <= i < n implies #[trigger] hex_encode(d)[i] == to_upper_hex(h)[i] by {
        let k = n / 2 - 1 - i / 2;
        let a = hex_digit_value(h[n - 2 - 2 * k]);
        let b = hex_digit_value(h[n - 1 - 2 * k]);
        assert(is_hex_digit(h[n - 2 - 2 * k]));
        assert(is_hex_digit(h[n - 1 - 2 * k]));
        assert(0 <= a < 16 && 0 <= b < 16);
        assert((16 * a + b) / 16 == a && (16 * a + b) % 16 == b) by (nonlinear_arith)
            requires
                0 <= a < 16,
                0 <= b < 16,
        ;
        assert(d[k] == 16 * a + b);
        if i % 2 == 0 {
            assert(n - 2 - 2 * k == i);
        } else {
            assert(n - 1 - 2 * k == i);
        }
    }
    assert(hex_encode(d) =~= to_upper_hex(h));
    if is_upper_hex_digits(h) {
        assert forall|i: int| 0 <= i < n implies #[trigger] to_upper_hex(h)[i] == h[i] by {
            assert(('0' <= h[i] <= '9') || ('A' <= h[i] <= 'F'));
        }
        assert(to_upper_hex(h) =~= h);
    }
}

/// Writing bytes as hex and reading the result gives back the bytes.
pub proof fn lemma_bytes_hex_round_trip(b: Seq<u8>)
    ensures
        is_hex(hex_encode(b)),
        hex_decode(hex_encode(b)) == b,
{
    let h = hex_encode(b);
    let n = b.len();
    assert forall|i: int| 0 <= i < h.len() implies is_hex_digit(#[trigger] h[i])
        && hex_digit_value(h[i]) == if i % 2 == 0 {
        b[n - 1 - i / 2] / 16
    } else {
        b[n - 1 - i / 2] % 16
    } by {}
    assert forall|k: int| 0 <= k < n implies #[trigger] hex_decode(h)[k] == b[k] by {
        let x = b[k] as int;
        assert(h.len() - 2 - 2 * k == 2 * (n - 1 - k));
        assert((2 * (n - 1 - k)) / 2 == n - 1 - k);
        assert((2 * (n - 1 - k) + 1) / 2 == n - 1 - k);
        assert(16 * (x / 16) + x % 16 == x);
    }
    assert(hex_decode(h) =~= b);
}

} // verus!
