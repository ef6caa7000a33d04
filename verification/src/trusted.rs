//! The calls this library makes into outside crates, each behind a trusted
//! item whose contract states what the crate's source shows.

use vstd::prelude::*;
use vstd::utf8::{decode_utf8, encode_utf8, valid_utf8};

use sha2::Digest;

verus! {

// ---------------------------------------------------------------------------
// Percent-encoding (`urlencoding`)
// ---------------------------------------------------------------------------

/// Bytes that percent-encoding leaves as they are: ASCII letters, digits and
/// `-`, `.`, `_`, `~`.
pub open spec fn is_unreserved_byte(b: u8) -> bool {
    ||| (48 <= b && b <= 57)
    ||| (65 <= b && b <= 90)
    ||| (97 <= b && b <= 122)
    ||| b == 45
    ||| b == 46
    ||| b == 95
    ||| b == 126
}

/// The upper-case hexadecimal digit for a value below 16.
pub open spec fn hex_digit_upper(v: u8) -> char {
    if v < 10 {
        ((v + 48) as u8) as char
    } else {
        ((v - 10 + 65) as u8) as char
    }
}

/// Percent-encoding of a byte string: unreserved bytes stay, every other
/// byte becomes `%` and two upper-case hex digits.
pub open spec fn percent_encode(b: Seq<u8>) -> Seq<char>
    decreases b.len(),
{
    if b.len() == 0 {
        seq![]
    } else {
        let head = if is_unreserved_byte(b[0]) {
            seq![b[0] as char]
        } else {
            seq!['%', hex_digit_upper(b[0] >> 4), hex_digit_upper(b[0] & 15)]
        };
        head + percent_encode(b.skip(1))
    }
}

/// Percent-encoding of the UTF-8 bytes of `s`.
pub open spec fn url_encoded(s: Seq<char>) -> Seq<char> {
    percent_encode(encode_utf8(s))
}

/// The value of a hexadecimal digit byte (either case).
pub open spec fn hex_value(b: u8) -> Option<u8> {
    if 48 <= b && b <= 57 {
        Some((b - 48) as u8)
    } else if 65 <= b && b <= 70 {
        Some((b - 65 + 10) as u8)
    } else if 97 <= b && b <= 102 {
        Some((b - 97 + 10) as u8)
    } else {
        None
    }
}

/// Percent-decoding of a byte string: `%` followed by two hex digits becomes
/// the byte they spell; every other byte, a lone `%` included, stays.
pub open spec fn percent_decode(b: Seq<u8>) -> Seq<u8>
    decreases b.len(),
{
    if b.len() == 0 {
        seq![]
    } else if b[0] == 37 && b.len() >= 3 && hex_value(b[1]) is Some && hex_value(b[2]) is Some {
        seq![((hex_value(b[1])->0 * 16) + hex_value(b[2])->0) as u8] + percent_decode(b.skip(3))
    } else {
        seq![b[0]] + percent_decode(b.skip(1))
    }
}

/// Percent-decoding of the UTF-8 bytes of `s`, read back as UTF-8; `None`
/// where the decoded bytes are not valid UTF-8.
pub open spec fn url_decoded(s: Seq<char>) -> Option<Seq<char>> {
    let bytes = percent_decode(encode_utf8(s));
    if valid_utf8(bytes) {
        Some(decode_utf8(bytes))
    } else {
        None
    }
}

/// `urlencoding::encode`: percent-encodes every UTF-8 byte of `s` except ASCII
/// letters, digits and `-`, `_`, `.`, `~`, with upper-case hex digits.
#[verifier::external_body]
pub fn url_encode(s: &str) -> (res: String)
    ensures
        res@ == url_encoded(s@),
{
    urlencoding::encode(s).into_owned()
}

/// `urlencoding::decode`: replaces each `%XY` (two hex digits, either case)
/// by the byte it spells, keeps every other byte, and reads the result as
/// UTF-8; `None` where that fails (the crate's `FromUtf8Error`).
#[verifier::external_body]
pub fn url_decode(s: &str) -> (res: Option<String>)
    ensures
        res is Some <==> url_decoded(s@) is Some,
        res matches Some(r) ==> url_decoded(s@) == Some(r@),
{
    match urlencoding::decode(s) {
        Ok(decoded) => Some(decoded.into_owned()),
        Err(_) => None,
    }
}

// ---------------------------------------------------------------------------
// SHA-256 (`sha2`)
// ---------------------------------------------------------------------------

/// The SHA-256 digest of a byte string (FIPS 180-4).
pub uninterp spec fn sha256_digest(data: Seq<u8>) -> Seq<u8>;

/// `<sha2::Sha256 as Digest>::digest`: the SHA-256 digest of `data`, whose
/// output size is 32 bytes.
#[verifier::external_body]
pub fn sha256(data: &[u8]) -> (res: Vec<u8>)
    ensures
        res@ == sha256_digest(data@),
        res@.len() == 32,
{
    sha2::Sha256::digest(data).to_vec()
}

// ---------------------------------------------------------------------------
// Randomness (`fastrand`, `uuid`)
// ---------------------------------------------------------------------------

/// `fastrand::u8(..)`: a random byte from the thread-local generator. Nothing
/// is stated of the value.
#[verifier::external_body]
pub fn random_byte() -> (res: u8) {
    fastrand::u8(..)
}

/// `uuid::Uuid::new_v4`: the 16 bytes of a random version-4 UUID. The crate
/// masks in the version nibble 4 (byte 6) and the RFC 4122 variant bits `10`
/// (byte 8); the other bits are random and nothing is stated of them.
#[verifier::external_body]
pub fn uuid_v4_bytes() -> (res: Vec<u8>)
    ensures
        res@.len() == 16,
        res@[6] & 0xF0 == 0x40,
        res@[8] & 0xC0 == 0x80,
{
    uuid::Uuid::new_v4().as_bytes().to_vec()
}

} // verus!
