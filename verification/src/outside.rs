//! Trusted boundary: the few calls this crate makes into outside crates and
//! into parts of std that vstd gives no specification for. Each item's
//! contract states only what the callee's source or documentation shows.

use vstd::prelude::*;

verus! {

/// The SHA-256 digest of a character sequence's UTF-8 encoding. The digest is
/// a function of its input alone, so it is given a name rather than a
/// definition; the wrapper below records its one structural fact, the
/// 32-byte length.
pub uninterp spec fn sha256_of(s: Seq<char>) -> Seq<u8>;

/// Relies on sha2's `Sha256::digest` (through the `Digest` trait): SHA-256 of
/// the input bytes, always 32 bytes of output.
#[verifier::external_body]
pub fn sha256_bytes(content: &str) -> (r: Vec<u8>)
    ensures
        r@ == sha256_of(content@),
        r@.len() == 32,
{
    <sha2::Sha256 as sha2::Digest>::digest(content.as_bytes()).to_vec()
}

/// Relies on hex's `encode`: two lower-case hex digits per input byte, most
/// significant nibble first.
#[verifier::external_body]
pub fn hex_encode(bytes: &Vec<u8>) -> (r: String)
    ensures
        r@ == crate::hashing::hex_of(bytes@),
{
    hex::encode(bytes)
}

/// Relies on uuid's `Uuid::new_v4` and its `Display` form: a random
/// version-4 UUID printed in the 36-character hyphenated format. The value is
/// random, so nothing more is promised.
#[verifier::external_body]
pub fn fresh_id() -> (r: String)
    ensures
        r@.len() == 36,
{
    uuid::Uuid::new_v4().to_string()
}

/// Relies on chrono's `Utc::now` and `DateTime::to_rfc3339`: the current time
/// printed in RFC 3339 format. The value depends on the clock, so nothing is
/// promised about it.
#[verifier::external_body]
pub fn now_rfc3339() -> String {
    chrono::Utc::now().to_rfc3339()
}

/// Relies on chrono's `Utc::now` and `DateTime::timestamp_millis`:
/// milliseconds since the Unix epoch. The value depends on the clock, so
/// nothing is promised about it.
#[verifier::external_body]
pub fn now_millis() -> u64 {
    let ms = chrono::Utc::now().timestamp_millis();
    if ms < 0 {
        0
    } else {
        ms as u64
    }
}

/// Relies on std's `String::push`: appends one character at the end.
#[verifier::external_body]
pub fn push_char(s: &mut String, c: char)
    ensures
        final(s)@ == old(s)@.push(c),
{
    s.push(c);
}

/// Whether a character counts as alphanumeric for `char::is_alphanumeric`.
/// The full Unicode table cannot be written down here, so the result is
/// named; the wrapper below pins the ASCII range, which std documents.
pub uninterp spec fn unicode_alnum(c: char) -> bool;

/// Relies on std's `char::is_alphanumeric`: true for the Unicode alphabetic
/// and numeric categories; on the ASCII range exactly the letters and digits.
#[verifier::external_body]
pub fn is_alphanumeric_char(c: char) -> (r: bool)
    ensures
        r == unicode_alnum(c),
        (c as u32) < 128 ==> (r == (('a' <= c && c <= 'z') || ('A' <= c && c <= 'Z') || ('0'
            <= c && c <= '9'))),
{
    c.is_alphanumeric()
}

} // verus!
