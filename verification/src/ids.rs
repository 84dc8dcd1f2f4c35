//! Text forms of identifiers, and the digest that places keys on the ring.
use vstd::prelude::*;
use vstd::arithmetic::power::pow;
use md5::{Digest, Md5};
use vstd::string::StringExecFns;

verus! {

/// The lower-case hexadecimal digit for `d` in `0..16`.
pub open spec fn hex_digit(d: int) -> char {
    if d < 10 {
        (48 + d) as char
    } else {
        (87 + d) as char
    }
}

/// The `k`-th hexadecimal digit of `id`, counted from the most significant one.
pub open spec fn nibble(id: u128, k: int) -> int {
    (id as int / pow(16, (31 - k) as nat)) % 16
}

/// Which hexadecimal digit stands at position `i` of the hyphenated form.
pub open spec fn digit_index(i: int) -> int {
    if i < 8 {
        i
    } else if i < 13 {
        i - 1
    } else if i < 18 {
        i - 2
    } else if i < 23 {
        i - 3
    } else {
        i - 4
    }
}

/// The hyphenated lower-case form of a UUID, such as `67e55044-10b1-426f-9247-bb680e5fe0c8`.
pub open spec fn uuid_text(id: u128) -> Seq<char> {
    Seq::new(
        36,
        |i: int|
            if i == 8 || i == 13 || i == 18 || i == 23 {
                '-'
            } else {
                hex_digit(nibble(id, digit_index(i)))
            },
    )
}

/// The decimal digit for `d` in `0..10`.
pub open spec fn digit_char(d: int) -> char {
    (48 + d) as char
}

/// Decimal form of `n`, without leading zeros.
pub open spec fn decimal_text(n: nat) -> Seq<char>
    decreases n,
{
    if n < 10 {
        seq![digit_char(n as int)]
    } else {
        decimal_text(n / 10) + seq![digit_char((n % 10) as int)]
    }
}

/// MD5 digest of the UTF-8 bytes of `text`, read as a big-endian 128-bit integer.
pub uninterp spec fn md5_value(text: Seq<char>) -> u128;

/// Identifier that `uuid::Uuid::try_parse` reads from `text`, if it reads one.
pub uninterp spec fn parsed_uuid(text: Seq<char>) -> Option<u128>;

/// The identifier that the uuid crate reads from raw bytes, if it accepts them.
pub uninterp spec fn parsed_uuid_ascii(bytes: Seq<u8>) -> Option<u128>;

/// Calls `uuid::Uuid::from_u128` and formats the result with `Display`, which the uuid
/// crate documents as the hyphenated lower-case form; the crate's parser reads that
/// form back as the same identifier.
#[verifier::external_body]
pub(crate) fn uuid_string(id: u128) -> (s: String)
    ensures
        s@ == uuid_text(id),
        parsed_uuid(s@) == Some(id),
{
    uuid::Uuid::from_u128(id).to_string()
}

/// Calls `usize::to_string`, which formats with `Display`: the decimal digits of `i`,
/// without sign or leading zeros.
#[verifier::external_body]
fn usize_text(i: usize) -> (s: String)
    ensures
        s@ == decimal_text(i as nat),
{
    i.to_string()
}

/// The key of the `i`-th virtual node of `id`: the hyphenated form of `id`, a hyphen,
/// and the decimal form of `i`.
pub(crate) fn uuid_dash_index(id: u128, i: usize) -> (s: String)
    ensures
        s@ == uuid_text(id) + seq!['-'] + decimal_text(i as nat),
{
    let head = uuid_string(id);
    let with_dash = head.concat("-");
    let digits = usize_text(i);
    proof {
        reveal_strlit("-");
    }
    with_dash.concat(digits.as_str())
}

/// Calls `Digest::digest` of `md5::Md5` on the UTF-8 bytes of `key` and reads the
/// 16-byte digest with `u128::from_be_bytes`. Nothing is stated of the digest beyond
/// that it is a function of the text.
#[verifier::external_body]
pub(crate) fn md5_of(key: &str) -> (r: u128)
    ensures
        r == md5_value(key@),
{
    u128::from_be_bytes(Md5::digest(key.as_bytes()).into())
}

/// Calls `uuid::Uuid::try_parse` and keeps the identifier's 128-bit value
/// (`Uuid::as_u128`). Which texts it accepts is not stated: the uuid crate accepts
/// several forms (simple, hyphenated, braced, URN).
#[verifier::external_body]
pub(crate) fn parse_uuid(text: &str) -> (r: Option<u128>)
    ensures
        r == parsed_uuid(text@),
{
    match uuid::Uuid::try_parse(text) {
        Ok(u) => Some(u.as_u128()),
        Err(_) => None,
    }
}

/// Calls `uuid::Uuid::try_parse_ascii` on raw bytes and keeps the identifier's 128-bit
/// value (`Uuid::as_u128`). The crate parses bytes with the same parser as text, so
/// bytes that are not ASCII are refused. Which inputs it accepts is not stated.
#[verifier::external_body]
pub(crate) fn parse_uuid_ascii(bytes: &[u8]) -> (r: Option<u128>)
    ensures
        r == parsed_uuid_ascii(bytes@),
{
    match uuid::Uuid::try_parse_ascii(bytes) {
        Ok(u) => Some(u.as_u128()),
        Err(_) => None,
    }
}

} // verus!
