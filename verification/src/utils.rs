//! Content hashing and commit identifiers.
use vstd::prelude::*;
use sha2::{Digest, Sha256};
use uuid::Uuid;

verus! {

/// The lowercase hexadecimal digit for `n` (`0 <= n < 16`).
pub open spec fn hex_digit(n: int) -> char {
    if n < 10 {
        (n + 48) as char
    } else {
        (n + 87) as char
    }
}

/// Each byte as two lowercase hexadecimal digits, high half first.
pub open spec fn hex_lower(bytes: Seq<u8>) -> Seq<char>
    decreases bytes.len(),
{
    if bytes.len() == 0 {
        Seq::empty()
    } else {
        hex_lower(bytes.drop_last()) + seq![
            hex_digit(bytes.last() as int / 16),
            hex_digit(bytes.last() as int % 16),
        ]
    }
}

fn digit_char(n: u8) -> (c: char)
    requires
        n < 16,
    ensures
        c == hex_digit(n as int),
{
    if n < 10 {
        (n + 48) as char
    } else {
        (n + 87) as char
    }
}


/// The lowercase hexadecimal text of the SHA-256 digest of `content`:
/// what a file's content is stored under.
pub open spec fn content_hash(content: Seq<u8>) -> Seq<char> {
    hex_lower(sha256_digest(content))
}

/// The SHA-256 digest of `data` (the bytes that `Sha256::digest` returns).
pub uninterp spec fn sha256_digest(data: Seq<u8>) -> Seq<u8>;

/// Calls `Sha256::digest` of the `sha2` crate. Claimed: the result is the
/// digest of `data`, named `sha256_digest`, and, SHA-256's output size being
/// 32 bytes, it holds 32 bytes.
#[verifier::external_body]
fn sha256(data: &[u8]) -> (d: Vec<u8>)
    ensures
        d@ == sha256_digest(data@),
        d@.len() == 32,
{
    Sha256::digest(data).to_vec()
}

/// Calls `String::push` of std. Claimed: the character is appended at the end.
#[verifier::external_body]
pub(crate) fn push_char(s: &mut String, c: char)
    ensures
        final(s)@ == old(s)@.push(c),
{
    s.push(c);
}

/// The lowercase hexadecimal text of `bytes`.
pub fn to_hex_lower(bytes: &[u8]) -> (s: String)
    ensures
        s@ == hex_lower(bytes@),
        s@.len() == 2 * bytes@.len(),
{
    let mut s = String::new();
    let n = bytes.len();
    let mut i: usize = 0;
    while i < n
        invariant
            n == bytes@.len(),
            i <= n,
            s@ == hex_lower(bytes@.take(i as int)),
            s@.len() == 2 * i,
        decreases n - i,
    {
        let b = bytes[i];
        assert(bytes@.take(i + 1).drop_last() =~= bytes@.take(i as int));
        assert(bytes@.take(i + 1).last() == b);
        push_char(&mut s, digit_char(b / 16));
        push_char(&mut s, digit_char(b % 16));
        assert(s@ =~= hex_lower(bytes@.take(i + 1)));
        i = i + 1;
    }
    assert(bytes@.take(n as int) =~= bytes@);
    s
}

/// The SHA-256 digest of `content`, as 64 lowercase hexadecimal digits.
pub fn calculate_hash_bytes(content: &[u8]) -> (h: String)
    ensures
        h@ == content_hash(content@),
        h@.len() == 64,
{
    let digest = sha256(content);
    to_hex_lower(digest.as_slice())
}

/// The character is a lowercase hexadecimal digit.
pub open spec fn is_hex_lower_char(c: char) -> bool {
    ('0' <= c && c <= '9') || ('a' <= c && c <= 'f')
}

/// The text of a random (version 4) UUID in its hyphenated form:
/// 36 characters with hyphens at positions 8, 13, 18 and 23, lowercase
/// hexadecimal digits elsewhere, the version digit '4' at position 14 and a
/// variant digit among '8', '9', 'a', 'b' at position 19.
pub open spec fn is_uuid_v4_text(s: Seq<char>) -> bool {
    &&& s.len() == 36
    &&& forall|i: int|
        0 <= i < 36 ==> if i == 8 || i == 13 || i == 18 || i == 23 {
            s[i] == '-'
        } else {
            is_hex_lower_char(#[trigger] s[i])
        }
    &&& s[14] == '4'
    &&& (s[19] == '8' || s[19] == '9' || s[19] == 'a' || s[19] == 'b')
}

/// A fresh commit identifier: calls `Uuid::new_v4` of the `uuid` crate and
/// formats it with `to_string`. Claimed: the text has the hyphenated
/// lowercase form of a version 4 UUID (`is_uuid_v4_text`). Which identifier
/// comes back rests on chance and is not stated.
#[verifier::external_body]
pub fn generate_commit_id() -> (id: String)
    ensures
        is_uuid_v4_text(id@),
{
    Uuid::new_v4().to_string()
}

} // verus!
