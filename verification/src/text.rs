//! Comparisons of text by its UTF-8 encoding.
use vstd::prelude::*;
use vstd::utf8::*;

verus! {

/// Two byte slices hold the same bytes.
pub fn bytes_equal(a: &[u8], b: &[u8]) -> (r: bool)
    ensures
        r == (a@ == b@),
{
    if a.len() != b.len() {
        return false;
    }
    let n = a.len();
    let mut i: usize = 0;
    while i < n
        invariant
            n == a@.len(),
            n == b@.len(),
            i <= n,
            forall|j: int| 0 <= j < i ==> a@[j] == b@[j],
        decreases n - i,
    {
        if a[i] != b[i] {
            return false;
        }
        i = i + 1;
    }
    assert(a@ =~= b@);
    true
}

/// Two strings hold the same characters.
pub fn str_equal(a: &str, b: &str) -> (r: bool)
    ensures
        r == (a@ == b@),
{
    let r = bytes_equal(a.as_bytes(), b.as_bytes());
    proof {
        encode_utf8_decode_utf8(a@);
        encode_utf8_decode_utf8(b@);
    }
    r
}

/// Whether the UTF-8 encoding of `prefix` starts the UTF-8 encoding of `text`,
/// which is what `str::starts_with` tests for a string pattern.
pub open spec fn starts_with_text(text: Seq<char>, prefix: Seq<char>) -> bool {
    encode_utf8(prefix).is_prefix_of(encode_utf8(text))
}

/// `text` begins with `prefix`.
pub fn str_starts_with(text: &str, prefix: &str) -> (r: bool)
    ensures
        r == starts_with_text(text@, prefix@),
{
    let t = text.as_bytes();
    let p = prefix.as_bytes();
    if p.len() > t.len() {
        return false;
    }
    let n = p.len();
    let mut i: usize = 0;
    while i < n
        invariant
            p@ == encode_utf8(prefix@),
            t@ == encode_utf8(text@),
            n == p@.len(),
            n <= t@.len(),
            i <= n,
            forall|j: int| 0 <= j < i ==> p@[j] == t@[j],
        decreases n - i,
    {
        if p[i] != t[i] {
            assert(!p@.is_prefix_of(t@)) by {
                if p@.is_prefix_of(t@) {
                    assert(p@[i as int] == t@.subrange(0, n as int)[i as int]);
                }
            }
            return false;
        }
        i = i + 1;
    }
    assert(p@ =~= t@.subrange(0, n as int));
    true
}

} // verus!
