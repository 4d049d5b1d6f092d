//! Trigram tokenization: sliding a three-code-point window over a string.

use vstd::prelude::*;

verus! {

/// The trigram of `s` that starts at code point `i`: three consecutive
/// code points.
pub open spec fn trigram_at(s: Seq<char>, i: int) -> Seq<char> {
    s.subrange(i, i + 3)
}

/// `t` occurs as a trigram somewhere in `s`.
pub open spec fn has_trigram(s: Seq<char>, t: Seq<char>) -> bool {
    exists|i: int| 0 <= i && i + 3 <= s.len() && trigram_at(s, i) == t
}

/// Split a string into its ordered sequence of overlapping trigrams.
///
/// A string of `n` code points yields `max(0, n - 2)` trigrams; the
/// window steps by one code point, so multi-byte characters are never
/// split.
pub fn tokenize(sample: &str) -> (r: Vec<String>)
    ensures
        sample@.len() >= 3 ==> r@.len() == sample@.len() - 2,
        sample@.len() < 3 ==> r@.len() == 0,
        forall|i: int| 0 <= i < r@.len() ==> r@[i]@ == trigram_at(sample@, i),
{
    let n = sample.unicode_len();
    let mut r: Vec<String> = Vec::new();
    if n < 3 {
        return r;
    }
    let mut i: usize = 0;
    while i + 2 < n
        invariant
            n == sample@.len(),
            3 <= n,
            i + 2 <= n,
            r@.len() == i,
            forall|k: int| 0 <= k < i ==> r@[k]@ == trigram_at(sample@, k),
        decreases n - i,
    {
        let t = sample.substring_char(i, i + 3);
        r.push(t.to_owned());
        i = i + 1;
    }
    r
}

/// The code-point boundaries of `sample` as byte offsets: one entry per
/// code point, giving the byte offset where it starts, followed by the
/// total byte length.
pub fn get_indices(sample: &str) -> (r: Vec<usize>)
    ensures
        r@.len() == sample@.len() + 1,
        forall|i: int|
            0 <= i <= sample@.len() ==> r@[i] == vstd::utf8::encode_utf8(
                sample@.subrange(0, i),
            ).len() as usize,
{
    let n = sample.unicode_len();
    let mut r: Vec<usize> = Vec::new();
    let mut i: usize = 0;
    while i < n
        invariant
            n == sample@.len(),
            i <= n,
            r@.len() == i,
            forall|k: int|
                0 <= k < i ==> r@[k] == vstd::utf8::encode_utf8(
                    sample@.subrange(0, k),
                ).len() as usize,
        decreases n - i,
    {
        let prefix = sample.substring_char(0, i);
        r.push(prefix.len());
        i = i + 1;
    }
    r.push(sample.len());
    proof {
        assert(sample@.subrange(0, n as int) =~= sample@);
    }
    r
}

} // verus!
