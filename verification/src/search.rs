//! Literal substring matching and line-by-line candidate verification.

use vstd::prelude::*;

use crate::codec::{dec_digits, push_u64};

verus! {

/// `nd` occurs in `hay` starting at code point `i`.
pub open spec fn is_match_at(hay: Seq<char>, nd: Seq<char>, i: int) -> bool {
    &&& 0 <= i
    &&& i + nd.len() <= hay.len()
    &&& forall|k: int| 0 <= k < nd.len() ==> hay[i + k] == nd[k]
}

/// `hay` contains `nd` as a literal substring.
pub open spec fn contains_substr(hay: Seq<char>, nd: Seq<char>) -> bool {
    exists|i: int| is_match_at(hay, nd, i)
}

/// The index of the first `'\n'` at or after `i`, or the length of `s`
/// if there is none.
pub open spec fn line_end(s: Seq<char>, i: int) -> int
    recommends
        0 <= i <= s.len(),
    decreases s.len() - i
        when 0 <= i <= s.len()
{
    if i >= s.len() {
        s.len() as int
    } else if s[i] == '\n' {
        i
    } else {
        line_end(s, i + 1)
    }
}

/// The number of lines of `s`, counted from position `i` on, whose text
/// contains `nd`.  Lines are the pieces between `'\n'` separators; a
/// trailing separator yields a final empty line.
pub open spec fn count_matches_from(s: Seq<char>, nd: Seq<char>, i: int) -> nat
    recommends
        0 <= i <= s.len(),
    decreases s.len() - i
        when 0 <= i <= s.len()
        via count_matches_from_decreases
{
    let e = line_end(s, i);
    let m: nat = if contains_substr(s.subrange(i, e), nd) {
        1
    } else {
        0
    };
    if e >= s.len() {
        m
    } else {
        m + count_matches_from(s, nd, e + 1)
    }
}

#[via_fn]
proof fn count_matches_from_decreases(s: Seq<char>, nd: Seq<char>, i: int) {
    lemma_line_end_bounds(s, i);
}

/// The number of lines of `s` that contain `nd`.
pub open spec fn count_matches(s: Seq<char>, nd: Seq<char>) -> nat {
    count_matches_from(s, nd, 0)
}

/// The total match count over a sequence of file contents.
pub open spec fn sum_matches(ts: Seq<Seq<char>>, nd: Seq<char>) -> nat
    decreases ts.len(),
{
    if ts.len() == 0 {
        0
    } else {
        sum_matches(ts.drop_last(), nd) + count_matches(ts.last(), nd)
    }
}

proof fn lemma_line_end_bounds(s: Seq<char>, i: int)
    requires
        0 <= i <= s.len(),
    ensures
        i <= line_end(s, i) <= s.len(),
        line_end(s, i) < s.len() ==> s[line_end(s, i)] == '\n',
        forall|m: int| i <= m < line_end(s, i) ==> s[m] != '\n',
    decreases s.len() - i,
{
    if i < s.len() && s[i] != '\n' {
        lemma_line_end_bounds(s, i + 1);
    }
}

proof fn lemma_line_end_char(s: Seq<char>, i: int, e: int)
    requires
        0 <= i <= e <= s.len(),
        forall|m: int| i <= m < e ==> s[m] != '\n',
        e < s.len() ==> s[e] == '\n',
    ensures
        line_end(s, i) == e,
    decreases e - i,
{
    if i < e {
        lemma_line_end_char(s, i + 1, e);
    }
}

/// Whether `nd` occurs in `hay` starting at code point `i`.
fn match_at(hay: &str, nd: &str, i: usize) -> (r: bool)
    requires
        i + nd@.len() <= hay@.len(),
    ensures
        r == is_match_at(hay@, nd@, i as int),
{
    let n = hay.unicode_len();
    let m = nd.unicode_len();
    let mut k: usize = 0;
    while k < m
        invariant
            n == hay@.len(),
            m == nd@.len(),
            i + m <= n,
            k <= m,
            forall|q: int| 0 <= q < k ==> hay@[i + q] == nd@[q],
        decreases m - k,
    {
        if hay.get_char(i + k) != nd.get_char(k) {
            return false;
        }
        k = k + 1;
    }
    true
}

/// Whether `hay` contains `nd` as a literal substring.
pub fn contains(hay: &str, nd: &str) -> (r: bool)
    ensures
        r == contains_substr(hay@, nd@),
{
    let n = hay.unicode_len();
    let m = nd.unicode_len();
    if m > n {
        return false;
    }
    let mut i: usize = 0;
    while i <= n - m
        invariant
            n == hay@.len(),
            m == nd@.len(),
            m <= n,
            i <= n - m + 1,
            forall|q: int| 0 <= q < i ==> !is_match_at(hay@, nd@, q),
        decreases n - i,
    {
        if match_at(hay, nd, i) {
            return true;
        }
        i = i + 1;
    }
    false
}

/// Count the lines of `content` that contain `needle`: the verification
/// pass over one candidate file.
pub fn check_text(content: &str, needle: &str) -> (r: usize)
    requires
        count_matches(content@, needle@) <= usize::MAX,
    ensures
        r == count_matches(content@, needle@),
{
    let n = content.unicode_len();
    let mut pos: usize = 0;
    let mut cnt: usize = 0;
    loop
        invariant
            n == content@.len(),
            pos <= n,
            count_matches(content@, needle@) == cnt + count_matches_from(
                content@,
                needle@,
                pos as int,
            ),
            count_matches(content@, needle@) <= usize::MAX,
        decreases n - pos,
    {
        // find the end of the current line
        let mut e: usize = pos;
        while e < n && content.get_char(e) != '\n'
            invariant
                n == content@.len(),
                pos <= e <= n,
                forall|m: int| pos <= m < e ==> content@[m] != '\n',
            decreases n - e,
        {
            e = e + 1;
        }
        proof {
            lemma_line_end_char(content@, pos as int, e as int);
        }
        let line = content.substring_char(pos, e);
        if contains(line, needle) {
            proof {
                lemma_line_end_bounds(content@, pos as int);
            }
            cnt = cnt + 1;
        }
        if e == n {
            return cnt;
        }
        pos = e + 1;
    }
}

proof fn lemma_sum_prefix_step(ts: Seq<Seq<char>>, nd: Seq<char>, k: int)
    requires
        0 <= k < ts.len(),
    ensures
        sum_matches(ts.subrange(0, k + 1), nd) == sum_matches(ts.subrange(0, k), nd)
            + count_matches(ts[k], nd),
{
    assert(ts.subrange(0, k + 1).drop_last() =~= ts.subrange(0, k));
    assert(ts.subrange(0, k + 1).last() == ts[k]);
}

proof fn lemma_sum_prefix_le(ts: Seq<Seq<char>>, nd: Seq<char>, k: int)
    requires
        0 <= k <= ts.len(),
    ensures
        sum_matches(ts.subrange(0, k), nd) <= sum_matches(ts, nd),
    decreases ts.len() - k,
{
    if k == ts.len() {
        assert(ts.subrange(0, k) =~= ts);
    } else {
        lemma_sum_prefix_step(ts, nd, k);
        lemma_sum_prefix_le(ts, nd, k + 1);
    }
}

/// Sum the per-file match counts over the contents of all candidate
/// files: the verified core of a full `find`.
pub fn count_hits(texts: &Vec<String>, needle: &str) -> (r: usize)
    requires
        sum_matches(texts@.map_values(|t: String| t@), needle@) <= usize::MAX,
    ensures
        r == sum_matches(texts@.map_values(|t: String| t@), needle@),
{
    let ghost ts = texts@.map_values(|t: String| t@);
    let mut acc: usize = 0;
    let mut k: usize = 0;
    while k < texts.len()
        invariant
            ts == texts@.map_values(|t: String| t@),
            k <= texts@.len(),
            ts.len() == texts@.len(),
            acc == sum_matches(ts.subrange(0, k as int), needle@),
            sum_matches(ts, needle@) <= usize::MAX,
        decreases texts@.len() - k,
    {
        proof {
            lemma_sum_prefix_step(ts, needle@, k as int);
            lemma_sum_prefix_le(ts, needle@, k + 1);
            assert(ts[k as int] == texts@[k as int]@);
        }
        let c = check_text(texts[k].as_str(), needle);
        acc = acc + c;
        k = k + 1;
    }
    proof {
        assert(ts.subrange(0, texts@.len() as int) =~= ts);
    }
    acc
}

/// How a matching line reads on the screen: a line of more than 100
/// code points is replaced by a sentinel instead of being shown whole.
pub open spec fn rendered_line(line: Seq<char>) -> Seq<char> {
    if line.len() > 100 {
        "*[long matching line]*"@
    } else {
        line
    }
}

/// The display form of one matching line.
pub fn display_line(line: &str) -> (r: String)
    ensures
        r@ == rendered_line(line@),
{
    if line.unicode_len() > 100 {
        let mut s = String::new();
        s.append("*[long matching line]*");
        proof {
            assert(s@ =~= "*[long matching line]*"@);
        }
        s
    } else {
        line.to_owned()
    }
}

/// One printed hit: the path, the 1-based line number, and the line in
/// its display form.
pub fn render_match(path: &str, lineno: u64, line: &str) -> (r: String)
    ensures
        r@ == path@ + seq![':'] + dec_digits(lineno as nat) + seq![':', ' ', ' ', ' ']
            + rendered_line(line@) + seq!['\n'],
{
    let mut out = String::new();
    out.append(path);
    out.append(":");
    push_u64(&mut out, lineno);
    out.append(":   ");
    let shown = display_line(line);
    out.append(shown.as_str());
    out.append("\n");
    proof {
        reveal_strlit(":");
        reveal_strlit(":   ");
        reveal_strlit("\n");
        assert(out@ =~= path@ + seq![':'] + dec_digits(lineno as nat) + seq![':', ' ', ' ', ' ']
            + rendered_line(line@) + seq!['\n']);
    }
    out
}

} // verus!
