//! Enumeration filters: which files of the tree are indexed at all.
//!
//! A path is accepted only when no component of it is hidden, its
//! lowercase extension is not in the hard-coded skip set, and, when an
//! allowed filter is given, that extension is in the filter.

use vstd::prelude::*;

verus! {

/// ASCII lowercase of one character.
pub open spec fn lower_char(c: char) -> char {
    if c == 'A' {
        'a'
    } else if c == 'B' {
        'b'
    } else if c == 'C' {
        'c'
    } else if c == 'D' {
        'd'
    } else if c == 'E' {
        'e'
    } else if c == 'F' {
        'f'
    } else if c == 'G' {
        'g'
    } else if c == 'H' {
        'h'
    } else if c == 'I' {
        'i'
    } else if c == 'J' {
        'j'
    } else if c == 'K' {
        'k'
    } else if c == 'L' {
        'l'
    } else if c == 'M' {
        'm'
    } else if c == 'N' {
        'n'
    } else if c == 'O' {
        'o'
    } else if c == 'P' {
        'p'
    } else if c == 'Q' {
        'q'
    } else if c == 'R' {
        'r'
    } else if c == 'S' {
        's'
    } else if c == 'T' {
        't'
    } else if c == 'U' {
        'u'
    } else if c == 'V' {
        'v'
    } else if c == 'W' {
        'w'
    } else if c == 'X' {
        'x'
    } else if c == 'Y' {
        'y'
    } else if c == 'Z' {
        'z'
    } else {
        c
    }
}

/// ASCII lowercase of a string.
pub open spec fn lower_seq(s: Seq<char>) -> Seq<char> {
    Seq::new(s.len(), |i: int| lower_char(s[i]))
}

fn lower_char_exec(c: char) -> (r: char)
    ensures
        r == lower_char(c),
{
    if c >= 'A' && c <= 'Z' {
        match c {
            'A' => 'a',
            'B' => 'b',
            'C' => 'c',
            'D' => 'd',
            'E' => 'e',
            'F' => 'f',
            'G' => 'g',
            'H' => 'h',
            'I' => 'i',
            'J' => 'j',
            'K' => 'k',
            'L' => 'l',
            'M' => 'm',
            'N' => 'n',
            'O' => 'o',
            'P' => 'p',
            'Q' => 'q',
            'R' => 'r',
            'S' => 's',
            'T' => 't',
            'U' => 'u',
            'V' => 'v',
            'W' => 'w',
            'X' => 'x',
            'Y' => 'y',
            _ => 'z',
        }
    } else {
        c
    }
}

/// Whether `b` is exactly the ASCII-lowercased form of `a`.
fn eq_lowered(a: &str, b: &str) -> (r: bool)
    ensures
        r == (b@ == lower_seq(a@)),
{
    let n = a.unicode_len();
    if b.unicode_len() != n {
        proof {
            assert(lower_seq(a@).len() == a@.len());
        }
        return false;
    }
    let mut k: usize = 0;
    while k < n
        invariant
            n == a@.len(),
            n == b@.len(),
            k <= n,
            forall|m: int| 0 <= m < k ==> b@[m] == lower_char(a@[m]),
        decreases n - k,
    {
        if b.get_char(k) != lower_char_exec(a.get_char(k)) {
            proof {
                assert(lower_seq(a@)[k as int] == lower_char(a@[k as int]));
            }
            return false;
        }
        k = k + 1;
    }
    proof {
        assert(b@ =~= lower_seq(a@));
    }
    true
}

/// The extensions that are never indexed: all binary formats.
pub open spec fn in_skip_set(e: Seq<char>) -> bool {
    ||| e == "png"@
    ||| e == "jpg"@
    ||| e == "jpeg"@
    ||| e == "pdf"@
    ||| e == "pyc"@
    ||| e == "zip"@
    ||| e == "tgz"@
    ||| e == "tar"@
    ||| e == "gz"@
    ||| e == "so"@
    ||| e == "bin"@
    ||| e == "wasm"@
    ||| e == "o"@
    ||| e == "rlib"@
    ||| e == "json"@
    ||| e == "dat"@
    ||| e == "whl"@
    ||| e == "wav"@
    ||| e == "pcm"@
    ||| e == "avif"@
    ||| e == "rmeta"@
    ||| e == "a"@
}

/// Whether the lowercase form of `ext` is in the skip set.
fn lowered_in_skip_set(ext: &str) -> (r: bool)
    ensures
        r == in_skip_set(lower_seq(ext@)),
{
    eq_lowered(ext, "png") || eq_lowered(ext, "jpg") || eq_lowered(ext, "jpeg") || eq_lowered(
        ext,
        "pdf",
    ) || eq_lowered(ext, "pyc") || eq_lowered(ext, "zip") || eq_lowered(ext, "tgz") || eq_lowered(
        ext,
        "tar",
    ) || eq_lowered(ext, "gz") || eq_lowered(ext, "so") || eq_lowered(ext, "bin") || eq_lowered(
        ext,
        "wasm",
    ) || eq_lowered(ext, "o") || eq_lowered(ext, "rlib") || eq_lowered(ext, "json") || eq_lowered(
        ext,
        "dat",
    ) || eq_lowered(ext, "whl") || eq_lowered(ext, "wav") || eq_lowered(ext, "pcm") || eq_lowered(
        ext,
        "avif",
    ) || eq_lowered(ext, "rmeta") || eq_lowered(ext, "a")
}

/// The largest index `m <= i` with `s[m] == c`, or `-1` if there is none.
pub open spec fn scan_back(s: Seq<char>, i: int, c: char) -> int
    recommends
        -1 <= i < s.len(),
    decreases i + 1 when -1 <= i < s.len()
{
    if i < 0 {
        -1
    } else if s[i] == c {
        i
    } else {
        scan_back(s, i - 1, c)
    }
}

proof fn lemma_scan_back(s: Seq<char>, i: int, c: char)
    requires
        -1 <= i < s.len(),
    ensures
        -1 <= scan_back(s, i, c) <= i,
        scan_back(s, i, c) >= 0 ==> s[scan_back(s, i, c)] == c,
        forall|m: int| scan_back(s, i, c) < m <= i ==> s[m] != c,
    decreases i + 1,
{
    if i >= 0 && s[i] != c {
        lemma_scan_back(s, i - 1, c);
    }
}

proof fn lemma_scan_back_at(s: Seq<char>, i: int, c: char, p: int)
    requires
        -1 <= p <= i < s.len(),
        p >= 0 ==> s[p] == c,
        p == -1 ==> forall|m: int| 0 <= m <= i ==> s[m] != c,
        forall|m: int| p < m <= i ==> s[m] != c,
    ensures
        scan_back(s, i, c) == p,
    decreases i + 1,
{
    if i > p {
        lemma_scan_back_at(s, i - 1, c, p);
    }
}

/// The start of the last path component: one past the last `'/'`.
pub open spec fn comp_start(s: Seq<char>) -> int {
    scan_back(s, s.len() - 1, '/') + 1
}

/// The extension of the path `s`: what follows the last `'.'` of its
/// last component.  Empty when the component has no `'.'`, or only a
/// leading one (a dotfile has no extension).
pub open spec fn ext_of(s: Seq<char>) -> Seq<char> {
    let d = scan_back(s, s.len() - 1, '.');
    if d <= comp_start(s) {
        Seq::empty()
    } else {
        s.subrange(d + 1, s.len() as int)
    }
}

/// Scan backwards for the last occurrence of `c` in `s`.
fn rscan(s: &str, c: char) -> (r: Option<usize>)
    ensures
        match r {
            Some(i) => i < s@.len() && scan_back(s@, s@.len() - 1, c) == i,
            None => scan_back(s@, s@.len() - 1, c) == -1,
        },
{
    let n = s.unicode_len();
    let mut k: usize = n;
    while k > 0
        invariant
            n == s@.len(),
            k <= n,
            forall|m: int| k <= m < n ==> s@[m] != c,
        decreases k,
    {
        k = k - 1;
        if s.get_char(k) == c {
            proof {
                lemma_scan_back_at(s@, s@.len() - 1, c, k as int);
            }
            return Some(k);
        }
    }
    proof {
        if n > 0 {
            lemma_scan_back_at(s@, s@.len() - 1, c, -1);
        }
    }
    None
}

/// The extension of `path`, as a borrowed slice.
pub fn extension_of(path: &str) -> (r: &str)
    ensures
        r@ == ext_of(path@),
{
    let n = path.unicode_len();
    proof {
        assert(path@.subrange(n as int, n as int) =~= Seq::<char>::empty());
        if n > 0 {
            lemma_scan_back(path@, path@.len() - 1, '/');
        }
    }
    let slash: usize = match rscan(path, '/') {
        Some(i) => i + 1,
        None => 0,
    };
    match rscan(path, '.') {
        Some(d) => {
            if d > slash {
                proof {
                    lemma_scan_back(path@, path@.len() - 1, '.');
                }
                path.substring_char(d + 1, n)
            } else {
                path.substring_char(n, n)
            }
        },
        None => path.substring_char(n, n),
    }
}

/// A path component is hidden when it begins with `'.'` followed by at
/// least one more character.
pub open spec fn is_hidden_name(s: Seq<char>) -> bool {
    s.len() > 1 && s[0] == '.'
}

/// The end of the path component that starts at `i`: the next `'/'`, or
/// the end of the path.
pub open spec fn comp_end(s: Seq<char>, i: int) -> int
    recommends
        0 <= i <= s.len(),
    decreases s.len() - i when 0 <= i <= s.len()
{
    if i >= s.len() {
        s.len() as int
    } else if s[i] == '/' {
        i
    } else {
        comp_end(s, i + 1)
    }
}

proof fn lemma_comp_end_bounds(s: Seq<char>, i: int)
    requires
        0 <= i <= s.len(),
    ensures
        i <= comp_end(s, i) <= s.len(),
    decreases s.len() - i,
{
    if i < s.len() && s[i] != '/' {
        lemma_comp_end_bounds(s, i + 1);
    }
}

proof fn lemma_comp_end_at(s: Seq<char>, i: int, e: int)
    requires
        0 <= i <= e <= s.len(),
        forall|m: int| i <= m < e ==> s[m] != '/',
        e < s.len() ==> s[e] == '/',
    ensures
        comp_end(s, i) == e,
    decreases e - i,
{
    if i < e {
        lemma_comp_end_at(s, i + 1, e);
    }
}

/// Some component of the path is hidden.  A component starts at the
/// beginning of the path or right after a `'/'`.
pub open spec fn has_hidden_component(s: Seq<char>) -> bool {
    exists|i: int|
        0 <= i <= s.len() && (i == 0 || s[i - 1] == '/') && comp_end(s, i) > i + 1 && s[i] == '.'
}

/// Whether any component of `path` is hidden.
pub fn path_has_hidden_component(path: &str) -> (r: bool)
    ensures
        r == has_hidden_component(path@),
{
    let n = path.unicode_len();
    let mut pos: usize = 0;
    loop
        invariant
            n == path@.len(),
            pos <= n,
            pos == 0 || path@[pos - 1] == '/',
            forall|i: int|
                0 <= i < pos && (i == 0 || path@[i - 1] == '/') ==> !(comp_end(path@, i) > i + 1
                    && path@[i] == '.'),
        decreases n - pos,
    {
        // find the end of the component that starts at pos
        let mut e: usize = pos;
        while e < n && path.get_char(e) != '/'
            invariant
                n == path@.len(),
                pos <= e <= n,
                forall|m: int| pos <= m < e ==> path@[m] != '/',
            decreases n - e,
        {
            e = e + 1;
        }
        proof {
            lemma_comp_end_at(path@, pos as int, e as int);
        }
        if e - pos > 1 && path.get_char(pos) == '.' {
            return true;
        }
        proof {
            assert forall|i: int|
                0 <= i < e + 1 && (i == 0 || path@[i - 1] == '/') implies !(comp_end(path@, i) > i
                + 1 && path@[i] == '.') by {
                if pos <= i {
                    if i < e {
                        if pos < i {
                            assert(path@[i - 1] != '/');
                        } else {
                            lemma_comp_end_bounds(path@, i);
                        }
                    } else {
                        lemma_comp_end_bounds(path@, i);
                    }
                }
            }
        }
        if e == n {
            return false;
        }
        pos = e + 1;
    }
}

/// The full enumeration gate.  A path is accepted if and only if no
/// component of it is hidden, its lowercase extension is not in the
/// skip set, and the allowed filter, when non-empty, lists that
/// extension.
pub fn accept_path(path: &str, allowed: &Vec<String>) -> (r: bool)
    ensures
        r <==> {
            &&& !has_hidden_component(path@)
            &&& !in_skip_set(lower_seq(ext_of(path@)))
            &&& (allowed@.len() == 0 || exists|k: int|
                0 <= k < allowed@.len() && allowed@[k]@ == lower_seq(ext_of(path@)))
        },
{
    if path_has_hidden_component(path) {
        return false;
    }
    let ext = extension_of(path);
    if lowered_in_skip_set(ext) {
        return false;
    }
    if allowed.len() == 0 {
        return true;
    }
    let mut k: usize = 0;
    while k < allowed.len()
        invariant
            ext@ == ext_of(path@),
            !has_hidden_component(path@),
            !in_skip_set(lower_seq(ext_of(path@))),
            allowed@.len() > 0,
            k <= allowed@.len(),
            forall|m: int| 0 <= m < k ==> allowed@[m]@ != lower_seq(ext_of(path@)),
        decreases allowed@.len() - k,
    {
        if eq_lowered(ext, allowed[k].as_str()) {
            proof {
                assert(allowed@[k as int]@ == lower_seq(ext_of(path@)));
            }
            return true;
        }
        k = k + 1;
    }
    false
}

/// Strip one leading `"./"` from a recorded path.
pub fn strip_dot_slash(path: &str) -> (r: &str)
    ensures
        (path@.len() >= 2 && path@[0] == '.' && path@[1] == '/') ==> r@ == path@.subrange(
            2,
            path@.len() as int,
        ),
        !(path@.len() >= 2 && path@[0] == '.' && path@[1] == '/') ==> r@ == path@,
{
    let n = path.unicode_len();
    if n >= 2 && path.get_char(0) == '.' && path.get_char(1) == '/' {
        path.substring_char(2, n)
    } else {
        proof {
            assert(path@.subrange(0, path@.len() as int) =~= path@);
        }
        path.substring_char(0, n)
    }
}

} // verus!
