//! Primitives of the index document format: decimal numbers and
//! length-prefixed strings, with the parsing lemmas that give the
//! format its round-trip guarantee.

use vstd::prelude::*;

verus! {

pub open spec fn is_digit(c: char) -> bool {
    ||| c == '0'
    ||| c == '1'
    ||| c == '2'
    ||| c == '3'
    ||| c == '4'
    ||| c == '5'
    ||| c == '6'
    ||| c == '7'
    ||| c == '8'
    ||| c == '9'
}

pub open spec fn digit_char(d: int) -> char {
    if d == 0 {
        '0'
    } else if d == 1 {
        '1'
    } else if d == 2 {
        '2'
    } else if d == 3 {
        '3'
    } else if d == 4 {
        '4'
    } else if d == 5 {
        '5'
    } else if d == 6 {
        '6'
    } else if d == 7 {
        '7'
    } else if d == 8 {
        '8'
    } else {
        '9'
    }
}

pub open spec fn digit_val(c: char) -> int {
    if c == '0' {
        0
    } else if c == '1' {
        1
    } else if c == '2' {
        2
    } else if c == '3' {
        3
    } else if c == '4' {
        4
    } else if c == '5' {
        5
    } else if c == '6' {
        6
    } else if c == '7' {
        7
    } else if c == '8' {
        8
    } else {
        9
    }
}

/// The canonical decimal digits of `n`, most significant first.
pub open spec fn dec_digits(n: nat) -> Seq<char>
    decreases n,
{
    if n < 10 {
        seq![digit_char(n as int)]
    } else {
        dec_digits(n / 10).push(digit_char((n % 10) as int))
    }
}

/// The value of a digit string, most significant first.
pub open spec fn digits_val(s: Seq<char>) -> int
    decreases s.len(),
{
    if s.len() == 0 {
        0
    } else {
        digits_val(s.drop_last()) * 10 + digit_val(s.last())
    }
}

pub open spec fn all_digits(s: Seq<char>) -> bool {
    forall|i: int| 0 <= i < s.len() ==> is_digit(s[i])
}

/// A string is encoded as its length in decimal, one space, and then
/// its characters verbatim.
pub open spec fn enc_str(t: Seq<char>) -> Seq<char> {
    dec_digits(t.len()) + seq![' '] + t
}

pub proof fn lemma_dec_digits(n: nat)
    ensures
        dec_digits(n).len() >= 1,
        all_digits(dec_digits(n)),
        digits_val(dec_digits(n)) == n,
    decreases n,
{
    if n < 10 {
        assert(dec_digits(n) =~= seq![digit_char(n as int)]);
        assert(dec_digits(n).drop_last() =~= Seq::<char>::empty());
        assert(digits_val(Seq::<char>::empty()) == 0);
        assert(dec_digits(n).last() == digit_char(n as int));
        assert(digits_val(dec_digits(n)) == digit_val(digit_char(n as int)));
    } else {
        lemma_dec_digits(n / 10);
        vstd::arithmetic::div_mod::lemma_fundamental_div_mod(n as int, 10);
        let s = dec_digits(n);
        assert(s.drop_last() =~= dec_digits(n / 10));
        assert(s.last() == digit_char((n % 10) as int));
        assert(digit_val(digit_char((n % 10) as int)) == n % 10);
    }
}

pub proof fn lemma_digits_val_nonneg(s: Seq<char>)
    requires
        all_digits(s),
    ensures
        digits_val(s) >= 0,
    decreases s.len(),
{
    if s.len() > 0 {
        assert(all_digits(s.drop_last()));
        lemma_digits_val_nonneg(s.drop_last());
        assert(digit_val(s.last()) >= 0);
    }
}

/// Extending a digit string on the right never lowers its value.
pub proof fn lemma_digits_val_mono(s: Seq<char>, a: int, b: int)
    requires
        0 <= a <= b <= s.len(),
        forall|m: int| 0 <= m < b ==> is_digit(s[m]),
    ensures
        digits_val(s.subrange(0, a)) <= digits_val(s.subrange(0, b)),
    decreases b - a,
{
    if a < b {
        let p = s.subrange(0, b);
        assert(p.drop_last() =~= s.subrange(0, b - 1));
        assert(all_digits(s.subrange(0, b - 1)));
        lemma_digits_val_nonneg(s.subrange(0, b - 1));
        assert(digit_val(p.last()) >= 0);
        lemma_digits_val_mono(s, a, b - 1);
    }
}

/// The first non-digit position at or after `i`.
pub open spec fn digit_run_end(s: Seq<char>, i: int) -> int
    recommends
        0 <= i <= s.len(),
    decreases s.len() - i when 0 <= i <= s.len()
{
    if i >= s.len() {
        s.len() as int
    } else if !is_digit(s[i]) {
        i
    } else {
        digit_run_end(s, i + 1)
    }
}

pub proof fn lemma_digit_run_end_bounds(s: Seq<char>, i: int)
    requires
        0 <= i <= s.len(),
    ensures
        i <= digit_run_end(s, i) <= s.len(),
        digit_run_end(s, i) < s.len() ==> !is_digit(s[digit_run_end(s, i)]),
        forall|m: int| i <= m < digit_run_end(s, i) ==> is_digit(s[m]),
    decreases s.len() - i,
{
    if i < s.len() && is_digit(s[i]) {
        lemma_digit_run_end_bounds(s, i + 1);
    }
}

pub proof fn lemma_digit_run_end_at(s: Seq<char>, i: int, e: int)
    requires
        0 <= i <= e <= s.len(),
        forall|m: int| i <= m < e ==> is_digit(s[m]),
        e < s.len() ==> !is_digit(s[e]),
    ensures
        digit_run_end(s, i) == e,
    decreases e - i,
{
    if i < e {
        lemma_digit_run_end_at(s, i + 1, e);
    }
}

fn digit_of(c: char) -> (r: u64)
    requires
        is_digit(c),
    ensures
        r == digit_val(c),
{
    match c {
        '0' => 0,
        '1' => 1,
        '2' => 2,
        '3' => 3,
        '4' => 4,
        '5' => 5,
        '6' => 6,
        '7' => 7,
        '8' => 8,
        _ => 9,
    }
}

fn is_digit_exec(c: char) -> (r: bool)
    ensures
        r == is_digit(c),
{
    c == '0' || c == '1' || c == '2' || c == '3' || c == '4' || c == '5' || c == '6' || c == '7'
        || c == '8' || c == '9'
}

fn digit_str(d: u64) -> (r: &'static str)
    requires
        d < 10,
    ensures
        r@ == seq![digit_char(d as int)],
{
    proof {
        reveal_strlit("0");
        reveal_strlit("1");
        reveal_strlit("2");
        reveal_strlit("3");
        reveal_strlit("4");
        reveal_strlit("5");
        reveal_strlit("6");
        reveal_strlit("7");
        reveal_strlit("8");
        reveal_strlit("9");
    }
    let r = match d {
        0 => "0",
        1 => "1",
        2 => "2",
        3 => "3",
        4 => "4",
        5 => "5",
        6 => "6",
        7 => "7",
        8 => "8",
        _ => "9",
    };
    proof {
        assert(r@ =~= seq![digit_char(d as int)]);
    }
    r
}

/// Append the decimal form of `x` to `out`.
pub fn push_u64(out: &mut String, x: u64)
    ensures
        final(out)@ == old(out)@ + dec_digits(x as nat),
    decreases x,
{
    if x < 10 {
        out.append(digit_str(x));
        proof {
            assert(final(out)@ =~= old(out)@ + dec_digits(x as nat));
        }
    } else {
        push_u64(out, x / 10);
        out.append(digit_str(x % 10));
        proof {
            assert(final(out)@ =~= old(out)@ + dec_digits(x as nat));
        }
    }
}

/// Append `enc_str(t@)`: the length of `t`, a space, and `t` itself.
pub fn push_str_enc(out: &mut String, t: &str)
    ensures
        final(out)@ == old(out)@ + enc_str(t@),
{
    let n = t.unicode_len();
    push_u64(out, n as u64);
    out.append(" ");
    out.append(t);
    proof {
        reveal_strlit(" ");
        assert(final(out)@ =~= old(out)@ + enc_str(t@));
    }
}

/// Parse a decimal number starting at `i`.  Consumes the whole digit
/// run; fails when there is no digit at `i` or the run's value does not
/// fit in a `u64`.
pub fn parse_u64(s: &str, i: usize) -> (r: Option<(u64, usize)>)
    requires
        i <= s@.len(),
    ensures
        match r {
            Some(p) => {
                &&& p.1 == digit_run_end(s@, i as int)
                &&& i < p.1 <= s@.len()
                &&& p.0 == digits_val(s@.subrange(i as int, p.1 as int))
            },
            None => (i == s@.len() || !is_digit(s@[i as int]) || digits_val(
                s@.subrange(i as int, digit_run_end(s@, i as int)),
            ) > u64::MAX),
        },
{
    let n = s.unicode_len();
    if i == n || !is_digit_exec(s.get_char(i)) {
        return None;
    }
    let ghost e = digit_run_end(s@, i as int);
    proof {
        lemma_digit_run_end_bounds(s@, i as int);
    }
    let mut acc: u64 = 0;
    let mut j: usize = i;
    while j < n && is_digit_exec(s.get_char(j))
        invariant
            n == s@.len(),
            i <= j <= n,
            e == digit_run_end(s@, i as int),
            i <= e <= n,
            forall|m: int| i <= m < e ==> is_digit(s@[m]),
            e < n ==> !is_digit(s@[e as int]),
            j <= e,
            acc == digits_val(s@.subrange(i as int, j as int)),
        decreases n - j,
    {
        proof {
            if j == e {
                assert(is_digit(s@[j as int]));
                assert(false);
            }
        }
        let d = digit_of(s.get_char(j));
        let ghost pre = s@.subrange(i as int, j as int);
        let ghost cur = s@.subrange(i as int, j + 1);
        proof {
            assert(cur.drop_last() =~= pre);
            assert(cur.last() == s@[j as int]);
        }
        let acc10 = match acc.checked_mul(10) {
            Some(v) => v,
            None => {
                proof {
                    assert(digits_val(cur) == acc * 10 + d);
                    assert forall|m: int| 0 <= m < cur.len() implies is_digit(cur[m]) by {}
                    lemma_digits_val_nonneg(cur);
                    let full = s@.subrange(i as int, e as int);
                    assert(cur =~= full.subrange(0, j + 1 - i));
                    assert(full.subrange(0, e - i) =~= full);
                    lemma_digits_val_mono(full, j + 1 - i, e - i);
                    assert(digits_val(full) >= digits_val(cur));
                }
                return None;
            },
        };
        let acc2 = match acc10.checked_add(d) {
            Some(v) => v,
            None => {
                proof {
                    assert(digits_val(cur) == acc * 10 + d);
                    let full = s@.subrange(i as int, e as int);
                    assert(cur =~= full.subrange(0, j + 1 - i));
                    assert(full.subrange(0, e - i) =~= full);
                    lemma_digits_val_mono(full, j + 1 - i, e - i);
                    assert(digits_val(full) >= digits_val(cur));
                }
                return None;
            },
        };
        acc = acc2;
        j = j + 1;
    }
    proof {
        if j < e {
            assert(is_digit(s@[j as int]));
            assert(false);
        }
    }
    Some((acc, j))
}

/// Check that `lit` occurs verbatim at position `i` of `s`.
pub fn expect_lit(s: &str, i: usize, lit: &str) -> (r: Option<usize>)
    requires
        i <= s@.len(),
    ensures
        match r {
            Some(j) => j == i + lit@.len() && j <= s@.len() && s@.subrange(i as int, j as int)
                == lit@,
            None => !(i + lit@.len() <= s@.len() && s@.subrange(i as int, i + lit@.len()) == lit@),
        },
{
    let n = s.unicode_len();
    let m = lit.unicode_len();
    if m > n - i {
        return None;
    }
    let mut k: usize = 0;
    while k < m
        invariant
            n == s@.len(),
            m == lit@.len(),
            i + m <= n,
            k <= m,
            forall|q: int| 0 <= q < k ==> s@[i + q] == lit@[q],
        decreases m - k,
    {
        if s.get_char(i + k) != lit.get_char(k) {
            proof {
                if s@.subrange(i as int, i + m) == lit@ {
                    assert(s@.subrange(i as int, i + m)[k as int] == s@[i + k]);
                }
            }
            return None;
        }
        k = k + 1;
    }
    proof {
        assert(s@.subrange(i as int, i + m) =~= lit@);
    }
    Some(i + m)
}

/// An encoded string, readable whole, stands at position `i` of `s`.
pub open spec fn enc_str_at(s: Seq<char>, i: int) -> bool {
    exists|t: Seq<char>|
        t.len() <= u64::MAX && i + enc_str(t).len() <= s.len() && s.subrange(
            i,
            i + enc_str(t).len(),
        ) == enc_str(t)
}

/// Parse a length-prefixed string starting at `i`.
pub fn parse_str(s: &str, i: usize) -> (r: Option<(String, usize)>)
    requires
        i <= s@.len(),
    ensures
        match r {
            Some(p) => {
                let e = digit_run_end(s@, i as int);
                &&& i < e < s@.len()
                &&& digits_val(s@.subrange(i as int, e)) == p.0@.len()
                &&& s@[e] == ' '
                &&& e + 1 + p.0@.len() == p.1 <= s@.len()
                &&& p.0@ == s@.subrange(e + 1, p.1 as int)
            },
            None => !enc_str_at(s@, i as int),
        },
{
    let n = s.unicode_len();
    let (len64, e) = match parse_u64(s, i) {
        Some(p) => p,
        None => {
            proof {
                if enc_str_at(s@, i as int) {
                    let t = choose|t: Seq<char>|
                        t.len() <= u64::MAX && i + enc_str(t).len() <= s@.len() && s@.subrange(
                            i as int,
                            i + enc_str(t).len(),
                        ) == enc_str(t);
                    lemma_parse_str_of_enc(s@, i as int, t);
                    lemma_dec_digits(t.len());
                    assert(is_digit(s@[i as int]));
                    assert(false);
                }
            }
            return None;
        },
    };
    if e == n || s.get_char(e) != ' ' {
        proof {
            if enc_str_at(s@, i as int) {
                let t = choose|t: Seq<char>|
                    t.len() <= u64::MAX && i + enc_str(t).len() <= s@.len() && s@.subrange(
                        i as int,
                        i + enc_str(t).len(),
                    ) == enc_str(t);
                lemma_parse_str_of_enc(s@, i as int, t);
                assert(false);
            }
        }
        return None;
    }
    let start = e + 1;
    if len64 > (n - start) as u64 {
        proof {
            if enc_str_at(s@, i as int) {
                let t = choose|t: Seq<char>|
                    t.len() <= u64::MAX && i + enc_str(t).len() <= s@.len() && s@.subrange(
                        i as int,
                        i + enc_str(t).len(),
                    ) == enc_str(t);
                lemma_parse_str_of_enc(s@, i as int, t);
                lemma_dec_digits(t.len());
                assert(e == i + dec_digits(t.len()).len());
                assert(len64 == t.len());
                assert(false);
            }
        }
        return None;
    }
    let len = len64 as usize;
    let t = s.substring_char(start, start + len);
    Some((t.to_owned(), start + len))
}

/// Parsing an encoded string embedded in a larger document recovers
/// exactly the string and the position that follows it.
pub proof fn lemma_parse_str_of_enc(s: Seq<char>, i: int, t: Seq<char>)
    requires
        0 <= i,
        i + enc_str(t).len() <= s.len(),
        s.subrange(i, i + enc_str(t).len()) == enc_str(t),
        t.len() <= u64::MAX,
    ensures
        ({
            let d = dec_digits(t.len()).len();
            &&& digit_run_end(s, i) == i + d
            &&& digits_val(s.subrange(i, i + d)) == t.len()
            &&& s[i + d] == ' '
            &&& s.subrange(i + d + 1, i + enc_str(t).len()) == t
        }),
{
    lemma_dec_digits(t.len());
    let d = dec_digits(t.len()).len() as int;
    let enc = enc_str(t);
    assert(enc.len() == d + 1 + t.len());
    assert forall|m: int| i <= m < i + d implies is_digit(s[m]) by {
        assert(s[m] == s.subrange(i, i + enc.len())[m - i]);
        assert(enc[m - i] == dec_digits(t.len())[m - i]);
    }
    assert(s[i + d] == s.subrange(i, i + enc.len())[d]);
    assert(enc[d] == ' ');
    assert(!is_digit(' '));
    lemma_digit_run_end_at(s, i, i + d);
    assert(s.subrange(i, i + d) =~= dec_digits(t.len()));
    assert forall|q: int| 0 <= q < t.len() implies s.subrange(i + d + 1, i + enc.len())[q]
        == t[q] by {
        assert(s[i + d + 1 + q] == s.subrange(i, i + enc.len())[d + 1 + q]);
        assert(enc[d + 1 + q] == t[q]);
    }
    assert(s.subrange(i + d + 1, i + enc.len()) =~= t);
}

} // verus!
