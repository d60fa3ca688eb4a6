//! The range part of a unified-diff hunk header, `-a[,b] +c[,d]`.
use vstd::prelude::*;
use crate::text::{digits_value, is_digit, is_whitespace, is_ws, parse_unsigned, parse_unsigned_chars, unsigned_digits, all_digits};

verus! {

/// End of the run of ASCII digits that starts at `from`.
pub open spec fn digit_run_end(s: Seq<char>, from: int) -> int
    decreases s.len() - from,
{
    if 0 <= from < s.len() && is_digit(s[from]) {
        digit_run_end(s, from + 1)
    } else {
        from
    }
}

/// End of the run of whitespace that starts at `from`.
pub open spec fn ws_run_end(s: Seq<char>, from: int) -> int
    decreases s.len() - from,
{
    if 0 <= from < s.len() && is_ws(s[from]) {
        ws_run_end(s, from + 1)
    } else {
        from
    }
}

/// The optional `,digits` group at `i`: the digit run it holds, if any, and
/// the position after it; `None` where a `,` is not followed by a digit.
pub open spec fn optional_count(s: Seq<char>, i: int) -> Option<(Option<(int, int)>, int)> {
    if 0 <= i < s.len() && s[i] == ',' {
        let e = digit_run_end(s, i + 1);
        if e > i + 1 {
            Some((Some((i + 1, e)), e))
        } else {
            None
        }
    } else {
        Some((None, i))
    }
}

/// Where `s` is a whole hunk range `-a[,b]<whitespace>+c[,d]` (each number a
/// run of ASCII digits), the positions of the digit runs of `a`, `b`, `c`
/// and `d`.
pub open spec fn hunk_range_fields(s: Seq<char>) -> Option<
    ((int, int), Option<(int, int)>, (int, int), Option<(int, int)>),
> {
    if s.len() == 0 || s[0] != '-' {
        None
    } else {
        let e1 = digit_run_end(s, 1);
        if e1 == 1 {
            None
        } else {
            match optional_count(s, e1) {
                None => None,
                Some((c1, p1)) => {
                    let w = ws_run_end(s, p1);
                    if w == p1 || w >= s.len() || s[w] != '+' {
                        None
                    } else {
                        let e3 = digit_run_end(s, w + 1);
                        if e3 == w + 1 {
                            None
                        } else {
                            match optional_count(s, e3) {
                                None => None,
                                Some((c3, p3)) => if p3 == s.len() {
                                    Some(((1, e1), c1, (w + 1, e3), c3))
                                } else {
                                    None
                                },
                            }
                        }
                    }
                },
            }
        }
    }
}

/// The number that the digit run `r` of `s` spells.
pub open spec fn run_value(s: Seq<char>, r: (int, int)) -> nat {
    digits_value(s.subrange(r.0, r.1))
}

proof fn lemma_digit_run_end(s: Seq<char>, from: int, k: int)
    requires
        0 <= from <= k <= s.len(),
        forall|i: int| from <= i < k ==> is_digit(s[i]),
        k == s.len() || !is_digit(s[k]),
    ensures
        digit_run_end(s, from) == k,
    decreases k - from,
{
    if from < k {
        lemma_digit_run_end(s, from + 1, k);
    }
}

proof fn lemma_ws_run_end(s: Seq<char>, from: int, k: int)
    requires
        0 <= from <= k <= s.len(),
        forall|i: int| from <= i < k ==> is_ws(s[i]),
        k == s.len() || !is_ws(s[k]),
    ensures
        ws_run_end(s, from) == k,
    decreases k - from,
{
    if from < k {
        lemma_ws_run_end(s, from + 1, k);
    }
}

fn scan_digits(v: &Vec<char>, from: usize) -> (r: usize)
    requires
        from <= v@.len(),
    ensures
        r == digit_run_end(v@, from as int),
        from <= r <= v@.len(),
        forall|i: int| from <= i < r ==> is_digit(#[trigger] v@[i]),
{
    let n = v.len();
    let mut k = from;
    while k < n && '0' <= v[k] && v[k] <= '9'
        invariant
            n == v@.len(),
            from <= k <= n,
            forall|i: int| from <= i < k ==> is_digit(#[trigger] v@[i]),
        decreases n - k,
    {
        k = k + 1;
    }
    proof {
        lemma_digit_run_end(v@, from as int, k as int);
    }
    k
}

fn scan_ws(v: &Vec<char>, from: usize) -> (r: usize)
    requires
        from <= v@.len(),
    ensures
        r == ws_run_end(v@, from as int),
        from <= r <= v@.len(),
{
    let n = v.len();
    let mut k = from;
    while k < n && is_whitespace(v[k])
        invariant
            n == v@.len(),
            from <= k <= n,
            forall|i: int| from <= i < k ==> is_ws(v@[i]),
        decreases n - k,
    {
        k = k + 1;
    }
    proof {
        lemma_ws_run_end(v@, from as int, k as int);
    }
    k
}

fn scan_optional_count(v: &Vec<char>, i: usize) -> (r: Option<(Option<(usize, usize)>, usize)>)
    requires
        i <= v@.len(),
    ensures
        match r {
            None => optional_count(v@, i as int) is None,
            Some((None, p)) => optional_count(v@, i as int) == Some((None::<(int, int)>, p as int)),
            Some((Some((a, b)), p)) => optional_count(v@, i as int) == Some(
                (Some((a as int, b as int)), p as int),
            ) && a < b <= v@.len() && forall|t: int| a <= t < b ==> is_digit(#[trigger] v@[t]),
        },
{
    if i < v.len() && v[i] == ',' {
        let e = scan_digits(v, i + 1);
        if e > i + 1 {
            Some((Some((i + 1, e)), e))
        } else {
            None
        }
    } else {
        Some((None, i))
    }
}

/// Digit-run positions of a hunk range, as `hunk_range_fields` states them.
pub fn hunk_range_positions(v: &Vec<char>) -> (r: Option<
    ((usize, usize), Option<(usize, usize)>, (usize, usize), Option<(usize, usize)>),
>)
    ensures
        match r {
            None => hunk_range_fields(v@) is None,
            Some((f1, c1, f3, c3)) => {
                &&& hunk_range_fields(v@) == Some(
                    (
                        (f1.0 as int, f1.1 as int),
                        match c1 {
                            None => None,
                            Some(x) => Some((x.0 as int, x.1 as int)),
                        },
                        (f3.0 as int, f3.1 as int),
                        match c3 {
                            None => None,
                            Some(x) => Some((x.0 as int, x.1 as int)),
                        },
                    ),
                )
                &&& digit_run(v@, f1.0 as int, f1.1 as int)
                &&& digit_run(v@, f3.0 as int, f3.1 as int)
                &&& (c1 matches Some(x) ==> digit_run(v@, x.0 as int, x.1 as int))
                &&& (c3 matches Some(x) ==> digit_run(v@, x.0 as int, x.1 as int))
            },
        },
{
    let n = v.len();
    if n == 0 || v[0] != '-' {
        return None;
    }
    let e1 = scan_digits(v, 1);
    if e1 == 1 {
        return None;
    }
    let (c1, p1) = match scan_optional_count(v, e1) {
        None => {
            return None;
        },
        Some(x) => x,
    };
    let w = scan_ws(v, p1);
    if w == p1 || w >= n || v[w] != '+' {
        return None;
    }
    let e3 = scan_digits(v, w + 1);
    if e3 == w + 1 {
        return None;
    }
    let (c3, p3) = match scan_optional_count(v, e3) {
        None => {
            return None;
        },
        Some(x) => x,
    };
    if p3 != n {
        return None;
    }
    Some(((1, e1), c1, (w + 1, e3), c3))
}

/// `s[a..b]` is a non-empty run of ASCII digits.
pub open spec fn digit_run(s: Seq<char>, a: int, b: int) -> bool {
    &&& 0 <= a < b <= s.len()
    &&& forall|t: int| a <= t < b ==> is_digit(#[trigger] s[t])
}

proof fn lemma_digit_run_parses(s: Seq<char>, a: int, b: int, max: nat)
    requires
        digit_run(s, a, b),
    ensures
        parse_unsigned(s.subrange(a, b), max) == (if digits_value(s.subrange(a, b)) <= max {
            Some(digits_value(s.subrange(a, b)))
        } else {
            None
        }),
{
    let d = s.subrange(a, b);
    assert(is_digit(d[0]));
    assert(unsigned_digits(d) == d);
    assert(all_digits(d)) by {
        assert forall|t: int| 0 <= t < d.len() implies is_digit(#[trigger] d[t]) by {
            assert(d[t] == s[a + t]);
        }
    }
}

/// The value of the digit run `v[a..b]`, if it is at most `max`.
pub fn run_value_upto(v: &Vec<char>, a: usize, b: usize, max: usize) -> (r: Option<usize>)
    requires
        digit_run(v@, a as int, b as int),
    ensures
        match r {
            Some(x) => run_value(v@, (a as int, b as int)) == x && x <= max,
            None => run_value(v@, (a as int, b as int)) > max,
        },
{
    proof {
        lemma_digit_run_parses(v@, a as int, b as int, max as nat);
    }
    parse_unsigned_chars(v, a, b, max)
}

} // verus!
