//! Text primitives on character sequences: the pieces of `str`'s behaviour
//! that the library's parsers rely on, each stated as a spec function and
//! implemented by a verified executable function.
use vstd::prelude::*;
use vstd::string::StringExecFns;

verus! {

/// Views of a sequence of owned strings.
pub open spec fn views(v: Seq<String>) -> Seq<Seq<char>> {
    v.map_values(|s: String| s@)
}

/// Unicode `White_Space`, the property that `char::is_whitespace` tests.
pub open spec fn is_ws(c: char) -> bool {
    ||| ('\u{9}' <= c && c <= '\u{d}')
    ||| c == ' '
    ||| c == '\u{85}'
    ||| c == '\u{a0}'
    ||| c == '\u{1680}'
    ||| ('\u{2000}' <= c && c <= '\u{200a}')
    ||| c == '\u{2028}'
    ||| c == '\u{2029}'
    ||| c == '\u{202f}'
    ||| c == '\u{205f}'
    ||| c == '\u{3000}'
}

/// `char::is_whitespace`.
pub fn is_whitespace(c: char) -> (r: bool)
    ensures
        r == is_ws(c),
{
    ('\u{9}' <= c && c <= '\u{d}') || c == ' ' || c == '\u{85}' || c == '\u{a0}' || c == '\u{1680}'
        || ('\u{2000}' <= c && c <= '\u{200a}') || c == '\u{2028}' || c == '\u{2029}' || c
        == '\u{202f}' || c == '\u{205f}' || c == '\u{3000}'
}

/// `s` without its leading whitespace (`str::trim_start`).
pub open spec fn trim_start(s: Seq<char>) -> Seq<char>
    decreases s.len(),
{
    if s.len() > 0 && is_ws(s[0]) {
        trim_start(s.drop_first())
    } else {
        s
    }
}

/// `s` without its trailing whitespace (`str::trim_end`).
pub open spec fn trim_end(s: Seq<char>) -> Seq<char>
    decreases s.len(),
{
    if s.len() > 0 && is_ws(s.last()) {
        trim_end(s.drop_last())
    } else {
        s
    }
}

/// `s` without leading and trailing whitespace (`str::trim`).
pub open spec fn trim(s: Seq<char>) -> Seq<char> {
    trim_end(trim_start(s))
}

/// `p` is a prefix of `s` (`str::starts_with`).
pub open spec fn has_prefix(s: Seq<char>, p: Seq<char>) -> bool {
    p.len() <= s.len() && s.take(p.len() as int) == p
}

/// `p` is a suffix of `s` (`str::ends_with`).
pub open spec fn has_suffix(s: Seq<char>, p: Seq<char>) -> bool {
    p.len() <= s.len() && s.skip(s.len() - p.len()) == p
}

/// The characters of `s`, in order.
pub fn chars_of(s: &str) -> (v: Vec<char>)
    ensures
        v@ == s@,
{
    let mut v: Vec<char> = Vec::new();
    for c in it: s.chars()
        invariant
            v@ == it.seq().take(it.index() as int),
            it.seq() == s@,
    {
        v.push(c);
    }
    v
}

/// An owned copy of the characters `from..to` of `s`.
pub fn substring(s: &str, from: usize, to: usize) -> (r: String)
    requires
        from <= to <= s@.len(),
    ensures
        r@ == s@.subrange(from as int, to as int),
{
    let piece = s.substring_char(from, to);
    piece.to_owned()
}

/// An owned copy of `s`.
pub fn to_owned_string(s: &str) -> (r: String)
    ensures
        r@ == s@,
{
    s.to_owned()
}

/// Whether two character sequences are equal.
pub fn chars_eq(a: &Vec<char>, b: &Vec<char>) -> (r: bool)
    ensures
        r == (a@ == b@),
{
    if a.len() != b.len() {
        return false;
    }
    let mut i: usize = 0;
    while i < a.len()
        invariant
            a@.len() == b@.len(),
            i <= a@.len(),
            forall|k: int| 0 <= k < i ==> a@[k] == b@[k],
        decreases a@.len() - i,
    {
        if a[i] != b[i] {
            return false;
        }
        i = i + 1;
    }
    assert(a@ =~= b@);
    true
}

/// Whether two strings hold the same characters (`==` on `str`).
pub fn str_eq(a: &str, b: &str) -> (r: bool)
    ensures
        r == (a@ == b@),
{
    let av = chars_of(a);
    let bv = chars_of(b);
    chars_eq(&av, &bv)
}

/// Whether `s` starts with `p` (`str::starts_with`).
pub fn starts_with(s: &str, p: &str) -> (r: bool)
    ensures
        r == has_prefix(s@, p@),
{
    let sv = chars_of(s);
    let pv = chars_of(p);
    if pv.len() > sv.len() {
        return false;
    }
    let mut i: usize = 0;
    while i < pv.len()
        invariant
            pv@.len() <= sv@.len(),
            i <= pv@.len(),
            sv@ == s@,
            pv@ == p@,
            forall|k: int| 0 <= k < i ==> sv@[k] == pv@[k],
        decreases pv@.len() - i,
    {
        if sv[i] != pv[i] {
            return false;
        }
        i = i + 1;
    }
    assert(s@.take(p@.len() as int) =~= p@);
    true
}

/// Whether `s` ends with `p` (`str::ends_with`).
pub fn ends_with(s: &str, p: &str) -> (r: bool)
    ensures
        r == has_suffix(s@, p@),
{
    let sv = chars_of(s);
    let pv = chars_of(p);
    if pv.len() > sv.len() {
        return false;
    }
    let n = sv.len();
    let off = n - pv.len();
    let mut i: usize = 0;
    while i < pv.len()
        invariant
            n == sv@.len(),
            pv@.len() <= sv@.len(),
            off == sv@.len() - pv@.len(),
            i <= pv@.len(),
            sv@ == s@,
            pv@ == p@,
            forall|k: int| 0 <= k < i ==> sv@[off + k] == pv@[k],
        decreases pv@.len() - i,
    {
        if sv[off + i] != pv[i] {
            return false;
        }
        i = i + 1;
    }
    assert(s@.skip(s@.len() - p@.len()) =~= p@);
    true
}

proof fn lemma_trim_start_skip(s: Seq<char>, k: int)
    requires
        0 <= k <= s.len(),
        forall|i: int| 0 <= i < k ==> is_ws(s[i]),
    ensures
        trim_start(s) == trim_start(s.skip(k)),
    decreases k,
{
    if k > 0 {
        lemma_trim_start_skip(s.drop_first(), k - 1);
        assert(s.drop_first().skip(k - 1) =~= s.skip(k));
    } else {
        assert(s.skip(0) =~= s);
    }
}

proof fn lemma_trim_end_take(s: Seq<char>, k: int)
    requires
        0 <= k <= s.len(),
        forall|i: int| k <= i < s.len() ==> is_ws(s[i]),
    ensures
        trim_end(s) == trim_end(s.take(k)),
    decreases s.len() - k,
{
    if k < s.len() {
        lemma_trim_end_take(s.drop_last(), k);
        assert(s.drop_last().take(k) =~= s.take(k));
    } else {
        assert(s.take(k) =~= s);
    }
}

/// Bounds of the trimmed part of `s`: `trim(s) == s[lo..hi]`.
pub fn trim_bounds(v: &Vec<char>) -> (r: (usize, usize))
    ensures
        r.0 <= r.1 <= v@.len(),
        trim(v@) == v@.subrange(r.0 as int, r.1 as int),
        trim_start(v@) == v@.skip(r.0 as int),
{
    let n = v.len();
    let mut lo: usize = 0;
    while lo < n && is_whitespace(v[lo])
        invariant
            n == v@.len(),
            lo <= n,
            forall|i: int| 0 <= i < lo ==> is_ws(v@[i]),
        decreases n - lo,
    {
        lo = lo + 1;
    }
    proof {
        lemma_trim_start_skip(v@, lo as int);
        let t = v@.skip(lo as int);
        if t.len() > 0 {
            assert(!is_ws(t[0]));
        }
        assert(trim_start(t) == t);
    }
    let mut hi: usize = n;
    while hi > lo && is_whitespace(v[hi - 1])
        invariant
            n == v@.len(),
            lo <= hi <= n,
            forall|i: int| hi <= i < n ==> is_ws(v@[i]),
        decreases hi,
    {
        hi = hi - 1;
    }
    proof {
        let t = v@.skip(lo as int);
        lemma_trim_end_take(t, hi - lo);
        let u = t.take(hi - lo);
        assert(u =~= v@.subrange(lo as int, hi as int));
        if u.len() > 0 {
            assert(!is_ws(u.last()));
        }
        assert(trim_end(u) == u);
    }
    (lo, hi)
}

/// `str::trim`, as an owned string.
pub fn trim_str(s: &str) -> (r: String)
    ensures
        r@ == trim(s@),
{
    let v = chars_of(s);
    let (lo, hi) = trim_bounds(&v);
    substring(s, lo, hi)
}

/// The pieces of `s` between occurrences of `sep` (`str::split` with a
/// `char` pattern); there is always at least one piece.
pub open spec fn split_char(s: Seq<char>, sep: char) -> Seq<Seq<char>>
    decreases s.len(),
{
    if s.len() == 0 {
        seq![Seq::<char>::empty()]
    } else {
        let init = split_char(s.drop_last(), sep);
        if s.last() == sep {
            init.push(Seq::<char>::empty())
        } else {
            init.update(init.len() - 1, init.last().push(s.last()))
        }
    }
}

pub proof fn lemma_split_char_nonempty(s: Seq<char>, sep: char)
    ensures
        split_char(s, sep).len() >= 1,
    decreases s.len(),
{
    if s.len() > 0 {
        lemma_split_char_nonempty(s.drop_last(), sep);
    }
}

/// `str::split(sep)` for a `char` separator, as owned strings.
pub fn split_char_str(s: &str, sep: char) -> (r: Vec<String>)
    ensures
        views(r@) == split_char(s@, sep),
{
    let v = chars_of(s);
    let n = v.len();
    let mut out: Vec<String> = Vec::new();
    let mut start: usize = 0;
    let mut k: usize = 0;
    assert(v@.take(0) =~= Seq::<char>::empty());
    assert(views(out@).push(v@.subrange(0, 0)) =~= seq![Seq::<char>::empty()]);
    while k < n
        invariant
            n == v@.len(),
            v@ == s@,
            start <= k <= n,
            split_char(v@.take(k as int), sep) == views(out@).push(v@.subrange(start as int, k as int)),
        decreases n - k,
    {
        let ghost prev = views(out@);
        assert(v@.take(k + 1).drop_last() =~= v@.take(k as int));
        if v[k] == sep {
            let piece = substring(s, start, k);
            let ghost old_start = start;
            out.push(piece);
            start = k + 1;
            assert(views(out@) =~= prev.push(v@.subrange(old_start as int, k as int)));
            assert(v@.subrange(start as int, (k + 1) as int) =~= Seq::<char>::empty());
            assert(views(out@).push(v@.subrange(start as int, (k + 1) as int)) =~= prev.push(
                v@.subrange(old_start as int, k as int),
            ).push(Seq::<char>::empty()));
        } else {
            assert(v@.subrange(start as int, k as int).push(v@[k as int]) =~= v@.subrange(
                start as int,
                (k + 1) as int,
            ));
            assert(prev.push(v@.subrange(start as int, k as int)).update(
                prev.len() as int,
                v@.subrange(start as int, k as int).push(v@[k as int]),
            ) =~= prev.push(v@.subrange(start as int, (k + 1) as int)));
        }
        k = k + 1;
    }
    let last = substring(s, start, n);
    out.push(last);
    assert(v@.take(n as int) =~= v@);
    assert(views(out@) =~= split_char(s@, sep));
    out
}

/// `l` without one trailing carriage return.
pub open spec fn strip_cr(l: Seq<char>) -> Seq<char> {
    if l.len() > 0 && l.last() == '\r' {
        l.drop_last()
    } else {
        l
    }
}

/// The lines of `s` (`str::lines`): pieces between `\n`, a `\r` right
/// before a `\n` removed, and no piece after a final `\n`.
pub open spec fn lines_of(s: Seq<char>) -> Seq<Seq<char>> {
    let p = split_char(s, '\n');
    if s.len() == 0 {
        Seq::empty()
    } else if s.last() == '\n' {
        p.drop_last().map_values(|l: Seq<char>| strip_cr(l))
    } else {
        p.drop_last().map_values(|l: Seq<char>| strip_cr(l)).push(p.last())
    }
}

/// `l` without one trailing carriage return, as an owned string.
pub fn strip_cr_str(l: &str) -> (r: String)
    ensures
        r@ == strip_cr(l@),
{
    let v = chars_of(l);
    let n = v.len();
    if n > 0 && v[n - 1] == '\r' {
        substring(l, 0, n - 1)
    } else {
        substring(l, 0, n)
    }
}

/// `str::lines`, as owned strings.
pub fn lines_str(s: &str) -> (r: Vec<String>)
    ensures
        views(r@) == lines_of(s@),
{
    let v = chars_of(s);
    let n = v.len();
    let mut out: Vec<String> = Vec::new();
    if n == 0 {
        assert(views(out@) =~= lines_of(s@));
        return out;
    }
    let pieces = split_char_str(s, '\n');
    proof {
        lemma_split_char_nonempty(s@, '\n');
    }
    let ghost p = split_char(s@, '\n');
    let m = pieces.len() - 1;
    let mut i: usize = 0;
    while i < m
        invariant
            views(pieces@) == p,
            m + 1 == p.len(),
            i <= m,
            views(out@) == p.take(i as int).map_values(|l: Seq<char>| strip_cr(l)),
        decreases m - i,
    {
        assert(pieces@[i as int]@ == p[i as int]);
        let t = strip_cr_str(pieces[i].as_str());
        let ghost before = views(out@);
        out.push(t);
        assert(views(out@) =~= before.push(strip_cr(p[i as int])));
        assert(p.take(i + 1).map_values(|l: Seq<char>| strip_cr(l)) =~= p.take(i as int).map_values(
            |l: Seq<char>| strip_cr(l),
        ).push(strip_cr(p[i as int])));
        i = i + 1;
    }
    assert(p.take(m as int) =~= p.drop_last());
    if v[n - 1] != '\n' {
        assert(pieces@[m as int]@ == p[m as int]);
        let t = substring(pieces[m].as_str(), 0, pieces[m].as_str().unicode_len());
        let ghost before = views(out@);
        out.push(t);
        assert(t@ =~= p[m as int]);
        assert(views(out@) =~= before.push(p.last()));
        assert(views(out@) =~= lines_of(s@));
    } else {
        assert(views(out@) =~= lines_of(s@));
    }
    out
}

/// Index of the first occurrence of `c` in `s`.
pub open spec fn index_of(s: Seq<char>, c: char) -> Option<nat>
    decreases s.len(),
{
    if s.len() == 0 {
        None
    } else if s[0] == c {
        Some(0)
    } else {
        match index_of(s.drop_first(), c) {
            Some(k) => Some(k + 1),
            None => None,
        }
    }
}

pub proof fn lemma_index_of(s: Seq<char>, c: char, k: int)
    requires
        0 <= k <= s.len(),
        forall|i: int| 0 <= i < k ==> s[i] != c,
    ensures
        k < s.len() && s[k] == c ==> index_of(s, c) == Some(k as nat),
        k == s.len() ==> index_of(s, c) is None,
    decreases k,
{
    if k > 0 {
        lemma_index_of(s.drop_first(), c, k - 1);
    }
}

/// Position of the first `c` in `v[from..]`, or `None`.
pub fn find_char(v: &Vec<char>, from: usize, c: char) -> (r: Option<usize>)
    requires
        from <= v@.len(),
    ensures
        match r {
            Some(k) => from <= k < v@.len() && index_of(v@.skip(from as int), c) == Some(
                (k - from) as nat,
            ),
            None => index_of(v@.skip(from as int), c) is None,
        },
{
    let n = v.len();
    let mut k = from;
    while k < n
        invariant
            n == v@.len(),
            from <= k <= n,
            forall|i: int| from <= i < k ==> v@[i] != c,
        decreases n - k,
    {
        if v[k] == c {
            proof {
                lemma_index_of(v@.skip(from as int), c, k - from);
            }
            return Some(k);
        }
        k = k + 1;
    }
    proof {
        lemma_index_of(v@.skip(from as int), c, k - from);
    }
    None
}

/// `str::split_once` with a `char` separator.
pub open spec fn split_once_char(s: Seq<char>, sep: char) -> Option<(Seq<char>, Seq<char>)> {
    match index_of(s, sep) {
        Some(k) => Some((s.take(k as int), s.skip((k + 1) as int))),
        None => None,
    }
}

pub proof fn lemma_index_of_bound(s: Seq<char>, c: char)
    ensures
        index_of(s, c) matches Some(k) ==> k < s.len() && s[k as int] == c,
    decreases s.len(),
{
    if s.len() > 0 {
        lemma_index_of_bound(s.drop_first(), c);
    }
}

/// `str::split_once` with a `char` separator, as owned strings.
pub fn split_once_str(s: &str, sep: char) -> (r: Option<(String, String)>)
    ensures
        match r {
            Some((a, b)) => split_once_char(s@, sep) == Some((a@, b@)),
            None => split_once_char(s@, sep) is None,
        },
{
    let v = chars_of(s);
    assert(v@.skip(0) =~= v@);
    let n = v.len();
    match find_char(&v, 0, sep) {
        Some(k) => {
            let a = substring(s, 0, k);
            let b = substring(s, k + 1, n);
            assert(a@ =~= s@.take(k as int));
            assert(b@ =~= s@.skip((k + 1) as int));
            Some((a, b))
        },
        None => None,
    }
}

/// The maximal runs of non-whitespace characters of `s`
/// (`str::split_whitespace`).
pub open spec fn words(s: Seq<char>) -> Seq<Seq<char>>
    decreases s.len(),
{
    if s.len() == 0 {
        Seq::empty()
    } else {
        let w = words(s.drop_last());
        let c = s.last();
        if is_ws(c) {
            w
        } else if s.len() >= 2 && !is_ws(s[s.len() - 2]) {
            w.update(w.len() - 1, w.last().push(c))
        } else {
            w.push(seq![c])
        }
    }
}

/// `str::split_whitespace`, as owned strings.
pub fn split_whitespace_str(s: &str) -> (r: Vec<String>)
    ensures
        views(r@) == words(s@),
{
    let v = chars_of(s);
    let n = v.len();
    let mut out: Vec<String> = Vec::new();
    let mut start: usize = 0;
    let mut in_word = false;
    let mut k: usize = 0;
    assert(v@.take(0) =~= Seq::<char>::empty());
    while k < n
        invariant
            n == v@.len(),
            v@ == s@,
            start <= k <= n,
            in_word == (k > 0 && !is_ws(v@[k - 1])),
            in_word ==> start < k && words(v@.take(k as int)) == views(out@).push(
                v@.subrange(start as int, k as int),
            ),
            !in_word ==> words(v@.take(k as int)) == views(out@),
        decreases n - k,
    {
        let ghost prev = views(out@);
        let c = v[k];
        let ws = is_whitespace(c);
        assert(v@.take(k + 1).drop_last() =~= v@.take(k as int));
        assert(v@.take(k + 1).last() == c);
        if ws {
            if in_word {
                let piece = substring(s, start, k);
                out.push(piece);
                assert(views(out@) =~= prev.push(v@.subrange(start as int, k as int)));
            }
            in_word = false;
        } else {
            if in_word {
                assert(v@.take(k + 1)[k - 1] == v@[k - 1]);
                assert(v@.subrange(start as int, k as int).push(c) =~= v@.subrange(
                    start as int,
                    (k + 1) as int,
                ));
                assert(prev.push(v@.subrange(start as int, k as int)).update(
                    prev.len() as int,
                    v@.subrange(start as int, k as int).push(c),
                ) =~= prev.push(v@.subrange(start as int, (k + 1) as int)));
            } else {
                if k > 0 {
                    assert(v@.take(k + 1)[k - 1] == v@[k - 1]);
                }
                start = k;
                assert(v@.subrange(k as int, (k + 1) as int) =~= seq![c]);
            }
            in_word = true;
        }
        k = k + 1;
    }
    if in_word {
        let piece = substring(s, start, n);
        out.push(piece);
    }
    assert(v@.take(n as int) =~= v@);
    out
}

/// An ASCII decimal digit.
pub open spec fn is_digit(c: char) -> bool {
    '0' <= c && c <= '9'
}

pub open spec fn digit_value(c: char) -> nat {
    ((c as u32) - ('0' as u32)) as nat
}

/// The number that a run of decimal digits spells.
pub open spec fn digits_value(s: Seq<char>) -> nat
    decreases s.len(),
{
    if s.len() == 0 {
        0
    } else {
        digits_value(s.drop_last()) * 10 + digit_value(s.last())
    }
}

pub open spec fn all_digits(s: Seq<char>) -> bool {
    forall|i: int| 0 <= i < s.len() ==> is_digit(#[trigger] s[i])
}

/// The digits of an unsigned integer literal: one leading `+` is allowed.
pub open spec fn unsigned_digits(s: Seq<char>) -> Seq<char> {
    if s.len() > 0 && s[0] == '+' {
        s.drop_first()
    } else {
        s
    }
}

/// `str::parse` for an unsigned integer type whose maximum is `max`:
/// an optional `+`, then one or more ASCII digits, of value at most `max`.
pub open spec fn parse_unsigned(s: Seq<char>, max: nat) -> Option<nat> {
    let d = unsigned_digits(s);
    if d.len() > 0 && all_digits(d) && digits_value(d) <= max {
        Some(digits_value(d))
    } else {
        None
    }
}

proof fn lemma_digits_value_grows(s: Seq<char>, k: int)
    requires
        0 <= k <= s.len(),
        all_digits(s),
    ensures
        digits_value(s.take(k)) <= digits_value(s),
    decreases s.len() - k,
{
    if k < s.len() {
        lemma_digits_value_grows(s.drop_last(), k);
        assert(s.drop_last().take(k) =~= s.take(k));
        assert(s.drop_last() =~= s.take(s.len() - 1));
    } else {
        assert(s.take(k) =~= s);
    }
}

/// Parses `v[lo..hi]` as an unsigned integer of at most `max`.
pub fn parse_unsigned_chars(v: &Vec<char>, lo: usize, hi: usize, max: usize) -> (r: Option<usize>)
    requires
        lo <= hi <= v@.len(),
    ensures
        match r {
            Some(x) => parse_unsigned(v@.subrange(lo as int, hi as int), max as nat) == Some(
                x as nat,
            ),
            None => parse_unsigned(v@.subrange(lo as int, hi as int), max as nat) is None,
        },
{
    let ghost s = v@.subrange(lo as int, hi as int);
    let mut p = lo;
    if p < hi && v[p] == '+' {
        p = p + 1;
    }
    let ghost d = v@.subrange(p as int, hi as int);
    assert(d =~= unsigned_digits(s));
    if p == hi {
        return None;
    }
    let mut acc: u128 = 0;
    let mut i = p;
    assert(d.take(0) =~= Seq::<char>::empty());
    while i < hi
        invariant
            lo <= p <= i <= hi <= v@.len(),
            d == v@.subrange(p as int, hi as int),
            d == unsigned_digits(s),
            s == v@.subrange(lo as int, hi as int),
            acc <= max,
            acc == digits_value(d.take(i - p)),
            forall|t: int| p <= t < i ==> is_digit(#[trigger] v@[t]),
        decreases hi - i,
    {
        let c = v[i];
        if !('0' <= c && c <= '9') {
            assert(!is_digit(d[i - p]));
            return None;
        }
        let dv = (c as u32) - ('0' as u32);
        assert(d.take(i - p + 1).drop_last() =~= d.take(i - p));
        assert(d.take(i - p + 1).last() == c);
        acc = acc * 10 + dv as u128;
        if acc > max as u128 {
            proof {
                if all_digits(d) {
                    lemma_digits_value_grows(d, i - p + 1);
                }
            }
            return None;
        }
        i = i + 1;
    }
    assert(d.take(hi - p) =~= d);
    assert(all_digits(d)) by {
        assert forall|t: int| 0 <= t < d.len() implies is_digit(#[trigger] d[t]) by {
            assert(d[t] == v@[p + t]);
        }
    }
    Some(acc as usize)
}

/// Parses `s` as a `u32` (`str::parse::<u32>`).
pub fn parse_u32(s: &str) -> (r: Option<u32>)
    ensures
        match r {
            Some(x) => parse_unsigned(s@, u32::MAX as nat) == Some(x as nat),
            None => parse_unsigned(s@, u32::MAX as nat) is None,
        },
{
    let v = chars_of(s);
    assert(v@.subrange(0, v@.len() as int) =~= v@);
    match parse_unsigned_chars(&v, 0, v.len(), u32::MAX as usize) {
        Some(x) => Some(x as u32),
        None => None,
    }
}

/// Parses `s` as a `usize` (`str::parse::<usize>`).
pub fn parse_usize(s: &str) -> (r: Option<usize>)
    ensures
        match r {
            Some(x) => parse_unsigned(s@, usize::MAX as nat) == Some(x as nat),
            None => parse_unsigned(s@, usize::MAX as nat) is None,
        },
{
    let v = chars_of(s);
    assert(v@.subrange(0, v@.len() as int) =~= v@);
    parse_unsigned_chars(&v, 0, v.len(), usize::MAX)
}


/// The decimal digits of `n`, most significant first, with no leading
/// zero.
pub open spec fn decimal(n: nat) -> Seq<char>
    decreases n,
{
    if n < 10 {
        seq![digit_char(n)]
    } else {
        decimal(n / 10) + seq![digit_char(n % 10)]
    }
}

/// The character of the decimal digit `d`.
pub open spec fn digit_char(d: nat) -> char {
    if d == 0 {
        '0'
    } else if d == 1 {
        '1'
    } else if d == 2 {
        '2'
    } else if d == 3 {
        '3'
    } else if d == 4 {
        '4'
    } else if d == 5 {
        '5'
    } else if d == 6 {
        '6'
    } else if d == 7 {
        '7'
    } else if d == 8 {
        '8'
    } else {
        '9'
    }
}

fn digit_string(d: u32) -> (r: String)
    requires
        d < 10,
    ensures
        r@ == seq![digit_char(d as nat)],
{
    if d == 0 {
        proof {
            reveal_strlit("0");
        }
        to_owned_string("0")
    } else if d == 1 {
        proof {
            reveal_strlit("1");
        }
        to_owned_string("1")
    } else if d == 2 {
        proof {
            reveal_strlit("2");
        }
        to_owned_string("2")
    } else if d == 3 {
        proof {
            reveal_strlit("3");
        }
        to_owned_string("3")
    } else if d == 4 {
        proof {
            reveal_strlit("4");
        }
        to_owned_string("4")
    } else if d == 5 {
        proof {
            reveal_strlit("5");
        }
        to_owned_string("5")
    } else if d == 6 {
        proof {
            reveal_strlit("6");
        }
        to_owned_string("6")
    } else if d == 7 {
        proof {
            reveal_strlit("7");
        }
        to_owned_string("7")
    } else if d == 8 {
        proof {
            reveal_strlit("8");
        }
        to_owned_string("8")
    } else {
        proof {
            reveal_strlit("9");
        }
        to_owned_string("9")
    }
}

/// `n` written in decimal (`u32::to_string`).
pub fn decimal_string(n: u32) -> (r: String)
    ensures
        r@ == decimal(n as nat),
    decreases n,
{
    let mut r = if n < 10 {
        String::new()
    } else {
        decimal_string(n / 10)
    };
    let piece = digit_string(n % 10);
    let ghost before = r@;
    r.append(piece.as_str());
    proof {
        if n < 10 {
            assert(before =~= Seq::<char>::empty());
            assert(n % 10 == n);
            assert(r@ =~= seq![digit_char(n as nat)]);
        } else {
            assert(r@ =~= decimal((n / 10) as nat) + seq![digit_char((n % 10) as nat)]);
        }
    }
    r
}


/// `p` occurs in `s` at index `i`.
pub open spec fn occurs_at(s: Seq<char>, p: Seq<char>, i: int) -> bool {
    0 <= i && i + p.len() <= s.len() && s.subrange(i, i + p.len()) == p
}

/// The first index, from `i` on, at which `p` occurs in `s`.
pub open spec fn find_from(s: Seq<char>, p: Seq<char>, i: nat) -> Option<nat>
    decreases s.len() + 1 - i,
{
    if i + p.len() > s.len() {
        None
    } else if occurs_at(s, p, i as int) {
        Some(i)
    } else {
        find_from(s, p, i + 1)
    }
}

pub proof fn lemma_find_from_bound(s: Seq<char>, p: Seq<char>, i: nat)
    ensures
        find_from(s, p, i) matches Some(j) ==> i <= j && j + p.len() <= s.len() && occurs_at(s, p, j as int),
    decreases s.len() + 1 - i,
{
    if i + p.len() <= s.len() && !occurs_at(s, p, i as int) {
        lemma_find_from_bound(s, p, i + 1);
    }
}

/// The pieces of `s` between the occurrences of the non-empty pattern `p`,
/// found left to right without overlap (`str::split` with a `&str`
/// pattern).
pub open spec fn split_str(s: Seq<char>, p: Seq<char>) -> Seq<Seq<char>>
    decreases s.len(),
{
    if p.len() == 0 {
        seq![s]
    } else {
        match find_from(s, p, 0) {
            None => seq![s],
            Some(i) => {
                proof {
                    lemma_find_from_bound(s, p, 0);
                }
                seq![s.take(i as int)] + split_str(s.skip((i + p.len()) as int), p)
            },
        }
    }
}

/// Where `p` first occurs in `v` at or after `from`.
pub fn find_str_from(v: &Vec<char>, p: &Vec<char>, from: usize) -> (r: Option<usize>)
    ensures
        match r {
            Some(i) => find_from(v@, p@, from as nat) == Some(i as nat),
            None => find_from(v@, p@, from as nat) is None,
        },
{
    let n = v.len();
    let m = p.len();
    let mut i = from;
    while i <= n && n - i >= m
        invariant
            n == v@.len(),
            m == p@.len(),
            from <= i,
            find_from(v@, p@, from as nat) == find_from(v@, p@, i as nat),
        decreases n + 1 - i,
    {
        let mut k: usize = 0;
        let mut same = true;
        while k < m
            invariant
                k <= m,
                i + m <= n,
                n == v@.len(),
                m == p@.len(),
                same == (forall|t: int| 0 <= t < k ==> v@[i + t] == p@[t]),
            decreases m - k,
        {
            if v[i + k] != p[k] {
                same = false;
            }
            k = k + 1;
        }
        if same {
            assert(v@.subrange(i as int, i + m) =~= p@);
            return Some(i);
        }
        assert(!occurs_at(v@, p@, i as int)) by {
            if occurs_at(v@, p@, i as int) {
                assert forall|t: int| 0 <= t < m implies v@[i + t] == p@[t] by {
                    assert(v@.subrange(i as int, i + m)[t] == p@[t]);
                }
            }
        }
        i = i + 1;
    }
    None
}

/// `str::split` with a non-empty `&str` pattern, as owned strings.
pub fn split_str_exec(s: &str, p: &str) -> (r: Vec<String>)
    requires
        p@.len() > 0,
    ensures
        views(r@) == split_str(s@, p@),
{
    let v = chars_of(s);
    let pv = chars_of(p);
    let n = v.len();
    let m = pv.len();
    let mut out: Vec<String> = Vec::new();
    let mut start: usize = 0;
    assert(v@.skip(0) =~= v@);
    while start <= n
        invariant
            v@ == s@,
            pv@ == p@,
            n == v@.len(),
            m == p@.len(),
            m > 0,
            start <= n,
            split_str(s@, p@) == views(out@) + split_str(v@.skip(start as int), p@),
        decreases n - start,
    {
        let ghost rest = v@.skip(start as int);
        match find_str_from(&v, &pv, start) {
            Some(i) => {
                proof {
                    lemma_find_from_bound(v@, p@, start as nat);
                    lemma_find_from_shift(v@, p@, start as nat, 0);
                }
                let piece = substring(s, start, i);
                let ghost before = views(out@);
                out.push(piece);
                assert(piece@ =~= rest.take(i - start));
                assert(views(out@) =~= before.push(piece@));
                assert(rest.skip(i - start + m) =~= v@.skip(i + m));
                assert(split_str(rest, p@) =~= seq![rest.take(i - start)] + split_str(v@.skip(i + m), p@));
                assert(views(out@) + split_str(v@.skip(i + m), p@) =~= before + split_str(rest, p@));
                start = i + m;
            },
            None => {
                proof {
                    lemma_find_from_shift(v@, p@, start as nat, 0);
                }
                let piece = substring(s, start, n);
                let ghost before = views(out@);
                out.push(piece);
                assert(piece@ =~= rest);
                assert(views(out@) =~= before + seq![rest]);
                return out;
            },
        }
    }
    out
}

/// Searching `s` from `i + k` is searching `s.skip(i)` from `k`, shifted.
pub proof fn lemma_find_from_shift(s: Seq<char>, p: Seq<char>, i: nat, k: nat)
    requires
        i <= s.len(),
    ensures
        find_from(s, p, i + k) == match find_from(s.skip(i as int), p, k) {
            Some(j) => Some(j + i),
            None => None::<nat>,
        },
    decreases s.len() + 1 - (i + k),
{
    let t = s.skip(i as int);
    if i + k + p.len() <= s.len() {
        assert(occurs_at(s, p, (i + k) as int) == occurs_at(t, p, k as int)) by {
            if i + k + p.len() <= s.len() {
                assert(s.subrange((i + k) as int, (i + k + p.len()) as int) =~= t.subrange(
                    k as int,
                    (k + p.len()) as int,
                ));
            }
        }
        if !occurs_at(s, p, (i + k) as int) {
            lemma_find_from_shift(s, p, i, k + 1);
        }
    }
}

/// `s` without all its leading `c` (`str::trim_start_matches` with a
/// `char`).
pub open spec fn drop_leading(s: Seq<char>, c: char) -> Seq<char>
    decreases s.len(),
{
    if s.len() > 0 && s[0] == c {
        drop_leading(s.drop_first(), c)
    } else {
        s
    }
}

/// `str::trim_start_matches` with a `char`, as an owned string.
pub fn drop_leading_str(s: &str, c: char) -> (r: String)
    ensures
        r@ == drop_leading(s@, c),
{
    let v = chars_of(s);
    let mut i: usize = 0;
    assert(v@.skip(0) =~= v@);
    while i < v.len() && v[i] == c
        invariant
            v@ == s@,
            i <= v@.len(),
            drop_leading(s@, c) == drop_leading(v@.skip(i as int), c),
        decreases v@.len() - i,
    {
        assert(v@.skip(i as int).drop_first() =~= v@.skip(i + 1));
        i = i + 1;
    }
    substring(s, i, v.len())
}

/// `str::strip_prefix`, as an owned string.
pub fn strip_prefix_str(s: &str, p: &str) -> (r: Option<String>)
    ensures
        match r {
            Some(t) => has_prefix(s@, p@) && t@ == s@.skip(p@.len() as int),
            None => !has_prefix(s@, p@),
        },
{
    if starts_with(s, p) {
        let n = s.unicode_len();
        let m = p.unicode_len();
        Some(substring(s, m, n))
    } else {
        None
    }
}

/// `str::strip_suffix`, as an owned string.
pub fn strip_suffix_str(s: &str, p: &str) -> (r: Option<String>)
    ensures
        match r {
            Some(t) => has_suffix(s@, p@) && t@ == s@.take(s@.len() - p@.len()),
            None => !has_suffix(s@, p@),
        },
{
    if ends_with(s, p) {
        let n = s.unicode_len();
        let m = p.unicode_len();
        Some(substring(s, 0, n - m))
    } else {
        None
    }
}

/// The strings `ls` joined by `sep`.
pub open spec fn join_by(ls: Seq<Seq<char>>, sep: Seq<char>) -> Seq<char>
    decreases ls.len(),
{
    if ls.len() == 0 {
        Seq::empty()
    } else if ls.len() == 1 {
        ls[0]
    } else {
        join_by(ls.drop_last(), sep) + sep + ls.last()
    }
}

/// `[String]::join`.
pub fn join_strings(ls: &Vec<String>, sep: &str) -> (r: String)
    ensures
        r@ == join_by(views(ls@), sep@),
{
    let mut out = String::new();
    let mut i: usize = 0;
    assert(views(ls@).take(0) =~= Seq::<Seq<char>>::empty());
    while i < ls.len()
        invariant
            i <= ls@.len(),
            out@ == join_by(views(ls@).take(i as int), sep@),
        decreases ls@.len() - i,
    {
        if i > 0 {
            out.append(sep);
        }
        out.append(ls[i].as_str());
        proof {
            let t = views(ls@).take(i + 1);
            assert(t.drop_last() =~= views(ls@).take(i as int));
            if i == 0 {
                assert(t =~= seq![ls@[0]@]);
            }
        }
        i = i + 1;
    }
    assert(views(ls@).take(i as int) =~= views(ls@));
    out
}

} // verus!
