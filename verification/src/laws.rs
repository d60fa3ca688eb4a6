//! Properties that relate the library's operations to one another.
use vstd::prelude::*;
use crate::utils::{edit_distance, edit_distance_prefix};
use crate::diff_v2::{
    LineMapView, DiffCases, categorize_spec, classify, fetch_spec, hunk_numbers, new_lines_added_spec,
    few_lines_deleted_spec, single_line_deleted_spec, add_line, drop_line, reorder_at, reorder_ok_at,
    touch_or_drop, keep_or_add, touch_replaced, drop_unreplaced, add_unreplaced, as_i32,
    parse_from, fill_added, fill_lines, touched, fresh_line, LineDetailView,
};
use crate::line_map::{shifted, update_range, shift_key, lemma_shift_key_inverse, moved_to};
use crate::diff::{
    HistoryView, Pending, track, track_all, match_deleted, touched_line, extract_spec, walk_diff,
    shift_after_insert, shift_fits, opens_hunk, starts_with_char, hunk_start, first_close, lemma_first_close_bound,
};
use crate::db::{
    Mapping, LineData, is_max_index, uncovered_lines, lines_without_data, append_details, append_line,
    covering_hashes, covering_line,
};
use crate::contextgpt_structs::AuthorDetailsV2View;
use crate::config_impl::{each_with_comma, trimmed};
use crate::text::{split_char, lemma_split_char_nonempty};
use crate::text::{decimal, digit_char, digits_value, digit_value, all_digits, parse_unsigned, unsigned_digits};

verus! {

proof fn lemma_edit_distance_prefix_symmetric(a: Seq<char>, b: Seq<char>, i: nat, j: nat)
    ensures
        edit_distance_prefix(a, b, i, j) == edit_distance_prefix(b, a, j, i),
    decreases i, j,
{
    if i > 0 && j > 0 {
        lemma_edit_distance_prefix_symmetric(a, b, (i - 1) as nat, (j - 1) as nat);
        lemma_edit_distance_prefix_symmetric(a, b, (i - 1) as nat, j);
        lemma_edit_distance_prefix_symmetric(a, b, i, (j - 1) as nat);
    }
}

/// The Levenshtein distance between two lines does not depend on their
/// order.
pub proof fn lemma_levenshtein_symmetric(a: Seq<char>, b: Seq<char>)
    ensures
        edit_distance(a, b) == edit_distance(b, a),
{
    lemma_edit_distance_prefix_symmetric(a, b, a.len(), b.len());
}

proof fn lemma_edit_distance_prefix_same(a: Seq<char>, i: nat)
    ensures
        edit_distance_prefix(a, a, i, i) == 0,
    decreases i,
{
    if i > 0 {
        lemma_edit_distance_prefix_same(a, (i - 1) as nat);
    }
}

proof fn lemma_edit_distance_prefix_zero(a: Seq<char>, b: Seq<char>, i: nat, j: nat)
    requires
        i <= a.len(),
        j <= b.len(),
        edit_distance_prefix(a, b, i, j) == 0,
    ensures
        i == j,
        a.take(i as int) == b.take(j as int),
    decreases i, j,
{
    if i > 0 && j > 0 {
        lemma_edit_distance_prefix_zero(a, b, (i - 1) as nat, (j - 1) as nat);
        assert(a.take(i as int) =~= a.take(i - 1).push(a[i - 1]));
        assert(b.take(j as int) =~= b.take(j - 1).push(b[j - 1]));
    } else {
        assert(a.take(0) =~= b.take(0));
    }
}

/// A line is at distance 0 from itself, and from no other line.
pub proof fn lemma_levenshtein_same(a: Seq<char>, b: Seq<char>)
    ensures
        edit_distance(a, a) == 0,
        edit_distance(a, b) == 0 <==> a == b,
{
    lemma_edit_distance_prefix_same(a, a.len());
    if edit_distance(a, b) == 0 {
        lemma_edit_distance_prefix_zero(a, b, a.len(), b.len());
        assert(a.take(a.len() as int) =~= a);
        assert(b.take(b.len() as int) =~= b);
    }
}


/// When `fetch_line_numbers` reads a hunk range, `categorize_diff` files it
/// by the two counts read: lines removed, lines added.
pub proof fn lemma_category_of_fetched_range(s: Seq<char>)
    requires
        fetch_spec(s) is Some,
    ensures
        categorize_spec(s) == Some(classify(fetch_spec(s).unwrap().1, fetch_spec(s).unwrap().3)),
{
}

/// Lines added at `s` and then deleted again leave every other tracked line
/// where it was: a `NewLinesAdded` hunk of `c` lines at `s` is undone by a
/// hunk that deletes those `c` lines.
pub proof fn lemma_delete_undoes_add(m: LineMapView, h: Seq<char>, s: u32, c: u32, ca: Seq<Seq<char>>)
    requires
        s + c <= u32::MAX,
        forall|k: u32| #[trigger] m.contains_key(k) && k >= s ==> k + c <= u32::MAX,
    ensures
        few_lines_deleted_spec(new_lines_added_spec(m, h, s, c, ca), s, c) == m,
        c == 1 ==> single_line_deleted_spec(new_lines_added_spec(m, h, s, c, ca), s) == m,
{
    let e = s + c;
    let m1 = shifted(m, s as int, c as int);
    let m2 = update_range(m1, s as int, e, add_line(ca, s as int, h));
    let m3 = update_range(m2, s as int, e, drop_line());
    assert forall|t: u32| s <= t < e implies !m1.contains_key(t) by {
        lemma_shift_key_inverse(t as int, -c);
        let src = shift_key(t as int, -c);
        if src >= s && m.contains_key(src as u32) {
            assert(src + c <= u32::MAX);
        }
    }
    assert(m3 =~= m1.remove_keys(Set::new(|t: u32| s <= t < e)));
    assert(m3 =~= m1);
    let r = shifted(m3, e as int, -c);
    assert forall|t: u32| #[trigger] r.contains_key(t) == m.contains_key(t) && (m.contains_key(t) ==> r[t] == m[t]) by {
        lemma_shift_key_inverse(t as int, c as int);
        lemma_shift_key_inverse(t as int, -c);
        if t < s {
            let src = shift_key(t as int, -c);
            if src >= s && m.contains_key(src as u32) {
                assert(src + c <= u32::MAX);
            }
            assert(m1.contains_key(t) == m.contains_key(t));
        } else {
            if t + c <= u32::MAX {
                let up = (t + c) as u32;
                lemma_shift_key_inverse(up as int, -c);
                assert(moved_to(m, s as int, c as int, up) == m.contains_key(t));
            }
        }
    }
    assert(r =~= m);
    if c == 1 {
        let r1 = shifted(m2.remove(s), s + 1, -1);
        assert(m2.remove(s) =~= m3);
        assert(r1 == r);
    }
}


/// Recording the same commit on the same line with the same content twice
/// is recording it once.
pub proof fn lemma_track_idempotent(m: HistoryView, f: Seq<char>, n: u32, c: Seq<char>, h: Seq<char>)
    ensures
        track(track(m, f, n, c, h), f, n, c, h) == track(m, f, n, c, h),
{
    let m1 = track(m, f, n, c, h);
    let e1 = m1[f][n];
    assert(e1.0 == c && e1.1.len() > 0 && e1.1.last() == h);
    assert(touched_line(m1[f].index_opt(n), c, h) == e1);
    assert(m1[f].insert(n, e1) =~= m1[f]);
    assert(track(m1, f, n, c, h) =~= m1);
}

/// The lines of `adds` have distinct numbers once read as `u32`.
pub open spec fn distinct_line_numbers(adds: Pending) -> bool {
    forall|i: int, j: int| 0 <= i < j < adds.len() ==> (adds[i].0 as u32) != (adds[j].0 as u32)
}

proof fn lemma_track_all_records(m: HistoryView, f: Seq<char>, adds: Pending, h: Seq<char>, j: int)
    requires
        distinct_line_numbers(adds),
        0 <= j < adds.len(),
    ensures
        track_all(m, f, adds, h).contains_key(f),
        track_all(m, f, adds, h)[f].contains_key(adds[j].0 as u32),
        track_all(m, f, adds, h)[f][adds[j].0 as u32].0 == adds[j].1,
        track_all(m, f, adds, h)[f][adds[j].0 as u32].1.len() > 0,
        track_all(m, f, adds, h)[f][adds[j].0 as u32].1.last() == h,
    decreases adds.len(),
{
    if j < adds.len() - 1 {
        let init = adds.drop_last();
        assert(distinct_line_numbers(init)) by {
            assert forall|a: int, b: int| 0 <= a < b < init.len() implies (init[a].0 as u32) != (init[b].0 as u32) by {
                assert(init[a] == adds[a] && init[b] == adds[b]);
            }
        }
        lemma_track_all_records(m, f, init, h, j);
        assert(init[j] == adds[j]);
        assert((adds[j].0 as u32) != (adds.last().0 as u32));
    }
}

proof fn lemma_track_fixed(m: HistoryView, f: Seq<char>, n: u32, c: Seq<char>, h: Seq<char>)
    requires
        m.contains_key(f),
        m[f].contains_key(n),
        m[f][n].0 == c,
        m[f][n].1.len() > 0,
        m[f][n].1.last() == h,
    ensures
        track(m, f, n, c, h) == m,
{
    assert(touched_line(m[f].index_opt(n), c, h) == m[f][n]);
    assert(m[f].insert(n, m[f][n]) =~= m[f]);
    assert(m.insert(f, m[f]) =~= m);
}

proof fn lemma_match_deleted_fixed(
    m: HistoryView,
    f: Seq<char>,
    h: Seq<char>,
    dels: Pending,
    k: nat,
    adds: Pending,
    matched: Seq<bool>,
    base: HistoryView,
)
    requires
        distinct_line_numbers(adds),
        m == track_all(base, f, adds, h),
    ensures
        match_deleted(m, f, h, dels, k, adds, matched) == m,
    decreases dels.len() - k,
{
    if k < dels.len() {
        match crate::diff::first_close(dels[k as int].1, adds, matched, 0) {
            Some(j) => {
                crate::diff::lemma_first_close_bound(dels[k as int].1, adds, matched, 0);
                lemma_track_all_records(base, f, adds, h, j as int);
                lemma_track_fixed(m, f, adds[j as int].0 as u32, adds[j as int].1, h);
                lemma_match_deleted_fixed(m, f, h, dels, k + 1, adds, matched.update(j as int, true), base);
            },
            None => {
                lemma_match_deleted_fixed(m, f, h, dels, k + 1, adds, matched, base);
            },
        }
    }
}

/// Matching the deleted lines of the last hunk with close added lines
/// records nothing new: each matched line already holds its content and the
/// commit as its latest one, as long as the added lines of that hunk have
/// distinct line numbers.
pub proof fn lemma_matching_changes_nothing(h: Seq<char>, lines: Seq<Seq<char>>, f: Seq<char>, m: HistoryView)
    requires
        distinct_line_numbers(walk_diff(lines, 0, f, h, Seq::empty(), Seq::empty(), 0, m).1),
    ensures
        ({
            let w = walk_diff(lines, 0, f, h, Seq::empty(), Seq::empty(), 0, m);
            extract_spec(h, lines, f, m) == track_all(w.2, f, w.1, h)
        }),
{
    let w = walk_diff(lines, 0, f, h, Seq::empty(), Seq::empty(), 0, m);
    lemma_match_deleted_fixed(
        track_all(w.2, f, w.1, h),
        f,
        h,
        w.0,
        0,
        w.1,
        Seq::new(w.1.len(), |j: int| false),
        w.2,
    );
}

/// The index that `get_available_index` computes from the largest recorded
/// index is recorded for no file.
pub proof fn lemma_available_index_unused(m: Mapping, r: u32)
    requires
        r >= 1,
        is_max_index(m, (r - 1) as nat),
    ensures
        forall|k: Seq<char>, j: int| m.contains_key(k) && 0 <= j < m[k].len() ==> #[trigger] m[k][j] != r,
{
    assert forall|k: Seq<char>, j: int| m.contains_key(k) && 0 <= j < m[k].len() implies #[trigger] m[k][j] != r by {
        assert(m[k][j] <= r - 1);
    }
}

/// A line that the lookup by nearest line leaves uncovered has no data of
/// its own either: `raw_exists_and_return` reports no more uncovered lines
/// than `exists_and_return`.
pub proof fn lemma_uncovered_lines_have_no_data(d: LineData, lo: int, hi: int)
    ensures
        forall|x: u32| uncovered_lines(d, lo, hi).contains(x) ==> lines_without_data(d, lo, hi).contains(x),
    decreases hi - lo,
{
    if hi > lo {
        lemma_uncovered_lines_have_no_data(d, lo, hi - 1);
        let i = (hi - 1) as usize;
        let u0 = uncovered_lines(d, lo, hi - 1);
        let w0 = lines_without_data(d, lo, hi - 1);
        assert forall|x: u32| uncovered_lines(d, lo, hi).contains(x) implies lines_without_data(d, lo, hi).contains(x) by {
            if crate::db::covering_line(d, i) is None {
                assert(!d.contains_key(i));
                crate::line_map::lemma_contains_push(u0, x, i as u32);
                crate::line_map::lemma_contains_push(w0, x, i as u32);
                assert(uncovered_lines(d, lo, hi) =~= u0.push(i as u32));
                assert(lines_without_data(d, lo, hi) =~= w0.push(i as u32));
            } else {
                assert(uncovered_lines(d, lo, hi) =~= u0);
                if !d.contains_key(i) {
                    crate::line_map::lemma_contains_push(w0, x, i as u32);
                    assert(lines_without_data(d, lo, hi) =~= w0.push(i as u32));
                } else {
                    assert(lines_without_data(d, lo, hi) =~= w0);
                }
            }
        }
    }
}

/// Appending records keeps every commit already recorded, in front, and
/// gives data to exactly the lines that had some or that a record names.
pub proof fn lemma_append_keeps_history(d: LineData, details: Seq<AuthorDetailsV2View>)
    ensures
        forall|k: usize|
            #[trigger] append_details(d, details).contains_key(k) <==> (d.contains_key(k) || exists|i: int|
                0 <= i < details.len() && details[i].0 == k),
        forall|k: usize|
            #[trigger] d.contains_key(k) ==> append_details(d, details)[k].len() >= d[k].len()
                && append_details(d, details)[k].take(d[k].len() as int) == d[k],
    decreases details.len(),
{
    if details.len() > 0 {
        let init = details.drop_last();
        lemma_append_keeps_history(d, init);
        let x = details.last();
        let a = append_details(d, init);
        assert forall|k: usize|
            #[trigger] append_details(d, details).contains_key(k) <==> (d.contains_key(k) || exists|i: int|
                0 <= i < details.len() && details[i].0 == k) by {
            if exists|i: int| 0 <= i < init.len() && init[i].0 == k {
                let i = choose|i: int| 0 <= i < init.len() && init[i].0 == k;
                assert(details[i] == init[i]);
            }
            if exists|i: int| 0 <= i < details.len() && details[i].0 == k {
                let i = choose|i: int| 0 <= i < details.len() && details[i].0 == k;
                if i < init.len() {
                    assert(init[i] == details[i]);
                }
            }
        }
        assert forall|k: usize| #[trigger] d.contains_key(k) implies append_details(d, details)[k].len() >= d[k].len()
            && append_details(d, details)[k].take(d[k].len() as int) == d[k] by {
            if k == x.0 {
                assert((a[k] + x.2).take(d[k].len() as int) =~= a[k].take(d[k].len() as int));
            }
        }
    }
}

proof fn lemma_digit_char_value(d: nat)
    requires
        d < 10,
    ensures
        crate::text::is_digit(digit_char(d)),
        digit_value(digit_char(d)) == d,
{
}

/// Reading back a number written in decimal gives the number.
pub proof fn lemma_decimal_round_trip(n: nat, max: nat)
    requires
        n <= max,
    ensures
        parse_unsigned(decimal(n), max) == Some(n),
    decreases n,
{
    lemma_decimal_digits(n);
    assert(unsigned_digits(decimal(n)) == decimal(n));
}

proof fn lemma_decimal_digits(n: nat)
    ensures
        decimal(n).len() > 0,
        decimal(n)[0] != '+',
        all_digits(decimal(n)),
        digits_value(decimal(n)) == n,
    decreases n,
{
    if n < 10 {
        lemma_digit_char_value(n);
        assert(decimal(n).drop_last() =~= Seq::<char>::empty());
        assert(digits_value(decimal(n)) == digits_value(decimal(n).drop_last()) * 10 + digit_value(decimal(n).last()));
    } else {
        lemma_decimal_digits(n / 10);
        lemma_digit_char_value(n % 10);
        let s = decimal(n);
        assert(s.drop_last() =~= decimal(n / 10));
        assert(s[0] == decimal(n / 10)[0]);
        assert forall|i: int| 0 <= i < s.len() implies crate::text::is_digit(#[trigger] s[i]) by {
            if i < s.len() - 1 {
                assert(s[i] == decimal(n / 10)[i]);
            }
        }
        assert((n / 10) * 10 + n % 10 == n) by (nonlinear_arith);
        assert(s.last() == digit_char(n % 10));
        assert(digits_value(s) == digits_value(s.drop_last()) * 10 + digit_value(s.last()));
    }
}


proof fn lemma_pieces_rejoined(s: Seq<char>)
    ensures
        each_with_comma(split_char(s, ',')) == s + seq![','],
    decreases s.len(),
{
    let p = split_char(s, ',');
    if s.len() == 0 {
        assert(p =~= seq![Seq::<char>::empty()]);
        assert(p.drop_last() =~= Seq::<Seq<char>>::empty());
        assert(each_with_comma(p) == each_with_comma(p.drop_last()) + p.last() + seq![',']);
        assert(each_with_comma(p) =~= s + seq![',']);
    } else {
        let init = split_char(s.drop_last(), ',');
        lemma_pieces_rejoined(s.drop_last());
        lemma_split_char_nonempty(s.drop_last(), ',');
        if s.last() == ',' {
            assert(p == init.push(Seq::<char>::empty()));
            assert(p.drop_last() =~= init);
            assert(each_with_comma(p) == each_with_comma(p.drop_last()) + p.last() + seq![',']);
            assert(each_with_comma(p) =~= s + seq![',']);
        } else {
            let c = s.last();
            assert(p == init.update(init.len() - 1, init.last().push(c)));
            assert(p.drop_last() =~= init.drop_last());
            assert(p.last() == init.last().push(c));
            assert(each_with_comma(init) == each_with_comma(init.drop_last()) + init.last() + seq![',']);
            let x = each_with_comma(init.drop_last()) + init.last();
            assert(x + seq![','] == s.drop_last() + seq![',']);
            assert((x + seq![',']).drop_last() =~= x);
            assert((s.drop_last() + seq![',']).drop_last() =~= s.drop_last());
            assert(x == s.drop_last());
            assert(each_with_comma(p) == each_with_comma(p.drop_last()) + p.last() + seq![',']);
            assert(each_with_comma(p.drop_last()) == each_with_comma(init.drop_last()));
            assert(each_with_comma(init.drop_last()) + init.last().push(c) =~= x.push(c));
            assert(x.push(c) =~= s);
            assert(each_with_comma(p) =~= s + seq![',']);
        }
    }
}

proof fn lemma_each_with_comma_prefix(ps: Seq<Seq<char>>, k: int)
    requires
        0 <= k <= ps.len(),
    ensures
        each_with_comma(ps.take(k)).len() <= each_with_comma(ps).len(),
        each_with_comma(ps).take(each_with_comma(ps.take(k)).len() as int) == each_with_comma(ps.take(k)),
    decreases ps.len() - k,
{
    if k < ps.len() {
        lemma_each_with_comma_prefix(ps, k + 1);
        let a = each_with_comma(ps.take(k));
        let b = each_with_comma(ps.take(k + 1));
        assert(ps.take(k + 1).drop_last() =~= ps.take(k));
        assert(b == a + ps[k] + seq![',']);
        assert(each_with_comma(ps).take(a.len() as int) =~= b.take(a.len() as int));
        assert(b.take(a.len() as int) =~= a);
    } else {
        assert(ps.take(k) =~= ps);
    }
}

/// `trim_result` keeps a beginning of its input: what it gives, when not
/// the whole input followed by a comma (which it gives when the input has
/// no more than `threshold` items), is a prefix of the input.
pub proof fn lemma_trim_keeps_prefix(inp: Seq<char>, threshold: nat)
    ensures
        ({
            let r = trimmed(inp, threshold);
            let full = inp + seq![','];
            &&& r.len() <= full.len()
            &&& full.take(r.len() as int) == r
            &&& split_char(inp, ',').len() <= threshold ==> r == full
            &&& split_char(inp, ',').len() > threshold ==> r.len() <= inp.len() && inp.take(r.len() as int) == r
        }),
{
    let ps = split_char(inp, ',');
    lemma_pieces_rejoined(inp);
    let full = inp + seq![','];
    if ps.len() > threshold {
        let t = threshold as int;
        lemma_each_with_comma_prefix(ps, t + 1);
        let a = each_with_comma(ps.take(t));
        assert(ps.take(t + 1).drop_last() =~= ps.take(t));
        assert(ps.take(t + 1).last() == ps[t]);
        let b = each_with_comma(ps.take(t + 1));
        assert(b == a + ps[t] + seq![',']);
        let r = a + ps[t];
        assert(full.take(b.len() as int) == b);
        assert(full.take(r.len() as int) =~= b.take(r.len() as int));
        assert(b.take(r.len() as int) =~= r);
        assert(inp.take(r.len() as int) =~= full.take(r.len() as int));
    } else {
        assert(full.take(full.len() as int) =~= full);
    }
}


/// Every tracked line holds at least one record.
pub open spec fn all_lines_recorded(m: LineMapView) -> bool {
    forall|k: u32| #[trigger] m.contains_key(k) ==> m[k].len() >= 1
}

proof fn lemma_fill_keeps_records(m: LineMapView, s: nat, adds: Seq<Seq<char>>)
    requires
        all_lines_recorded(m),
    ensures
        all_lines_recorded(fill_lines(m, s, adds)),
    decreases adds.len(),
{
    if adds.len() > 0 {
        lemma_fill_keeps_records(m, s, adds.drop_last());
    }
}

proof fn lemma_shifted_keeps_records(m: LineMapView, lo: int, delta: int)
    requires
        all_lines_recorded(m),
    ensures
        all_lines_recorded(shifted(m, lo, delta)),
{
    assert forall|k: u32| #[trigger] shifted(m, lo, delta).contains_key(k) implies shifted(m, lo, delta)[k].len() >= 1 by {
        if moved_to(m, lo, delta, k) {
            assert(m.contains_key(shift_key(k as int, -delta) as u32));
        }
    }
}

/// Applying a hunk keeps every tracked line with at least one record.
pub proof fn lemma_reorder_keeps_records(
    h: Seq<char>,
    category: Option<DiffCases>,
    m: LineMapView,
    cb: u32,
    s: u32,
    ca_n: u32,
    ca: Seq<Seq<char>>,
    r: Seq<u32>,
)
    requires
        all_lines_recorded(m),
        reorder_ok_at(h, category, m, cb, s, ca_n, ca, r),
    ensures
        all_lines_recorded(reorder_at(h, category, m, cb, s, ca_n, ca, r)),
{
    let out = reorder_at(h, category, m, cb, s, ca_n, ca, r);
    match category {
        Some(DiffCases::FewLinesReplacedWithSingleLine) => {
            let e = s + cb;
            let m1 = update_range(m, s as int, e, touch_or_drop(ca, s as int, h, r));
            assert(all_lines_recorded(m1));
            lemma_shifted_keeps_records(m1, e, 1 - cb);
        },
        Some(DiffCases::FewLinesReplacedWithFewLines) => {
            let e = s + cb;
            let e2 = s + ca_n;
            let diff = as_i32(ca_n) - as_i32(cb);
            if diff > 0 {
                let m1 = shifted(m, e, diff);
                lemma_shifted_keeps_records(m, e, diff);
                let m2 = update_range(m1, s as int, e2, keep_or_add(ca, s as int, h, r));
                assert(all_lines_recorded(m2));
            } else {
                let m1 = update_range(m, s as int, e + 1, touch_replaced(ca, s as int, h, r));
                let m2 = update_range(m1, s as int, e, drop_unreplaced(r));
                let m3 = update_range(m2, s as int, e2, add_unreplaced(ca, s as int, h, r));
                assert(all_lines_recorded(m1));
                assert(all_lines_recorded(m2));
                assert(all_lines_recorded(m3));
                lemma_shifted_keeps_records(m3, e2, diff);
            }
        },
        Some(DiffCases::SingleLineDeleted) => {
            lemma_shifted_keeps_records(m.remove(s), s + 1, -1);
        },
        Some(DiffCases::FewLinesDeleted) => {
            let m1 = update_range(m, s as int, s + cb, drop_line());
            assert(all_lines_recorded(m1));
            lemma_shifted_keeps_records(m1, s + cb, -cb);
        },
        Some(DiffCases::SingleLineReplacedWithAnotherSingleLine) => {},
        Some(DiffCases::NewLinesAdded) => {
            lemma_shifted_keeps_records(m, s as int, ca_n as int);
            let m1 = shifted(m, s as int, ca_n as int);
            assert(all_lines_recorded(update_range(m1, s as int, s + ca_n, add_line(ca, s as int, h))));
        },
        _ => {},
    }
}

/// On a file whose tracked lines are exactly `1..=n`, a hunk that replaces
/// the `cb` lines from `s` by a single line, none of them kept as replaced,
/// can be applied; afterwards the lines above `s` are as they were, lines
/// `s..s + cb` are gone, and every later line `l` stands at `l - (cb - 1)`,
/// so that exactly the lines `1..s` and `s + 1..=n - cb + 1` are tracked.
pub proof fn lemma_replaced_by_one_moves_up(
    m: LineMapView,
    h: Seq<char>,
    s: u32,
    cb: u32,
    ca: Seq<Seq<char>>,
    n: u32,
)
    requires
        forall|k: u32| #[trigger] m.contains_key(k) <==> 1 <= k <= n,
        1 <= s,
        cb >= 2,
        s + cb <= n,
    ensures
        reorder_ok_at(h, Some(DiffCases::FewLinesReplacedWithSingleLine), m, cb, s, 1, ca, Seq::empty()),
        ({
            let out = reorder_at(h, Some(DiffCases::FewLinesReplacedWithSingleLine), m, cb, s, 1, ca, Seq::empty());
            &&& forall|l: u32| l < s ==> #[trigger] out.contains_key(l) == m.contains_key(l) && (m.contains_key(l)
                ==> out[l] == m[l])
            &&& forall|l: u32|
                s + cb <= l <= n ==> #[trigger] out.contains_key((l - (cb - 1)) as u32) && out[(l - (cb - 1)) as u32]
                    == m[l]
            &&& forall|t: u32| #[trigger] out.contains_key(t) <==> (1 <= t < s || s + 1 <= t <= n - cb + 1)
        }),
{
    let e = s + cb;
    let r = Seq::<u32>::empty();
    let m1 = update_range(m, s as int, e, touch_or_drop(ca, s as int, h, r));
    let out = reorder_at(h, Some(DiffCases::FewLinesReplacedWithSingleLine), m, cb, s, 1, ca, r);
    assert(out == shifted(m1, e, 1 - cb));
    assert forall|t: u32| #[trigger] moved_to(m1, e, 1 - cb, t) <==> (s + 1 <= t <= n - cb + 1) by {
        lemma_shift_key_inverse(t as int, cb - 1);
    }
    assert forall|l: u32| l < s implies #[trigger] out.contains_key(l) == m.contains_key(l) && (m.contains_key(l)
        ==> out[l] == m[l]) by {
        lemma_shift_key_inverse(l as int, cb - 1);
    }
    assert forall|l: u32| s + cb <= l <= n implies #[trigger] out.contains_key((l - (cb - 1)) as u32) && out[(l - (cb
        - 1)) as u32] == m[l] by {
        let t = (l - (cb - 1)) as u32;
        lemma_shift_key_inverse(t as int, cb - 1);
        assert(moved_to(m1, e, 1 - cb, t));
    }
    assert forall|t: u32| #[trigger] out.contains_key(t) <==> (1 <= t < s || s + 1 <= t <= n - cb + 1) by {
        lemma_shift_key_inverse(t as int, cb - 1);
    }
}

proof fn lemma_shifted_twice<V>(m: Map<u32, V>, lo: u32, a: u32, b: u32)
    requires
        a + b <= u32::MAX,
        forall|k: u32| #[trigger] m.contains_key(k) && k >= lo ==> k + a + b <= u32::MAX,
    ensures
        forall|k: u32| #[trigger] shifted(m, lo as int, a as int).contains_key(k) && k >= lo ==> k + b <= u32::MAX,
        shifted(shifted(m, lo as int, a as int), lo as int, b as int) == shifted(m, lo as int, a + b),
{
    let m1 = shifted(m, lo as int, a as int);
    let m2 = shifted(m1, lo as int, b as int);
    let m3 = shifted(m, lo as int, a + b);
    assert forall|k: u32| #[trigger] m1.contains_key(k) && k >= lo implies k + b <= u32::MAX by {
        lemma_shift_key_inverse(k as int, -a);
        let src = shift_key(k as int, -a);
        if !moved_to(m, lo as int, a as int, k) {
            assert(k < lo);
        } else {
            assert(m.contains_key(src as u32));
            if k - a < 0 {
                assert(src == k - a + 0x1_0000_0000);
            }
        }
    }
    assert forall|t: u32| #[trigger] m2.contains_key(t) == m3.contains_key(t) && (m3.contains_key(t) ==> m2[t]
        == m3[t]) by {
        lemma_shift_key_inverse(t as int, -b);
        lemma_shift_key_inverse(t as int, -(a + b));
        let s1 = shift_key(t as int, -b);
        let s3 = shift_key(t as int, -(a + b));
        lemma_shift_key_inverse(s1, -a);
        let s2 = shift_key(s1, -a);
        if t - b >= 0 {
            if t - a - b >= 0 {
                assert(s2 == s3);
            } else {
                if s3 >= lo && m.contains_key(s3 as u32) {
                    assert(s3 == t - a - b + 0x1_0000_0000);
                }
                if s1 >= lo && m1.contains_key(s1 as u32) && moved_to(m, lo as int, a as int, s1 as u32) {
                    assert(s2 == s1 - a + 0x1_0000_0000);
                }
            }
        } else {
            if s1 >= lo && m1.contains_key(s1 as u32) {
                assert(s1 == t - b + 0x1_0000_0000);
                if moved_to(m, lo as int, a as int, s1 as u32) {
                    assert(s2 == s1 - a);
                }
            }
            if s3 >= lo && m.contains_key(s3 as u32) {
                assert(s3 == t - a - b + 0x1_0000_0000);
            }
        }
    }
    assert(m2 =~= m3);
}

/// Two moves of the lines of a file from the same line, by `a` and then by
/// `b`, are one move by `a + b`; the second move is possible wherever the
/// single one is.
pub proof fn lemma_shifts_compose(m: HistoryView, f: Seq<char>, s: u32, a: u32, b: u32)
    requires
        a + b <= u32::MAX,
        shift_fits(m, f, s, (a + b) as nat),
    ensures
        shift_fits(m, f, s, a as nat),
        shift_fits(shift_after_insert(m, f, s, a), f, s, b as nat),
        shift_after_insert(shift_after_insert(m, f, s, a), f, s, b) == shift_after_insert(m, f, s, (a + b) as u32),
{
    if m.contains_key(f) {
        lemma_shifted_twice(m[f], s, a, b);
        let m1 = shift_after_insert(m, f, s, a);
        assert(m1[f] == shifted(m[f], s as int, a as int));
        assert(shift_after_insert(m1, f, s, b) =~= shift_after_insert(m, f, s, (a + b) as u32));
    }
}

/// `a` and `b` agree on every file but `f`.
pub open spec fn same_elsewhere(a: HistoryView, b: HistoryView, f: Seq<char>) -> bool {
    forall|g: Seq<char>|
        g != f ==> (#[trigger] a.contains_key(g) == b.contains_key(g) && (b.contains_key(g) ==> a[g] == b[g]))
}

proof fn lemma_same_elsewhere_trans(a: HistoryView, b: HistoryView, c: HistoryView, f: Seq<char>)
    requires
        same_elsewhere(a, b, f),
        same_elsewhere(b, c, f),
    ensures
        same_elsewhere(a, c, f),
{
    assert forall|g: Seq<char>| g != f implies (#[trigger] a.contains_key(g) == c.contains_key(g) && (c.contains_key(
        g,
    ) ==> a[g] == c[g])) by {
        assert(a.contains_key(g) == b.contains_key(g));
        assert(b.contains_key(g) == c.contains_key(g));
    }
}

proof fn lemma_track_all_elsewhere(m: HistoryView, f: Seq<char>, adds: Pending, h: Seq<char>)
    ensures
        same_elsewhere(track_all(m, f, adds, h), m, f),
    decreases adds.len(),
{
    if adds.len() > 0 {
        let p = adds.last();
        let m1 = track_all(m, f, adds.drop_last(), h);
        lemma_track_all_elsewhere(m, f, adds.drop_last(), h);
        assert(same_elsewhere(track(m1, f, p.0 as u32, p.1, h), m1, f));
        lemma_same_elsewhere_trans(track(m1, f, p.0 as u32, p.1, h), m1, m, f);
    }
}

proof fn lemma_walk_elsewhere(
    lines: Seq<Seq<char>>,
    i: nat,
    f: Seq<char>,
    h: Seq<char>,
    dels: Pending,
    adds: Pending,
    ln: int,
    m: HistoryView,
)
    ensures
        same_elsewhere(walk_diff(lines, i, f, h, dels, adds, ln, m).2, m, f),
    decreases lines.len() - i,
{
    if i < lines.len() {
        let line = lines[i as int];
        if opens_hunk(line) {
            let m1 = track_all(m, f, adds, h);
            lemma_track_all_elsewhere(m, f, adds, h);
            lemma_walk_elsewhere(lines, i + 1, f, h, Seq::empty(), Seq::empty(), hunk_start(line, ln), m1);
            lemma_same_elsewhere_trans(
                walk_diff(lines, i + 1, f, h, Seq::empty(), Seq::empty(), hunk_start(line, ln), m1).2,
                m1,
                m,
                f,
            );
        } else if starts_with_char(line, '-') {
            lemma_walk_elsewhere(lines, i + 1, f, h, dels.push((ln, line.drop_first())), adds, ln, m);
        } else if starts_with_char(line, '+') {
            lemma_walk_elsewhere(lines, i + 1, f, h, dels, adds.push((ln, line.drop_first())), ln + 1, m);
        } else {
            lemma_walk_elsewhere(lines, i + 1, f, h, dels, adds, ln + 1, m);
        }
    }
}

proof fn lemma_match_elsewhere(
    m: HistoryView,
    f: Seq<char>,
    h: Seq<char>,
    dels: Pending,
    k: nat,
    adds: Pending,
    matched: Seq<bool>,
)
    ensures
        same_elsewhere(match_deleted(m, f, h, dels, k, adds, matched), m, f),
    decreases dels.len() - k,
{
    if k < dels.len() {
        match first_close(dels[k as int].1, adds, matched, 0) {
            Some(j) => {
                let m1 = track(m, f, adds[j as int].0 as u32, adds[j as int].1, h);
                lemma_match_elsewhere(m1, f, h, dels, k + 1, adds, matched.update(j as int, true));
                lemma_same_elsewhere_trans(
                    match_deleted(m1, f, h, dels, k + 1, adds, matched.update(j as int, true)),
                    m1,
                    m,
                    f,
                );
            },
            None => {
                lemma_match_elsewhere(m, f, h, dels, k + 1, adds, matched);
            },
        }
    }
}

/// Reading a commit's diff for file `f` changes the tracked lines of no
/// other file.
pub proof fn lemma_extract_touches_only_file(h: Seq<char>, lines: Seq<Seq<char>>, f: Seq<char>, m: HistoryView)
    ensures
        same_elsewhere(extract_spec(h, lines, f, m), m, f),
{
    let w = walk_diff(lines, 0, f, h, Seq::empty(), Seq::empty(), 0, m);
    lemma_walk_elsewhere(lines, 0, f, h, Seq::empty(), Seq::empty(), 0, m);
    let t = track_all(w.2, f, w.1, h);
    lemma_track_all_elsewhere(w.2, f, w.1, h);
    lemma_same_elsewhere_trans(t, w.2, m, f);
    let matched = Seq::new(w.1.len(), |j: int| false);
    lemma_match_elsewhere(t, f, h, w.0, 0, w.1, matched);
    lemma_same_elsewhere_trans(match_deleted(t, f, h, w.0, 0, w.1, matched), t, m, f);
}

/// The added lines of the diff from line `i` on, with the line numbers
/// that `walk_diff` gives them when it reaches line `i` at number `ln`.
pub open spec fn plus_lines(lines: Seq<Seq<char>>, i: nat, ln: int) -> Pending
    decreases lines.len() - i,
{
    if i >= lines.len() {
        Seq::empty()
    } else {
        let line = lines[i as int];
        if opens_hunk(line) {
            plus_lines(lines, i + 1, hunk_start(line, ln))
        } else if starts_with_char(line, '-') {
            plus_lines(lines, i + 1, ln)
        } else if starts_with_char(line, '+') {
            seq![(ln, line.drop_first())] + plus_lines(lines, i + 1, ln + 1)
        } else {
            plus_lines(lines, i + 1, ln + 1)
        }
    }
}

/// The pending lines `ps` fall on distinct lines once their numbers are
/// read as `u32`.
pub open spec fn distinct_numbers(ps: Pending) -> bool {
    forall|i: int, j: int| 0 <= i < j < ps.len() ==> (#[trigger] ps[i]).0 as u32 != (#[trigger] ps[j]).0 as u32
}

/// Line `p` of file `f` holds the content of `p` and names `h` as its latest
/// commit.
pub open spec fn line_holds(m: HistoryView, f: Seq<char>, p: (int, Seq<char>), h: Seq<char>) -> bool {
    &&& m.contains_key(f)
    &&& m[f].contains_key(p.0 as u32)
    &&& m[f][p.0 as u32].0 == p.1
    &&& m[f][p.0 as u32].1.len() > 0
    &&& m[f][p.0 as u32].1.last() == h
}

/// Every line of `ps` holds in `m`.
pub open spec fn all_hold(m: HistoryView, f: Seq<char>, ps: Pending, h: Seq<char>) -> bool {
    forall|j: int| 0 <= j < ps.len() ==> line_holds(m, f, #[trigger] ps[j], h)
}

proof fn lemma_track_holding(m: HistoryView, f: Seq<char>, p: (int, Seq<char>), h: Seq<char>)
    requires
        line_holds(m, f, p, h),
    ensures
        track(m, f, p.0 as u32, p.1, h) == m,
{
    let fm = m[f];
    let n = p.0 as u32;
    assert(fm.index_opt(n) == Some(fm[n]));
    assert(touched_line(fm.index_opt(n), p.1, h) == fm[n]);
    assert(fm.insert(n, fm[n]) =~= fm);
    assert(m.insert(f, fm) =~= m);
}

proof fn lemma_track_all_holding(m: HistoryView, f: Seq<char>, q: Pending, h: Seq<char>)
    requires
        all_hold(m, f, q, h),
    ensures
        track_all(m, f, q, h) == m,
    decreases q.len(),
{
    if q.len() > 0 {
        let init = q.drop_last();
        assert forall|j: int| 0 <= j < init.len() implies line_holds(m, f, #[trigger] init[j], h) by {
            assert(init[j] == q[j]);
        }
        lemma_track_all_holding(m, f, init, h);
        assert(line_holds(m, f, q[q.len() - 1], h));
        lemma_track_holding(m, f, q.last(), h);
    }
}

proof fn lemma_match_holding(
    m: HistoryView,
    f: Seq<char>,
    h: Seq<char>,
    dels: Pending,
    k: nat,
    adds: Pending,
    matched: Seq<bool>,
)
    requires
        all_hold(m, f, adds, h),
    ensures
        match_deleted(m, f, h, dels, k, adds, matched) == m,
    decreases dels.len() - k,
{
    if k < dels.len() {
        lemma_first_close_bound(dels[k as int].1, adds, matched, 0);
        match first_close(dels[k as int].1, adds, matched, 0) {
            Some(j) => {
                assert(line_holds(m, f, adds[j as int], h));
                lemma_track_holding(m, f, adds[j as int], h);
                lemma_match_holding(m, f, h, dels, k + 1, adds, matched.update(j as int, true));
            },
            None => {
                lemma_match_holding(m, f, h, dels, k + 1, adds, matched);
            },
        }
    }
}

proof fn lemma_track_all_append(m: HistoryView, f: Seq<char>, a: Pending, b: Pending, h: Seq<char>)
    ensures
        track_all(track_all(m, f, a, h), f, b, h) == track_all(m, f, a + b, h),
    decreases b.len(),
{
    if b.len() == 0 {
        assert(a + b =~= a);
    } else {
        lemma_track_all_append(m, f, a, b.drop_last(), h);
        assert((a + b).drop_last() =~= a + b.drop_last());
        assert((a + b).last() == b.last());
    }
}

proof fn lemma_walk_tracks(
    lines: Seq<Seq<char>>,
    i: nat,
    f: Seq<char>,
    h: Seq<char>,
    dels: Pending,
    adds: Pending,
    ln: int,
    m: HistoryView,
)
    ensures
        ({
            let w = walk_diff(lines, i, f, h, dels, adds, ln, m);
            &&& track_all(w.2, f, w.1, h) == track_all(m, f, adds + plus_lines(lines, i, ln), h)
            &&& forall|j: int| 0 <= j < w.1.len() ==> (adds + plus_lines(lines, i, ln)).contains(#[trigger] w.1[j])
        }),
    decreases lines.len() - i,
{
    let w = walk_diff(lines, i, f, h, dels, adds, ln, m);
    let all = adds + plus_lines(lines, i, ln);
    if i >= lines.len() {
        assert(all =~= adds);
        assert forall|j: int| 0 <= j < w.1.len() implies all.contains(#[trigger] w.1[j]) by {
            assert(all[j] == w.1[j]);
        }
    } else {
        let line = lines[i as int];
        if opens_hunk(line) {
            let hs = hunk_start(line, ln);
            let m1 = track_all(m, f, adds, h);
            let e = Seq::<(int, Seq<char>)>::empty();
            let rest = plus_lines(lines, i + 1, hs);
            lemma_walk_tracks(lines, i + 1, f, h, e, e, hs, m1);
            assert(e + rest =~= rest);
            lemma_track_all_append(m, f, adds, rest, h);
            assert forall|j: int| 0 <= j < w.1.len() implies all.contains(#[trigger] w.1[j]) by {
                assert((e + rest).contains(w.1[j]));
                let t = choose|t: int| 0 <= t < rest.len() && rest[t] == w.1[j];
                assert(all[adds.len() + t] == w.1[j]);
            }
        } else if starts_with_char(line, '-') {
            lemma_walk_tracks(lines, i + 1, f, h, dels.push((ln, line.drop_first())), adds, ln, m);
        } else if starts_with_char(line, '+') {
            let p = (ln, line.drop_first());
            let rest = plus_lines(lines, i + 1, ln + 1);
            lemma_walk_tracks(lines, i + 1, f, h, dels, adds.push(p), ln + 1, m);
            assert(adds.push(p) + rest =~= all);
        } else {
            lemma_walk_tracks(lines, i + 1, f, h, dels, adds, ln + 1, m);
        }
    }
}

proof fn lemma_track_all_distinct(m: HistoryView, f: Seq<char>, ps: Pending, h: Seq<char>)
    requires
        distinct_numbers(ps),
    ensures
        all_hold(track_all(m, f, ps, h), f, ps, h),
    decreases ps.len(),
{
    if ps.len() > 0 {
        let init = ps.drop_last();
        let p = ps.last();
        assert forall|i: int, j: int| 0 <= i < j < init.len() implies (#[trigger] init[i]).0 as u32
            != (#[trigger] init[j]).0 as u32 by {
            assert(init[i] == ps[i] && init[j] == ps[j]);
        }
        lemma_track_all_distinct(m, f, init, h);
        let m1 = track_all(m, f, init, h);
        let m2 = track(m1, f, p.0 as u32, p.1, h);
        assert forall|j: int| 0 <= j < ps.len() implies line_holds(m2, f, #[trigger] ps[j], h) by {
            if j < ps.len() - 1 {
                assert(init[j] == ps[j]);
                assert(line_holds(m1, f, init[j], h));
                assert(ps[j].0 as u32 != ps[ps.len() - 1].0 as u32);
            }
        }
    }
}

proof fn lemma_extract_settles(h: Seq<char>, lines: Seq<Seq<char>>, f: Seq<char>, m: HistoryView)
    ensures
        ({
            let ps = plus_lines(lines, 0, 0);
            &&& distinct_numbers(ps) ==> all_hold(extract_spec(h, lines, f, m), f, ps, h)
            &&& all_hold(m, f, ps, h) ==> extract_spec(h, lines, f, m) == m
        }),
{
    let ps = plus_lines(lines, 0, 0);
    let e = Seq::<(int, Seq<char>)>::empty();
    let w = walk_diff(lines, 0, f, h, e, e, 0, m);
    lemma_walk_tracks(lines, 0, f, h, e, e, 0, m);
    assert(e + ps =~= ps);
    let t = track_all(w.2, f, w.1, h);
    let matched = Seq::new(w.1.len(), |j: int| false);
    assert(extract_spec(h, lines, f, m) == match_deleted(t, f, h, w.0, 0, w.1, matched));
    if distinct_numbers(ps) {
        lemma_track_all_distinct(m, f, ps, h);
    }
    if all_hold(m, f, ps, h) {
        lemma_track_all_holding(m, f, ps, h);
    }
    if all_hold(t, f, ps, h) {
        assert forall|j: int| 0 <= j < w.1.len() implies line_holds(t, f, #[trigger] w.1[j], h) by {
            assert(ps.contains(w.1[j]));
            let k = choose|k: int| 0 <= k < ps.len() && ps[k] == w.1[j];
            assert(line_holds(t, f, ps[k], h));
        }
        lemma_match_holding(t, f, h, w.0, 0, w.1, matched);
    }
}

/// Reading the same diff of the same commit for the same file a second
/// time changes nothing, as long as the added lines of the diff fall on
/// distinct line numbers.
pub proof fn lemma_extract_twice(h: Seq<char>, lines: Seq<Seq<char>>, f: Seq<char>, m: HistoryView)
    requires
        distinct_numbers(plus_lines(lines, 0, 0)),
    ensures
        extract_spec(h, lines, f, extract_spec(h, lines, f, m)) == extract_spec(h, lines, f, m),
{
    lemma_extract_settles(h, lines, f, m);
    lemma_extract_settles(h, lines, f, extract_spec(h, lines, f, m));
}

/// Moving the lines of a file by nothing leaves them where they are.
pub proof fn lemma_shift_by_nothing<V>(m: Map<u32, V>, lo: int)
    ensures
        shifted(m, lo, 0) == m,
{
    assert forall|k: u32| #[trigger] shifted(m, lo, 0).contains_key(k) == m.contains_key(k) && (m.contains_key(k)
        ==> shifted(m, lo, 0)[k] == m[k]) by {
        lemma_shift_key_inverse(k as int, 0);
    }
    assert(shifted(m, lo, 0) =~= m);
}


/// Reading a commit's diff into the line map keeps every tracked line with
/// at least one record, whether it succeeds or stops on a hunk.
pub proof fn lemma_parse_keeps_records(h: Seq<char>, lines: Seq<Seq<char>>, i: nat, m: LineMapView)
    requires
        all_lines_recorded(m),
    ensures
        match parse_from(h, lines, i, m) {
            Ok(m2) => all_lines_recorded(m2),
            Err((m2, _)) => all_lines_recorded(m2),
        },
    decreases lines.len() - i,
{
    if i < lines.len() {
        let line = crate::text::trim(lines[i as int]);
        if !crate::diff_v2::is_hunk_header(line) {
            lemma_parse_keeps_records(h, lines, i + 1, m);
        } else {
            match crate::diff_v2::header_range(line) {
                None => {},
                Some(range) => match fetch_spec(range) {
                    None => {},
                    Some((bs, bc, as_, ac)) => {
                        let p = i + 1;
                        let nd = crate::diff_v2::taken_deleted(lines.len(), p, bc);
                        let na = crate::diff_v2::taken_added(lines.len(), p, bc, ac);
                        let dels = lines.subrange(p as int, (p + nd) as int);
                        let adds = lines.subrange((p + nd) as int, (p + nd + na) as int);
                        let next: nat = p + nd + na;
                        if m.is_empty() {
                            let m2 = fill_added(m, Some(as_ as u32), adds);
                            lemma_fill_keeps_records(m, as_, adds);
                            lemma_parse_keeps_records(h, lines, next, m2);
                        } else {
                            match crate::diff_v2::offset_lines(crate::diff_v2::replacements(dels, adds), bs) {
                                None => {},
                                Some(r) => {
                                    let cat = categorize_spec(range);
                                    if reorder_ok_at(h, cat, m, bc as u32, as_ as u32, ac as u32, adds, r) {
                                        lemma_reorder_keeps_records(h, cat, m, bc as u32, as_ as u32, ac as u32, adds, r);
                                        lemma_parse_keeps_records(
                                            h,
                                            lines,
                                            next,
                                            reorder_at(h, cat, m, bc as u32, as_ as u32, ac as u32, adds, r),
                                        );
                                    }
                                },
                            }
                        }
                    },
                },
            }
        }
    }
}


proof fn lemma_append_untouched_line(d: LineData, details: Seq<AuthorDetailsV2View>, ln: usize)
    requires
        forall|i: int| 0 <= i < details.len() ==> #[trigger] details[i].0 != ln,
    ensures
        append_details(d, details).contains_key(ln) == d.contains_key(ln),
        d.contains_key(ln) ==> append_details(d, details)[ln] == d[ln],
    decreases details.len(),
{
    if details.len() > 0 {
        let init = details.drop_last();
        assert forall|i: int| 0 <= i < init.len() implies #[trigger] init[i].0 != ln by {
            assert(init[i] == details[i]);
        }
        lemma_append_untouched_line(d, init, ln);
        assert(details.last().0 != ln);
    }
}

/// What `append_to_db` writes for a line, a lookup of that line gives
/// back: where one record names line `ln`, the commits that stand for
/// `ln` afterwards are those it had, followed by the record's commits.
pub proof fn lemma_read_back_appended(d: LineData, details: Seq<AuthorDetailsV2View>, j: int, ln: usize)
    requires
        0 <= j < details.len(),
        details[j].0 == ln,
        forall|i: int| 0 <= i < details.len() && i != j ==> #[trigger] details[i].0 != ln,
    ensures
        covering_hashes(append_details(d, details), ln as int, ln + 1) == (if d.contains_key(ln) {
            d[ln]
        } else {
            Seq::empty()
        }) + details[j].2,
    decreases details.len(),
{
    let out = append_details(d, details);
    let init = details.drop_last();
    if j == details.len() - 1 {
        assert forall|i: int| 0 <= i < init.len() implies #[trigger] init[i].0 != ln by {
            assert(init[i] == details[i]);
        }
        lemma_append_untouched_line(d, init, ln);
    } else {
        assert forall|i: int| 0 <= i < init.len() && i != j implies #[trigger] init[i].0 != ln by {
            assert(init[i] == details[i]);
        }
        assert(init[j] == details[j]);
        lemma_read_back_appended(d, init, j, ln);
        let prev = append_details(d, init);
        assert(details.last().0 != ln);
        assert(covering_hashes(prev, ln as int, ln as int) =~= Seq::<Seq<char>>::empty());
        lemma_append_keeps_history(d, init);
        assert(prev.contains_key(ln));
        assert(covering_line(prev, ln) == Some(ln));
        assert(covering_hashes(prev, ln as int, ln + 1) =~= prev[ln]);
        assert(out[ln] == prev[ln]);
    }
    assert(out.contains_key(ln));
    assert(covering_line(out, ln) == Some(ln));
    assert(covering_hashes(out, ln as int, ln as int) =~= Seq::<Seq<char>>::empty());
    assert(covering_hashes(out, ln as int, ln + 1) =~= out[ln]);
}


/// Each line that the last hunk of a commit's diff adds ends up with the
/// added content and the commit as its latest one, as long as the added
/// lines of that hunk have distinct line numbers.
pub proof fn lemma_added_lines_recorded(h: Seq<char>, lines: Seq<Seq<char>>, f: Seq<char>, m: HistoryView, j: int)
    requires
        distinct_line_numbers(walk_diff(lines, 0, f, h, Seq::empty(), Seq::empty(), 0, m).1),
        0 <= j < walk_diff(lines, 0, f, h, Seq::empty(), Seq::empty(), 0, m).1.len(),
    ensures
        ({
            let adds = walk_diff(lines, 0, f, h, Seq::empty(), Seq::empty(), 0, m).1;
            let out = extract_spec(h, lines, f, m);
            &&& out.contains_key(f)
            &&& out[f].contains_key(adds[j].0 as u32)
            &&& out[f][adds[j].0 as u32].0 == adds[j].1
            &&& out[f][adds[j].0 as u32].1.len() > 0
            &&& out[f][adds[j].0 as u32].1.last() == h
        }),
{
    let w = walk_diff(lines, 0, f, h, Seq::empty(), Seq::empty(), 0, m);
    lemma_matching_changes_nothing(h, lines, f, m);
    lemma_track_all_records(w.2, f, w.1, h, j);
}


/// The first record of a line names `h` as its latest commit.
pub open spec fn latest_is(v: Seq<LineDetailView>, h: Seq<char>) -> bool {
    v.len() >= 1 && v[0].1.len() > 0 && v[0].1.last() == h
}

/// After a hunk of commit `h` is applied, each tracked line among the
/// lines the hunk wrote, `s..s + ca_n`, names `h` as its latest commit. The
/// category is the one the two counts give, other than `NoneFound` (which
/// writes nothing), and the counts are below 2^31.
pub proof fn lemma_written_lines_name_commit(
    h: Seq<char>,
    category: Option<DiffCases>,
    m: LineMapView,
    cb: u32,
    s: u32,
    ca_n: u32,
    ca: Seq<Seq<char>>,
    r: Seq<u32>,
    t: u32,
)
    requires
        all_lines_recorded(m),
        reorder_ok_at(h, category, m, cb, s, ca_n, ca, r),
        category == Some(classify(cb as nat, ca_n as nat)),
        category != Some(DiffCases::NoneFound),
        cb < 0x8000_0000,
        ca_n < 0x8000_0000,
        s <= t < s + ca_n,
        reorder_at(h, category, m, cb, s, ca_n, ca, r).contains_key(t),
    ensures
        latest_is(reorder_at(h, category, m, cb, s, ca_n, ca, r)[t], h),
{
    let out = reorder_at(h, category, m, cb, s, ca_n, ca, r);
    match category {
        Some(DiffCases::FewLinesReplacedWithSingleLine) => {
            let e = s + cb;
            let m1 = update_range(m, s as int, e, touch_or_drop(ca, s as int, h, r));
            assert(t == s);
            lemma_shift_key_inverse(t as int, cb - 1);
            assert(!moved_to(m1, e, 1 - cb, t));
            assert(m1.contains_key(t));
            assert(m.contains_key(t) && r.contains(t));
        },
        Some(DiffCases::FewLinesReplacedWithFewLines) => {
            let e = s + cb;
            let e2 = s + ca_n;
            let diff = as_i32(ca_n) - as_i32(cb);
            assert(diff == ca_n - cb);
            if diff > 0 {
                let m1 = shifted(m, e, diff);
                lemma_shifted_keeps_records(m, e, diff);
                if r.contains(t) {
                    assert(m1.contains_key(t));
                }
            } else {
                let m1 = update_range(m, s as int, e + 1, touch_replaced(ca, s as int, h, r));
                let m2 = update_range(m1, s as int, e, drop_unreplaced(r));
                let m3 = update_range(m2, s as int, e2, add_unreplaced(ca, s as int, h, r));
                lemma_shift_key_inverse(t as int, -diff);
                let src = shift_key(t as int, -diff);
                if moved_to(m3, e2 as int, diff, t) {
                    assert(src == t - diff);
                    let su = src as u32;
                    assert(e2 <= su < e);
                    assert(m3.contains_key(su));
                    assert(m2.contains_key(su));
                    assert(r.contains(su));
                    assert(m.contains_key(su) && m[su].len() >= 1);
                    assert(out[t] == m3[su]);
                } else {
                    assert(m3.contains_key(t));
                    if r.contains(t) {
                        assert(m.contains_key(t) && m[t].len() >= 1);
                    }
                }
            }
        },
        Some(DiffCases::SingleLineReplacedWithAnotherSingleLine) => {
            assert(t == s);
        },
        Some(DiffCases::NewLinesAdded) => {},
        _ => {
            assert(ca_n == 0);
        },
    }
}

} // verus!
