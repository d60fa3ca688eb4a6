//! Whether a hunk can be applied to a line map: the conditions of
//! `reorder_ok_at`, restated over the map itself and decided by walking its
//! keys.
use std::collections::HashMap;
use vstd::prelude::*;
use crate::diff_v2::{
    LineDetail, LineMapView, DiffCases, line_map_view, few_replaced_with_single_ok, touch_or_drop,
    contains_u32, few_replaced_with_few_ok, as_i32, as_i32_exec, touch_replaced,
    drop_unreplaced, add_unreplaced, reorder_ok_at,
};
use crate::line_map::{keys_of, update_range, shifted, shift_key, lemma_shift_key_inverse};
use crate::text::views;

verus! {

broadcast use vstd::std_specs::hash::group_hash_axioms;

/// Every key listed in `ks` satisfies `p`, so every key of `d` does.
pub proof fn lemma_listed_keys_all(ks: Seq<u32>, d: Set<u32>, p: spec_fn(u32) -> bool)
    requires
        ks.to_set() == d,
        forall|j: int| 0 <= j < ks.len() ==> #[trigger] p(ks[j]),
    ensures
        forall|k: u32| #[trigger] d.contains(k) ==> p(k),
{
    assert forall|k: u32| #[trigger] d.contains(k) implies p(k) by {
        assert(ks.to_set().contains(k));
        let j = choose|j: int| 0 <= j < ks.len() && ks[j] == k;
        assert(p(ks[j]));
    }
}

/// The number of records held for line `k`, or `None` where it is not
/// tracked.
fn records_at(map: &HashMap<u32, Vec<LineDetail>>, k: u32) -> (r: Option<usize>)
    ensures
        match r {
            Some(n) => line_map_view(map@).contains_key(k) && line_map_view(map@)[k].len() == n,
            None => !line_map_view(map@).contains_key(k),
        },
{
    match map.get(&k) {
        Some(v) => Some(v.len()),
        None => None,
    }
}

/// A tracked line `k` allows a hunk that replaces the `cb` lines from `s`
/// with a single line.
pub open spec fn single_key_fits(m: LineMapView, s: u32, cb: u32, ca_len: nat, r: Seq<u32>, k: u32) -> bool {
    (s <= k < s + cb && r.contains(k)) ==> m[k].len() >= 1 && k - s < ca_len
}

/// `few_replaced_with_single_ok`, over `m` alone.
pub open spec fn few_single_fits(m: LineMapView, s: u32, cb: u32, ca_len: nat, r: Seq<u32>) -> bool {
    &&& cb >= 1 || (s > 0 && m.dom().len() == 0)
    &&& s + cb <= u32::MAX
    &&& forall|k: u32| #[trigger] m.contains_key(k) ==> single_key_fits(m, s, cb, ca_len, r, k)
}

proof fn lemma_few_single_fits(m: LineMapView, h: Seq<char>, s: u32, cb: u32, ca: Seq<Seq<char>>, r: Seq<u32>)
    ensures
        few_single_fits(m, s, cb, ca.len(), r) == few_replaced_with_single_ok(m, h, s, cb, ca, r),
{
    if few_single_fits(m, s, cb, ca.len(), r) {
        assert forall|k: u32|
            s <= k < s + cb && r.contains(k) && #[trigger] m.contains_key(k) implies m[k].len() >= 1 && k - s < ca.len() by {
            assert(single_key_fits(m, s, cb, ca.len(), r, k));
        }
    }
}

/// Decides `few_replaced_with_single_ok` for the map.
fn few_single_check(
    map: &HashMap<u32, Vec<LineDetail>>,
    s: u32,
    cb: u32,
    ca_len: usize,
    replaced: &Vec<u32>,
) -> (ok: bool)
    ensures
        ok == few_single_fits(line_map_view(map@), s, cb, ca_len as nat, replaced@),
{
    let ghost m = line_map_view(map@);
    assert(m.dom() =~= map@.dom());
    let n = map.len();
    if !(cb >= 1 || (s > 0 && n == 0)) {
        return false;
    }
    if s as u64 + cb as u64 > u32::MAX as u64 {
        return false;
    }
    let e: u64 = s as u64 + cb as u64;
    let ks = keys_of(map);
    let mut i: usize = 0;
    while i < ks.len()
        invariant
            ks@.to_set() == m.dom(),
            m == line_map_view(map@),
            e == s + cb,
            i <= ks@.len(),
            forall|j: int| 0 <= j < i ==> #[trigger] single_key_fits(m, s, cb, ca_len as nat, replaced@, ks@[j]),
        decreases ks@.len() - i,
    {
        let k = ks[i];
        assert(ks@.contains(k)) by {
            assert(ks@[i as int] == k);
        }
        assert(m.contains_key(k));
        if (s as u64) <= (k as u64) && (k as u64) < e && contains_u32(replaced, k) {
            let len_k: usize = match records_at(map, k) {
                Some(x) => x,
                None => 0,
            };
            if len_k < 1 || (k - s) as usize >= ca_len {
                return false;
            }
        }
        i = i + 1;
    }
    proof {
        lemma_listed_keys_all(ks@, m.dom(), |k: u32| single_key_fits(m, s, cb, ca_len as nat, replaced@, k));
    }
    true
}

/// A tracked line `k` allows a hunk that replaces the `cb` lines from `s`
/// with `ca_n` lines.
pub open spec fn few_key_fits(m: LineMapView, s: u32, cb: u32, ca_n: u32, r: Seq<u32>, k: u32) -> bool {
    let e = s + cb;
    let e2 = s + ca_n;
    let diff = as_i32(ca_n) - as_i32(cb);
    if diff > 0 {
        &&& k >= e ==> k + diff <= u32::MAX && m[k].len() >= 1
        &&& (s <= k < e2 && k < e && r.contains(k)) ==> m[k].len() >= 1
    } else {
        (k >= e2 && !(s <= k < e && !r.contains(k))) ==> !(k >= 0x8000_0000 && k + diff < 0x8000_0000)
    }
}

/// `few_replaced_with_few_ok`, over `m` alone.
pub open spec fn few_few_fits(m: LineMapView, s: u32, cb: u32, ca_n: u32, ca_len: nat, r: Seq<u32>) -> bool {
    let e = s + cb;
    let e2 = s + ca_n;
    let diff = as_i32(ca_n) - as_i32(cb);
    &&& s + cb <= u32::MAX
    &&& s + ca_n <= u32::MAX
    &&& -0x8000_0000 <= diff <= 0x7fff_ffff
    &&& forall|k: u32| #[trigger] m.contains_key(k) ==> few_key_fits(m, s, cb, ca_n, r, k)
    &&& diff > 0 ==> ca_len >= ca_n
    &&& diff <= 0 ==> forall|k: u32|
        s <= k <= e && #[trigger] r.contains(k) ==> m.contains_key(k) && m[k].len() >= 1 && k - s < ca_len
    &&& diff <= 0 ==> forall|k: u32| s <= k < e2 && !#[trigger] r.contains(k) ==> k - s < ca_len
}

proof fn lemma_few_few_fits(
    m: LineMapView,
    h: Seq<char>,
    s: u32,
    cb: u32,
    ca_n: u32,
    ca: Seq<Seq<char>>,
    r: Seq<u32>,
)
    ensures
        few_few_fits(m, s, cb, ca_n, ca.len(), r) == few_replaced_with_few_ok(m, h, s, cb, ca_n, ca, r),
{
    let e = s + cb;
    let e2 = s + ca_n;
    let diff = as_i32(ca_n) - as_i32(cb);
    if s + cb <= u32::MAX && s + ca_n <= u32::MAX && -0x8000_0000 <= diff <= 0x7fff_ffff {
        if diff > 0 {
            let m1 = shifted(m, e, diff);
            let c1 = forall|k: u32| #[trigger] m.contains_key(k) && k >= e ==> k + diff <= u32::MAX && m[k].len() >= 1;
            if c1 {
                assert forall|k: u32| k < e implies (#[trigger] m1.contains_key(k) == m.contains_key(k) && (
                m.contains_key(k) ==> m1[k] == m[k])) by {
                    lemma_shift_key_inverse(k as int, -diff);
                    let src = shift_key(k as int, -diff);
                    if src >= e && m.contains_key(src as u32) {
                        assert(src + diff <= u32::MAX);
                    }
                }
                assert forall|k: u32| k >= e && #[trigger] m1.contains_key(k) implies m1[k].len() >= 1 by {
                    lemma_shift_key_inverse(k as int, -diff);
                    let src = shift_key(k as int, -diff);
                    assert(src >= e && m.contains_key(src as u32));
                }
            }
            if few_few_fits(m, s, cb, ca_n, ca.len(), r) {
                assert(c1) by {
                    assert forall|k: u32| #[trigger] m.contains_key(k) && k >= e implies k + diff <= u32::MAX && m[k].len() >= 1 by {
                        assert(few_key_fits(m, s, cb, ca_n, r, k));
                    }
                }
                assert forall|k: u32| s <= k < e2 && r.contains(k) && #[trigger] m1.contains_key(k) implies m1[k].len() >= 1 by {
                    if k < e {
                        assert(few_key_fits(m, s, cb, ca_n, r, k));
                    }
                }
            }
            if few_replaced_with_few_ok(m, h, s, cb, ca_n, ca, r) {
                assert forall|k: u32| #[trigger] m.contains_key(k) implies few_key_fits(m, s, cb, ca_n, r, k) by {
                    if s <= k < e2 && k < e && r.contains(k) {
                        assert(m1.contains_key(k));
                    }
                }
            }
        } else {
            let m1 = update_range(m, s as int, e + 1, touch_replaced(ca, s as int, h, r));
            let m2 = update_range(m1, s as int, e, drop_unreplaced(r));
            let m3 = update_range(m2, s as int, e2, add_unreplaced(ca, s as int, h, r));
            let c5 = forall|k: u32| s <= k <= e && #[trigger] r.contains(k) ==> m.contains_key(k) && m[k].len() >= 1 && k - s < ca.len();
            if c5 {
                assert forall|k: u32| k >= e2 implies #[trigger] m3.contains_key(k) == (m.contains_key(k) && !(s <= k < e && !r.contains(k))) by {
                    assert(m1.contains_key(k) == m.contains_key(k));
                }
                if few_few_fits(m, s, cb, ca_n, ca.len(), r) {
                    assert forall|k: u32| #[trigger] m3.contains_key(k) && k >= e2 implies !(k >= 0x8000_0000 && k + diff < 0x8000_0000) by {
                        assert(few_key_fits(m, s, cb, ca_n, r, k));
                    }
                }
                if few_replaced_with_few_ok(m, h, s, cb, ca_n, ca, r) {
                    assert forall|k: u32| #[trigger] m.contains_key(k) implies few_key_fits(m, s, cb, ca_n, r, k) by {
                        if k >= e2 && !(s <= k < e && !r.contains(k)) {
                            assert(m3.contains_key(k));
                        }
                    }
                }
            }
        }
    }
}

/// Decides `few_replaced_with_few_ok` for the map.
fn few_few_check(
    map: &HashMap<u32, Vec<LineDetail>>,
    s: u32,
    cb: u32,
    ca_n: u32,
    ca_len: usize,
    replaced: &Vec<u32>,
) -> (ok: bool)
    ensures
        ok == few_few_fits(line_map_view(map@), s, cb, ca_n, ca_len as nat, replaced@),
{
    let ghost m = line_map_view(map@);
    let ghost r = replaced@;
    if s as u64 + cb as u64 > u32::MAX as u64 || s as u64 + ca_n as u64 > u32::MAX as u64 {
        return false;
    }
    let e = s + cb;
    let e2 = s + ca_n;
    let diff: i64 = as_i32_exec(ca_n) - as_i32_exec(cb);
    if diff < -0x8000_0000 || diff > 0x7fff_ffff {
        return false;
    }
    if diff > 0 && ca_len < ca_n as usize {
        return false;
    }
    if diff <= 0 {
        let mut l: u64 = s as u64;
        while l <= e as u64
            invariant
                s <= l <= e + 1,
                e == s + cb,
                e2 == s + ca_n,
                e <= u32::MAX,
                e2 <= u32::MAX,
                diff == as_i32(ca_n) - as_i32(cb),
                diff <= 0,
                -0x8000_0000 <= diff,
                m == line_map_view(map@),
                r == replaced@,
                forall|k: u32| s <= k < l && #[trigger] r.contains(k) ==> m.contains_key(k) && m[k].len() >= 1 && k - s < ca_len,
            decreases e + 1 - l,
        {
            let lu = l as u32;
            if contains_u32(replaced, lu) {
                match records_at(map, lu) {
                    Some(x) => {
                        if x < 1 || (lu - s) as usize >= ca_len {
                            return false;
                        }
                    },
                    None => {
                        return false;
                    },
                }
            }
            l = l + 1;
        }
        let mut l: u32 = s;
        while l < e2
            invariant
                s <= l <= e2,
                e == s + cb,
                e2 == s + ca_n,
                e <= u32::MAX,
                e2 <= u32::MAX,
                diff == as_i32(ca_n) - as_i32(cb),
                diff <= 0,
                -0x8000_0000 <= diff,
                r == replaced@,
                forall|k: u32| s <= k < l && !#[trigger] r.contains(k) ==> k - s < ca_len,
            decreases e2 - l,
        {
            if !contains_u32(replaced, l) && (l - s) as usize >= ca_len {
                return false;
            }
            l = l + 1;
        }
    }
    let ks = keys_of(map);
    let mut i: usize = 0;
    while i < ks.len()
        invariant
            ks@.to_set() == m.dom(),
            m == line_map_view(map@),
            r == replaced@,
            e == s + cb,
            e2 == s + ca_n,
            diff == as_i32(ca_n) - as_i32(cb),
            i <= ks@.len(),
            forall|j: int| 0 <= j < i ==> #[trigger] few_key_fits(m, s, cb, ca_n, r, ks@[j]),
        decreases ks@.len() - i,
    {
        let k = ks[i];
        assert(ks@.contains(k)) by {
            assert(ks@[i as int] == k);
        }
        assert(m.contains_key(k));
        let len_k: usize = match records_at(map, k) {
            Some(x) => x,
            None => 0,
        };
        if diff > 0 {
            if k >= e && (k as i64 + diff > u32::MAX as i64 || len_k < 1) {
                return false;
            }
            if s <= k && k < e2 && k < e && contains_u32(replaced, k) && len_k < 1 {
                return false;
            }
        } else {
            if k >= e2 && !(s <= k && k < e && !contains_u32(replaced, k)) && (k >= 0x8000_0000
                && (k as i64) + diff < 0x8000_0000) {
                return false;
            }
        }
        i = i + 1;
    }
    proof {
        lemma_listed_keys_all(ks@, m.dom(), |k: u32| few_key_fits(m, s, cb, ca_n, r, k));
    }
    true
}

/// Decides `reorder_ok_at` for the map, whatever the commit.
pub fn reorder_fits(
    category: Option<DiffCases>,
    map: &HashMap<u32, Vec<LineDetail>>,
    cb: u32,
    s: u32,
    ca_n: u32,
    ca: &Vec<String>,
    replaced: &Vec<u32>,
) -> (ok: bool)
    ensures
        forall|h: Seq<char>|
            ok == #[trigger] reorder_ok_at(h, category, line_map_view(map@), cb, s, ca_n, views(ca@), replaced@),
{
    let ghost m = line_map_view(map@);
    assert(m.dom() =~= map@.dom());
    match category {
        Some(DiffCases::FewLinesReplacedWithSingleLine) => {
            let ok = few_single_check(map, s, cb, ca.len(), replaced);
            proof {
                assert forall|h: Seq<char>|
                    ok == #[trigger] reorder_ok_at(h, category, m, cb, s, ca_n, views(ca@), replaced@) by {
                    lemma_few_single_fits(m, h, s, cb, views(ca@), replaced@);
                }
            }
            ok
        },
        Some(DiffCases::FewLinesReplacedWithFewLines) => {
            let ok = few_few_check(map, s, cb, ca_n, ca.len(), replaced);
            proof {
                assert forall|h: Seq<char>|
                    ok == #[trigger] reorder_ok_at(h, category, m, cb, s, ca_n, views(ca@), replaced@) by {
                    lemma_few_few_fits(m, h, s, cb, ca_n, views(ca@), replaced@);
                }
            }
            ok
        },
        Some(DiffCases::FewLinesDeleted) => s as u64 + cb as u64 <= u32::MAX as u64,
        Some(DiffCases::SingleLineReplacedWithAnotherSingleLine) => {
            match records_at(map, s) {
                Some(x) => x >= 1 && ca.len() >= 1,
                None => false,
            }
        },
        Some(DiffCases::NewLinesAdded) => {
            if s as u64 + ca_n as u64 > u32::MAX as u64 || ca.len() < ca_n as usize {
                return false;
            }
            let ks = keys_of(map);
            let mut i: usize = 0;
            while i < ks.len()
                invariant
                    ks@.to_set() == m.dom(),
                    m == line_map_view(map@),
                    category == Some(DiffCases::NewLinesAdded),
                    s + ca_n <= u32::MAX,
                    ca@.len() >= ca_n,
                    i <= ks@.len(),
                    forall|j: int| 0 <= j < i ==> (#[trigger] ks@[j] >= s ==> ks@[j] + ca_n <= u32::MAX),
                decreases ks@.len() - i,
            {
                let k = ks[i];
                if k >= s && k as u64 + ca_n as u64 > u32::MAX as u64 {
                    assert(ks@.contains(k)) by {
                        assert(ks@[i as int] == k);
                    }
                    assert(m.contains_key(k));
                    assert(views(ca@).len() == ca@.len());
                    return false;
                }
                i = i + 1;
            }
            proof {
                lemma_listed_keys_all(ks@, m.dom(), |k: u32| k >= s ==> k + ca_n <= u32::MAX);
            }
            true
        },
        _ => true,
    }
}

} // verus!
