//! Maps keyed by line number: keys that move by a fixed offset, and ranges
//! of keys updated one by one.
use std::collections::HashMap;
use vstd::prelude::*;
use vstd::std_specs::iter::IteratorSpec;

verus! {

broadcast use vstd::std_specs::hash::group_hash_axioms;

/// The keys of `m`, each once, in the map's own order.
pub fn keys_of<V>(m: &HashMap<u32, V>) -> (r: Vec<u32>)
    ensures
        r@.to_set() == m@.dom(),
        r@.no_duplicates(),
        r@.len() == m@.dom().len(),
{
    let mut v: Vec<u32> = Vec::new();
    let ghost ks = vstd::std_specs::hash::spec_keys_iter(m).remaining();
    for k in it: m.keys()
        invariant
            it.seq() == ks,
            v@ == it.seq().take(it.index() as int).unref(),
    {
        v.push(*k);
        assert(v@ =~= it.seq().take(it.index() + 1).unref());
    }
    assert(v@ =~= ks.unref());
    v
}


/// The keys of `m`, each once, in the map's own order.
pub fn keys_of_usize<V>(m: &HashMap<usize, V>) -> (r: Vec<usize>)
    ensures
        r@.to_set() == m@.dom(),
        r@.no_duplicates(),
        r@.len() == m@.dom().len(),
{
    let mut v: Vec<usize> = Vec::new();
    let ghost ks = vstd::std_specs::hash::spec_keys_iter(m).remaining();
    for k in it: m.keys()
        invariant
            it.seq() == ks,
            v@ == it.seq().take(it.index() as int).unref(),
    {
        v.push(*k);
        assert(v@ =~= it.seq().take(it.index() + 1).unref());
    }
    assert(v@ =~= ks.unref());
    v
}


pub proof fn lemma_contains_push<A>(s: Seq<A>, x: A, y: A)
    ensures
        s.push(y).contains(x) <==> (s.contains(x) || x == y),
{
    if s.push(y).contains(x) {
        let j = choose|j: int| 0 <= j < s.push(y).len() && s.push(y)[j] == x;
        if j < s.len() {
            assert(s[j] == x);
        }
    }
    if s.contains(x) {
        let j = choose|j: int| 0 <= j < s.len() && s[j] == x;
        assert(s.push(y)[j] == x);
    }
    if x == y {
        assert(s.push(y)[s.len() as int] == x);
    }
}

pub proof fn lemma_subrange_contains_step<A>(s: Seq<A>, a: int, b: int, x: A)
    requires
        0 <= a < b <= s.len(),
    ensures
        s.subrange(a, b).contains(x) <==> (s[a] == x || s.subrange(a + 1, b).contains(x)),
{
    if s.subrange(a, b).contains(x) {
        let t = s.subrange(a, b);
        let j = choose|j: int| 0 <= j < t.len() && t[j] == x;
        if j > 0 {
            assert(s.subrange(a + 1, b)[j - 1] == x);
        }
    }
    if s[a] == x {
        assert(s.subrange(a, b)[0] == x);
    }
    if s.subrange(a + 1, b).contains(x) {
        let t = s.subrange(a + 1, b);
        let j = choose|j: int| 0 <= j < t.len() && t[j] == x;
        assert(s.subrange(a, b)[j + 1] == x);
    }
}

/// `k + delta`, modulo 2^32.
pub open spec fn shift_key(k: int, delta: int) -> int {
    (k + delta) % 0x1_0000_0000
}

/// The entry at `t` after the move is the one that was at `t - delta`.
pub open spec fn moved_to<V>(m: Map<u32, V>, lo: int, delta: int, t: u32) -> bool {
    let k = shift_key(t as int, -delta);
    k >= lo && m.contains_key(k as u32)
}

/// Every entry of `m` at a key of at least `lo` moves to its key plus
/// `delta` (modulo 2^32); entries below `lo` stay, and a moved entry takes
/// the place of one that stayed.
pub open spec fn shifted<V>(m: Map<u32, V>, lo: int, delta: int) -> Map<u32, V> {
    Map::new(
        |t: u32| moved_to(m, lo, delta, t) || (t < lo && m.contains_key(t)),
        |t: u32|
            if moved_to(m, lo, delta, t) {
                m[shift_key(t as int, -delta) as u32]
            } else {
                m[t]
            },
    )
}

pub proof fn lemma_shift_key_inverse(k: int, delta: int)
    requires
        0 <= k < 0x1_0000_0000,
        -0x1_0000_0000 < delta < 0x1_0000_0000,
    ensures
        0 <= shift_key(k, delta) < 0x1_0000_0000,
        shift_key(shift_key(k, delta), -delta) == k,
        k + delta < 0 ==> shift_key(k, delta) == k + delta + 0x1_0000_0000,
        0 <= k + delta < 0x1_0000_0000 ==> shift_key(k, delta) == k + delta,
        k + delta >= 0x1_0000_0000 ==> shift_key(k, delta) == k + delta - 0x1_0000_0000,
{
    let n: int = 0x1_0000_0000;
    if k + delta < 0 {
        assert((k + delta) % n == k + delta + n) by {
            vstd::arithmetic::div_mod::lemma_fundamental_div_mod_converse(k + delta, n, -1, k + delta + n);
        }
        assert((k + delta + n - delta) % n == k) by {
            vstd::arithmetic::div_mod::lemma_fundamental_div_mod_converse(k, n, 0, k);
        }
    } else if k + delta < n {
        assert((k + delta) % n == k + delta) by {
            vstd::arithmetic::div_mod::lemma_fundamental_div_mod_converse(k + delta, n, 0, k + delta);
        }
        assert((k + delta - delta) % n == k) by {
            vstd::arithmetic::div_mod::lemma_fundamental_div_mod_converse(k, n, 0, k);
        }
    } else {
        assert((k + delta) % n == k + delta - n) by {
            vstd::arithmetic::div_mod::lemma_fundamental_div_mod_converse(k + delta, n, 1, k + delta - n);
        }
        assert((k + delta - n - delta) % n == k) by {
            vstd::arithmetic::div_mod::lemma_fundamental_div_mod_converse(k - n, n, -1, k);
        }
    }
}

fn shift_u32(k: u32, delta: i64) -> (t: u32)
    requires
        -0x1_0000_0000 < delta < 0x1_0000_0000,
    ensures
        t == shift_key(k as int, delta as int),
        shift_key(t as int, -delta) == k,
{
    proof {
        lemma_shift_key_inverse(k as int, delta as int);
    }
    let s: i64 = k as i64 + delta;
    let t: i64 = if s < 0 {
        s + 0x1_0000_0000
    } else if s >= 0x1_0000_0000 {
        s - 0x1_0000_0000
    } else {
        s
    };
    t as u32
}

/// Moves every entry of `m` at a key of at least `lo` by `delta`, as
/// `shifted` states.
pub fn move_keys<V>(m: &mut HashMap<u32, V>, lo: u64, delta: i64)
    requires
        -0x1_0000_0000 < delta < 0x1_0000_0000,
    ensures
        final(m)@ == shifted(old(m)@, lo as int, delta as int),
{
    let ghost m0 = m@;
    let ks = keys_of(m);
    let mut tmp: Vec<(u32, V)> = Vec::new();
    let ghost mut srcs: Seq<u32> = Seq::empty();
    let mut i: usize = 0;
    while i < ks.len()
        invariant
            ks@.to_set() == m0.dom(),
            ks@.no_duplicates(),
            0 <= i <= ks@.len(),
            -0x1_0000_0000 < delta < 0x1_0000_0000,
            forall|k: u32|
                #![trigger m@.contains_key(k)]
                m@.contains_key(k) <==> (m0.contains_key(k) && !(k >= lo && ks@.take(
                    i as int,
                ).contains(k))),
            forall|k: u32| #![trigger m@[k]] m@.contains_key(k) ==> m@[k] == m0[k],
            tmp@.len() == srcs.len(),
            forall|j: int|
                #![trigger srcs[j]]
                0 <= j < srcs.len() ==> tmp@[j].0 == shift_key(srcs[j] as int, delta as int)
                    && tmp@[j].1 == m0[srcs[j]] && srcs[j] >= lo && m0.contains_key(srcs[j])
                    && shift_key(tmp@[j].0 as int, -delta) == srcs[j],
            forall|k: u32| ks@.take(i as int).contains(k) && k >= lo ==> srcs.contains(k),
            forall|k: u32| srcs.contains(k) ==> ks@.take(i as int).contains(k),
            srcs.no_duplicates(),
        decreases ks@.len() - i,
    {
        let k = ks[i];
        let ghost old_srcs = srcs;
        assert(ks@.take(i + 1) =~= ks@.take(i as int).push(k));
        assert forall|x: u32| ks@.take(i + 1).contains(x) <==> (ks@.take(i as int).contains(x) || x == k) by {
            lemma_contains_push(ks@.take(i as int), x, k);
        }
        assert(m0.dom().contains(k)) by {
            assert(ks@.to_set().contains(k));
        }
        if k as u64 >= lo {
            assert(!ks@.take(i as int).contains(k)) by {
                if ks@.take(i as int).contains(k) {
                    let j = choose|j: int| 0 <= j < i && ks@.take(i as int)[j] == k;
                    assert(ks@[j] == ks@[i as int]);
                }
            }
            let v = m.remove(&k);
            match v {
                Some(v) => {
                    let t = shift_u32(k, delta);
                    tmp.push((t, v));
                    proof {
                        assert forall|x: u32| srcs.push(k).contains(x) <==> (srcs.contains(x) || x == k) by {
                            lemma_contains_push(srcs, x, k);
                        }
                        assert(!srcs.contains(k));
                        assert(srcs.push(k).no_duplicates()) by {
                            assert forall|a: int, b: int|
                                0 <= a < srcs.push(k).len() && 0 <= b < srcs.push(k).len() && a != b
                                implies srcs.push(k)[a] != srcs.push(k)[b] by {
                                if a < srcs.len() && b == srcs.len() {
                                    assert(srcs[a] == srcs.push(k)[a]);
                                }
                                if b < srcs.len() && a == srcs.len() {
                                    assert(srcs[b] == srcs.push(k)[b]);
                                }
                            }
                        }
                        srcs = srcs.push(k);
                    }
                },
                None => {
                    assert(false);
                },
            }
        }
        assert forall|x: u32| ks@.take(i + 1).contains(x) && x >= lo implies srcs.contains(x) by {
            lemma_contains_push(ks@.take(i as int), x, k);
            lemma_contains_push(old_srcs, x, k);
            if x != k {
                assert(old_srcs.contains(x));
            }
        }
        assert forall|x: u32| srcs.contains(x) implies ks@.take(i + 1).contains(x) by {
            lemma_contains_push(ks@.take(i as int), x, k);
            lemma_contains_push(old_srcs, x, k);
            if x != k {
                assert(old_srcs.contains(x));
            }
        }
        i = i + 1;
    }
    assert(ks@.take(ks@.len() as int) =~= ks@);
    let ghost n = srcs.len();
    let ghost base = m@;
    while tmp.len() > 0
        invariant
            tmp@.len() <= n,
            n == srcs.len(),
            -0x1_0000_0000 < delta < 0x1_0000_0000,
            forall|j: int|
                #![trigger srcs[j]]
                0 <= j < srcs.len() ==> srcs[j] >= lo && m0.contains_key(srcs[j])
                    && shift_key(srcs[j] as int, delta as int) < 0x1_0000_0000
                    && shift_key(shift_key(srcs[j] as int, delta as int), -delta) == srcs[j],
            forall|j: int|
                #![trigger tmp@[j]]
                0 <= j < tmp@.len() ==> tmp@[j].0 == shift_key(srcs[j] as int, delta as int)
                    && tmp@[j].1 == m0[srcs[j]],
            forall|k: u32| #![trigger base.contains_key(k)] base.contains_key(k) <==> (m0.contains_key(k) && k < lo),
            forall|k: u32| #![trigger base[k]] base.contains_key(k) ==> base[k] == m0[k],
            forall|k: u32| k >= lo && m0.contains_key(k) ==> srcs.contains(k),
            srcs.no_duplicates(),
            forall|t: u32|
                #![trigger m@.contains_key(t)]
                m@.contains_key(t) <==> (srcs.subrange(tmp@.len() as int, n as int).contains(
                    shift_key(t as int, -delta) as u32,
                ) || base.contains_key(t)),
            forall|t: u32|
                #![trigger m@[t]]
                m@.contains_key(t) ==> m@[t] == if srcs.subrange(tmp@.len() as int, n as int).contains(
                    shift_key(t as int, -delta) as u32,
                ) {
                    m0[shift_key(t as int, -delta) as u32]
                } else {
                    base[t]
                },
        decreases tmp@.len(),
    {
        let ghost cur = tmp@.len();
        let ghost last = tmp@[cur - 1];
        let entry = tmp.pop();
        match entry {
            Some((t, v)) => {
                let ghost src = srcs[cur - 1];
                assert(t == last.0 && v == last.1);
                assert(t == shift_key(src as int, delta as int));
                assert(shift_key(t as int, -delta) == src);
                m.insert(t, v);
                proof {
                    assert forall|x: u32| srcs.subrange(cur - 1, n as int).contains(x) <==> (srcs[cur - 1] == x
                        || srcs.subrange(cur as int, n as int).contains(x)) by {
                        lemma_subrange_contains_step(srcs, cur - 1, n as int, x);
                    }
                    assert forall|t2: u32| #![trigger m@.contains_key(t2)] m@.contains_key(t2) <==> (srcs.subrange(
                        cur - 1,
                        n as int,
                    ).contains(shift_key(t2 as int, -delta) as u32) || base.contains_key(t2)) by {
                        lemma_shift_key_inverse(t2 as int, -delta as int);
                        if t2 != t {
                            if shift_key(t2 as int, -delta) as u32 == src {
                                assert(shift_key(t2 as int, -delta) == src);
                                assert(false);
                            }
                        }
                    }
                    assert forall|t2: u32| #![trigger m@[t2]] m@.contains_key(t2) implies m@[t2] == if srcs.subrange(
                        cur - 1,
                        n as int,
                    ).contains(shift_key(t2 as int, -delta) as u32) {
                        m0[shift_key(t2 as int, -delta) as u32]
                    } else {
                        base[t2]
                    } by {
                        lemma_shift_key_inverse(t2 as int, -delta as int);
                        if t2 != t {
                            if shift_key(t2 as int, -delta) as u32 == src {
                                assert(shift_key(t2 as int, -delta) == src);
                                assert(false);
                            }
                        }
                    }
                }
            },
            None => {
                assert(false);
            },
        }
    }
    proof {
        assert(srcs.subrange(0, n as int) =~= srcs);
        assert forall|t: u32| #![trigger m@.contains_key(t)] m@.contains_key(t) == shifted(m0, lo as int, delta as int).contains_key(t) by {
            lemma_shift_key_inverse(t as int, -delta as int);
            let k = shift_key(t as int, -delta) as u32;
            if srcs.contains(k) {
                let j = choose|j: int| 0 <= j < srcs.len() && srcs[j] == k;
                assert(srcs[j] >= lo && m0.contains_key(srcs[j]));
            }
        }
        assert(m@ =~= shifted(m0, lo as int, delta as int)) by {
            assert forall|t: u32| #![trigger m@[t]] m@.contains_key(t) implies m@[t] == shifted(m0, lo as int, delta as int)[t] by {
                lemma_shift_key_inverse(t as int, -delta as int);
                let k = shift_key(t as int, -delta) as u32;
                if srcs.contains(k) {
                    let j = choose|j: int| 0 <= j < srcs.len() && srcs[j] == k;
                    assert(srcs[j] >= lo && m0.contains_key(srcs[j]));
                }
            }
        }
    }
}


/// `m` with every key in `lo..hi` replaced as `f` says from the entry it
/// had there (`None`: no entry); keys outside the range are kept.
pub open spec fn update_range<V>(
    m: Map<u32, V>,
    lo: int,
    hi: int,
    f: spec_fn(u32, Option<V>) -> Option<V>,
) -> Map<u32, V> {
    Map::new(
        |k: u32|
            if lo <= k < hi {
                f(k, m.index_opt(k)) is Some
            } else {
                m.contains_key(k)
            },
        |k: u32|
            if lo <= k < hi {
                f(k, m.index_opt(k)).unwrap()
            } else {
                m[k]
            },
    )
}

pub proof fn lemma_update_range_empty<V>(m: Map<u32, V>, lo: int, f: spec_fn(u32, Option<V>) -> Option<V>)
    ensures
        update_range(m, lo, lo, f) == m,
{
    assert(update_range(m, lo, lo, f) =~= m);
}

/// One more key of the range: the map at `l` becomes what `f` gives.
pub proof fn lemma_update_range_step<V>(
    m: Map<u32, V>,
    lo: int,
    l: u32,
    f: spec_fn(u32, Option<V>) -> Option<V>,
)
    requires
        lo <= l,
    ensures
        update_range(m, lo, l + 1, f) == match f(l, m.index_opt(l)) {
            Some(v) => update_range(m, lo, l as int, f).insert(l, v),
            None => update_range(m, lo, l as int, f).remove(l),
        },
{
    let a = update_range(m, lo, l + 1, f);
    let b = match f(l, m.index_opt(l)) {
        Some(v) => update_range(m, lo, l as int, f).insert(l, v),
        None => update_range(m, lo, l as int, f).remove(l),
    };
    assert(a =~= b);
}


/// Moving keys commutes with transforming the values.
pub proof fn lemma_shifted_map_values<V, W>(m: Map<u32, V>, lo: int, delta: int, f: spec_fn(V) -> W)
    ensures
        shifted(m, lo, delta).map_values(f) == shifted(m.map_values(f), lo, delta),
{
    assert(shifted(m, lo, delta).map_values(f) =~= shifted(m.map_values(f), lo, delta));
}

} // verus!
