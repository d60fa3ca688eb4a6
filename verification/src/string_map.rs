//! A map keyed by strings, held as a list of entries with distinct keys.
use vstd::prelude::*;
use crate::text::str_eq;

verus! {

/// The map that a list of `(key, value)` entries stands for.
pub open spec fn pairs_view<V: DeepView>(s: Seq<(String, V)>) -> Map<Seq<char>, V::V>
    decreases s.len(),
{
    if s.len() == 0 {
        Map::empty()
    } else {
        pairs_view(s.drop_last()).insert(s.last().0@, s.last().1.deep_view())
    }
}

/// No key occurs twice among the entries.
pub open spec fn distinct_keys<V>(s: Seq<(String, V)>) -> bool {
    forall|i: int, j: int| 0 <= i < j < s.len() ==> s[i].0@ != s[j].0@
}

proof fn lemma_pairs_contains<V: DeepView>(s: Seq<(String, V)>, k: Seq<char>)
    ensures
        pairs_view(s).contains_key(k) <==> exists|i: int| 0 <= i < s.len() && #[trigger] s[i].0@ == k,
    decreases s.len(),
{
    if s.len() > 0 {
        lemma_pairs_contains(s.drop_last(), k);
        if pairs_view(s.drop_last()).contains_key(k) {
            let i = choose|i: int| 0 <= i < s.drop_last().len() && #[trigger] s.drop_last()[i].0@ == k;
            assert(s[i].0@ == k);
        }
        if exists|i: int| 0 <= i < s.len() && #[trigger] s[i].0@ == k {
            let i = choose|i: int| 0 <= i < s.len() && #[trigger] s[i].0@ == k;
            if i < s.len() - 1 {
                assert(s.drop_last()[i].0@ == k);
            }
        }
    }
}

proof fn lemma_pairs_at<V: DeepView>(s: Seq<(String, V)>, i: int)
    requires
        distinct_keys(s),
        0 <= i < s.len(),
    ensures
        pairs_view(s).contains_key(s[i].0@),
        pairs_view(s)[s[i].0@] == s[i].1.deep_view(),
    decreases s.len(),
{
    if i < s.len() - 1 {
        lemma_pairs_at(s.drop_last(), i);
        assert(s.drop_last()[i] == s[i]);
    }
}

proof fn lemma_pairs_update<V: DeepView>(s: Seq<(String, V)>, i: int, e: (String, V))
    requires
        distinct_keys(s),
        0 <= i < s.len(),
        e.0@ == s[i].0@,
    ensures
        distinct_keys(s.update(i, e)),
        pairs_view(s.update(i, e)) == pairs_view(s).insert(e.0@, e.1.deep_view()),
    decreases s.len(),
{
    let t = s.update(i, e);
    if i < s.len() - 1 {
        lemma_pairs_update(s.drop_last(), i, e);
        assert(t.drop_last() =~= s.drop_last().update(i, e));
        assert(s.last().0@ != e.0@);
        assert(pairs_view(t) =~= pairs_view(s).insert(e.0@, e.1.deep_view()));
    } else {
        assert(t.drop_last() =~= s.drop_last());
        assert(pairs_view(t) =~= pairs_view(s).insert(e.0@, e.1.deep_view()));
    }
}

proof fn lemma_pairs_push<V: DeepView>(s: Seq<(String, V)>, e: (String, V))
    requires
        distinct_keys(s),
        !pairs_view(s).contains_key(e.0@),
    ensures
        distinct_keys(s.push(e)),
        pairs_view(s.push(e)) == pairs_view(s).insert(e.0@, e.1.deep_view()),
{
    lemma_pairs_contains(s, e.0@);
    assert(s.push(e).drop_last() =~= s);
    assert forall|a: int, b: int| 0 <= a < b < s.push(e).len() implies s.push(e)[a].0@ != s.push(e)[b].0@ by {
        if b == s.len() {
            assert(s[a].0@ != e.0@);
        } else {
            assert(s[a].0@ != s[b].0@);
        }
    }
}

/// The keys of the entries, in order; each key of the map occurs once.
pub open spec fn pairs_keys<V>(s: Seq<(String, V)>) -> Seq<Seq<char>> {
    s.map_values(|e: (String, V)| e.0@)
}

/// A map from strings to values, held as entries with distinct keys in the
/// order they were first inserted.
#[derive(Clone, Debug)]
pub struct StringMap<V> {
    entries: Vec<(String, V)>,
}

impl<V: DeepView> StringMap<V> {
    /// The map the entries stand for.
    pub closed spec fn view_map(&self) -> Map<Seq<char>, V::V> {
        pairs_view(self.entries@)
    }

    /// The keys in the order of the entries.
    pub closed spec fn key_order(&self) -> Seq<Seq<char>> {
        pairs_keys(self.entries@)
    }

    /// Each key is held once.
    pub closed spec fn wf(&self) -> bool {
        distinct_keys(self.entries@)
    }

    /// The keys of a well-formed map list each of its keys once.
    pub proof fn lemma_key_order(&self)
        requires
            self.wf(),
        ensures
            self.key_order().no_duplicates(),
            self.key_order().to_set() == self.view_map().dom(),
            self.key_order().len() == self.view_map().dom().len(),
    {
        let s = self.entries@;
        let ks = pairs_keys(s);
        assert forall|k: Seq<char>| ks.to_set().contains(k) <==> self.view_map().dom().contains(k) by {
            lemma_pairs_contains(s, k);
            if ks.to_set().contains(k) {
                let i = choose|i: int| 0 <= i < ks.len() && ks[i] == k;
                assert(s[i].0@ == k);
            }
            if self.view_map().dom().contains(k) {
                let i = choose|i: int| 0 <= i < s.len() && #[trigger] s[i].0@ == k;
                assert(ks[i] == k);
            }
        }
        assert(ks.to_set() =~= self.view_map().dom());
        assert(ks.no_duplicates()) by {
            assert forall|i: int, j: int| 0 <= i < ks.len() && 0 <= j < ks.len() && i != j implies ks[i] != ks[j] by {
                if i < j {
                    assert(s[i].0@ != s[j].0@);
                } else {
                    assert(s[j].0@ != s[i].0@);
                }
            }
        }
        ks.unique_seq_to_set();
    }

    /// An empty map.
    pub fn new() -> (r: Self)
        ensures
            r.wf(),
            r.view_map() == Map::<Seq<char>, V::V>::empty(),
    {
        let r = StringMap { entries: Vec::new() };
        assert(r.view_map() =~= Map::<Seq<char>, V::V>::empty());
        r
    }

    /// The number of keys.
    pub fn len(&self) -> (r: usize)
        requires
            self.wf(),
        ensures
            r == self.view_map().dom().len(),
            r == self.key_order().len(),
    {
        proof {
            self.lemma_key_order();
        }
        self.entries.len()
    }

    /// Whether the map holds no key.
    pub fn is_empty(&self) -> (r: bool)
        requires
            self.wf(),
        ensures
            r == (self.view_map().dom().len() == 0),
            r == (self.view_map() == Map::<Seq<char>, V::V>::empty()),
    {
        proof {
            self.lemma_key_order();
            if self.entries@.len() > 0 {
                lemma_pairs_at(self.entries@, 0);
            } else {
                assert(self.view_map() =~= Map::<Seq<char>, V::V>::empty());
            }
        }
        self.entries.len() == 0
    }

    fn position(&self, key: &str) -> (r: Option<usize>)
        requires
            self.wf(),
        ensures
            match r {
                Some(i) => i < self.entries@.len() && self.entries@[i as int].0@ == key@,
                None => !self.view_map().contains_key(key@),
            },
    {
        let mut i: usize = 0;
        while i < self.entries.len()
            invariant
                i <= self.entries@.len(),
                forall|j: int| 0 <= j < i ==> #[trigger] self.entries@[j].0@ != key@,
            decreases self.entries@.len() - i,
        {
            if str_eq(self.entries[i].0.as_str(), key) {
                return Some(i);
            }
            i = i + 1;
        }
        proof {
            lemma_pairs_contains(self.entries@, key@);
        }
        None
    }

    /// The value at `key`, if any.
    pub fn get(&self, key: &str) -> (r: Option<&V>)
        requires
            self.wf(),
        ensures
            match r {
                Some(v) => self.view_map().contains_key(key@) && v.deep_view() == self.view_map()[key@],
                None => !self.view_map().contains_key(key@),
            },
    {
        match self.position(key) {
            Some(i) => {
                proof {
                    lemma_pairs_at(self.entries@, i as int);
                }
                Some(&self.entries[i].1)
            },
            None => None,
        }
    }

    /// The `i`-th entry in key order.
    pub fn entry_at(&self, i: usize) -> (r: (&String, &V))
        requires
            self.wf(),
            i < self.key_order().len(),
        ensures
            r.0@ == self.key_order()[i as int],
            self.view_map().contains_key(r.0@),
            r.1.deep_view() == self.view_map()[r.0@],
    {
        proof {
            lemma_pairs_at(self.entries@, i as int);
        }
        (&self.entries[i].0, &self.entries[i].1)
    }

    /// Sets the value at `key`; a new key goes last in key order.
    pub fn insert(&mut self, key: String, value: V)
        requires
            old(self).wf(),
        ensures
            final(self).wf(),
            final(self).view_map() == old(self).view_map().insert(key@, value.deep_view()),
            old(self).view_map().contains_key(key@) ==> final(self).key_order() == old(self).key_order(),
            !old(self).view_map().contains_key(key@) ==> final(self).key_order() == old(self).key_order().push(key@),
    {
        let ghost s0 = self.entries@;
        match self.position(key.as_str()) {
            Some(i) => {
                proof {
                    lemma_pairs_update(s0, i as int, (key, value));
                    lemma_pairs_at(s0, i as int);
                }
                let ghost e = (key, value);
                self.entries.set(i, (key, value));
                assert(self.entries@ =~= s0.update(i as int, e));
                assert(pairs_keys(self.entries@) =~= pairs_keys(s0));
            },
            None => {
                let ghost e = (key, value);
                proof {
                    lemma_pairs_push(s0, e);
                }
                self.entries.push((key, value));
                assert(self.entries@ =~= s0.push(e));
                assert(pairs_keys(self.entries@) =~= pairs_keys(s0).push(key@));
            },
        }
    }

    /// Takes the value at `key` out of the map, if any.
    pub fn remove(&mut self, key: &str) -> (r: Option<V>)
        requires
            old(self).wf(),
        ensures
            final(self).wf(),
            final(self).view_map() == old(self).view_map().remove(key@),
            match r {
                Some(v) => old(self).view_map().contains_key(key@) && v.deep_view() == old(self).view_map()[key@],
                None => !old(self).view_map().contains_key(key@),
            },
    {
        let ghost s0 = self.entries@;
        match self.position(key) {
            Some(i) => {
                proof {
                    lemma_pairs_at(s0, i as int);
                    lemma_pairs_remove(s0, i as int);
                }
                let (_k, v) = self.entries.remove(i);
                assert(self.entries@ =~= s0.remove(i as int));
                Some(v)
            },
            None => {
                assert(self.view_map() =~= self.view_map().remove(key@));
                None
            },
        }
    }
}

proof fn lemma_pairs_remove<V: DeepView>(s: Seq<(String, V)>, i: int)
    requires
        distinct_keys(s),
        0 <= i < s.len(),
    ensures
        distinct_keys(s.remove(i)),
        pairs_view(s.remove(i)) == pairs_view(s).remove(s[i].0@),
    decreases s.len(),
{
    let t = s.remove(i);
    assert forall|a: int, b: int| 0 <= a < b < t.len() implies t[a].0@ != t[b].0@ by {
        let a2 = if a < i { a } else { a + 1 };
        let b2 = if b < i { b } else { b + 1 };
        assert(t[a] == s[a2] && t[b] == s[b2]);
    }
    if i < s.len() - 1 {
        lemma_pairs_remove(s.drop_last(), i);
        assert(t.drop_last() =~= s.drop_last().remove(i));
        assert(t.last() == s.last());
        assert(s.last().0@ != s[i].0@);
        assert(pairs_view(t) =~= pairs_view(s).remove(s[i].0@));
    } else {
        assert(t =~= s.drop_last());
        lemma_pairs_contains(s.drop_last(), s[i].0@);
        if pairs_view(s.drop_last()).contains_key(s[i].0@) {
            let j = choose|j: int| 0 <= j < s.drop_last().len() && #[trigger] s.drop_last()[j].0@ == s[i].0@;
            assert(s[j].0@ == s[i].0@);
        }
        assert(pairs_view(t) =~= pairs_view(s).remove(s[i].0@));
    }
}

} // verus!
