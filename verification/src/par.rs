//! Views of a map whose items can be handed out to parallel work: keys, values, pairs, and
//! in-place updates of the values.
use vstd::prelude::*;
use crate::map::HashMap;
use crate::table::max_entries;
use crate::raw::lemma_grow_bound;

verus! {

broadcast use {vstd::set::group_set_axioms, vstd::set_lib::group_set_lib_default};

/// The map `m` after inserting the pairs of `s` in order: a later pair for a key overrides an
/// earlier one, just as with a sequential iterator.
pub open spec fn insert_all(m: Map<i64, i64>, s: Seq<(i64, i64)>) -> Map<i64, i64>
    decreases s.len(),
{
    if s.len() == 0 {
        m
    } else {
        insert_all(m, s.drop_last()).insert(s.last().0, s.last().1)
    }
}

/// Inserting the pairs of `s` adds exactly their keys: a key is in `insert_all(m, s)` when it is
/// in `m` or is the key of some pair of `s`, and in no other case.
pub proof fn lemma_insert_all_keys(m: Map<i64, i64>, s: Seq<(i64, i64)>, k: i64)
    ensures
        insert_all(m, s).contains_key(k) <==> (m.contains_key(k) || exists|i: int|
            0 <= i < s.len() && #[trigger] s[i].0 == k),
    decreases s.len(),
{
    if s.len() > 0 {
        let t = s.drop_last();
        lemma_insert_all_keys(m, t, k);
        if exists|i: int| 0 <= i < t.len() && #[trigger] t[i].0 == k {
            let i = choose|i: int| 0 <= i < t.len() && #[trigger] t[i].0 == k;
            assert(s[i].0 == k);
        }
        if exists|i: int| 0 <= i < s.len() && #[trigger] s[i].0 == k {
            let i = choose|i: int| 0 <= i < s.len() && #[trigger] s[i].0 == k;
            if i < s.len() - 1 {
                assert(t[i].0 == k);
            }
        }
    }
}

/// A later pair for a key overrides an earlier one: when `s[i]` is the last pair of `s` with
/// key `k`, `insert_all(m, s)` maps `k` to the value of `s[i]`, whatever `m` and the earlier pairs
/// held for `k`.
pub proof fn lemma_insert_all_last_wins(m: Map<i64, i64>, s: Seq<(i64, i64)>, i: int)
    requires
        0 <= i < s.len(),
        forall|j: int| i < j < s.len() ==> #[trigger] s[j].0 != s[i].0,
    ensures
        insert_all(m, s).contains_key(s[i].0),
        insert_all(m, s)[s[i].0] == s[i].1,
    decreases s.len(),
{
    if i < s.len() - 1 {
        let t = s.drop_last();
        assert(s[s.len() - 1].0 != s[i].0);
        assert forall|j: int| i < j < t.len() implies #[trigger] t[j].0 != t[i].0 by {
            assert(s[j].0 != s[i].0);
        }
        lemma_insert_all_last_wins(m, t, i);
    }
}

/// The map `m` after removing the keys of `ks` in order.
pub open spec fn remove_all(m: Map<i64, i64>, ks: Seq<i64>) -> Map<i64, i64>
    decreases ks.len(),
{
    if ks.len() == 0 {
        m
    } else {
        remove_all(m, ks.drop_last()).remove(ks.last())
    }
}

/// Removing the keys of `ks` removes exactly those keys: a key is in `remove_all(m, ks)` when it
/// is in `m` and not in `ks`, and keeps its value.
pub proof fn lemma_remove_all_keys(m: Map<i64, i64>, ks: Seq<i64>, k: i64)
    ensures
        remove_all(m, ks).contains_key(k) <==> (m.contains_key(k) && !ks.contains(k)),
        remove_all(m, ks).contains_key(k) ==> remove_all(m, ks)[k] == m[k],
    decreases ks.len(),
{
    if ks.len() > 0 {
        let t = ks.drop_last();
        lemma_remove_all_keys(m, t, k);
        if t.contains(k) {
            let i = choose|i: int| 0 <= i < t.len() && t[i] == k;
            assert(ks[i] == k);
        }
        if ks.contains(k) && ks.last() != k {
            let i = choose|i: int| 0 <= i < ks.len() && ks[i] == k;
            assert(t[i] == k);
        }
    }
}

/// Inserting the pairs of `s` into an empty map and then removing the keys of `ks`, one call at
/// a time, leaves exactly the keys of `s` that are not in `ks`; so the map's length is the
/// number of those keys.
pub proof fn lemma_insert_then_remove(s: Seq<(i64, i64)>, ks: Seq<i64>)
    ensures
        remove_all(insert_all(Map::empty(), s), ks).dom() =~= s.map_values(|p: (i64, i64)| p.0).to_set().difference(
            ks.to_set(),
        ),
        remove_all(insert_all(Map::empty(), s), ks).len() == s.map_values(|p: (i64, i64)| p.0).to_set().difference(
            ks.to_set(),
        ).len(),
{
    let m = insert_all(Map::empty(), s);
    let keys = s.map_values(|p: (i64, i64)| p.0);
    assert forall|k: i64| #[trigger] remove_all(m, ks).dom().contains(k) <==> keys.to_set().difference(
        ks.to_set(),
    ).contains(k) by {
        lemma_remove_all_keys(m, ks, k);
        lemma_insert_all_keys(Map::empty(), s, k);
        if exists|i: int| 0 <= i < s.len() && #[trigger] s[i].0 == k {
            let i = choose|i: int| 0 <= i < s.len() && #[trigger] s[i].0 == k;
            assert(keys[i] == k);
        }
        if keys.contains(k) {
            let i = choose|i: int| 0 <= i < keys.len() && keys[i] == k;
            assert(s[i].0 == k);
        }
    }
}

/// `vs` lists the values of `m` at the keys `ks`, which are every key of `m`, each once.
pub open spec fn values_of_keys(m: Map<i64, i64>, ks: Seq<i64>, vs: Seq<i64>) -> bool {
    &&& ks.len() == vs.len()
    &&& forall|i: int, j: int| 0 <= i < j < ks.len() ==> #[trigger] ks[i] != #[trigger] ks[j]
    &&& forall|i: int| 0 <= i < ks.len() ==> #[trigger] m.contains_key(ks[i]) && m[ks[i]] == vs[i]
    &&& forall|k: i64| #[trigger] m.contains_key(k) ==> ks.contains(k)
}

/// Shared references to the entries of a map, to be visited in an arbitrary order.
#[derive(Clone, Copy)]
pub struct ParIter<'a> {
    pub map: &'a HashMap,
}

/// Shared references to the keys of a map, to be visited in an arbitrary order.
#[derive(Clone, Copy)]
pub struct ParKeys<'a> {
    pub map: &'a HashMap,
}

/// Shared references to the values of a map, to be visited in an arbitrary order.
#[derive(Clone, Copy)]
pub struct ParValues<'a> {
    pub map: &'a HashMap,
}

/// Mutable references to the values of a map, with their keys, to be visited in an arbitrary
/// order.
pub struct ParIterMut<'a> {
    pub map: &'a mut HashMap,
}

/// Mutable references to the values of a map, to be visited in an arbitrary order.
pub struct ParValuesMut<'a> {
    pub map: &'a mut HashMap,
}

impl<'a> ParIter<'a> {
    /// The number of items to visit: one for each entry of the map.
    pub fn count(&self) -> (n: usize)
        requires
            self.map.wf(),
        ensures
            n == self.map@.len(),
    {
        self.map.len()
    }

    /// Every `key => value` pair of the map, each once.
    #[verifier::spinoff_prover]
    pub fn to_vec(&self) -> (r: Vec<(i64, i64)>)
        requires
            self.map.wf(),
        ensures
            r.len() == self.map@.len(),
            forall|i: int| 0 <= i < r.len() ==> #[trigger] self.map@.contains_key(r[i].0) && self.map@[r[i].0] == r[i].1,
            forall|i: int, j: int| 0 <= i < j < r.len() ==> #[trigger] r[i].0 != #[trigger] r[j].0,
            forall|k: i64| #[trigger] self.map@.contains_key(k) ==> exists|i: int| 0 <= i < r.len() && r[i].0 == k,
    {
        self.map.pairs()
    }
}

impl<'a> ParKeys<'a> {
    /// The number of items to visit: one for each entry of the map.
    pub fn count(&self) -> (n: usize)
        requires
            self.map.wf(),
        ensures
            n == self.map@.len(),
    {
        self.map.len()
    }

    /// Every key of the map, each once.
    pub fn to_vec(&self) -> (r: Vec<i64>)
        requires
            self.map.wf(),
        ensures
            r.len() == self.map@.len(),
            forall|i: int| 0 <= i < r.len() ==> #[trigger] self.map@.contains_key(r[i]),
            forall|i: int, j: int| 0 <= i < j < r.len() ==> #[trigger] r[i] != #[trigger] r[j],
            forall|k: i64| #[trigger] self.map@.contains_key(k) ==> r@.contains(k),
    {
        let pairs = self.map.pairs();
        let mut keys: Vec<i64> = Vec::new();
        let mut i: usize = 0;
        while i < pairs.len()
            invariant
                i <= pairs.len(),
                keys.len() == i,
                forall|j: int| 0 <= j < i ==> #[trigger] keys@[j] == pairs@[j].0,
            decreases pairs.len() - i,
        {
            keys.push(pairs[i].0);
            i = i + 1;
        }
        proof {
            assert forall|k: i64| #[trigger] self.map@.contains_key(k) implies keys@.contains(k) by {
                let j = choose|j: int| 0 <= j < pairs.len() && pairs@[j].0 == k;
                assert(keys@[j] == k);
            }
        }
        keys
    }
}

impl<'a> ParValues<'a> {
    /// The number of items to visit: one for each entry of the map.
    pub fn count(&self) -> (n: usize)
        requires
            self.map.wf(),
        ensures
            n == self.map@.len(),
    {
        self.map.len()
    }

    /// Every value of the map, once for each key that has it.
    pub fn to_vec(&self) -> (r: Vec<i64>)
        requires
            self.map.wf(),
        ensures
            exists|ks: Seq<i64>| #[trigger] values_of_keys(self.map@, ks, r@),
            r.len() == self.map@.len(),
    {
        let pairs = self.map.pairs();
        let mut values: Vec<i64> = Vec::new();
        let mut i: usize = 0;
        while i < pairs.len()
            invariant
                i <= pairs.len(),
                values.len() == i,
                forall|j: int| 0 <= j < i ==> #[trigger] values@[j] == pairs@[j].1,
            decreases pairs.len() - i,
        {
            values.push(pairs[i].1);
            i = i + 1;
        }
        let ghost ks = pairs@.map_values(|p: (i64, i64)| p.0);
        proof {
            assert forall|k: i64| #[trigger] self.map@.contains_key(k) implies ks.contains(k) by {
                let j = choose|j: int| 0 <= j < pairs.len() && pairs@[j].0 == k;
                assert(ks[j] == k);
            }
            assert forall|a: int, b: int| 0 <= a < b < ks.len() implies #[trigger] ks[a] != #[trigger] ks[b] by {
                assert(pairs@[a].0 != pairs@[b].0);
            }
            assert forall|a: int| 0 <= a < ks.len() implies #[trigger] self.map@.contains_key(ks[a])
                && self.map@[ks[a]] == values@[a] by {
                assert(self.map@.contains_key(pairs@[a].0));
            }
            assert(values_of_keys(self.map@, ks, values@));
        }
        values
    }
}

impl<'a> ParIterMut<'a> {
    /// The number of items to visit: one for each entry of the map.
    pub fn count(&self) -> (n: usize)
        requires
            (*self.map).wf(),
        ensures
            n == old(self.map)@.len(),
    {
        self.map.len()
    }

    /// Replaces the value of each key `k` by `f(k, value)`.
    pub fn for_each<F: Fn(i64, i64) -> i64>(self, f: F)
        requires
            (*self.map).wf(),
            forall|k: i64, v: i64| f.requires((k, v)),
        ensures
            (*final(self.map)).wf(),
            final(self.map)@.dom() == old(self.map)@.dom(),
            forall|k: i64| #[trigger] old(self.map)@.contains_key(k) ==> f.ensures(
                (k, old(self.map)@[k]),
                final(self.map)@[k],
            ),
    {
        self.map.update_with_keys(f);
    }
}

impl<'a> ParValuesMut<'a> {
    /// The number of items to visit: one for each entry of the map.
    pub fn count(&self) -> (n: usize)
        requires
            (*self.map).wf(),
        ensures
            n == old(self.map)@.len(),
    {
        self.map.len()
    }

    /// Replaces each value `v` by `f(v)`.
    pub fn for_each<F: Fn(i64) -> i64>(self, f: F)
        requires
            (*self.map).wf(),
            forall|v: i64| f.requires((v,)),
        ensures
            (*final(self.map)).wf(),
            final(self.map)@.dom() == old(self.map)@.dom(),
            forall|k: i64| #[trigger] old(self.map)@.contains_key(k) ==> f.ensures(
                (old(self.map)@[k],),
                final(self.map)@[k],
            ),
    {
        self.map.update_values(f);
    }
}

impl HashMap {
    /// Replaces the value of each key `k` by `f(k, value)`.
    pub fn update_with_keys<F: Fn(i64, i64) -> i64>(&mut self, f: F)
        requires
            old(self).wf(),
            forall|k: i64, v: i64| f.requires((k, v)),
        ensures
            final(self).wf(),
            final(self)@.dom() == old(self)@.dom(),
            forall|k: i64| #[trigger] old(self)@.contains_key(k) ==> f.ensures(
                (k, old(self)@[k]),
                final(self)@[k],
            ),
    {
        let ghost m0 = self@;
        let pairs = self.pairs();
        let mut i: usize = 0;
        while i < pairs.len()
            invariant
                self.wf(),
                forall|k: i64, v: i64| f.requires((k, v)),
                i <= pairs.len(),
                self@.dom() == m0.dom(),
                forall|j: int| 0 <= j < pairs.len() ==> #[trigger] m0.contains_key(pairs@[j].0) && m0[pairs@[j].0] == pairs@[j].1,
                forall|a: int, b: int| 0 <= a < b < pairs.len() ==> #[trigger] pairs@[a].0 != #[trigger] pairs@[b].0,
                forall|j: int| 0 <= j < i ==> f.ensures((pairs@[j].0, pairs@[j].1), #[trigger] self@[pairs@[j].0]),
                forall|k: i64| m0.contains_key(k) && (forall|j: int| 0 <= j < i ==> pairs@[j].0 != k)
                    ==> #[trigger] self@[k] == m0[k],
            decreases pairs.len() - i,
        {
            let (k, v) = pairs[i];
            let ghost before = self@;
            let nv = f(k, v);
            self.set_existing(k, nv);
            proof {
                assert forall|j: int| 0 <= j < i + 1 implies f.ensures((pairs@[j].0, pairs@[j].1), #[trigger] self@[pairs@[j].0]) by {
                    if j < i {
                        assert(pairs@[j].0 != pairs@[i as int].0);
                    }
                }
                assert forall|k2: i64| m0.contains_key(k2) && (forall|j: int| 0 <= j < i + 1 ==> pairs@[j].0 != k2)
                    implies #[trigger] self@[k2] == m0[k2] by {
                    assert(pairs@[i as int].0 != k2);
                }
                assert(self@.dom() =~= m0.dom());
            }
            i = i + 1;
        }
        proof {
            assert forall|k: i64| #[trigger] m0.contains_key(k) implies f.ensures((k, m0[k]), self@[k]) by {
                let j = choose|j: int| 0 <= j < pairs.len() && pairs@[j].0 == k;
                assert(f.ensures((pairs@[j].0, pairs@[j].1), self@[pairs@[j].0]));
            }
        }
    }

    /// Replaces each value `v` by `f(v)`.
    pub fn update_values<F: Fn(i64) -> i64>(&mut self, f: F)
        requires
            old(self).wf(),
            forall|v: i64| f.requires((v,)),
        ensures
            final(self).wf(),
            final(self)@.dom() == old(self)@.dom(),
            forall|k: i64| #[trigger] old(self)@.contains_key(k) ==> f.ensures(
                (old(self)@[k],),
                final(self)@[k],
            ),
    {
        let ghost m0 = self@;
        let pairs = self.pairs();
        let mut i: usize = 0;
        while i < pairs.len()
            invariant
                self.wf(),
                forall|v: i64| f.requires((v,)),
                i <= pairs.len(),
                self@.dom() == m0.dom(),
                forall|j: int| 0 <= j < pairs.len() ==> #[trigger] m0.contains_key(pairs@[j].0) && m0[pairs@[j].0] == pairs@[j].1,
                forall|a: int, b: int| 0 <= a < b < pairs.len() ==> #[trigger] pairs@[a].0 != #[trigger] pairs@[b].0,
                forall|j: int| 0 <= j < i ==> f.ensures((pairs@[j].1,), #[trigger] self@[pairs@[j].0]),
                forall|k: i64| m0.contains_key(k) && (forall|j: int| 0 <= j < i ==> pairs@[j].0 != k)
                    ==> #[trigger] self@[k] == m0[k],
            decreases pairs.len() - i,
        {
            let (k, v) = pairs[i];
            let nv = f(v);
            self.set_existing(k, nv);
            proof {
                assert forall|j: int| 0 <= j < i + 1 implies f.ensures((pairs@[j].1,), #[trigger] self@[pairs@[j].0]) by {
                    if j < i {
                        assert(pairs@[j].0 != pairs@[i as int].0);
                    }
                }
                assert forall|k2: i64| m0.contains_key(k2) && (forall|j: int| 0 <= j < i + 1 ==> pairs@[j].0 != k2)
                    implies #[trigger] self@[k2] == m0[k2] by {
                    assert(pairs@[i as int].0 != k2);
                }
                assert(self@.dom() =~= m0.dom());
            }
            i = i + 1;
        }
        proof {
            assert forall|k: i64| #[trigger] m0.contains_key(k) implies f.ensures((m0[k],), self@[k]) by {
                let j = choose|j: int| 0 <= j < pairs.len() && pairs@[j].0 == k;
                assert(f.ensures((pairs@[j].1,), self@[pairs@[j].0]));
            }
        }
    }

    /// Visits (potentially in parallel) the entries of the map.
    pub fn par_iter(&self) -> (it: ParIter<'_>)
        ensures
            it.map == self,
    {
        ParIter { map: self }
    }

    /// Visits (potentially in parallel) immutably borrowed keys in an arbitrary order.
    pub fn par_keys(&self) -> (it: ParKeys<'_>)
        ensures
            it.map == self,
    {
        ParKeys { map: self }
    }

    /// Visits (potentially in parallel) immutably borrowed values in an arbitrary order.
    pub fn par_values(&self) -> (it: ParValues<'_>)
        ensures
            it.map == self,
    {
        ParValues { map: self }
    }

    /// Visits (potentially in parallel) the entries of the map, with mutably borrowed values.
    pub fn par_iter_mut(&mut self) -> (it: ParIterMut<'_>)
        ensures
            *it.map == *old(self),
            *final(it.map) == *final(self),
    {
        ParIterMut { map: self }
    }

    /// Visits (potentially in parallel) mutably borrowed values in an arbitrary order.
    pub fn par_values_mut(&mut self) -> (it: ParValuesMut<'_>)
        ensures
            *it.map == *old(self),
            *final(it.map) == *final(self),
    {
        ParValuesMut { map: self }
    }

    /// Returns `true` if the map is equal to another, i.e. both maps contain the same keys mapped
    /// to the same values.
    pub fn par_eq(&self, other: &Self) -> (r: bool)
        requires
            self.wf(),
            other.wf(),
        ensures
            r == (self@ == other@),
    {
        if self.len() != other.len() {
            return false;
        }
        let pairs = self.pairs();
        let mut i: usize = 0;
        while i < pairs.len()
            invariant
                self.wf(),
                other.wf(),
                i <= pairs.len(),
                forall|j: int| 0 <= j < pairs.len() ==> #[trigger] self@.contains_key(pairs@[j].0) && self@[pairs@[j].0] == pairs@[j].1,
                forall|j: int| 0 <= j < i ==> other@.contains_key(#[trigger] pairs@[j].0) && other@[pairs@[j].0] == pairs@[j].1,
            decreases pairs.len() - i,
        {
            let (key, value) = pairs[i];
            match other.get(key) {
                Some(v) => {
                    if v != value {
                        return false;
                    }
                },
                None => {
                    return false;
                },
            }
            assert(other@.contains_key(pairs@[i as int].0) && other@[pairs@[i as int].0] == pairs@[i as int].1);
            i = i + 1;
        }
        proof {
            self.lemma_finite();
            other.lemma_finite();
            assert forall|k: i64| #[trigger] self@.contains_key(k) implies other@.contains_key(k) && other@[k] == self@[k] by {
                let j = choose|j: int| 0 <= j < pairs.len() && pairs@[j].0 == k;
                assert(other@.contains_key(pairs@[j].0));
            }
            vstd::set_lib::lemma_subset_equality(self@.dom(), other@.dom());
            assert(self@ =~= other@);
        }
        true
    }

    /// Inserts every pair, in order: a later pair for a key overrides an earlier one.
    pub fn par_extend(&mut self, pairs: Vec<(i64, i64)>)
        requires
            old(self).wf(),
            old(self)@.len() + pairs.len() <= max_entries(),
        ensures
            final(self).wf(),
            final(self)@ == insert_all(old(self)@, pairs@),
    {
        let len = pairs.len();
        // Keys may be already present or show multiple times in the iterator. Reserve the entire
        // length if the map is empty. Otherwise reserve half the length (rounded up), so the map
        // will only resize twice in the worst case.
        let reserve = if self.is_empty() { len } else { (len + 1) / 2 };
        proof {
            lemma_grow_bound(self@.len(), reserve as nat);
        }
        self.reserve(reserve);
        let ghost m0 = self@;
        let mut i: usize = 0;
        while i < len
            invariant
                self.wf(),
                len == pairs.len(),
                i <= len,
                m0 == old(self)@,
                m0.len() + len <= max_entries(),
                self@ == insert_all(m0, pairs@.take(i as int)),
                self@.len() <= m0.len() + i,
            decreases len - i,
        {
            proof {
                self.lemma_finite();
                assert(pairs@.take(i + 1).drop_last() =~= pairs@.take(i as int));
                lemma_grow_bound(self@.len(), 1);
            }
            self.insert(pairs[i].0, pairs[i].1);
            i = i + 1;
        }
        proof {
            assert(pairs@.take(len as int) =~= pairs@);
        }
    }

    /// Collects the pairs into a new map: a later pair for a key overrides an earlier one.
    pub fn from_par_iter(pairs: Vec<(i64, i64)>) -> (m: HashMap)
        requires
            pairs.len() <= max_entries(),
        ensures
            m.wf(),
            m@ == insert_all(Map::empty(), pairs@),
    {
        let mut map = HashMap::new();
        map.par_extend(pairs);
        map
    }
}

} // verus!
