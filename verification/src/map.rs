//! A hash map from `i64` keys to `i64` values on top of the incremental-resizing raw table.
use vstd::prelude::*;
use vstd::multiset::Multiset;
use crate::table::Entry;
use crate::table::TryReserveError;
use crate::table::entry_matches;
use crate::table::max_capacity;
use crate::table::shrink_limit;
use crate::table::table_layout_for;
use crate::raw::RawTable;
use crate::raw::Bucket;
use crate::raw::RawIter;
use crate::raw::leftovers_after;
use crate::raw::carry_rounds;
use crate::raw::grow_size;

verus! {

broadcast use {
    vstd::multiset::group_multiset_axioms,
    vstd::set::group_set_axioms,
    vstd::set_lib::group_set_lib_default,
    vstd::seq_lib::group_to_multiset_ensures,
};

/// What std's `DefaultHasher`, as made by `default`, hashes a key to.
pub uninterp spec fn key_hash(key: i64) -> u64;

/// `BuildHasher::hash_one` of std's `BuildHasherDefault<DefaultHasher>`. std documents that every
/// `DefaultHasher` made by `new` or `default` is the same hasher, so the hash depends on the key
/// alone; which value it is, std leaves unspecified.
#[verifier::external_body]
pub fn make_hash(key: i64) -> (h: u64)
    ensures
        h == key_hash(key),
{
    std::hash::BuildHasher::hash_one(
        &std::hash::BuildHasherDefault::<std::hash::DefaultHasher>::default(),
        key,
    )
}

/// A hash map whose resizes move the old entries a few at a time, on later inserts.
pub struct HashMap {
    pub(crate) table: RawTable,
    map: Ghost<Map<i64, i64>>,
}

impl View for HashMap {
    type V = Map<i64, i64>;

    closed spec fn view(&self) -> Map<i64, i64> {
        self.map@
    }
}

impl HashMap {
    /// The map's invariant: the table holds exactly one entry `(key_hash(k), k, v)` for each
    /// pair `k => v` of the map, and nothing else.
    pub closed spec fn wf(self) -> bool {
        &&& self.table.wf()
        &&& self.map@.dom().finite()
        &&& self.table@.len() == self.map@.dom().len()
        &&& forall|e: Entry| #[trigger] self.table@.count(e) > 0 ==> {
            &&& e.0 == key_hash(e.1)
            &&& self.map@.contains_key(e.1)
            &&& self.map@[e.1] == e.2
            &&& self.table@.count(e) == 1
        }
        &&& forall|k: i64| #[trigger] self.map@.contains_key(k)
            ==> self.table@.count((key_hash(k), k, self.map@[k])) > 0
    }

    /// The capacity of the map's main table.
    pub closed spec fn spec_capacity(self) -> nat {
        self.table.spec_capacity()
    }

    /// How many more entries the map takes before it reallocates.
    pub closed spec fn room(self) -> int {
        self.table.room()
    }

    /// Whether a resize is in progress.
    pub closed spec fn resizing(self) -> bool {
        self.table.split()
    }

    /// How many entries are still in the old table of a resize in progress.
    pub closed spec fn leftover_len(self) -> nat {
        self.table.old_items().len()
    }

    /// The number of buckets of the map's main table.
    pub closed spec fn spec_buckets(self) -> nat {
        self.table.spec_buckets()
    }

    /// While a resize is in progress and entries remain to move, the map has room for at least
    /// the inserts that move them, so inserting a new key does not reallocate.
    pub proof fn lemma_resize_has_room(self)
        requires
            self.wf(),
            self.resizing(),
            self.leftover_len() > 0,
        ensures
            self.room() >= carry_rounds(self.leftover_len()),
            self.room() > 0,
    {
        self.table.lemma_resize_has_room();
    }

    /// The capacity covers the map's entries and fits in a `usize`.
    pub proof fn lemma_capacity_bounds(self)
        requires
            self.wf(),
        ensures
            self@.len() <= self.spec_capacity() <= usize::MAX,
            0 <= self.room() <= usize::MAX - self@.len(),
    {
        self.table.lemma_capacity_bounds();
    }

    /// The map's keys are a finite set.
    pub proof fn lemma_finite(self)
        requires
            self.wf(),
        ensures
            self@.dom().finite(),
    {
    }

    /// Creates an empty map.
    pub fn new() -> (m: Self)
        ensures
            m.wf(),
            m@ == Map::<i64, i64>::empty(),
            m.spec_capacity() == 0,
            m.spec_buckets() == 1,
    {
        HashMap { table: RawTable::new(), map: Ghost(Map::empty()) }
    }

    /// Creates an empty map with room for at least `capacity` entries.
    pub fn with_capacity(capacity: usize) -> (m: Self)
        requires
            capacity <= max_capacity(),
        ensures
            m.wf(),
            m@ == Map::<i64, i64>::empty(),
            m.room() >= capacity,
            m.spec_capacity() >= capacity,
    {
        HashMap { table: RawTable::with_capacity(capacity), map: Ghost(Map::empty()) }
    }

    /// The number of entries.
    pub fn len(&self) -> (n: usize)
        requires
            self.wf(),
        ensures
            n == self@.len(),
    {
        self.table.len()
    }

    /// Whether the map has no entry.
    pub fn is_empty(&self) -> (b: bool)
        requires
            self.wf(),
        ensures
            b == (self@.len() == 0),
    {
        self.table.len() == 0
    }

    /// The number of entries the map can hold without reallocating.
    pub fn capacity(&self) -> (n: usize)
        requires
            self.wf(),
        ensures
            n == self.spec_capacity(),
    {
        self.table.capacity()
    }

    /// Finds the bucket of `key`, if the map has it.
    fn find(&self, hash: u64, key: i64) -> (r: Option<Bucket>)
        requires
            self.wf(),
            hash == key_hash(key),
        ensures
            r matches Some(b) ==> {
                &&& self.table.holds(b)
                &&& self@.contains_key(key)
                &&& b.entry == (hash, key, self@[key])
            },
            r is None ==> !self@.contains_key(key),
    {
        let r = self.table.find(hash, key);
        proof {
            if self@.contains_key(key) {
                assert(self.table@.count((key_hash(key), key, self@[key])) > 0);
            }
        }
        r
    }

    /// The value of `key`, if the map has it.
    pub fn get(&self, key: i64) -> (r: Option<i64>)
        requires
            self.wf(),
        ensures
            r == (if self@.contains_key(key) {
                Some(self@[key])
            } else {
                None
            }),
    {
        let hash = make_hash(key);
        match self.find(hash, key) {
            Some(b) => Some(b.entry.2),
            None => None,
        }
    }

    /// Whether the map has `key`.
    pub fn contains_key(&self, key: i64) -> (b: bool)
        requires
            self.wf(),
        ensures
            b == self@.contains_key(key),
    {
        let hash = make_hash(key);
        self.find(hash, key).is_some()
    }

    /// Maps `key` to `value`, returning the value `key` had.
    pub fn insert(&mut self, key: i64, value: i64) -> (r: Option<i64>)
        requires
            old(self).wf(),
            old(self).room() > 0 || old(self)@.contains_key(key) || grow_size(old(self)@.len(), 1)
                <= max_capacity(),
        ensures
            final(self).wf(),
            final(self)@ == old(self)@.insert(key, value),
            r == (if old(self)@.contains_key(key) {
                Some(old(self)@[key])
            } else {
                None
            }),
            old(self).room() > 0 && !old(self)@.contains_key(key) ==> final(self).spec_buckets()
                == old(self).spec_buckets(),
            old(self).room() > 0 && !old(self)@.contains_key(key) ==> final(self).room() + 1
                >= old(self).room(),
            old(self)@.contains_key(key) ==> final(self).room() == old(self).room(),
            old(self).resizing() && old(self).leftover_len() > 0 && !old(self)@.contains_key(key)
                ==> final(self).leftover_len() == leftovers_after(old(self).leftover_len(), 1),
    {
        let hash = make_hash(key);
        match self.find(hash, key) {
            Some(b) => {
                let old_value = self.replace_found(&b, key, value);
                Some(old_value)
            },
            None => {
                let ghost t0 = self.table@;
                self.table.insert(hash, key, value);
                let ghost ne: Entry = (hash, key, value);
                proof {
                    let m0 = self.map@;
                    let m1 = m0.insert(key, value);
                    let t1 = self.table@;
                    assert(t0.count(ne) == 0) by {
                        if t0.count(ne) > 0 {
                            assert(m0.contains_key(key));
                        }
                    }
                    assert forall|e: Entry| #[trigger] t1.count(e) > 0 implies {
                        &&& e.0 == key_hash(e.1)
                        &&& m1.contains_key(e.1)
                        &&& m1[e.1] == e.2
                        &&& t1.count(e) == 1
                    } by {
                        if e != ne {
                            assert(t0.count(e) > 0);
                            if e.1 == key {
                                assert(m0.contains_key(key));
                            }
                        }
                    }
                    assert forall|k: i64| #[trigger] m1.contains_key(k) implies t1.count(
                        (key_hash(k), k, m1[k]),
                    ) > 0 by {
                        if k != key {
                            assert(m0.contains_key(k));
                            assert(t0.count((key_hash(k), k, m0[k])) > 0);
                        }
                    }
                    assert(m1.dom() =~= m0.dom().insert(key));
                }
                self.map = Ghost(self.map@.insert(key, value));
                None
            },
        }
    }

    /// Writes `value` into the bucket `b` that `find` returned for `key`; returns the value it
    /// replaced.
    fn replace_found(&mut self, b: &Bucket, key: i64, value: i64) -> (r: i64)
        requires
            old(self).wf(),
            old(self).table.holds(*b),
            old(self)@.contains_key(key),
            b.entry == (key_hash(key), key, old(self)@[key]),
        ensures
            final(self).wf(),
            final(self)@ == old(self)@.insert(key, value),
            r == old(self)@[key],
            final(self).room() == old(self).room(),
            final(self).spec_buckets() == old(self).spec_buckets(),
            final(self).resizing() == old(self).resizing(),
            final(self).leftover_len() == old(self).leftover_len(),
    {
        let ghost t0 = self.table@;
        let old_value = self.table.replace_value(b, value);
        let ghost ne: Entry = (b.entry.0, key, value);
        proof {
            let m0 = self.map@;
            let m1 = m0.insert(key, value);
            let t1 = self.table@;
            assert(m1.dom() =~= m0.dom());
            assert forall|e: Entry| #[trigger] t1.count(e) > 0 implies {
                &&& e.0 == key_hash(e.1)
                &&& m1.contains_key(e.1)
                &&& m1[e.1] == e.2
                &&& t1.count(e) == 1
            } by {
                if e != ne {
                    assert(t0.count(e) > 0);
                    if e.1 == key {
                        assert(e == b.entry);
                    }
                } else {
                    if ne != b.entry {
                        if t0.count(ne) > 0 {
                            assert(ne == b.entry);
                        }
                    }
                }
            }
            assert forall|k: i64| #[trigger] m1.contains_key(k) implies t1.count(
                (key_hash(k), k, m1[k]),
            ) > 0 by {
                if k != key {
                    assert(m0.contains_key(k));
                    assert(t0.count((key_hash(k), k, m0[k])) > 0);
                }
            }
        }
        self.map = Ghost(self.map@.insert(key, value));
        old_value
    }

    /// Writes `value` as the value of `key`, which the map has; no entry moves.
    pub(crate) fn set_existing(&mut self, key: i64, value: i64)
        requires
            old(self).wf(),
            old(self)@.contains_key(key),
        ensures
            final(self).wf(),
            final(self)@ == old(self)@.insert(key, value),
    {
        let hash = make_hash(key);
        match self.find(hash, key) {
            Some(b) => {
                self.replace_found(&b, key, value);
            },
            None => {},
        }
    }

    /// Every `key => value` pair of the map, each once, in the order the table holds them.
    pub fn pairs(&self) -> (r: Vec<(i64, i64)>)
        requires
            self.wf(),
        ensures
            r.len() == self@.len(),
            forall|i: int| 0 <= i < r.len() ==> #[trigger] self@.contains_key(r[i].0) && self@[r[i].0] == r[i].1,
            forall|i: int, j: int| 0 <= i < j < r.len() ==> #[trigger] r[i].0 != #[trigger] r[j].0,
            forall|k: i64| #[trigger] self@.contains_key(k) ==> exists|i: int| 0 <= i < r.len() && r[i].0 == k,
    {
        let mut acc: Vec<(i64, i64)> = Vec::new();
        let mut it: RawIter = self.table.iter();
        let ghost mut ys: Seq<Entry> = Seq::empty();
        loop
            invariant
                self.wf(),
                it.valid(),
                it.source() == self.table,
                ys.to_multiset() =~= it.yielded(),
                acc.len() == ys.len(),
                forall|i: int| 0 <= i < ys.len() ==> #[trigger] acc@[i] == (ys[i].1, ys[i].2),
                forall|i: int| 0 <= i < ys.len() ==> self.table@.count(#[trigger] ys[i]) > 0,
                forall|i: int, j: int| 0 <= i < j < ys.len() ==> #[trigger] ys[i] != #[trigger] ys[j],
            ensures
                ys.to_multiset() =~= self.table@,
                acc.len() == ys.len(),
                forall|i: int| 0 <= i < ys.len() ==> #[trigger] acc@[i] == (ys[i].1, ys[i].2),
                forall|i: int| 0 <= i < ys.len() ==> self.table@.count(#[trigger] ys[i]) > 0,
                forall|i: int, j: int| 0 <= i < j < ys.len() ==> #[trigger] ys[i] != #[trigger] ys[j],
            decreases self.table@.len() - it.yielded().len(),
        {
            let ghost y0 = it.yielded();
            proof {
                it.lemma_yielded_sub();
            }
            match it.next() {
                Some(b) => {
                    proof {
                        self.table.lemma_holds_counted(b);
                        it.lemma_yielded_sub();
                        it.lemma_counts();
                        assert(it.yielded().count(b.entry) == y0.count(b.entry) + 1);
                        assert(y0.count(b.entry) == 0);
                        assert forall|i: int| 0 <= i < ys.len() implies ys[i] != b.entry by {
                            assert(ys.to_multiset().count(ys[i]) > 0);
                        }
                        ys = ys.push(b.entry);
                    }
                    acc.push((b.entry.1, b.entry.2));
                },
                None => {
                    break;
                },
            }
        }
        proof {
            assert forall|i: int| 0 <= i < acc.len() implies #[trigger] self@.contains_key(acc@[i].0) && self@[acc@[i].0] == acc@[i].1 by {
                assert(self.table@.count(ys[i]) > 0);
            }
            assert forall|i: int, j: int| 0 <= i < j < acc.len() implies #[trigger] acc@[i].0 != #[trigger] acc@[j].0 by {
                assert(self.table@.count(ys[i]) > 0);
                assert(self.table@.count(ys[j]) > 0);
                assert(ys[i] != ys[j]);
            }
            assert forall|k: i64| #[trigger] self@.contains_key(k) implies exists|i: int| 0 <= i < acc.len() && acc@[i].0 == k by {
                let e: Entry = (key_hash(k), k, self@[k]);
                assert(self.table@.count(e) > 0);
                assert(ys.to_multiset().count(e) > 0);
                assert(ys.contains(e));
                let i = choose|i: int| 0 <= i < ys.len() && ys[i] == e;
                assert(acc@[i].0 == k);
            }
            assert(ys.to_multiset().len() == ys.len());
        }
        acc
    }

    /// Removes `key`, returning the value it had.
    pub fn remove(&mut self, key: i64) -> (r: Option<i64>)
        requires
            old(self).wf(),
        ensures
            final(self).wf(),
            final(self)@ == old(self)@.remove(key),
            r == (if old(self)@.contains_key(key) {
                Some(old(self)@[key])
            } else {
                None
            }),
            final(self).room() >= old(self).room(),
    {
        match self.remove_entry(key) {
            Some(kv) => Some(kv.1),
            None => None,
        }
    }

    /// Removes `key`, returning the key and the value it had.
    pub fn remove_entry(&mut self, key: i64) -> (r: Option<(i64, i64)>)
        requires
            old(self).wf(),
        ensures
            final(self).wf(),
            final(self)@ == old(self)@.remove(key),
            r == (if old(self)@.contains_key(key) {
                Some((key, old(self)@[key]))
            } else {
                None
            }),
            final(self).room() >= old(self).room(),
    {
        let hash = make_hash(key);
        match self.find(hash, key) {
            Some(b) => {
                let ghost t0 = self.table@;
                self.table.erase_no_drop(&b);
                self.table.post_erase(&b);
                proof {
                    let m0 = self.map@;
                    let m1 = m0.remove(key);
                    let t1 = self.table@;
                    assert forall|e: Entry| #[trigger] t1.count(e) > 0 implies {
                        &&& e.0 == key_hash(e.1)
                        &&& m1.contains_key(e.1)
                        &&& m1[e.1] == e.2
                        &&& t1.count(e) == 1
                    } by {
                        assert(t0.count(e) > 0);
                        if e.1 == key {
                            assert(e == b.entry);
                        }
                    }
                    assert forall|k: i64| #[trigger] m1.contains_key(k) implies t1.count(
                        (key_hash(k), k, m1[k]),
                    ) > 0 by {
                        assert(m0.contains_key(k));
                        assert(t0.count((key_hash(k), k, m0[k])) > 0);
                    }
                    assert(m1.dom() =~= m0.dom().remove(key));
                }
                self.map = Ghost(self.map@.remove(key));
                Some((key, b.entry.2))
            },
            None => {
                proof {
                    assert(self.map@.remove(key) =~= self.map@);
                }
                None
            },
        }
    }

    /// Returns the value of `key`, first inserting `default` for it when the map does not have
    /// it.
    pub fn entry_or_insert(&mut self, key: i64, default: i64) -> (r: i64)
        requires
            old(self).wf(),
            old(self).room() > 0 || old(self)@.contains_key(key) || grow_size(old(self)@.len(), 1)
                <= max_capacity(),
        ensures
            final(self).wf(),
            old(self)@.contains_key(key) ==> final(self)@ == old(self)@ && r == old(self)@[key],
            !old(self)@.contains_key(key) ==> final(self)@ == old(self)@.insert(key, default)
                && r == default,
    {
        match self.get(key) {
            Some(v) => v,
            None => {
                self.insert(key, default);
                default
            },
        }
    }

    /// Ensures that at least `additional` more entries fit without reallocating. When the map has
    /// to grow, it asks for `grow_size(len, additional)` entries.
    pub fn reserve(&mut self, additional: usize)
        requires
            old(self).wf(),
            old(self).room() > additional || grow_size(old(self)@.len(), additional as nat)
                <= max_capacity(),
        ensures
            final(self).wf(),
            final(self)@ == old(self)@,
            final(self).room() >= additional,
            old(self).room() > additional ==> final(self).spec_buckets() == old(self).spec_buckets()
                && final(self).spec_capacity() == old(self).spec_capacity(),
            old(self).room() <= additional ==> {
                &&& final(self).resizing() == (old(self)@.len() > 0)
                &&& final(self).leftover_len() == old(self)@.len()
                &&& final(self).spec_capacity() >= grow_size(old(self)@.len(), additional as nat)
            },
    {
        self.table.reserve(additional);
        proof {
            self.table.lemma_view_parts();
        }
    }

    /// Tries to ensure that at least `additional` more entries fit without reallocating. When the
    /// map has to grow, it asks for `grow_size(len, additional)` entries and fails with
    /// `CapacityOverflow` exactly when that is more than a table can have, or with `AllocError`
    /// when the allocator refuses; a failure keeps the entries and the main table's buckets, and
    /// leaves no resize in progress.
    pub fn try_reserve(&mut self, additional: usize) -> (r: Result<(), TryReserveError>)
        requires
            old(self).wf(),
        ensures
            final(self).wf(),
            final(self)@ == old(self)@,
            r is Ok ==> final(self).room() >= additional,
            old(self).room() > additional ==> r is Ok && final(self).spec_buckets()
                == old(self).spec_buckets() && final(self).spec_capacity() == old(self).spec_capacity(),
            old(self).room() <= additional ==> {
                &&& r == Err::<(), TryReserveError>(TryReserveError::CapacityOverflow) <==> grow_size(
                    old(self)@.len(),
                    additional as nat,
                ) > max_capacity()
                &&& r is Ok ==> {
                    &&& final(self).resizing() == (old(self)@.len() > 0)
                    &&& final(self).leftover_len() == old(self)@.len()
                    &&& final(self).spec_capacity() >= grow_size(old(self)@.len(), additional as nat)
                }
                &&& r is Err ==> {
                    &&& !final(self).resizing()
                    &&& final(self).spec_buckets() == old(self).spec_buckets()
                }
            },
            r matches Err(TryReserveError::AllocError { size, align }) ==> {
                &&& old(self).room() <= additional
                &&& grow_size(old(self)@.len(), additional as nat) <= max_capacity()
                &&& table_layout_for(grow_size(old(self)@.len(), additional as nat), size as nat, align as nat)
            },
    {
        let r = self.table.try_reserve(additional);
        proof {
            self.table.lemma_view_parts();
        }
        r
    }

    /// Shrinks the capacity as far as the entries, and the moves of a resize in progress, allow.
    pub fn shrink_to_fit(&mut self)
        requires
            old(self).wf(),
        ensures
            final(self).wf(),
            final(self)@ == old(self)@,
            final(self).resizing() == old(self).resizing(),
            final(self).spec_capacity() >= old(self)@.len() + carry_rounds(old(self).leftover_len()),
            final(self).spec_capacity() <= shrink_limit(
                old(self)@.len() + carry_rounds(old(self).leftover_len()),
            ),
    {
        self.table.shrink_to(0);
    }

    /// Shrinks the capacity, but not below `min_capacity`.
    pub fn shrink_to(&mut self, min_capacity: usize)
        requires
            old(self).wf(),
        ensures
            final(self).wf(),
            final(self)@ == old(self)@,
            old(self).spec_capacity() >= min_capacity ==> final(self).spec_capacity() >= min_capacity,
            old(self).spec_capacity() >= min_capacity ==> final(self).spec_capacity() <= shrink_limit(
                if old(self)@.len() + carry_rounds(old(self).leftover_len()) > min_capacity {
                    old(self)@.len() + carry_rounds(old(self).leftover_len())
                } else {
                    min_capacity as nat
                },
            ),
            old(self).spec_capacity() < min_capacity ==> final(self).spec_capacity() == old(self).spec_capacity(),
            final(self).spec_capacity() >= old(self)@.len() + carry_rounds(old(self).leftover_len()),
            final(self).resizing() == old(self).resizing(),
    {
        self.table.shrink_to(min_capacity);
    }

    /// Removes every entry.
    pub fn clear(&mut self)
        requires
            old(self).wf(),
        ensures
            final(self).wf(),
            final(self)@ == Map::<i64, i64>::empty(),
    {
        self.table.clear();
        self.map = Ghost(Map::empty());
    }
}

impl Clone for HashMap {
    fn clone(&self) -> (r: Self)
        ensures
            self.wf() ==> r.wf(),
            r@ == self@,
    {
        HashMap { table: self.table.clone(), map: Ghost(self.map@) }
    }
}

} // verus!
