//! A raw hash table with incremental resizing.
//!
//! The table keeps a main hashbrown table and, while a resize is in progress, the old table
//! ("leftovers") whose entries still have to move. Every insert during a resize moves up to `R`
//! entries from the old table into the main one, so no single insert pays for moving all of them.
use vstd::prelude::*;
use vstd::multiset::Multiset;
use crate::table::Entry;
use crate::table::EntryTable;
use crate::table::TryReserveError;
use crate::table::table_slots;
use crate::table::table_capacity;
use crate::table::table_items;
use crate::table::table_len;
use crate::table::table_room;
use crate::table::entry_matches;
use crate::table::max_capacity;
use crate::table::max_entries;
use crate::table::lemma_items_clear_slot;
use crate::table::lemma_items_all_empty;
use crate::table::lemma_items_has_slot;
use crate::table::lemma_items_replace_slot;
use crate::table::lemma_items_take_step;
use crate::table::lemma_items_take_rest_empty;
use crate::table::lemma_items_take_le;
use crate::table::slot_items;
use crate::table::table_set_value;
use crate::table::table_new;
use crate::table::table_with_capacity;
use crate::table::table_len_of;
use crate::table::table_capacity_of;
use crate::table::table_num_buckets;
use crate::table::table_get_bucket;
use crate::table::table_take_bucket;
use crate::table::table_find_index;
use crate::table::table_insert;
use crate::table::table_reserve;
use crate::table::table_try_reserve;
use crate::table::table_shrink_to;
use crate::table::shrink_limit;
use crate::table::table_layout_for;
use crate::table::table_clear;
use crate::table::table_clone;

verus! {

broadcast use vstd::multiset::group_multiset_axioms;

/// How many entries each insert moves from the old table while a resize is in progress.
pub const R: usize = 8;

/// The number of entries left in the old table after `k` inserts, starting from `n`, when
/// nothing else removes any: each insert moves `R` of them, or all that are left.
pub open spec fn leftovers_after(n: nat, k: nat) -> nat
    decreases k,
{
    if k == 0 {
        n
    } else {
        leftovers_after(if n > R { (n - R) as nat } else { 0 }, (k - 1) as nat)
    }
}

/// One insert moves `R` leftover entries, or all of them when fewer are left.
pub proof fn lemma_leftovers_after_one(n: nat)
    ensures
        leftovers_after(n, 1) == if n > R { (n - R) as nat } else { 0 },
{
    reveal_with_fuel(leftovers_after, 2);
}

/// A resize that leaves `n` entries to move completes within `carry_rounds(n)` inserts.
pub proof fn lemma_resize_completes(n: nat)
    ensures
        leftovers_after(n, carry_rounds(n)) == 0,
    decreases n,
{
    if n == 0 {
    } else if n <= R {
        assert(carry_rounds(n) == 1);
        assert(leftovers_after(n, 1) == leftovers_after(0, 0));
    } else {
        let m = (n - R) as nat;
        assert(carry_rounds(n) == carry_rounds(m) + 1);
        lemma_resize_completes(m);
        assert(leftovers_after(n, carry_rounds(n)) == leftovers_after(m, carry_rounds(m)));
    }
}

/// The number of inserts that move `n` leftover entries: `n / R`, rounded up.
pub open spec fn carry_rounds(n: nat) -> nat {
    ((n + R - 1) / (R as int)) as nat
}

/// The capacity that a resize of a table of `len` entries asks for, to take `extra` more: room
/// for the `len` entries, for the `carry_rounds(len)` inserts that move them, and for `extra`
/// further entries, but at least for those inserts again.
pub open spec fn grow_size(len: nat, extra: nat) -> nat {
    len + carry_rounds(len) + if extra > carry_rounds(len) {
        extra
    } else {
        carry_rounds(len)
    }
}

/// The capacity that a resize of a table of `len` entries asks for, to take `extra` more
/// (`grow_size`), or `None` when it does not fit in a `usize`.
pub fn grow_request(len: usize, extra: usize) -> (r: Option<usize>)
    ensures
        r == (if grow_size(len as nat, extra as nat) <= usize::MAX {
            Some(grow_size(len as nat, extra as nat) as usize)
        } else {
            None::<usize>
        }),
{
    // We need to grow the table by at least a factor of (R + 1)/R to ensure that the new table
    // won't _also_ grow while we're still moving items from the old one:
    //  - we need to move another len items;
    //  - we move R items on each insert, so to move len items takes len / R inserts, rounded up.
    let inserts = len / R + if len % R == 0 { 0 } else { 1 };
    assert(inserts == carry_rounds(len as nat));
    // We also need to make sure we can fit the additional capacity required for `extra`.
    let add = if extra > inserts { extra } else { inserts };
    match len.checked_add(inserts) {
        Some(n) => n.checked_add(add),
        None => None,
    }
}

/// A reference to a full bucket of the table: its index, the entry it held when the reference
/// was made, and whether it is in the main table or in the old table that is being moved.
#[derive(Clone, Copy, Debug)]
pub struct Bucket {
    pub index: usize,
    pub entry: Entry,
    pub in_main: bool,
}

impl Bucket {
    /// Returns true if this bucket is in the "old" table and will be moved.
    pub fn will_move(&self) -> (b: bool)
        ensures
            b == !self.in_main,
    {
        !self.in_main
    }

    /// Returns true if this bucket is in the old table that is being moved.
    pub fn in_leftovers(&self) -> (b: bool)
        ensures
            b == !self.in_main,
    {
        !self.in_main
    }

    /// The entry held by this bucket.
    pub fn entry(&self) -> (e: Entry)
        ensures
            e == self.entry,
    {
        self.entry
    }
}

/// The old table while its entries are being moved, with the index of the next bucket to look
/// at: every bucket before that index is empty.
pub struct OldTable {
    table: EntryTable,
    next: usize,
}

impl OldTable {
    pub closed spec fn wf(self) -> bool {
        &&& self.next <= table_slots(self.table).len()
        &&& forall|i: int| 0 <= i < self.next ==> #[trigger] table_slots(self.table)[i] is None
    }

    /// Takes the entry of the next full bucket out of the old table, or returns `None` when the
    /// old table is empty.
    fn take_next(&mut self) -> (r: Option<Entry>)
        requires
            old(self).wf(),
        ensures
            final(self).wf(),
            table_slots(final(self).table).len() == table_slots(old(self).table).len(),
            r matches Some(e) ==> {
                &&& table_items(old(self).table).count(e) > 0
                &&& table_items(final(self).table) =~= table_items(old(self).table).remove(e)
                &&& final(self).next > old(self).next
            },
            r is None ==> table_items(old(self).table) =~= Multiset::<Entry>::empty(),
            r is None ==> table_items(final(self).table) =~= Multiset::<Entry>::empty(),
    {
        let n = table_num_buckets(&self.table);
        while self.next < n
            invariant
                self.wf(),
                n == table_slots(self.table).len(),
                table_slots(self.table) == table_slots(old(self).table),
                self.next >= old(self).next,
            decreases n - self.next,
        {
            let i = self.next;
            let taken = table_take_bucket(&mut self.table, i);
            self.next = i + 1;
            match taken {
                Some(e) => {
                    proof {
                        lemma_items_clear_slot(table_slots(old(self).table), i as int);
                    }
                    return Some(e);
                },
                None => {},
            }
        }
        proof {
            lemma_items_all_empty(table_slots(self.table));
        }
        None
    }
}

/// A raw hash table of `(hash, key, value)` entries with incremental resizing.
///
/// There may be two backing tables, and a lookup may return a reference to either. Entries in the
/// old table move to the main table a few at a time, as new entries are inserted.
pub struct RawTable {
    table: EntryTable,
    leftovers: Option<OldTable>,
}

impl View for RawTable {
    type V = Multiset<Entry>;

    /// All entries of the table: those of the main table and those still in the old one.
    closed spec fn view(&self) -> Multiset<Entry> {
        table_items(self.table).add(self.old_items())
    }
}

impl RawTable {
    /// The entries still in the old table (none when no resize is in progress).
    pub closed spec fn old_items(self) -> Multiset<Entry> {
        match self.leftovers {
            Some(lo) => table_items(lo.table),
            None => Multiset::empty(),
        }
    }

    /// The entries of the main table.
    pub closed spec fn main_items(self) -> Multiset<Entry> {
        table_items(self.table)
    }

    /// Whether a resize is in progress.
    pub closed spec fn split(self) -> bool {
        self.leftovers is Some
    }

    /// The capacity of the main table.
    pub closed spec fn spec_capacity(self) -> nat {
        table_capacity(self.table)
    }

    /// The number of buckets of the main table.
    pub closed spec fn spec_buckets(self) -> nat {
        table_slots(self.table).len()
    }

    /// How many more entries the table takes before its main table reallocates, counting the
    /// entries that are still to move from the old table.
    pub open spec fn room(self) -> int {
        self.spec_capacity() - self@.len()
    }

    /// Whether `b` refers to a full bucket of this table holding `b.entry`.
    pub closed spec fn holds(self, b: Bucket) -> bool {
        if b.in_main {
            &&& b.index < table_slots(self.table).len()
            &&& table_slots(self.table)[b.index as int] == Some(b.entry)
        } else {
            &&& self.leftovers is Some
            &&& b.index < table_slots(self.leftovers->Some_0.table).len()
            &&& table_slots(self.leftovers->Some_0.table)[b.index as int] == Some(b.entry)
        }
    }

    /// The table's invariant: the main table's capacity covers its entries; the old table's
    /// buckets before its cursor are empty; and while a resize is in progress the main table has
    /// room for every leftover entry plus one insert for each `R` of them, so that it never has to
    /// reallocate before the resize completes.
    pub closed spec fn wf(self) -> bool {
        &&& table_capacity(self.table) >= table_len(self.table)
        &&& table_capacity(self.table) <= usize::MAX
        &&& match self.leftovers {
            Some(lo) => {
                &&& lo.wf()
                &&& table_room(self.table) >= table_len(lo.table) + carry_rounds(table_len(lo.table))
            },
            None => true,
        }
    }

    /// The table's entries are those of the main table and those still in the old table, and
    /// their number is the sum of the two.
    pub proof fn lemma_view_parts(self)
        ensures
            self@ == self.main_items().add(self.old_items()),
            self@.len() == self.main_items().len() + self.old_items().len(),
            !self.split() ==> self.old_items() =~= Multiset::<Entry>::empty(),
            !self.split() ==> self@ =~= self.main_items(),
    {
    }

    /// The main table's capacity covers the table's entries and fits in a `usize`.
    pub proof fn lemma_capacity_bounds(self)
        requires
            self.wf(),
        ensures
            self@.len() <= self.spec_capacity() <= usize::MAX,
            0 <= self.room() <= usize::MAX - self@.len(),
    {
    }

    proof fn lemma_room_nonneg(self)
        requires
            self.wf(),
        ensures
            self.room() >= 0,
            self.spec_capacity() >= self.main_items().len(),
    {
    }

    /// Creates a new empty hash table without allocating any memory.
    pub fn new() -> (t: Self)
        ensures
            t.wf(),
            t@ =~= Multiset::<Entry>::empty(),
            !t.split(),
            t.spec_capacity() == 0,
            t.spec_buckets() == 1,
    {
        RawTable { table: table_new(), leftovers: None }
    }

    /// Allocates a new hash table with at least enough capacity for inserting the given number of
    /// elements without reallocating.
    pub fn with_capacity(capacity: usize) -> (t: Self)
        requires
            capacity <= max_capacity(),
        ensures
            t.wf(),
            t@ =~= Multiset::<Entry>::empty(),
            !t.split(),
            t.spec_capacity() >= capacity,
            t.room() >= capacity,
    {
        RawTable { table: table_with_capacity(capacity), leftovers: None }
    }

    /// Returns a reference to the full bucket `index` of the main table.
    pub fn bucket(&self, index: usize) -> (b: Bucket)
        requires
            index < self.spec_buckets(),
            self.main_slot_full(index as int),
        ensures
            self.holds(b),
            b.in_main,
            b.index == index,
    {
        match table_get_bucket(&self.table, index) {
            Some(e) => Bucket { index, entry: e, in_main: true },
            None => {
                proof {
                    assert(false);
                }
                Bucket { index, entry: (0, 0, 0), in_main: true }
            },
        }
    }

    /// Whether bucket `i` of the main table is full.
    pub closed spec fn main_slot_full(self, i: int) -> bool {
        table_slots(self.table)[i] is Some
    }

    /// Erases an element from the table. The old table is not dropped here even when it becomes
    /// empty; `post_erase` does that.
    pub fn erase_no_drop(&mut self, item: &Bucket)
        requires
            old(self).wf(),
            old(self).holds(*item),
        ensures
            final(self).wf(),
            final(self)@ =~= old(self)@.remove(item.entry),
            old(self)@.count(item.entry) > 0,
            final(self).split() == old(self).split(),
            final(self).room() >= old(self).room(),
            final(self).spec_buckets() == old(self).spec_buckets(),
            item.in_main ==> final(self).old_items() == old(self).old_items(),
            !item.in_main ==> final(self).main_items() == old(self).main_items(),
            !item.in_main ==> final(self).spec_capacity() == old(self).spec_capacity(),
    {
        if item.in_main {
            let taken = table_take_bucket(&mut self.table, item.index);
            proof {
                lemma_items_clear_slot(table_slots(old(self).table), item.index as int);
            }
        } else {
            let mut lo = self.leftovers.take().unwrap();
            let taken = table_take_bucket(&mut lo.table, item.index);
            proof {
                lemma_items_clear_slot(table_slots(old(self).leftovers->Some_0.table), item.index as int);
                assert forall|i: int| 0 <= i < lo.next implies #[trigger] table_slots(lo.table)[i] is None by {
                    assert(table_slots(old(self).leftovers->Some_0.table)[i] is None);
                }
            }
            self.leftovers = Some(lo);
        }
    }

    /// Drops the old table once an erase has emptied it.
    pub fn post_erase(&mut self, item: &Bucket)
        requires
            old(self).wf(),
        ensures
            final(self).wf(),
            final(self)@ == old(self)@,
            final(self).main_items() == old(self).main_items(),
            final(self).spec_capacity() == old(self).spec_capacity(),
            final(self).spec_buckets() == old(self).spec_buckets(),
            final(self).split() == (old(self).split() && !(item.will_move_spec()
                && old(self).old_items().len() == 0)),
    {
        if item.will_move() {
            let empty = match &self.leftovers {
                Some(lo) => table_len_of(&lo.table) == 0,
                None => false,
            };
            if empty {
                self.leftovers = None;
            }
        }
    }

    /// Marks all table buckets as empty.
    pub fn clear_no_drop(&mut self)
        requires
            old(self).wf(),
        ensures
            final(self).wf(),
            final(self)@ =~= Multiset::<Entry>::empty(),
            !final(self).split(),
            final(self).spec_capacity() >= old(self).spec_capacity(),
            final(self).spec_buckets() == old(self).spec_buckets(),
    {
        table_clear(&mut self.table);
        self.leftovers = None;
    }

    /// Removes all elements from the table without freeing the backing memory.
    pub fn clear(&mut self)
        requires
            old(self).wf(),
        ensures
            final(self).wf(),
            final(self)@ =~= Multiset::<Entry>::empty(),
            !final(self).split(),
            final(self).spec_capacity() >= old(self).spec_capacity(),
            final(self).spec_buckets() == old(self).spec_buckets(),
    {
        self.leftovers = None;
        table_clear(&mut self.table);
    }

    /// Returns the number of elements the map can hold without reallocating.
    pub fn capacity(&self) -> (n: usize)
        requires
            self.wf(),
        ensures
            n == self.spec_capacity(),
    {
        table_capacity_of(&self.table)
    }

    /// Returns the number of elements in the table.
    pub fn len(&self) -> (n: usize)
        requires
            self.wf(),
        ensures
            n == self@.len(),
    {
        let main = table_len_of(&self.table);
        let old_len = match &self.leftovers {
            Some(lo) => table_len_of(&lo.table),
            None => 0,
        };
        proof {
            self.lemma_room_nonneg();
        }
        // The main table's capacity, a `usize`, bounds the sum.
        main + old_len
    }

    /// Returns the number of buckets in the main table.
    pub fn buckets(&self) -> (n: usize)
        ensures
            n == self.spec_buckets(),
    {
        table_num_buckets(&self.table)
    }

    /// Returns whether a resize is in progress.
    pub fn is_split(&self) -> (b: bool)
        ensures
            b == self.split(),
    {
        self.leftovers.is_some()
    }
}

impl RawTable {
    /// Moves up to `R` entries from the old table into the main table, and drops the old table
    /// once it is empty. The main table has room for each of them, so it does not reallocate.
    fn carry(&mut self)
        requires
            table_capacity(old(self).table) >= table_len(old(self).table),
            table_capacity(old(self).table) <= usize::MAX,
            old(self).leftovers matches Some(lo) ==> {
                &&& lo.wf()
                &&& table_room(old(self).table) + 1 >= table_len(lo.table) + carry_rounds(table_len(lo.table))
            },
        ensures
            final(self).wf(),
            final(self)@ =~= old(self)@,
            final(self).spec_buckets() == old(self).spec_buckets(),
            final(self).spec_capacity() >= old(self).spec_capacity(),
            final(self).room() + 1 >= old(self).room(),
            old(self).split() ==> final(self).split() == (old(self).old_items().len() > R),
            old(self).split() ==> final(self).old_items().len() + (if old(self).old_items().len() > R {
                R as nat
            } else {
                old(self).old_items().len()
            }) == old(self).old_items().len(),
            !old(self).split() ==> *final(self) == *old(self),
            forall|i: int|
                0 <= i < table_slots(old(self).table).len() && #[trigger] table_slots(old(self).table)[i] is Some
                    ==> table_slots(final(self).table)[i] == table_slots(old(self).table)[i],
    {
        let mut lo = match self.leftovers.take() {
            Some(lo) => lo,
            None => {
                return;
            },
        };
        let ghost v0 = old(self)@;
        let ghost l0 = table_len(lo.table);
        let ghost f0 = table_room(self.table);
        let ghost nb = table_slots(self.table).len();
        let ghost c0 = table_capacity(self.table);
        if table_len_of(&lo.table) != 0 {
            let mut moved: usize = 0;
            while moved < R
                invariant
                    self.leftovers is None,
                    v0 == old(self)@,
                    nb == old(self).spec_buckets(),
                    c0 == old(self).spec_capacity(),
                    l0 == old(self).old_items().len(),
                    old(self).split(),
                    lo.wf(),
                    0 <= moved <= R,
                    table_len(lo.table) + moved == l0,
                    table_items(self.table).add(table_items(lo.table)) =~= v0,
                    table_slots(self.table).len() == nb,
                    table_capacity(self.table) >= c0,
                    table_capacity(self.table) <= usize::MAX,
                    table_room(self.table) + 1 + moved >= l0 + carry_rounds(l0),
                    table_room(self.table) >= 0,
                    l0 > 0,
                    f0 + 1 >= l0 + carry_rounds(l0),
                    forall|i: int|
                        0 <= i < table_slots(old(self).table).len() && #[trigger] table_slots(old(self).table)[i] is Some
                            ==> table_slots(self.table)[i] == table_slots(old(self).table)[i],
                decreases R - moved,
            {
                let ghost lo_before = table_items(lo.table);
                let ghost main_before = table_items(self.table);
                match lo.take_next() {
                    Some(e) => {
                        proof {
                            assert(table_len(lo.table) + 1 == lo_before.len());
                            assert(main_before.len() + lo_before.len() == v0.len());
                        }
                        table_insert(&mut self.table, e);
                        moved = moved + 1;
                    },
                    None => {
                        // The resize is finally fully complete.
                        proof {
                            assert(table_items(self.table) =~= v0);
                        }
                        return;
                    },
                }
            }
        }
        if table_len_of(&lo.table) != 0 {
            self.leftovers = Some(lo);
        } else {
            // The resize is finally fully complete.
            proof {
                assert(table_items(lo.table) =~= Multiset::<Entry>::empty());
            }
        }
    }
}

impl RawTable {
    /// Moves every entry left in the old table into the main table, completing the resize at
    /// once. The main table may reallocate while it does so.
    fn carry_all(&mut self)
        requires
            old(self).wf(),
        ensures
            final(self).wf(),
            final(self)@ =~= old(self)@,
            !final(self).split(),
            !old(self).split() ==> *final(self) == *old(self),
            final(self).spec_buckets() == old(self).spec_buckets(),
            final(self).spec_capacity() >= old(self).spec_capacity(),
    {
        let mut lo = match self.leftovers.take() {
            Some(lo) => lo,
            None => {
                return;
            },
        };
        let ghost v0 = old(self)@;
        let ghost nb = table_slots(lo.table).len();
        loop
            invariant
                self.leftovers is None,
                v0 == old(self)@,
                lo.wf(),
                table_slots(lo.table).len() == nb,
                table_items(self.table).add(table_items(lo.table)) =~= v0,
                table_capacity(self.table) >= table_len(self.table),
                table_capacity(self.table) <= usize::MAX,
                table_room(self.table) >= table_len(lo.table),
                table_slots(self.table).len() == old(self).spec_buckets(),
                table_capacity(self.table) >= old(self).spec_capacity(),
            ensures
                table_items(self.table) =~= v0,
                table_capacity(self.table) >= table_len(self.table),
                table_capacity(self.table) <= usize::MAX,
                self.leftovers is None,
                table_slots(self.table).len() == old(self).spec_buckets(),
                table_capacity(self.table) >= old(self).spec_capacity(),
            decreases nb - lo.next,
        {
            let ghost lo_before = table_items(lo.table);
            match lo.take_next() {
                Some(e) => {
                    proof {
                        assert(table_len(lo.table) + 1 == lo_before.len());
                    }
                    table_insert(&mut self.table, e);
                },
                None => {
                    break;
                },
            }
        }
        // The resize is finally fully complete.
    }

    /// Replaces the main table by a new one large enough to take every current entry, the inserts
    /// that move them, and `extra` more, without reallocating; the current entries become the old
    /// table that later inserts move over. The new table is asked for
    /// `grow_size(len, extra)` entries; the request overflows, and the table stays as it was,
    /// exactly when that is more than `max_capacity()`.
    fn try_grow(&mut self, extra: usize, fallible: bool) -> (r: Result<(), TryReserveError>)
        requires
            old(self).wf(),
            !old(self).split(),
            !fallible ==> grow_size(old(self)@.len(), extra as nat) <= max_capacity(),
        ensures
            final(self).wf(),
            final(self)@ =~= old(self)@,
            !fallible ==> r is Ok,
            r is Err ==> *final(self) == *old(self),
            r == Err::<(), TryReserveError>(TryReserveError::CapacityOverflow) <==> grow_size(
                old(self)@.len(),
                extra as nat,
            ) > max_capacity(),
            r is Ok ==> final(self).split() == (old(self)@.len() > 0),
            r is Ok ==> final(self).main_items() =~= Multiset::<Entry>::empty(),
            r is Ok ==> final(self).spec_capacity() >= grow_size(old(self)@.len(), extra as nat),
            r is Ok ==> final(self).room() >= carry_rounds(old(self)@.len()) + extra,
            r matches Err(TryReserveError::AllocError { size, align }) ==> {
                &&& fallible
                &&& table_layout_for(grow_size(old(self)@.len(), extra as nat), size as nat, align as nat)
            },
    {
        let len = table_len_of(&self.table);
        let request = match grow_request(len, extra) {
            Some(n) => n,
            None => {
                // The capacity needed does not even fit in a `usize`.
                return Err(TryReserveError::CapacityOverflow);
            },
        };
        let mut new_table = if fallible {
            let mut new_table = table_new();
            match table_try_reserve(&mut new_table, request) {
                Ok(()) => {},
                Err(e) => {
                    return Err(e);
                },
            }
            new_table
        } else {
            table_with_capacity(request)
        };
        core::mem::swap(&mut self.table, &mut new_table);
        let old_table = new_table;
        if table_len_of(&old_table) != 0 {
            self.leftovers = Some(OldTable { table: old_table, next: 0 });
        }
        Ok(())
    }

    /// Grows the table; the allocation cannot fail here.
    fn grow(&mut self, extra: usize)
        requires
            old(self).wf(),
            !old(self).split(),
            grow_size(old(self)@.len(), extra as nat) <= max_capacity(),
        ensures
            final(self).wf(),
            final(self)@ =~= old(self)@,
            final(self).split() == (old(self)@.len() > 0),
            final(self).main_items() =~= Multiset::<Entry>::empty(),
            final(self).spec_capacity() >= grow_size(old(self)@.len(), extra as nat),
            final(self).room() >= carry_rounds(old(self)@.len()) + extra,
    {
        match self.try_grow(extra, false) {
            Ok(()) => {},
            Err(_) => {},
        }
    }
}

impl RawTable {
    /// Inserts a new element into the table, and returns the bucket that holds it.
    ///
    /// This does not check if the given element already exists in the table. While a resize is in
    /// progress the insert also moves up to `R` entries from the old table; the main table only
    /// reallocates when the table has no room left.
    pub fn insert(&mut self, hash: u64, key: i64, value: i64) -> (b: Bucket)
        requires
            old(self).wf(),
            old(self).room() > 0 || grow_size(old(self)@.len(), 1) <= max_capacity(),
        ensures
            final(self).wf(),
            final(self)@ =~= old(self)@.insert((hash, key, value)),
            final(self).holds(b),
            b.in_main,
            b.entry == (hash, key, value),
            old(self).room() > 0 ==> final(self).spec_buckets() == old(self).spec_buckets(),
            old(self).room() > 0 ==> final(self).room() + 1 >= old(self).room(),
            old(self).split() && old(self).old_items().len() > 0 ==> {
                &&& final(self).split() == (old(self).old_items().len() > R)
                &&& final(self).old_items().len() == leftovers_after(old(self).old_items().len(), 1)
            },
            (!old(self).split() || old(self).old_items().len() == 0) && old(self).room() > 0 ==> {
                &&& !final(self).split()
                &&& final(self).old_items().len() == 0
                &&& final(self).spec_buckets() == old(self).spec_buckets()
            },
            (!old(self).split() || old(self).old_items().len() == 0) && old(self).room() == 0 ==> {
                &&& final(self).spec_capacity() >= grow_size(old(self)@.len(), 1)
                &&& final(self).split() == (old(self)@.len() > R)
                &&& final(self).old_items().len() == leftovers_after(old(self)@.len(), 1)
            },
    {
        // Tidy up from earlier calls to erase_no_drop. We do this before the check below, because
        // once the leftovers are exhausted, the next insert could cause a resize.
        let exhausted = match &self.leftovers {
            Some(lo) => table_len_of(&lo.table) == 0,
            None => false,
        };
        if exhausted {
            proof {
                vstd::multiset::lemma_multiset_empty_len(self.old_items());
            }
            self.leftovers = None;
        }
        let ghost mut grew = false;
        if self.leftovers.is_none() {
            let capacity = table_capacity_of(&self.table);
            let len = table_len_of(&self.table);
            if capacity == len {
                // Even though this _may_ succeed without growing due to tombstones, handling that
                // case is convoluted, so we just assume this would grow the map.
                proof {
                    grew = true;
                }
                self.grow(1);
            }
        }
        proof {
            if old(self).old_items().len() == 0 && old(self).room() == 0 {
                assert(grew);
            }
            if grew {
                assert(self.old_items().len() == old(self)@.len());
            }
        }
        let e = (hash, key, value);
        if self.leftovers.is_some() {
            let index = table_insert(&mut self.table, e);
            // Also carry some items over.
            self.carry();
            proof {
                lemma_leftovers_after_one(old(self).old_items().len());
                lemma_leftovers_after_one(old(self)@.len());
            }
            Bucket { index, entry: e, in_main: true }
        } else {
            let index = table_insert(&mut self.table, e);
            proof {
                lemma_leftovers_after_one(old(self)@.len());
            }
            Bucket { index, entry: e, in_main: true }
        }
    }

    /// Searches for an entry with the given hash and key, first in the main table and then in the
    /// old one.
    pub fn find(&self, hash: u64, key: i64) -> (r: Option<Bucket>)
        requires
            self.wf(),
        ensures
            r matches Some(b) ==> {
                &&& self.holds(b)
                &&& entry_matches(b.entry, hash, key)
                &&& self@.count(b.entry) > 0
            },
            r is None ==> forall|e: Entry| #[trigger] self@.count(e) > 0 ==> !entry_matches(e, hash, key),
            r matches Some(b) && !b.in_main ==> forall|e: Entry|
                #[trigger] self.main_items().count(e) > 0 ==> !entry_matches(e, hash, key),
            !self.split() ==> (r matches Some(b) ==> b.in_main),
    {
        match table_find_index(&self.table, hash, key) {
            Some(index) => {
                match table_get_bucket(&self.table, index) {
                    Some(entry) => {
                        proof {
                            lemma_items_clear_slot(table_slots(self.table), index as int);
                        }
                        return Some(Bucket { index, entry, in_main: true });
                    },
                    None => {
                        proof {
                            assert(false);
                        }
                        return None;
                    },
                }
            },
            None => {},
        }
        proof {
            assert forall|e: Entry| #[trigger] self.main_items().count(e) > 0 implies !entry_matches(e, hash, key) by {
                lemma_items_has_slot(table_slots(self.table), e);
                let i = choose|i: int|
                    0 <= i < table_slots(self.table).len() && table_slots(self.table)[i] == Some(e);
                assert(table_slots(self.table)[i] is Some);
            }
        }
        match &self.leftovers {
            Some(lo) => {
                match table_find_index(&lo.table, hash, key) {
                    Some(index) => {
                        match table_get_bucket(&lo.table, index) {
                            Some(entry) => {
                                proof {
                                    lemma_items_clear_slot(table_slots(lo.table), index as int);
                                }
                                Some(Bucket { index, entry, in_main: false })
                            },
                            None => {
                                proof {
                                    assert(false);
                                }
                                None
                            },
                        }
                    },
                    None => {
                        proof {
                            assert forall|e: Entry| #[trigger] self@.count(e) > 0 implies !entry_matches(e, hash, key) by {
                                if table_items(lo.table).count(e) > 0 {
                                    lemma_items_has_slot(table_slots(lo.table), e);
                                    let i = choose|i: int|
                                        0 <= i < table_slots(lo.table).len() && table_slots(lo.table)[i] == Some(e);
                                    assert(table_slots(lo.table)[i] is Some);
                                } else {
                                    assert(self.main_items().count(e) > 0);
                                }
                            }
                        }
                        None
                    },
                }
            },
            None => {
                proof {
                    assert forall|e: Entry| #[trigger] self@.count(e) > 0 implies !entry_matches(e, hash, key) by {
                        assert(self.main_items().count(e) > 0);
                    }
                }
                None
            },
        }
    }

    /// Ensures that at least `additional` items can be inserted into the table without
    /// reallocation.
    ///
    /// While we try to make this incremental where possible, it may require all-at-once resizing.
    pub fn reserve(&mut self, additional: usize)
        requires
            old(self).wf(),
            old(self).room() > additional || grow_size(old(self)@.len(), additional as nat)
                <= max_capacity(),
        ensures
            final(self).wf(),
            final(self)@ =~= old(self)@,
            final(self).room() >= additional,
            old(self).room() > additional ==> *final(self) == *old(self),
            old(self).room() <= additional ==> {
                &&& final(self).main_items() =~= Multiset::<Entry>::empty()
                &&& final(self).split() == (old(self)@.len() > 0)
                &&& final(self).spec_capacity() >= grow_size(old(self)@.len(), additional as nat)
            },
    {
        if let Some(need) = self.spare_need(additional) {
            // We can accommodate the additional items without resizing, so all is well.
            table_reserve(&mut self.table, need);
        } else if self.leftovers.is_some() {
            // We probably have to resize, but we already have leftovers!
            //
            // Here, we're sort of stuck: we can't do this fully incrementally, because we'd need
            // to keep _three_ tables: the current leftovers, the current table (which would become
            // the new leftovers), _and_ the new, resized table.
            //
            // We do the best we can, which is to carry over all the current leftovers, and _then_
            // do an incremental resize. This at least moves only the current leftovers, rather
            // than the current full set of elements.
            self.carry_all();
            self.grow(additional);
        } else {
            // We probably have to resize, but since we don't have any leftovers, we can do it
            // incrementally.
            self.grow(additional);
        }
    }

    /// The number of entries that the main table must still take to hold `additional` more: the
    /// entries still to move from the old table and `additional`. `Some` exactly when the main
    /// table already has room for them, with one place to spare.
    fn spare_need(&self, additional: usize) -> (r: Option<usize>)
        requires
            self.wf(),
        ensures
            r is Some == (self.room() > additional),
            r matches Some(n) ==> n == self.old_items().len() + additional,
    {
        let lo_len = match &self.leftovers {
            Some(lo) => table_len_of(&lo.table),
            None => 0,
        };
        let capacity = table_capacity_of(&self.table);
        let len = table_len_of(&self.table);
        match lo_len.checked_add(additional) {
            Some(need) => if capacity - len > need {
                Some(need)
            } else {
                None
            },
            // Even all of `usize` cannot take that many.
            None => None,
        }
    }

    /// Tries to ensure that at least `additional` items can be inserted into the table without
    /// reallocation.
    ///
    /// While we try to make this incremental where possible, it may require all-at-once resizing.
    /// When the table has to grow, it asks for `grow_size(len, additional)` entries, and fails
    /// with `CapacityOverflow` exactly when that is more than a table can have; it fails with
    /// `AllocError` when the allocator refuses. A failed reservation still completes a resize in
    /// progress, but changes neither the entries nor the main table's buckets.
    pub fn try_reserve(&mut self, additional: usize) -> (r: Result<(), TryReserveError>)
        requires
            old(self).wf(),
        ensures
            final(self).wf(),
            final(self)@ =~= old(self)@,
            r is Ok ==> final(self).room() >= additional,
            old(self).room() > additional ==> r is Ok && *final(self) == *old(self),
            old(self).room() <= additional ==> {
                &&& r == Err::<(), TryReserveError>(TryReserveError::CapacityOverflow) <==> grow_size(
                    old(self)@.len(),
                    additional as nat,
                ) > max_capacity()
                &&& r is Ok ==> {
                    &&& final(self).main_items() =~= Multiset::<Entry>::empty()
                    &&& final(self).split() == (old(self)@.len() > 0)
                    &&& final(self).spec_capacity() >= grow_size(old(self)@.len(), additional as nat)
                }
                &&& r is Err ==> {
                    &&& !final(self).split()
                    &&& final(self).spec_buckets() == old(self).spec_buckets()
                    &&& final(self).spec_capacity() >= old(self).spec_capacity()
                }
            },
            r is Err && !old(self).split() ==> *final(self) == *old(self),
            r matches Err(TryReserveError::AllocError { size, align }) ==> {
                &&& old(self).room() <= additional
                &&& grow_size(old(self)@.len(), additional as nat) <= max_capacity()
                &&& table_layout_for(grow_size(old(self)@.len(), additional as nat), size as nat, align as nat)
            },
    {
        if let Some(need) = self.spare_need(additional) {
            // We can accommodate the additional items without resizing, so all is well.
            table_try_reserve(&mut self.table, need)
        } else if self.leftovers.is_some() {
            self.carry_all();
            self.try_grow(additional, true)
        } else {
            self.try_grow(additional, true)
        }
    }

    /// Shrinks the table so that it fits as close to `min_size` elements as possible.
    ///
    /// In reality, the table may end up larger than `min_size`, as it must be able to hold all
    /// the current elements, as well as some additional elements due to incremental resizing.
    pub fn shrink_to(&mut self, min_size: usize)
        requires
            old(self).wf(),
        ensures
            final(self).wf(),
            final(self)@ =~= old(self)@,
            final(self).split() == old(self).split(),
            final(self).old_items() == old(self).old_items(),
            old(self).spec_capacity() >= min_size ==> final(self).spec_capacity() >= min_size,
            old(self).spec_capacity() >= min_size ==> final(self).spec_capacity() <= shrink_limit(
                if old(self)@.len() + carry_rounds(old(self).old_items().len()) > min_size {
                    old(self)@.len() + carry_rounds(old(self).old_items().len())
                } else {
                    min_size as nat
                },
            ),
            old(self).spec_capacity() < min_size ==> *final(self) == *old(self),
            final(self).spec_capacity() >= final(self)@.len() + carry_rounds(final(self).old_items().len()),
            final(self).spec_buckets() <= old(self).spec_buckets(),
            old(self)@.len() == 0 && min_size == 0 ==> final(self).spec_buckets() == 1
                && final(self).spec_capacity() == 0,
    {
        let capacity = table_capacity_of(&self.table);
        if min_size > capacity {
            // The table is already smaller than asked for: there is nothing to shrink.
            return;
        }
        // Calculate the minimal number of elements that we need to reserve space for.
        let mut need = table_len_of(&self.table);
        // We need to make sure that we never have to resize while there are still leftovers.
        match &self.leftovers {
            Some(lo) => {
                // We need to move another lo.table.len() items.
                let lo_len = table_len_of(&lo.table);
                need = need + lo_len;
                // We move R items on each insert. That means we need to accommodate another
                // lo.table.len() / R (rounded up) inserts to move them all.
                need = need + (lo_len + R - 1) / R;
            },
            None => {},
        }
        let min_size = if need > min_size { need } else { min_size };
        table_shrink_to(&mut self.table, min_size);
    }
}

/// A grow for `extra` more entries asks for no more than the largest capacity when the table
/// and `extra` stay within the entry limit.
pub proof fn lemma_grow_bound(len: nat, extra: nat)
    requires
        len + extra <= max_entries(),
    ensures
        grow_size(len, extra) <= max_capacity(),
{
}

impl RawTable {
    /// Replaces the value of the entry in `item`'s bucket, returning the value it had. The
    /// bucket's hash and key stay, and no entry moves.
    pub fn replace_value(&mut self, item: &Bucket, value: i64) -> (r: i64)
        requires
            old(self).wf(),
            old(self).holds(*item),
        ensures
            final(self).wf(),
            r == item.entry.2,
            old(self)@.count(item.entry) > 0,
            final(self)@ =~= old(self)@.remove(item.entry).insert((item.entry.0, item.entry.1, value)),
            final(self).split() == old(self).split(),
            final(self).spec_capacity() == old(self).spec_capacity(),
            final(self).spec_buckets() == old(self).spec_buckets(),
            final(self).old_items().len() == old(self).old_items().len(),
    {
        if item.in_main {
            let r = table_set_value(&mut self.table, item.index, value);
            proof {
                lemma_items_replace_slot(table_slots(old(self).table), item.index as int, (item.entry.0, item.entry.1, value));
                lemma_items_clear_slot(table_slots(old(self).table), item.index as int);
            }
            match r {
                Some(v) => v,
                None => item.entry.2,
            }
        } else {
            let mut lo = self.leftovers.take().unwrap();
            let r = table_set_value(&mut lo.table, item.index, value);
            proof {
                let s = table_slots(old(self).leftovers->Some_0.table);
                lemma_items_replace_slot(s, item.index as int, (item.entry.0, item.entry.1, value));
                lemma_items_clear_slot(s, item.index as int);
                assert forall|i: int| 0 <= i < lo.next implies #[trigger] table_slots(lo.table)[i] is None by {
                    assert(s[i] is None);
                }
            }
            self.leftovers = Some(lo);
            match r {
                Some(v) => v,
                None => item.entry.2,
            }
        }
    }

    /// Returns an iterator over every entry in the table: those of the main table, then those
    /// still in the old table.
    pub fn iter(&self) -> (it: RawIter<'_>)
        requires
            self.wf(),
        ensures
            it.valid(),
            it.source() == *self,
            it.yielded() =~= Multiset::<Entry>::empty(),
            it.remaining_count() == self@.len(),
            !it.in_old_phase(),
    {
        let n = self.len();
        proof {
            assert(table_slots(self.table).take(0) =~= Seq::<Option<Entry>>::empty());
        }
        RawIter { table: self, in_main: true, index: 0, remaining: n }
    }

    /// Consumes the table into an iterator over its entries.
    pub fn into_iter(self) -> (it: RawIntoIter)
        requires
            self.wf(),
        ensures
            it.valid(),
            it.source() == self,
            it.yielded() =~= Multiset::<Entry>::empty(),
            it.remaining_count() == self@.len(),
            !it.in_old_phase(),
    {
        let n = self.len();
        proof {
            assert(table_slots(self.table).take(0) =~= Seq::<Option<Entry>>::empty());
        }
        RawIntoIter { table: self, in_main: true, index: 0, remaining: n }
    }

    /// The entries yielded by an iteration over `self` that has reached bucket `index` of the
    /// main table (`in_main`) or of the old table.
    pub closed spec fn yielded_at(self, in_main: bool, index: nat) -> Multiset<Entry> {
        if in_main {
            slot_items(table_slots(self.table).take(index as int))
        } else {
            table_items(self.table).add(
                slot_items(table_slots(self.leftovers->Some_0.table).take(index as int)),
            )
        }
    }

    /// Whether an iteration over `self` can stand at bucket `index` of the main table
    /// (`in_main`) or of the old table.
    pub closed spec fn position_ok(self, in_main: bool, index: nat) -> bool {
        &&& self.wf()
        &&& in_main ==> index <= table_slots(self.table).len()
        &&& !in_main ==> {
            &&& self.leftovers is Some
            &&& index <= table_slots(self.leftovers->Some_0.table).len()
        }
    }

    proof fn lemma_yielded_le(self, in_main: bool, index: nat)
        requires
            self.position_ok(in_main, index),
        ensures
            self.yielded_at(in_main, index).len() <= self@.len(),
    {
        if in_main {
            lemma_items_take_le(table_slots(self.table), index as int);
        } else {
            lemma_items_take_le(table_slots(self.leftovers->Some_0.table), index as int);
        }
    }

    /// Until it reaches the old table, an iteration yields only entries of the main table; once
    /// there, it has yielded all of them.
    proof fn lemma_yielded_phase(self, in_main: bool, index: nat)
        requires
            self.position_ok(in_main, index),
        ensures
            in_main ==> self.yielded_at(in_main, index).subset_of(self.main_items()),
            !in_main ==> self.main_items().subset_of(self.yielded_at(in_main, index)),
    {
        if in_main {
            lemma_items_take_le(table_slots(self.table), index as int);
        }
    }

    /// Finds the next full bucket of an iteration standing at bucket `index` of the main table
    /// (`in_main`) or of the old table, and moves the iteration past it.
    fn next_bucket(&self, in_main: &mut bool, index: &mut usize) -> (r: Option<Bucket>)
        requires
            self.position_ok(*old(in_main), *old(index) as nat),
        ensures
            self.position_ok(*final(in_main), *final(index) as nat),
            r matches Some(b) ==> {
                &&& self.holds(b)
                &&& self.yielded_at(*final(in_main), *final(index) as nat)
                    =~= self.yielded_at(*old(in_main), *old(index) as nat).insert(b.entry)
            },
            r is None ==> self.yielded_at(*old(in_main), *old(index) as nat) =~= self@,
            r is None ==> self.yielded_at(*final(in_main), *final(index) as nat) =~= self@,
            r matches Some(b) ==> b.in_main == *final(in_main),
            !*old(in_main) ==> !*final(in_main),
    {
        if *in_main {
            let n = table_num_buckets(&self.table);
            while *index < n
                invariant
                    *in_main,
                    self.position_ok(true, *index as nat),
                    n == table_slots(self.table).len(),
                    self.yielded_at(true, *index as nat) == self.yielded_at(*old(in_main), *old(index) as nat),
                    forall|j: int| *old(index) <= j < *index ==> #[trigger] table_slots(self.table)[j] is None,
                    *index >= *old(index),
                decreases n - *index,
            {
                let i = *index;
                proof {
                    lemma_items_take_step(table_slots(self.table), i as int);
                }
                *index = i + 1;
                match table_get_bucket(&self.table, i) {
                    Some(e) => {
                        return Some(Bucket { index: i, entry: e, in_main: true });
                    },
                    None => {},
                }
            }
            proof {
                let s = table_slots(self.table);
                assert(s.take(n as int) =~= s);
            }
            match &self.leftovers {
                Some(lo) => {
                    *in_main = false;
                    *index = lo.next;
                    proof {
                        let s = table_slots(lo.table);
                        lemma_items_all_empty(s.take(lo.next as int));
                    }
                },
                None => {
                    return None;
                },
            }
        }
        let lo = match &self.leftovers {
            Some(lo) => lo,
            None => {
                proof {
                    assert(false);
                }
                return None;
            },
        };
        let n = table_num_buckets(&lo.table);
        let ghost start = *index;
        let ghost y0 = self.yielded_at(false, *index as nat);
        assert(y0 =~= self.yielded_at(*old(in_main), *old(index) as nat));
        while *index < n
            invariant
                !*in_main,
                self.position_ok(false, *index as nat),
                self.leftovers == Some(*lo),
                n == table_slots(lo.table).len(),
                self.yielded_at(false, *index as nat) == y0,
                y0 == self.yielded_at(false, start as nat),
                y0 == self.yielded_at(*old(in_main), *old(index) as nat),
                forall|j: int| start <= j < *index ==> #[trigger] table_slots(lo.table)[j] is None,
                *index >= start,
            decreases n - *index,
        {
            let i = *index;
            proof {
                lemma_items_take_step(table_slots(lo.table), i as int);
            }
            *index = i + 1;
            match table_get_bucket(&lo.table, i) {
                Some(e) => {
                    return Some(Bucket { index: i, entry: e, in_main: false });
                },
                None => {},
            }
        }
        proof {
            let s = table_slots(lo.table);
            assert(s.take(n as int) =~= s);
        }
        None
    }
}

/// Iterator which returns every full bucket of a table: first those of the main table, then
/// those still in the old table that is being moved.
pub struct RawIter<'a> {
    table: &'a RawTable,
    in_main: bool,
    index: usize,
    remaining: usize,
}

impl<'a> RawIter<'a> {
    /// The table being iterated over.
    pub closed spec fn source(self) -> RawTable {
        *self.table
    }

    /// The entries yielded so far.
    pub closed spec fn yielded(self) -> Multiset<Entry> {
        self.table.yielded_at(self.in_main, self.index as nat)
    }

    /// How many entries are left to yield.
    pub closed spec fn remaining_count(self) -> nat {
        self.remaining as nat
    }

    pub closed spec fn valid(self) -> bool {
        &&& self.table.position_ok(self.in_main, self.index as nat)
        &&& self.remaining + self.yielded().len() == self.table@.len()
    }

    /// Whether the iteration has moved on to the old table: it yields the main table's entries
    /// first, and the old table's after all of them.
    pub closed spec fn in_old_phase(self) -> bool {
        !self.in_main
    }

    /// Returns the next full bucket, or `None` once every entry has been yielded: first those of
    /// the main table, then those of the old table.
    pub fn next(&mut self) -> (r: Option<Bucket>)
        requires
            old(self).valid(),
        ensures
            final(self).valid(),
            final(self).source() == old(self).source(),
            r matches Some(b) ==> {
                &&& final(self).source().holds(b)
                &&& final(self).yielded() =~= old(self).yielded().insert(b.entry)
                &&& b.in_main == !final(self).in_old_phase()
            },
            r is None ==> old(self).yielded() =~= old(self).source()@,
            r is None ==> final(self).yielded() =~= old(self).source()@,
            r is None ==> final(self).remaining_count() == 0,
            old(self).remaining_count() == 0 ==> r is None,
            old(self).in_old_phase() ==> final(self).in_old_phase(),
            !final(self).in_old_phase() ==> final(self).yielded().subset_of(final(self).source().main_items()),
            final(self).in_old_phase() ==> final(self).source().main_items().subset_of(final(self).yielded()),
    {
        let r = self.table.next_bucket(&mut self.in_main, &mut self.index);
        proof {
            self.table.lemma_yielded_phase(self.in_main, self.index as nat);
        }
        match r {
            Some(b) => {
                proof {
                    self.table.lemma_yielded_le(self.in_main, self.index as nat);
                }
                self.remaining = self.remaining - 1;
            },
            None => {},
        }
        r
    }

    /// The number of entries left to yield, as a lower and an upper bound.
    pub fn size_hint(&self) -> (r: (usize, Option<usize>))
        requires
            self.valid(),
        ensures
            r.0 == self.source()@.len() - self.yielded().len(),
            r.1 == Some(r.0),
    {
        (self.remaining, Some(self.remaining))
    }

    /// The yielded and the remaining entries add up to the table's entries.
    pub proof fn lemma_counts(self)
        requires
            self.valid(),
        ensures
            self.yielded().len() + self.remaining_count() == self.source()@.len(),
    {
    }

    /// An iteration that has yielded every entry has nothing left, so every later call of `next`
    /// returns `None` again.
    pub proof fn lemma_exhausted(self)
        requires
            self.valid(),
            self.yielded() =~= self.source()@,
        ensures
            self.remaining_count() == 0,
    {
    }

    /// An iteration yields each entry at most as often as the table holds it.
    pub proof fn lemma_yielded_sub(self)
        requires
            self.valid(),
        ensures
            forall|e: Entry| #[trigger] self.yielded().count(e) <= self.source()@.count(e),
    {
        let t = *self.table;
        if self.in_main {
            lemma_items_take_le(table_slots(t.table), self.index as int);
        } else {
            lemma_items_take_le(table_slots(t.leftovers->Some_0.table), self.index as int);
        }
    }
}

impl<'a> Clone for RawIter<'a> {
    fn clone(&self) -> (r: Self)
        ensures
            r == *self,
    {
        RawIter { table: self.table, in_main: self.in_main, index: self.index, remaining: self.remaining }
    }
}

/// Iterator which consumes a table and returns its entries.
pub struct RawIntoIter {
    table: RawTable,
    in_main: bool,
    index: usize,
    remaining: usize,
}

impl RawIntoIter {
    /// The table being consumed.
    pub closed spec fn source(self) -> RawTable {
        self.table
    }

    /// The entries yielded so far.
    pub closed spec fn yielded(self) -> Multiset<Entry> {
        self.table.yielded_at(self.in_main, self.index as nat)
    }

    /// How many entries are left to yield.
    pub closed spec fn remaining_count(self) -> nat {
        self.remaining as nat
    }

    pub closed spec fn valid(self) -> bool {
        &&& self.table.position_ok(self.in_main, self.index as nat)
        &&& self.remaining + self.yielded().len() == self.table@.len()
    }

    /// Whether the iteration has moved on to the old table: it yields the main table's entries
    /// first, and the old table's after all of them.
    pub closed spec fn in_old_phase(self) -> bool {
        !self.in_main
    }

    /// Returns a by-reference iterator over the remaining items of this iterator.
    pub fn iter(&self) -> (it: RawIter<'_>)
        requires
            self.valid(),
        ensures
            it.valid(),
            it.source() == self.source(),
            it.yielded() == self.yielded(),
            it.remaining_count() == self.remaining_count(),
            it.in_old_phase() == self.in_old_phase(),
    {
        RawIter { table: &self.table, in_main: self.in_main, index: self.index, remaining: self.remaining }
    }

    /// Returns the next entry, or `None` once every entry has been yielded: first those of the
    /// main table, then those of the old table.
    pub fn next(&mut self) -> (r: Option<Entry>)
        requires
            old(self).valid(),
        ensures
            final(self).valid(),
            final(self).source() == old(self).source(),
            r matches Some(e) ==> final(self).yielded() =~= old(self).yielded().insert(e),
            r matches Some(e) ==> old(self).source()@.count(e) > 0,
            r is None ==> old(self).yielded() =~= old(self).source()@,
            r is None ==> final(self).yielded() =~= old(self).source()@,
            r is None ==> final(self).remaining_count() == 0,
            old(self).remaining_count() == 0 ==> r is None,
            old(self).in_old_phase() ==> final(self).in_old_phase(),
            !final(self).in_old_phase() ==> final(self).yielded().subset_of(final(self).source().main_items()),
            final(self).in_old_phase() ==> final(self).source().main_items().subset_of(final(self).yielded()),
    {
        let r = self.table.next_bucket(&mut self.in_main, &mut self.index);
        proof {
            self.table.lemma_yielded_phase(self.in_main, self.index as nat);
        }
        match r {
            Some(b) => {
                proof {
                    self.table.lemma_yielded_le(self.in_main, self.index as nat);
                    self.table.lemma_holds_counted(b);
                }
                self.remaining = self.remaining - 1;
                Some(b.entry)
            },
            None => None,
        }
    }

    /// The number of entries left to yield, as a lower and an upper bound.
    pub fn size_hint(&self) -> (r: (usize, Option<usize>))
        requires
            self.valid(),
        ensures
            r.0 == self.source()@.len() - self.yielded().len(),
            r.1 == Some(r.0),
    {
        (self.remaining, Some(self.remaining))
    }
}

impl RawTable {
    /// The entry of a bucket that the table holds is one of its entries.
    pub proof fn lemma_holds_counted(self, b: Bucket)
        requires
            self.holds(b),
        ensures
            self@.count(b.entry) > 0,
    {
        if b.in_main {
            lemma_items_clear_slot(table_slots(self.table), b.index as int);
        } else {
            lemma_items_clear_slot(table_slots(self.leftovers->Some_0.table), b.index as int);
        }
    }
}

impl RawTable {
    /// Makes `self` a copy of `source`: the same entries, in the same buckets, with the same
    /// resize in progress.
    pub fn clone_from_with_hasher(&mut self, source: &Self)
        requires
            source.wf(),
        ensures
            final(self).wf(),
            final(self)@ == source@,
            final(self).split() == source.split(),
            final(self).old_items() == source.old_items(),
            final(self).spec_capacity() == source.spec_capacity(),
            final(self).spec_buckets() == source.spec_buckets(),
    {
        self.table = table_clone(&source.table);
        match &source.leftovers {
            Some(lo_) => {
                let lo = OldTable { table: table_clone(&lo_.table), next: 0 };
                self.leftovers = Some(lo);
            },
            None => {
                self.leftovers = None;
            },
        }
    }
}

impl Clone for RawTable {
    /// A copy of the table: the same entries, in the same buckets, with the same resize in
    /// progress.
    fn clone(&self) -> (r: Self)
        ensures
            self.wf() ==> r.wf(),
            r@ == self@,
            r.split() == self.split(),
            r.old_items() == self.old_items(),
            r.spec_capacity() == self.spec_capacity(),
            r.spec_buckets() == self.spec_buckets(),
    {
        let table = table_clone(&self.table);
        let leftovers = match &self.leftovers {
            Some(lo) => Some(OldTable { table: table_clone(&lo.table), next: 0 }),
            None => None,
        };
        RawTable { table, leftovers }
    }
}

impl RawTable {
    /// A bucket of the main table that the table holds is an in-range full bucket.
    pub proof fn lemma_holds_in_main(self, b: Bucket)
        requires
            self.holds(b),
            b.in_main,
        ensures
            b.index < self.spec_buckets(),
            self.main_slot_full(b.index as int),
    {
    }

    /// While a resize is in progress and entries remain to move, the table has room, so an insert
    /// does not reallocate the main table (`insert` keeps the bucket count when there is room).
    pub proof fn lemma_resize_has_room(self)
        requires
            self.wf(),
            self.split(),
            self.old_items().len() > 0,
        ensures
            self.room() >= carry_rounds(self.old_items().len()),
            self.room() > 0,
    {
    }

    /// Returns a parallel iterator over the buckets of the table.
    pub fn par_iter(&self) -> (it: RawParIter<'_>)
        requires
            self.wf(),
        ensures
            it.source() == *self,
    {
        RawParIter { table: self }
    }
}

/// Every full bucket of `t`, as buckets of the main table (`in_main`) or of the old one, in
/// bucket order; `es` are their entries.
spec fn lists_buckets(t: EntryTable, in_main: bool, r: Seq<Bucket>) -> bool {
    &&& forall|i: int| 0 <= i < r.len() ==> {
        &&& (#[trigger] r[i]).in_main == in_main
        &&& r[i].index < table_slots(t).len()
        &&& table_slots(t)[r[i].index as int] == Some(r[i].entry)
    }
    &&& forall|i: int, j: int| 0 <= i < j < r.len() ==> #[trigger] r[i].index < #[trigger] r[j].index
    &&& r.map_values(|b: Bucket| b.entry).to_multiset() =~= table_items(t)
}

/// Collects every full bucket of `t`.
fn buckets_of(t: &EntryTable, in_main: bool) -> (r: Vec<Bucket>)
    ensures
        lists_buckets(*t, in_main, r@),
{
    let n = table_num_buckets(t);
    let mut r: Vec<Bucket> = Vec::new();
    let mut i: usize = 0;
    proof {
        broadcast use vstd::seq_lib::group_to_multiset_ensures;
        assert(table_slots(*t).take(0) =~= Seq::<Option<Entry>>::empty());
        assert(r@.map_values(|b: Bucket| b.entry) =~= Seq::<Entry>::empty());
        vstd::multiset::lemma_multiset_empty_len(r@.map_values(|b: Bucket| b.entry).to_multiset());
    }
    while i < n
        invariant
            n == table_slots(*t).len(),
            i <= n,
            forall|k: int| 0 <= k < r.len() ==> {
                &&& (#[trigger] r@[k]).in_main == in_main
                &&& r@[k].index < i
                &&& table_slots(*t)[r@[k].index as int] == Some(r@[k].entry)
            },
            forall|a: int, b: int| 0 <= a < b < r.len() ==> #[trigger] r@[a].index < #[trigger] r@[b].index,
            r@.map_values(|b: Bucket| b.entry).to_multiset() =~= slot_items(table_slots(*t).take(i as int)),
        decreases n - i,
    {
        proof {
            lemma_items_take_step(table_slots(*t), i as int);
        }
        match table_get_bucket(t, i) {
            Some(e) => {
                let ghost before = r@;
                r.push(Bucket { index: i, entry: e, in_main });
                proof {
                    assert(r@.map_values(|b: Bucket| b.entry) =~= before.map_values(|b: Bucket| b.entry).push(e));
                    broadcast use vstd::seq_lib::group_to_multiset_ensures;
                }
            },
            None => {},
        }
        i = i + 1;
    }
    proof {
        assert(table_slots(*t).take(n as int) =~= table_slots(*t));
    }
    r
}

/// Parallel iterator over the full buckets of a table. While a resize is in progress, the work
/// splits in two: the buckets of the main table and those of the old table.
pub struct RawParIter<'a> {
    table: &'a RawTable,
}

impl<'a> RawParIter<'a> {
    /// The table being iterated over.
    pub closed spec fn source(self) -> RawTable {
        *self.table
    }

    /// The buckets of the main table, each once: the first half of the work.
    pub fn main_buckets(&self) -> (r: Vec<Bucket>)
        ensures
            forall|i: int| 0 <= i < r.len() ==> (#[trigger] r[i]).in_main && self.source().holds(r[i]),
            forall|i: int, j: int| 0 <= i < j < r.len() ==> #[trigger] r[i].index < #[trigger] r[j].index,
            r@.map_values(|b: Bucket| b.entry).to_multiset() =~= self.source().main_items(),
    {
        let r = buckets_of(&self.table.table, true);
        proof {
            assert forall|i: int| 0 <= i < r.len() implies (#[trigger] r[i]).in_main && self.source().holds(r[i]) by {
                assert(r@[i] == r[i]);
            }
        }
        r
    }

    /// The buckets of the old table, each once, when a resize is in progress: the second half of
    /// the work. `None` when no resize is in progress.
    pub fn leftover_buckets(&self) -> (r: Option<Vec<Bucket>>)
        ensures
            r is Some == self.source().split(),
            r is None ==> self.source().old_items() =~= Multiset::<Entry>::empty(),
            r is None ==> self.source()@ =~= self.source().main_items(),
            r matches Some(v) ==> {
                &&& forall|i: int| 0 <= i < v.len() ==> !(#[trigger] v[i]).in_main && self.source().holds(v[i])
                &&& forall|i: int, j: int| 0 <= i < j < v.len() ==> #[trigger] v[i].index < #[trigger] v[j].index
                &&& v@.map_values(|b: Bucket| b.entry).to_multiset() =~= self.source().old_items()
            },
    {
        match &self.table.leftovers {
            Some(lo) => {
                let v = buckets_of(&lo.table, false);
                proof {
                    assert forall|i: int| 0 <= i < v.len() implies !(#[trigger] v[i]).in_main && self.source().holds(v[i]) by {
                        assert(v@[i] == v[i]);
                    }
                }
                Some(v)
            },
            None => None,
        }
    }
}

impl Bucket {
    pub open spec fn will_move_spec(self) -> bool {
        !self.in_main
    }
}

} // verus!
