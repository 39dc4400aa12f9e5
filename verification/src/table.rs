//! One hashbrown table of entries, as the incremental-resizing table uses it.
//!
//! An entry is `(hash, key, value)`: the hash that the entry was inserted with is stored in the
//! entry itself, so that whenever hashbrown has to move entries to a new allocation it can read
//! the hash back instead of recomputing it.
use vstd::prelude::*;
use vstd::multiset::Multiset;

verus! {

/// An entry of a table: `(hash, key, value)`.
pub type Entry = (u64, i64, i64);

/// A hashbrown `HashTable` of entries.
#[verifier::external_body]
pub struct EntryTable {
    table: hashbrown::HashTable<Entry>,
}

/// The bucket array of a hashbrown table: bucket `i` holds `Some(e)` exactly when it is full
/// with the entry `e`; its length is the table's number of buckets.
pub uninterp spec fn table_slots(t: EntryTable) -> Seq<Option<Entry>>;

/// What hashbrown's `HashTable::capacity` returns for a table: the number of entries that it can
/// hold without reallocating (its entries plus its growth reserve). It is a `usize`, so every
/// wrapper that makes or changes a table states that it fits in one.
pub uninterp spec fn table_capacity(t: EntryTable) -> nat;

/// The entries held by a bucket array.
pub open spec fn slot_items(s: Seq<Option<Entry>>) -> Multiset<Entry>
    decreases s.len(),
{
    if s.len() == 0 {
        Multiset::empty()
    } else {
        let rest = slot_items(s.drop_last());
        match s.last() {
            Some(e) => rest.insert(e),
            None => rest,
        }
    }
}

/// The entries held by a table.
pub open spec fn table_items(t: EntryTable) -> Multiset<Entry> {
    slot_items(table_slots(t))
}

/// The number of entries held by a table.
pub open spec fn table_len(t: EntryTable) -> nat {
    table_items(t).len()
}

/// The number of further entries a table takes before it reallocates.
pub open spec fn table_room(t: EntryTable) -> int {
    table_capacity(t) - table_len(t)
}

/// Whether the entry `e` has the given hash and key.
pub open spec fn entry_matches(e: Entry, hash: u64, key: i64) -> bool {
    e.0 == hash && e.1 == key
}

/// The largest capacity that may be asked of a table of entries: `7 * 2^55` with 64-bit `usize`
/// and `7 * 2^23` with 32-bit. hashbrown gives a table of this capacity `2^58` (or `2^26`)
/// buckets, whose entries (24 bytes each) and control bytes fit in `isize::MAX` bytes; one more
/// entry needs twice the buckets, which do not, so hashbrown reports a capacity overflow.
pub open spec fn max_capacity() -> nat {
    ((usize::MAX as nat / 64 + 1) / 8) * 7
}

/// The largest number of entries that a table is asked to hold: when a table of at most this
/// many entries grows, it asks for at most `max_capacity()`.
pub open spec fn max_entries() -> nat {
    max_capacity() / 2
}

/// The largest number of entries that a table is asked to hold, `max_entries()`.
pub fn entry_limit() -> (n: usize)
    ensures
        n == max_entries(),
{
    ((usize::MAX / 64 + 1) / 8) * 7 / 2
}

/// Why reserving room in a table failed.
#[derive(Debug, Clone, Copy, PartialEq, Eq)]
pub enum TryReserveError {
    /// The requested capacity exceeds the largest one that a table can have.
    CapacityOverflow,
    /// The memory allocator refused the allocation of `size` bytes aligned to `align`.
    AllocError { size: usize, align: usize },
}

// ---------------------------------------------------------------------------------------------
// Facts about bucket arrays.

/// Removing the entry of a full bucket removes one copy of it from the entries.
pub proof fn lemma_items_clear_slot(s: Seq<Option<Entry>>, i: int)
    requires
        0 <= i < s.len(),
        s[i] is Some,
    ensures
        slot_items(s.update(i, None)) =~= slot_items(s).remove(s[i]->Some_0),
        slot_items(s).count(s[i]->Some_0) > 0,
    decreases s.len(),
{
    let t = s.update(i, None);
    if i == s.len() - 1 {
        assert(t.drop_last() =~= s.drop_last());
    } else {
        assert(t.drop_last() =~= s.drop_last().update(i, None));
        lemma_items_clear_slot(s.drop_last(), i);
    }
}

/// Filling an empty bucket adds one copy of the entry to the entries.
pub proof fn lemma_items_fill_slot(s: Seq<Option<Entry>>, i: int, e: Entry)
    requires
        0 <= i < s.len(),
        s[i] is None,
    ensures
        slot_items(s.update(i, Some(e))) =~= slot_items(s).insert(e),
    decreases s.len(),
{
    let t = s.update(i, Some(e));
    if i == s.len() - 1 {
        assert(t.drop_last() =~= s.drop_last());
    } else {
        assert(t.drop_last() =~= s.drop_last().update(i, Some(e)));
        lemma_items_fill_slot(s.drop_last(), i, e);
    }
}

/// Replacing the entry of a full bucket replaces one copy of it.
pub proof fn lemma_items_replace_slot(s: Seq<Option<Entry>>, i: int, e: Entry)
    requires
        0 <= i < s.len(),
        s[i] is Some,
    ensures
        slot_items(s.update(i, Some(e))) =~= slot_items(s).remove(s[i]->Some_0).insert(e),
{
    lemma_items_clear_slot(s, i);
    let t = s.update(i, None);
    lemma_items_fill_slot(t, i, e);
    assert(t.update(i, Some(e)) =~= s.update(i, Some(e)));
}

/// A bucket array with no full bucket holds no entry.
pub proof fn lemma_items_all_empty(s: Seq<Option<Entry>>)
    requires
        forall|i: int| 0 <= i < s.len() ==> s[i] is None,
    ensures
        slot_items(s) =~= Multiset::<Entry>::empty(),
    decreases s.len(),
{
    if s.len() > 0 {
        lemma_items_all_empty(s.drop_last());
    }
}

/// Every entry held by a bucket array sits in one of its buckets.
pub proof fn lemma_items_has_slot(s: Seq<Option<Entry>>, e: Entry)
    requires
        slot_items(s).count(e) > 0,
    ensures
        exists|i: int| 0 <= i < s.len() && s[i] == Some(e),
    decreases s.len(),
{
    if s.len() > 0 {
        if s.last() == Some(e) {
            assert(s[s.len() - 1] == Some(e));
        } else {
            lemma_items_has_slot(s.drop_last(), e);
            let i = choose|i: int| 0 <= i < s.len() - 1 && s.drop_last()[i] == Some(e);
            assert(s[i] == Some(e));
        }
    }
}

/// The entries of the first `i + 1` buckets are those of the first `i` and that of bucket `i`.
pub proof fn lemma_items_take_step(s: Seq<Option<Entry>>, i: int)
    requires
        0 <= i < s.len(),
    ensures
        slot_items(s.take(i + 1)) =~= match s[i] {
            Some(e) => slot_items(s.take(i)).insert(e),
            None => slot_items(s.take(i)),
        },
{
    assert(s.take(i + 1).drop_last() =~= s.take(i));
}

/// A bucket array that holds some entry has a full bucket.
pub proof fn lemma_items_nonempty_has_full(s: Seq<Option<Entry>>)
    requires
        slot_items(s).len() > 0,
    ensures
        exists|i: int| 0 <= i < s.len() && s[i] is Some,
{
    if forall|i: int| 0 <= i < s.len() ==> s[i] is None {
        lemma_items_all_empty(s);
    }
}

/// When every bucket from `i` on is empty, the first `i` buckets hold all the entries.
pub proof fn lemma_items_take_rest_empty(s: Seq<Option<Entry>>, i: int)
    requires
        0 <= i <= s.len(),
        forall|j: int| i <= j < s.len() ==> s[j] is None,
    ensures
        slot_items(s.take(i)) =~= slot_items(s),
    decreases s.len(),
{
    if i == s.len() {
        assert(s.take(i) =~= s);
    } else {
        assert(s.drop_last().take(i) =~= s.take(i));
        lemma_items_take_rest_empty(s.drop_last(), i);
    }
}

/// The first `i` buckets hold no more entries than the whole array.
pub proof fn lemma_items_take_le(s: Seq<Option<Entry>>, i: int)
    requires
        0 <= i <= s.len(),
    ensures
        slot_items(s.take(i)).len() <= slot_items(s).len(),
        forall|e: Entry| slot_items(s.take(i)).count(e) <= #[trigger] slot_items(s).count(e),
    decreases s.len(),
{
    if i == s.len() {
        assert(s.take(i) =~= s);
    } else {
        assert(s.drop_last().take(i) =~= s.take(i));
        lemma_items_take_le(s.drop_last(), i);
    }
}

// ---------------------------------------------------------------------------------------------
// Calls into hashbrown.

/// Returns the entry's hash; handed to hashbrown as the function that rehashes entries.
pub(crate) fn entry_hash(e: &Entry) -> (h: u64)
    ensures
        h == e.0,
{
    e.0
}

/// Whether the entry has the given hash and key; handed to hashbrown as the equality of lookups.
pub(crate) fn entry_is(e: &Entry, hash: u64, key: i64) -> (b: bool)
    ensures
        b == entry_matches(*e, hash, key),
{
    e.0 == hash && e.1 == key
}

/// `HashTable::new`: an empty table, which its documentation says has a capacity of 0; in the
/// source it is the unallocated table of a single (empty) bucket.
#[verifier::external_body]
pub(crate) fn table_new() -> (t: EntryTable)
    ensures
        table_items(t) =~= Multiset::<Entry>::empty(),
        table_capacity(t) == 0,
        table_slots(t).len() == 1,
{
    EntryTable { table: hashbrown::HashTable::new() }
}

/// `HashTable::with_capacity`: an empty table that holds at least `capacity` entries without
/// reallocating. The request is bounded so that hashbrown's capacity computation cannot
/// overflow (it panics then).
#[verifier::external_body]
pub(crate) fn table_with_capacity(capacity: usize) -> (t: EntryTable)
    requires
        capacity <= max_capacity(),
    ensures
        table_items(t) =~= Multiset::<Entry>::empty(),
        table_capacity(t) >= capacity,
        table_capacity(t) <= usize::MAX,
{
    EntryTable { table: hashbrown::HashTable::with_capacity(capacity) }
}

/// `HashTable::len`: the number of entries; the source counts the full buckets.
#[verifier::external_body]
pub(crate) fn table_len_of(t: &EntryTable) -> (n: usize)
    ensures
        n == table_len(*t),
{
    t.table.len()
}

/// `HashTable::capacity`: entries plus growth reserve, so never below the number of entries.
#[verifier::external_body]
pub(crate) fn table_capacity_of(t: &EntryTable) -> (n: usize)
    ensures
        n == table_capacity(*t),
        n >= table_len(*t),
{
    t.table.capacity()
}

/// `HashTable::num_buckets`: the length of the bucket array.
#[verifier::external_body]
pub(crate) fn table_num_buckets(t: &EntryTable) -> (n: usize)
    ensures
        n == table_slots(*t).len(),
{
    t.table.num_buckets()
}

/// `HashTable::get_bucket`: the entry of bucket `index`, or `None` when that bucket is empty or
/// out of range.
#[verifier::external_body]
pub(crate) fn table_get_bucket(t: &EntryTable, index: usize) -> (r: Option<Entry>)
    ensures
        r == (if index < table_slots(*t).len() {
            table_slots(*t)[index as int]
        } else {
            None
        }),
{
    t.table.get_bucket(index).copied()
}

/// `HashTable::get_bucket_entry` followed by `OccupiedEntry::remove`: takes the entry out of
/// bucket `index`. Erasing a bucket lowers the number of entries by one and, in the source, keeps
/// or raises the growth reserve, so the capacity drops by at most one. An empty or out-of-range
/// bucket leaves the table as it was.
#[verifier::external_body]
pub(crate) fn table_take_bucket(t: &mut EntryTable, index: usize) -> (r: Option<Entry>)
    ensures
        r == (if index < table_slots(*old(t)).len() {
            table_slots(*old(t))[index as int]
        } else {
            None
        }),
        r is Some ==> table_slots(*final(t)) == table_slots(*old(t)).update(index as int, None),
        r is Some ==> table_capacity(*final(t)) <= table_capacity(*old(t)),
        r is Some ==> table_capacity(*final(t)) + 1 >= table_capacity(*old(t)),
        r is None ==> *final(t) == *old(t),
{
    match t.table.get_bucket_entry(index) {
        Ok(occupied) => Some(occupied.remove().0),
        Err(_) => None,
    }
}

/// `HashTable::get_bucket_mut`, writing `value` as the value of the entry in bucket `index`;
/// returns the value it had. The hash and key stay, and so does every other bucket.
#[verifier::external_body]
pub(crate) fn table_set_value(t: &mut EntryTable, index: usize, value: i64) -> (r: Option<i64>)
    ensures
        index < table_slots(*old(t)).len() && table_slots(*old(t))[index as int] is Some ==> {
            let e = table_slots(*old(t))[index as int]->Some_0;
            &&& r == Some(e.2)
            &&& table_slots(*final(t)) == table_slots(*old(t)).update(
                index as int,
                Some((e.0, e.1, value)),
            )
            &&& table_capacity(*final(t)) == table_capacity(*old(t))
        },
        !(index < table_slots(*old(t)).len() && table_slots(*old(t))[index as int] is Some) ==> {
            &&& r is None
            &&& *final(t) == *old(t)
        },
{
    match t.table.get_bucket_mut(index) {
        Some(e) => {
            let previous = e.2;
            e.2 = value;
            Some(previous)
        },
        None => None,
    }
}

/// `HashTable::find_bucket_index` with an equality that matches hash and key: the index of a
/// full bucket whose entry has this hash and key, or `None` when there is none. hashbrown finds
/// an entry when it was inserted with the hash that is looked up (its documentation asks that the
/// rehashing function return the hash each entry was inserted with); every entry here is inserted
/// with its own first component as hash and rehashed by that component.
#[verifier::external_body]
pub(crate) fn table_find_index(t: &EntryTable, hash: u64, key: i64) -> (r: Option<usize>)
    ensures
        r matches Some(i) ==> {
            &&& i < table_slots(*t).len()
            &&& table_slots(*t)[i as int] is Some
            &&& entry_matches(table_slots(*t)[i as int]->Some_0, hash, key)
        },
        r is None ==> forall|i: int|
            0 <= i < table_slots(*t).len() && #[trigger] table_slots(*t)[i] is Some
                ==> !entry_matches(table_slots(*t)[i]->Some_0, hash, key),
{
    t.table.find_bucket_index(hash, |e| entry_is(e, hash, key))
}

/// `HashTable::insert_unique` with the entry's hash, followed by `OccupiedEntry::bucket_index`:
/// adds the entry and returns the bucket it went to. In the source the table reallocates only
/// when its growth reserve is exhausted; otherwise the entry fills one empty bucket, every other
/// bucket stays, and the capacity stays or grows by one (when a deleted bucket is reused). When
/// the table has to reallocate, the number of entries is bounded so that the reallocation cannot
/// overflow the capacity computation (it panics then).
#[verifier::external_body]
pub(crate) fn table_insert(t: &mut EntryTable, e: Entry) -> (index: usize)
    requires
        table_len(*old(t)) < max_entries() || table_room(*old(t)) > 0,
    ensures
        table_items(*final(t)) =~= table_items(*old(t)).insert(e),
        index < table_slots(*final(t)).len(),
        table_slots(*final(t))[index as int] == Some(e),
        table_capacity(*final(t)) >= table_len(*final(t)),
        table_capacity(*final(t)) <= usize::MAX,
        table_room(*old(t)) > 0 ==> {
            &&& index < table_slots(*old(t)).len()
            &&& table_slots(*old(t))[index as int] is None
            &&& table_slots(*final(t)) == table_slots(*old(t)).update(index as int, Some(e))
            &&& table_capacity(*old(t)) <= table_capacity(*final(t)) <= table_capacity(*old(t)) + 1
        },
{
    t.table.insert_unique(e.0, e, entry_hash).bucket_index()
}

/// `HashTable::reserve`: afterwards at least `additional` more entries fit without reallocating.
/// The source does nothing when the growth reserve already covers `additional`. Otherwise the
/// bound keeps the reallocation's capacity request in range (the computation panics beyond it).
#[verifier::external_body]
pub(crate) fn table_reserve(t: &mut EntryTable, additional: usize)
    requires
        table_len(*old(t)) + additional <= max_entries() || additional <= table_room(*old(t)),
    ensures
        table_items(*final(t)) =~= table_items(*old(t)),
        table_room(*final(t)) >= additional,
        table_capacity(*final(t)) <= usize::MAX,
        additional <= table_room(*old(t)) ==> *final(t) == *old(t),
{
    t.table.reserve(additional, entry_hash)
}

/// Whether `size` bytes aligned to `align` can be the allocation that hashbrown asks for when it
/// makes a table of entries for `capacity` entries: at least 25 bytes (an entry and its control
/// byte) for each of more than `capacity` buckets, at most about 58 bytes per entry (below twice
/// `8 / 7` buckets per entry), and aligned to 8 or 16 bytes (the larger of an entry's alignment
/// and the width of hashbrown's control groups).
pub open spec fn table_layout_for(capacity: nat, size: nat, align: nat) -> bool {
    &&& 25 * (capacity + 1) <= size <= 58 * capacity + 416
    &&& (align == 8 || align == 16)
}

/// `HashTable::try_reserve`: on success at least `additional` more entries fit without
/// reallocating; on failure the table is as it was. The source succeeds without doing anything
/// when the growth reserve already covers `additional`. On a table of a single bucket (one that
/// has never allocated, whose capacity is 0) a positive `additional` makes the source allocate a
/// table for `additional` entries, which fails with `CapacityOverflow` exactly when `additional`
/// exceeds `max_capacity()` (the bucket count or the byte size of the allocation overflows).
/// `AllocError` comes only from the allocation of a new table, when the growth reserve does not
/// cover `additional`, and carries that allocation's layout: more than `additional` buckets of at
/// least 25 bytes each, aligned to 8 or 16; on a single-bucket table the new table is one for
/// `additional` entries (`table_layout_for`). Whether the allocator refuses a request of an
/// acceptable size is left unsaid.
#[verifier::external_body]
pub(crate) fn table_try_reserve(t: &mut EntryTable, additional: usize) -> (r: Result<(), TryReserveError>)
    ensures
        r is Ok ==> table_items(*final(t)) =~= table_items(*old(t)),
        r is Ok ==> table_room(*final(t)) >= additional,
        r is Ok ==> table_capacity(*final(t)) <= usize::MAX,
        r is Err ==> *final(t) == *old(t),
        additional <= table_room(*old(t)) ==> r is Ok && *final(t) == *old(t),
        table_slots(*old(t)).len() == 1 ==> (r == Err::<(), TryReserveError>(
            TryReserveError::CapacityOverflow,
        ) <==> additional > max_capacity()),
        r matches Err(TryReserveError::AllocError { size, align }) ==> {
            &&& additional > table_room(*old(t))
            &&& size >= 25 * (additional + 1)
            &&& (align == 8 || align == 16)
        },
        table_slots(*old(t)).len() == 1 ==> (r matches Err(TryReserveError::AllocError { size, align })
            ==> table_layout_for(additional as nat, size as nat, align as nat)),
{
    match t.table.try_reserve(additional, entry_hash) {
        Ok(()) => Ok(()),
        Err(hashbrown::TryReserveError::CapacityOverflow) => Err(TryReserveError::CapacityOverflow),
        Err(hashbrown::TryReserveError::AllocError { layout }) => Err(
            TryReserveError::AllocError { size: layout.size(), align: layout.align() },
        ),
    }
}

/// An upper bound on the capacity of a table that `HashTable::shrink_to` has shrunk for `n`
/// entries: none when `n` is 0, and otherwise at most twice `n`, or 14 for the smallest tables.
pub open spec fn shrink_limit(n: nat) -> nat {
    if n == 0 {
        0
    } else if 2 * n < 14 {
        14
    } else {
        2 * n
    }
}

/// `HashTable::shrink_to`: the capacity drops as far as hashbrown's rules allow but no lower
/// than `min_capacity` or the number of entries. Its documentation says it panics when the
/// capacity is already below `min_capacity`. With `n` the larger of the two, the source frees
/// the allocation when `n` is 0 (leaving the single-bucket table of `new`); otherwise it keeps
/// the bucket array when that is no larger than the one `n` entries need, and else moves the
/// entries to a new array of that size. So the bucket array never grows. The array
/// that `n` entries need has 4, 8 or 16 buckets below 15 entries, and beyond that the next power
/// of two over `8 n / 7`, of which 7/8 is capacity; so the capacity is at most
/// `shrink_limit(n)`. This rests on the global allocator, which the table uses, handing back
/// blocks of exactly the size asked for (hashbrown would use a larger block for more buckets).
#[verifier::external_body]
pub(crate) fn table_shrink_to(t: &mut EntryTable, min_capacity: usize)
    requires
        min_capacity <= table_capacity(*old(t)),
    ensures
        table_items(*final(t)) =~= table_items(*old(t)),
        table_capacity(*final(t)) >= min_capacity,
        table_capacity(*final(t)) >= table_len(*final(t)),
        table_capacity(*final(t)) <= usize::MAX,
        table_capacity(*final(t)) <= shrink_limit(
            if table_len(*old(t)) > min_capacity { table_len(*old(t)) } else { min_capacity as nat },
        ),
        table_slots(*final(t)).len() <= table_slots(*old(t)).len(),
        table_len(*old(t)) == 0 && min_capacity == 0 ==> table_slots(*final(t)).len() == 1,
{
    t.table.shrink_to(min_capacity, entry_hash)
}

/// `HashTable::clear`: removes every entry and keeps the allocation (the same bucket array), so
/// the capacity does not drop.
#[verifier::external_body]
pub(crate) fn table_clear(t: &mut EntryTable)
    ensures
        table_items(*final(t)) =~= Multiset::<Entry>::empty(),
        table_capacity(*final(t)) >= table_capacity(*old(t)),
        table_capacity(*final(t)) <= usize::MAX,
        table_slots(*final(t)).len() == table_slots(*old(t)).len(),
{
    t.table.clear()
}

/// `HashTable::clone`: the source copies the bucket array (control bytes and entries) and the
/// growth reserve as they are.
#[verifier::external_body]
pub(crate) fn table_clone(t: &EntryTable) -> (r: EntryTable)
    ensures
        table_slots(r) == table_slots(*t),
        table_capacity(r) == table_capacity(*t),
{
    EntryTable { table: t.table.clone() }
}

} // verus!
