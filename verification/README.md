# griddle

A hash map whose resizes are spread over the inserts that follow them, written in Verus.

When the table is full, a new, larger table is allocated and the old one is kept; each later
insert moves up to `R` entries from the old table into the new one. Lookups and removals look in
both tables while a resize is in progress. The new table is sized so that it never has to
reallocate before the old table is empty.

Layout:

- `src/table.rs`: the hashbrown `HashTable` of `(hash, key, value)` entries, the names for its
  bucket array and capacity, and the trusted wrappers of the hashbrown calls.
- `src/raw.rs`: `RawTable`, the incrementally resizing table (insert, find, erase, reserve,
  shrink, iteration), with its invariant and the laws of the resize.
- `src/map.rs`: `HashMap`, a map from `i64` keys to `i64` values on top of `RawTable`.
- `src/par.rs`: the items that parallel iteration hands out (keys, values, pairs, in-place
  updates), equality of maps and bulk insertion.
- `app/lib.rs`: the rayon parallel iterators, which drive the items that `src/` lists.
- `tests/`: tests of the map, of the raw table and of the parallel operations.
