//! A hash map that spreads the cost of resizing across inserts.
//!
//! Most hash tables occasionally resize: they allocate a larger table and move every entry into
//! it at once, so that one insert takes much longer than the others. This crate resizes
//! incrementally instead: the old table is kept, and each insert moves a few of its entries into
//! the new one, until none is left. Reads check both tables while a resize is in progress.
//!
//! The tables themselves are hashbrown's; `raw` adds the incremental resizing on top of them and
//! `map` is a map from `i64` keys to `i64` values built on `raw`.
pub mod table;
pub mod raw;
pub mod map;
pub mod par;

pub use crate::map::HashMap;
pub use crate::table::TryReserveError;
