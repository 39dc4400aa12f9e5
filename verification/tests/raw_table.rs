use griddle::raw::{grow_request, RawTable, R};

fn leftover_count(t: &RawTable) -> usize {
    t.par_iter().leftover_buckets().map_or(0, |v| v.len())
}

/// Fills a table until its main table is full, then inserts one more entry to start a resize.
fn split_table() -> (RawTable, i64) {
    let mut t = RawTable::new();
    let mut k: i64 = 0;
    loop {
        if t.capacity() == t.len() && t.len() > 20 {
            break;
        }
        t.insert(k as u64, k, k * 10);
        k += 1;
    }
    t.insert(k as u64, k, k * 10);
    k += 1;
    (t, k)
}

#[test]
fn new_table_is_empty() {
    let t = RawTable::new();
    assert_eq!(t.len(), 0);
    assert_eq!(t.capacity(), 0);
    assert!(!t.is_split());
    assert!(t.find(1, 1).is_none());
}

#[test]
fn with_capacity_holds_that_many() {
    let t = RawTable::with_capacity(100);
    assert!(t.capacity() >= 100);
    assert_eq!(t.len(), 0);
}

#[test]
fn insert_then_find() {
    let mut t = RawTable::new();
    let b = t.insert(7, 3, 30);
    assert_eq!(b.entry(), (7, 3, 30));
    assert!(!b.will_move());
    assert!(!b.in_leftovers());
    let found = t.find(7, 3).unwrap();
    assert_eq!(found.entry(), (7, 3, 30));
    assert!(t.find(8, 3).is_none());
    assert!(t.find(7, 4).is_none());
    assert_eq!(t.len(), 1);
}

#[test]
fn erase_removes_entry() {
    let mut t = RawTable::new();
    t.insert(1, 1, 10);
    t.insert(2, 2, 20);
    let b = t.find(1, 1).unwrap();
    t.erase_no_drop(&b);
    t.post_erase(&b);
    assert!(t.find(1, 1).is_none());
    assert_eq!(t.find(2, 2).unwrap().entry(), (2, 2, 20));
    assert_eq!(t.len(), 1);
}

#[test]
fn bucket_by_index() {
    let mut t = RawTable::new();
    let b = t.insert(5, 5, 50);
    let again = t.bucket(b.index);
    assert_eq!(again.entry(), (5, 5, 50));
    assert!(again.in_main);
}

#[test]
fn replace_value_keeps_key() {
    let mut t = RawTable::new();
    let b = t.insert(5, 5, 50);
    assert_eq!(t.replace_value(&b, 55), 50);
    assert_eq!(t.find(5, 5).unwrap().entry(), (5, 5, 55));
    assert_eq!(t.len(), 1);
}

#[test]
fn growing_starts_an_incremental_resize() {
    let (t, k) = split_table();
    assert!(t.is_split());
    assert_eq!(t.len() as i64, k);
    // Every entry is still found, whichever table it is in.
    for i in 0..k {
        assert_eq!(t.find(i as u64, i).unwrap().entry(), (i as u64, i, i * 10));
    }
    assert!(leftover_count(&t) > 0);
}

#[test]
fn each_insert_moves_r_entries() {
    let (mut t, mut k) = split_table();
    let buckets = t.buckets();
    while t.is_split() {
        let before = leftover_count(&t);
        t.insert(k as u64, k, k * 10);
        k += 1;
        let after = leftover_count(&t);
        if before > R {
            assert_eq!(after, before - R);
            assert!(t.is_split());
        } else {
            assert_eq!(after, 0);
            assert!(!t.is_split());
        }
        // The main table does not reallocate while a resize is in progress.
        assert_eq!(t.buckets(), buckets);
    }
    assert_eq!(t.len() as i64, k);
    for i in 0..k {
        assert!(t.find(i as u64, i).is_some());
    }
}

#[test]
fn resize_completes_within_rounded_up_inserts() {
    let (mut t, mut k) = split_table();
    let n = leftover_count(&t);
    let rounds = (n + R - 1) / R;
    for _ in 0..rounds {
        t.insert(k as u64, k, 0);
        k += 1;
    }
    assert!(!t.is_split());
    assert_eq!(leftover_count(&t), 0);
}

#[test]
fn erase_from_leftovers_then_post_erase() {
    let (mut t, _) = split_table();
    let lo = t.par_iter().leftover_buckets().unwrap();
    let total = t.len();
    for b in lo.iter() {
        assert!(b.will_move());
        t.erase_no_drop(b);
        t.post_erase(b);
    }
    assert_eq!(t.len(), total - lo.len());
    assert!(!t.is_split());
}

#[test]
fn iteration_visits_every_entry_once() {
    let (t, k) = split_table();
    let mut it = t.iter();
    assert_eq!(it.size_hint(), (k as usize, Some(k as usize)));
    let mut seen = vec![false; k as usize];
    let mut count = 0;
    while let Some(b) = it.next() {
        let (_, key, value) = b.entry();
        assert_eq!(value, key * 10);
        assert!(!seen[key as usize]);
        seen[key as usize] = true;
        count += 1;
    }
    assert_eq!(count, k);
    assert!(seen.iter().all(|s| *s));
    assert_eq!(it.size_hint(), (0, Some(0)));
    assert!(it.next().is_none());
}

#[test]
fn into_iter_yields_every_entry() {
    let (t, k) = split_table();
    let mut it = t.into_iter();
    assert_eq!(it.iter().size_hint().0, k as usize);
    let mut sum = 0;
    let mut count = 0;
    while let Some((_, key, _)) = it.next() {
        sum += key;
        count += 1;
    }
    assert_eq!(count, k);
    assert_eq!(sum, k * (k - 1) / 2);
    assert_eq!(it.size_hint(), (0, Some(0)));
}

#[test]
fn par_iter_halves_cover_the_table() {
    let (t, k) = split_table();
    let it = t.par_iter();
    let main = it.main_buckets();
    let lo = it.leftover_buckets().unwrap();
    assert!(main.iter().all(|b| b.in_main));
    assert!(lo.iter().all(|b| !b.in_main));
    assert_eq!((main.len() + lo.len()) as i64, k);
    let unsplit = RawTable::new();
    assert!(unsplit.par_iter().leftover_buckets().is_none());
    let mut small = RawTable::new();
    for i in 0..4 {
        small.insert(i as u64, i, i);
    }
    let it = small.par_iter();
    assert!(it.leftover_buckets().is_none());
    assert_eq!(it.main_buckets().len(), 4);
    for i in 0..4 {
        assert!(small.find(i as u64, i).unwrap().in_main);
    }
}

#[test]
fn reserve_then_inserts_do_not_reallocate() {
    let mut t = RawTable::new();
    t.reserve(50);
    assert!(t.capacity() >= 50);
    let buckets = t.buckets();
    for i in 0..50 {
        t.insert(i as u64, i, i);
    }
    assert_eq!(t.buckets(), buckets);
    assert_eq!(t.len(), 50);
}

#[test]
fn reserve_during_resize_keeps_entries() {
    let (mut t, k) = split_table();
    t.reserve(1000);
    assert_eq!(t.len() as i64, k);
    for i in 0..k {
        assert!(t.find(i as u64, i).is_some());
    }
    assert!(t.capacity() - t.len() >= 1000);
}

#[test]
fn try_reserve_reports_capacity_overflow() {
    let mut t = RawTable::new();
    t.insert(1, 1, 1);
    assert_eq!(t.try_reserve(usize::MAX / 2), Err(griddle::TryReserveError::CapacityOverflow));
    assert_eq!(t.len(), 1);
    assert!(t.try_reserve(10).is_ok());
    assert!(t.capacity() - t.len() >= 10);
}

#[test]
fn shrink_keeps_room_for_resize() {
    let (mut t, k) = split_table();
    t.shrink_to(0);
    assert!(t.is_split());
    let lo = leftover_count(&t);
    assert!(t.capacity() >= t.len() + (lo + R - 1) / R);
    for i in 0..k {
        assert!(t.find(i as u64, i).is_some());
    }
}

#[test]
fn clear_empties_and_ends_resize() {
    let (mut t, _) = split_table();
    t.clear();
    assert_eq!(t.len(), 0);
    assert!(!t.is_split());
    let (mut u, _) = split_table();
    u.clear_no_drop();
    assert_eq!(u.len(), 0);
    assert!(!u.is_split());
}

#[test]
fn clone_is_equal() {
    let (t, k) = split_table();
    let c = t.clone();
    assert_eq!(c.len(), t.len());
    assert_eq!(c.is_split(), t.is_split());
    for i in 0..k {
        assert!(c.find(i as u64, i).is_some());
    }
    let mut d = RawTable::new();
    d.insert(1000, 1000, 1);
    d.clone_from_with_hasher(&t);
    assert_eq!(d.len(), t.len());
    assert!(d.find(1000, 1000).is_none());
}

#[test]
fn new_table_has_one_bucket() {
    let t = RawTable::new();
    assert_eq!(t.buckets(), 1);
    assert_eq!(t.capacity(), 0);
}

#[test]
fn try_reserve_everything_overflows() {
    let mut t = RawTable::new();
    assert_eq!(t.try_reserve(usize::MAX), Err(griddle::TryReserveError::CapacityOverflow));
    assert_eq!(t.len(), 0);
    assert_eq!(t.capacity(), 0);
    assert!(!t.is_split());
    let mut u = RawTable::new();
    u.insert(1, 1, 10);
    let buckets = u.buckets();
    assert_eq!(u.try_reserve(usize::MAX), Err(griddle::TryReserveError::CapacityOverflow));
    assert_eq!(u.len(), 1);
    assert_eq!(u.buckets(), buckets);
    assert_eq!(u.find(1, 1).unwrap().entry(), (1, 1, 10));
}

#[test]
fn failed_try_reserve_during_resize_completes_it() {
    let (mut t, k) = split_table();
    assert!(t.is_split());
    let buckets = t.buckets();
    assert_eq!(t.try_reserve(usize::MAX - 1), Err(griddle::TryReserveError::CapacityOverflow));
    assert!(!t.is_split());
    assert_eq!(t.buckets(), buckets);
    assert_eq!(t.len() as i64, k);
    for i in 0..k {
        assert!(t.find(i as u64, i).unwrap().in_main);
    }
}

#[test]
fn grow_request_sizes() {
    assert_eq!(grow_request(0, 0), Some(0));
    assert_eq!(grow_request(0, 5), Some(5));
    assert_eq!(grow_request(16, 0), Some(20));
    assert_eq!(grow_request(16, 10), Some(28));
    assert_eq!(grow_request(17, 1), Some(23));
    assert_eq!(grow_request(usize::MAX, 1), None);
    assert_eq!(grow_request(10, usize::MAX), None);
}

#[test]
fn try_reserve_asks_for_the_grow_size() {
    let mut t = RawTable::new();
    for i in 0..3 {
        t.insert(i as u64, i, i);
    }
    let len = t.len();
    assert!(t.capacity() - t.len() <= 40);
    assert!(t.try_reserve(40).is_ok());
    assert!(t.capacity() >= grow_request(len, 40).unwrap());
    assert!(t.capacity() - t.len() >= 40);
}

#[test]
fn insert_that_starts_a_resize_moves_entries() {
    let mut t = RawTable::new();
    let mut k: i64 = 0;
    while t.len() < 3 || t.capacity() > t.len() {
        t.insert(k as u64, k, k);
        k += 1;
    }
    let n = t.len();
    let b = t.insert(k as u64, k, k);
    assert!(!b.will_move());
    assert_eq!(t.len(), n + 1);
    assert_eq!(t.is_split(), n > R);
    assert_eq!(leftover_count(&t), n.saturating_sub(R));
    if n <= R {
        for i in 0..=k {
            assert!(t.find(i as u64, i).unwrap().in_main);
        }
    }
}

#[test]
fn shrinking_an_empty_table_frees_it() {
    let mut t = RawTable::with_capacity(100);
    assert!(t.buckets() > 1);
    t.shrink_to(0);
    assert_eq!(t.capacity(), 0);
    assert_eq!(t.buckets(), 1);
    assert_eq!(t.len(), 0);
    assert!(!t.is_split());
}

#[test]
fn clear_keeps_buckets() {
    let (mut t, _) = split_table();
    let buckets = t.buckets();
    t.clear();
    assert_eq!(t.buckets(), buckets);
    let (mut u, _) = split_table();
    let buckets = u.buckets();
    u.clear_no_drop();
    assert_eq!(u.buckets(), buckets);
}

#[test]
fn iteration_yields_main_table_first() {
    let (t, k) = split_table();
    let mut it = t.iter();
    let mut in_old = false;
    let mut count = 0;
    while let Some(b) = it.next() {
        if !b.in_main {
            in_old = true;
        } else {
            assert!(!in_old);
        }
        count += 1;
    }
    assert!(in_old);
    assert_eq!(count, k);
}
