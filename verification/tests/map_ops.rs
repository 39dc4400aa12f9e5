use griddle::map::make_hash;
use griddle::HashMap;

#[test]
fn insert_get_remove() {
    let mut m = HashMap::new();
    assert_eq!(m.insert(1, 10), None);
    assert_eq!(m.insert(2, 20), None);
    assert_eq!(m.insert(1, 11), Some(10));
    assert_eq!(m.get(1), Some(11));
    assert_eq!(m.get(2), Some(20));
    assert_eq!(m.get(3), None);
    assert!(m.contains_key(2));
    assert!(!m.contains_key(3));
    assert_eq!(m.len(), 2);
    assert_eq!(m.remove(1), Some(11));
    assert_eq!(m.remove(1), None);
    assert_eq!(m.len(), 1);
    assert_eq!(m.remove_entry(2), Some((2, 20)));
    assert!(m.is_empty());
}

#[test]
fn many_inserts_across_resizes() {
    let mut m = HashMap::new();
    for i in 0..5000i64 {
        assert_eq!(m.insert(i, -i), None);
    }
    assert_eq!(m.len(), 5000);
    for i in 0..5000i64 {
        assert_eq!(m.get(i), Some(-i));
    }
    for i in (0..5000i64).step_by(3) {
        assert_eq!(m.remove(i), Some(-i));
    }
    for i in 0..5000i64 {
        assert_eq!(m.get(i), if i % 3 == 0 { None } else { Some(-i) });
    }
}

#[test]
fn negative_and_extreme_keys() {
    let mut m = HashMap::new();
    m.insert(i64::MIN, 1);
    m.insert(i64::MAX, 2);
    m.insert(-1, 3);
    m.insert(0, 4);
    assert_eq!(m.get(i64::MIN), Some(1));
    assert_eq!(m.get(i64::MAX), Some(2));
    assert_eq!(m.get(-1), Some(3));
    assert_eq!(m.get(0), Some(4));
}

#[test]
fn entry_or_insert_keeps_existing() {
    let mut m = HashMap::new();
    assert_eq!(m.entry_or_insert(5, 50), 50);
    assert_eq!(m.entry_or_insert(5, 99), 50);
    assert_eq!(m.get(5), Some(50));
}

#[test]
fn with_capacity_and_reserve() {
    let m = HashMap::with_capacity(1000);
    assert!(m.capacity() >= 1000);
    let mut n = HashMap::new();
    n.reserve(64);
    assert!(n.capacity() >= 64);
    assert!(n.try_reserve(128).is_ok());
    assert!(n.capacity() >= 128);
}

#[test]
fn shrink_and_clear() {
    let mut m = HashMap::with_capacity(1000);
    for i in 0..10 {
        m.insert(i, i);
    }
    m.shrink_to_fit();
    assert!(m.capacity() < 1000);
    assert!(m.capacity() >= 10 && m.capacity() <= 20);
    assert_eq!(m.len(), 10);
    m.shrink_to(5);
    assert!(m.capacity() <= 20);
    assert_eq!(m.get(9), Some(9));
    let before = m.capacity();
    m.shrink_to(before + 100);
    assert_eq!(m.capacity(), before);
    assert_eq!(m.len(), 10);
    m.clear();
    assert!(m.is_empty());
    assert_eq!(m.get(1), None);
}

#[test]
fn clone_gives_equal_map() {
    let mut m = HashMap::new();
    for i in 0..100 {
        m.insert(i, i * i);
    }
    let c = m.clone();
    assert!(c.par_eq(&m));
    m.insert(1000, 0);
    assert!(!c.par_eq(&m));
}

#[test]
fn par_iter_mut_uses_keys() {
    let mut m = HashMap::new();
    for i in 0..10 {
        m.insert(i, 1);
    }
    m.par_iter_mut().for_each(|k, v| k + v);
    for i in 0..10 {
        assert_eq!(m.get(i), Some(i + 1));
    }
}

#[test]
fn later_pairs_override_earlier() {
    let m = HashMap::from_par_iter(vec![(1, 1), (2, 2), (1, 3)]);
    assert_eq!(m.len(), 2);
    assert_eq!(m.get(1), Some(3));
}

#[test]
fn hash_is_a_function_of_the_key() {
    assert_eq!(make_hash(12345), make_hash(12345));
    assert_ne!(make_hash(1), 1);
    assert_ne!(make_hash(1), make_hash(2));
}

#[test]
fn pairs_lists_every_entry_once() {
    let mut m = HashMap::new();
    for i in 0..300 {
        m.insert(i, 2 * i);
    }
    let mut p = m.pairs();
    p.sort();
    assert_eq!(p, (0..300).map(|i| (i, 2 * i)).collect::<Vec<_>>());
}

#[test]
fn inserts_and_removes_match_a_set() {
    let inserted: Vec<i64> = (0..300).map(|i| (i * 7) % 101).collect();
    let removed: Vec<i64> = (0..60).map(|i| (i * 3) % 97).collect();
    let mut m = HashMap::new();
    for &k in &inserted {
        m.insert(k, -k);
    }
    for &k in &removed {
        m.remove(k);
    }
    let expected: std::collections::BTreeSet<i64> = inserted
        .iter()
        .copied()
        .filter(|k| !removed.contains(k))
        .collect();
    assert_eq!(m.len(), expected.len());
    assert_eq!(m.pairs().len(), expected.len());
    for k in -5..110 {
        assert_eq!(m.get(k), if expected.contains(&k) { Some(-k) } else { None });
    }
}

#[test]
fn shrink_to_stays_near_the_limit() {
    let mut m = HashMap::with_capacity(5000);
    for i in 0..100 {
        m.insert(i, i);
    }
    m.shrink_to(300);
    assert!(m.capacity() >= 300 && m.capacity() <= 600);
    m.clear();
    m.shrink_to_fit();
    assert_eq!(m.capacity(), 0);
}
