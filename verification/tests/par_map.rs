use griddle::HashMap;
use rayon::iter::{IntoParallelIterator, IntoParallelRefIterator, ParallelIterator};
use std::sync::atomic::{AtomicUsize, Ordering};

#[test]
fn test_empty_iter() {
    let mut m: HashMap = HashMap::new();
    assert_eq!(m.par_keys().count(), 0);
    assert_eq!(m.par_values().count(), 0);
    assert_eq!(m.par_values_mut().count(), 0);
    assert_eq!(m.par_iter().count(), 0);
    assert_eq!(m.par_iter_mut().count(), 0);
    assert_eq!(m.len(), 0);
    assert!(m.is_empty());
    let moved = m;
    assert_eq!(moved.par_iter().to_vec().into_par_iter().count(), 0);
}

#[test]
fn test_iterate() {
    let mut m = HashMap::with_capacity(4);
    for i in 0..32 {
        assert!(m.insert(i, i * 2).is_none());
    }
    assert_eq!(m.len(), 32);

    let observed = AtomicUsize::new(0);

    m.par_iter().to_vec().into_par_iter().for_each(|(k, v)| {
        assert_eq!(v, k * 2);
        observed.fetch_or(1 << k, Ordering::Relaxed);
    });
    assert_eq!(observed.into_inner(), 0xFFFF_FFFF);
}

#[test]
fn test_keys() {
    let vec = vec![(1, 'a'), (2, 'b'), (3, 'c')];
    let map = HashMap::from_par_iter(vec.into_par_iter().map(|(k, c)| (k, c as i64)).collect());
    let keys: Vec<i64> = map.par_keys().to_vec().into_par_iter().collect();
    assert_eq!(keys.len(), 3);
    assert!(keys.contains(&1));
    assert!(keys.contains(&2));
    assert!(keys.contains(&3));
}

#[test]
fn test_values() {
    let vec = vec![(1, 'a'), (2, 'b'), (3, 'c')];
    let map = HashMap::from_par_iter(vec.into_par_iter().map(|(k, c)| (k, c as i64)).collect());
    let values: Vec<i64> = map.par_values().to_vec().into_par_iter().collect();
    assert_eq!(values.len(), 3);
    assert!(values.contains(&('a' as i64)));
    assert!(values.contains(&('b' as i64)));
    assert!(values.contains(&('c' as i64)));
}

#[test]
fn test_values_mut() {
    let vec = vec![(1, 1), (2, 2), (3, 3)];
    let mut map = HashMap::from_par_iter(vec.into_par_iter().collect());
    map.par_values_mut().for_each(|value| value * 2);
    let values: Vec<i64> = map.par_values().to_vec().into_par_iter().collect();
    assert_eq!(values.len(), 3);
    assert!(values.contains(&2));
    assert!(values.contains(&4));
    assert!(values.contains(&6));
}

#[test]
fn test_eq() {
    let mut m1 = HashMap::new();
    m1.insert(1, 2);
    m1.insert(2, 3);
    m1.insert(3, 4);

    let mut m2 = HashMap::new();
    m2.insert(1, 2);
    m2.insert(2, 3);

    assert!(!m1.par_eq(&m2));

    m2.insert(3, 4);

    assert!(m1.par_eq(&m2));
}

#[test]
fn test_from_iter() {
    let xs = [(1, 1), (2, 2), (3, 3), (4, 4), (5, 5), (6, 6)];

    let map = HashMap::from_par_iter(xs.par_iter().cloned().collect());

    for &(k, v) in &xs {
        assert_eq!(map.get(k), Some(v));
    }
}

#[test]
fn test_extend_ref() {
    // The map's values are `i64`: each string value is stored as its index in `names`.
    let names = ["one", "two", "three"];
    let mut a = HashMap::new();
    a.insert(1, 0);
    let mut b = HashMap::new();
    b.insert(2, 1);
    b.insert(3, 2);

    a.par_extend(b.par_iter().to_vec());

    assert_eq!(a.len(), 3);
    assert_eq!(names[a.get(1).unwrap() as usize], "one");
    assert_eq!(names[a.get(2).unwrap() as usize], "two");
    assert_eq!(names[a.get(3).unwrap() as usize], "three");
}
