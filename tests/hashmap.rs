use axstd::hashmap::{HashMap, DEFAULT_CAPACITY};
use axstd::hasher::bucket_index;
use axstd::key::HashKey;

fn filled(n: u64, seed: u64) -> HashMap<u64, u64> {
    let mut m: HashMap<u64, u64> = HashMap::new(seed);
    for k in 0..n {
        assert_eq!(m.insert(k, k * 10), None);
    }
    m
}

#[test]
fn new_table_is_empty() {
    let m: HashMap<u64, u32> = HashMap::new(7);
    assert_eq!(m.len(), 0);
    assert!(m.is_empty());
    assert_eq!(m.capacity(), DEFAULT_CAPACITY);
    assert_eq!(m.capacity(), 16);
    assert_eq!(m.get(&1), None);
}

#[test]
fn with_capacity_sets_bucket_count() {
    let m: HashMap<u32, u32> = HashMap::with_capacity(5, 99);
    assert_eq!(m.capacity(), 5);
    assert!(m.is_empty());
}

#[test]
fn insert_then_get_round_trip() {
    for seed in [0u64, 1, 12345, u64::MAX] {
        let mut m: HashMap<u64, &str> = HashMap::new(seed);
        assert_eq!(m.insert(42, "answer"), None);
        assert_eq!(m.get(&42), Some(&"answer"));
        assert!(m.contains_key(&42));
        assert!(!m.contains_key(&43));
        assert_eq!(m.len(), 1);
        assert!(!m.is_empty());
    }
}

#[test]
fn update_in_place_returns_previous_value() {
    let mut m: HashMap<u32, u32> = HashMap::new(3);
    assert_eq!(m.insert(5, 1), None);
    let len_before = m.len();
    assert_eq!(m.insert(5, 2), Some(1));
    assert_eq!(m.get(&5), Some(&2));
    assert_eq!(m.len(), len_before);
}

#[test]
fn remove_present_and_absent() {
    let mut m: HashMap<usize, u64> = HashMap::new(11);
    m.insert(9, 90);
    m.insert(10, 100);
    assert_eq!(m.len(), 2);
    assert_eq!(m.remove(&9), Some(90));
    assert_eq!(m.get(&9), None);
    assert_eq!(m.len(), 1);
    assert_eq!(m.remove(&9), None);
    assert_eq!(m.remove(&1234), None);
    assert_eq!(m.len(), 1);
    assert_eq!(m.get(&10), Some(&100));
}

#[test]
fn get_mut_changes_the_stored_value() {
    let mut m: HashMap<u64, u64> = HashMap::new(5);
    m.insert(1, 10);
    if let Some(v) = m.get_mut(&1) {
        *v += 5;
    }
    assert_eq!(m.get(&1), Some(&15));
    assert!(m.get_mut(&2).is_none());
    assert_eq!(m.len(), 1);
}

#[test]
fn length_counts_live_keys() {
    let mut m: HashMap<u64, u64> = HashMap::new(77);
    for k in 0..30u64 {
        m.insert(k, k);
    }
    for k in 0..30u64 {
        m.insert(k, k + 1);
    }
    for k in (0..30u64).step_by(3) {
        assert_eq!(m.remove(&k), Some(k + 1));
    }
    m.remove(&1000);
    assert_eq!(m.len(), 20);
}

#[test]
fn growth_keeps_every_key() {
    let mut m: HashMap<u64, u64> = HashMap::with_capacity(4, 2024);
    for k in 0..200u64 {
        m.insert(k, k * 3);
        m.insert(k, k * 2);
    }
    assert!(m.capacity() > 4);
    assert_eq!(m.len(), 200);
    for k in 0..200u64 {
        assert_eq!(m.get(&k), Some(&(k * 2)));
    }
}

#[test]
fn iteration_visits_each_entry_once() {
    let mut m = filled(40, 31337);
    for k in (0..40u64).filter(|k| k % 4 == 0) {
        m.remove(&k);
    }
    let mut seen: Vec<(u64, u64)> = Vec::new();
    let mut it = m.iter();
    while let Some((k, v)) = it.next() {
        seen.push((*k, *v));
    }
    assert_eq!(seen.len(), m.len());
    seen.sort();
    let expected: Vec<(u64, u64)> = (0..40u64).filter(|k| k % 4 != 0).map(|k| (k, k * 10)).collect();
    assert_eq!(seen, expected);
}

#[test]
fn iteration_of_empty_table() {
    let m: HashMap<u32, u32> = HashMap::with_capacity(3, 1);
    let mut it = m.iter();
    assert!(it.next().is_none());
    assert!(it.next().is_none());
}

#[test]
fn boundary_scenario_grows_on_thirteenth_key() {
    let mut m: HashMap<u64, u64> = HashMap::with_capacity(16, 4242);
    for k in 0..12u64 {
        m.insert(k, k);
        assert_eq!(m.capacity(), 16);
    }
    assert_eq!(m.len(), 12);
    m.insert(12, 12);
    assert_eq!(m.len(), 13);
    assert_eq!(m.capacity(), 24);
    for k in 0..13u64 {
        assert_eq!(m.get(&k), Some(&k));
    }
}

#[test]
fn capacity_one_stays_usable() {
    let mut m: HashMap<u32, u32> = HashMap::with_capacity(1, 0);
    for k in 0..10u32 {
        m.insert(k, k + 100);
    }
    assert_eq!(m.capacity(), 1);
    assert_eq!(m.len(), 10);
    assert_eq!(m.get(&7), Some(&107));
}

#[test]
fn removing_everything_keeps_capacity() {
    let mut m = filled(20, 8);
    let cap = m.capacity();
    assert_eq!(cap, 36);
    for k in 0..20u64 {
        assert_eq!(m.remove(&k), Some(k * 10));
    }
    assert!(m.is_empty());
    assert_eq!(m.capacity(), cap);
}

fn same_bucket_keys(seed: u64, capacity: usize, n: usize) -> Vec<u64> {
    let target = bucket_index(seed, &0u64.hash_bytes(), capacity);
    (0..u64::MAX)
        .filter(|k| bucket_index(seed, &k.hash_bytes(), capacity) == target)
        .take(n)
        .collect()
}

fn entries_in_order(m: &HashMap<u64, u64>) -> Vec<(u64, u64)> {
    let mut out = Vec::new();
    let mut it = m.iter();
    while let Some((k, v)) = it.next() {
        out.push((*k, *v));
    }
    out
}

#[test]
fn chain_order_is_kept_by_update_and_remove() {
    let keys = same_bucket_keys(5, 64, 4);
    let mut m: HashMap<u64, u64> = HashMap::with_capacity(64, 5);
    for &k in &keys[..3] {
        m.insert(k, 1);
    }
    assert_eq!(m.insert(keys[1], 2), Some(1));
    assert_eq!(m.remove(&keys[0]), Some(1));
    m.insert(keys[3], 3);
    assert_eq!(
        entries_in_order(&m),
        vec![(keys[1], 2), (keys[2], 1), (keys[3], 3)]
    );
}

#[test]
fn get_mut_on_absent_key_changes_nothing() {
    let mut m = filled(5, 21);
    let before = entries_in_order(&m);
    assert!(m.get_mut(&99).is_none());
    assert_eq!(entries_in_order(&m), before);
}
