use dedupe_estimator::estimator::{Digest, UniqueBytes};

#[test]
fn a_new_estimate_has_seen_nothing() {
    let estimate = UniqueBytes::new();
    assert_eq!(estimate.unique_bytes(), 0);
    assert!(!estimate.has_seen(Digest { high: 0, low: 0 }));
}

#[test]
fn bytes_count_once_for_each_hash() {
    let mut estimate = UniqueBytes::new();
    let a = Digest { high: 1, low: 2 };
    let b = Digest { high: 1, low: 3 };
    let c = Digest { high: 2, low: 2 };
    assert!(estimate.observe(a, 100));
    assert!(estimate.observe(b, 20));
    assert!(!estimate.observe(a, 100));
    assert!(estimate.observe(c, 3));
    assert!(!estimate.observe(b, 20));
    assert_eq!(estimate.unique_bytes(), 123);
    assert!(estimate.has_seen(a));
    assert!(estimate.has_seen(b));
    assert!(estimate.has_seen(c));
    assert!(!estimate.has_seen(Digest { high: 2, low: 3 }));
}

#[test]
fn the_set_of_hashes_is_shared_by_all_sources() {
    let mut estimate = UniqueBytes::new();
    let first_source = [(Digest { high: 9, low: 9 }, 10u64), (Digest { high: 9, low: 8 }, 5)];
    let second_source = [(Digest { high: 9, low: 9 }, 10u64), (Digest { high: 7, low: 7 }, 1)];
    for (hash, len) in first_source {
        estimate.observe(hash, len);
    }
    for (hash, len) in second_source {
        estimate.observe(hash, len);
    }
    assert_eq!(estimate.unique_bytes(), 16);
}

#[test]
fn an_empty_chunk_is_seen_and_adds_nothing() {
    let mut estimate = UniqueBytes::new();
    let empty = Digest { high: 0, low: 0 };
    assert!(estimate.observe(empty, 0));
    assert_eq!(estimate.unique_bytes(), 0);
    assert!(estimate.has_seen(empty));
    estimate.observe(Digest { high: u128::MAX, low: u128::MAX }, u64::MAX);
    assert!(!estimate.observe(empty, 0));
    assert_eq!(estimate.unique_bytes(), u64::MAX);
}
