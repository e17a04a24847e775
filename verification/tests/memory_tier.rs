use creedmoor::LruBytes;

#[test]
fn new_tier_is_empty() {
    let cache: LruBytes<Vec<u8>> = LruBytes::new(10);
    assert!(cache.get("a").is_none());
}

#[test]
fn stored_values_are_found_by_key() {
    let mut cache: LruBytes<u32> = LruBytes::new(10);
    cache.put("a".to_string(), 1, 4);
    cache.put("b".to_string(), 2, 4);
    assert_eq!(cache.get("a"), Some(&1));
    assert_eq!(cache.get("b"), Some(&2));
    assert_eq!(cache.get("c"), None);
}

#[test]
fn oldest_insertions_are_evicted_first() {
    let mut cache: LruBytes<u32> = LruBytes::new(10);
    cache.put("a".to_string(), 1, 4);
    cache.put("b".to_string(), 2, 4);
    // 8 + 4 > 10: the oldest entry leaves, and that is enough.
    cache.put("c".to_string(), 3, 4);
    assert_eq!(cache.get("a"), None);
    assert_eq!(cache.get("b"), Some(&2));
    assert_eq!(cache.get("c"), Some(&3));
    // 8 + 9 > 10: both entries leave.
    cache.put("d".to_string(), 4, 9);
    assert_eq!(cache.get("b"), None);
    assert_eq!(cache.get("c"), None);
    assert_eq!(cache.get("d"), Some(&4));
}

#[test]
fn value_larger_than_the_capacity_is_dropped() {
    let mut cache: LruBytes<u32> = LruBytes::new(10);
    cache.put("a".to_string(), 1, 4);
    cache.put("big".to_string(), 2, 11);
    assert_eq!(cache.get("big"), None);
    assert_eq!(cache.get("a"), Some(&1));
}

#[test]
fn value_of_exactly_the_capacity_is_stored() {
    let mut cache: LruBytes<u32> = LruBytes::new(10);
    cache.put("a".to_string(), 1, 4);
    cache.put("all".to_string(), 2, 10);
    assert_eq!(cache.get("a"), None);
    assert_eq!(cache.get("all"), Some(&2));
}

#[test]
fn reading_does_not_promote() {
    let mut cache: LruBytes<u32> = LruBytes::new(8);
    cache.put("a".to_string(), 1, 4);
    cache.put("b".to_string(), 2, 4);
    assert_eq!(cache.get("a"), Some(&1));
    cache.put("c".to_string(), 3, 4);
    assert_eq!(cache.get("a"), None);
    assert_eq!(cache.get("b"), Some(&2));
}

#[test]
fn storing_under_a_held_key_replaces_the_entry() {
    let mut cache: LruBytes<u32> = LruBytes::new(10);
    cache.put("a".to_string(), 1, 5);
    cache.put("b".to_string(), 2, 3);
    cache.put("a".to_string(), 3, 2);
    assert_eq!(cache.get("a"), Some(&3));
    assert_eq!(cache.get("b"), Some(&2));
    // Five bytes are held, so five more fit without an eviction.
    cache.put("c".to_string(), 4, 5);
    assert_eq!(cache.get("a"), Some(&3));
    assert_eq!(cache.get("b"), Some(&2));
    assert_eq!(cache.get("c"), Some(&4));
    // One more byte evicts the oldest entry, which is now "b".
    cache.put("d".to_string(), 5, 1);
    assert_eq!(cache.get("b"), None);
    assert_eq!(cache.get("a"), Some(&3));
}

#[test]
fn zero_capacity_holds_only_empty_values() {
    let mut cache: LruBytes<u32> = LruBytes::new(0);
    cache.put("a".to_string(), 1, 1);
    assert_eq!(cache.get("a"), None);
    cache.put("b".to_string(), 2, 0);
    assert_eq!(cache.get("b"), Some(&2));
}
