use creedmoor::{CreedmoorError, MultiLayerCache, StoredEntry};

fn resident_keys(cache: &MultiLayerCache) -> Vec<Vec<u8>> {
    let index = cache.recency();
    (0..index.len()).map(|i| index.record(i).key.clone()).collect()
}

fn resident_sum(cache: &MultiLayerCache) -> u64 {
    cache.stored_entries().iter().map(|e| e.value.len() as u64).sum()
}

#[test]
fn test_new() {
    let memory_budget = 1024;
    let disk_budget = 1024;
    let cache = MultiLayerCache::new(memory_budget, disk_budget);
    assert_eq!(cache.memory_budget(), 1024);
    assert_eq!(cache.disk_budget(), 1024);
    assert_eq!(cache.disk_usage(), 0);
    assert_eq!(cache.len(), 0);
    assert_eq!(cache.last_token(), 0);
}

#[test]
fn test_put() {
    let memory_budget = 1024;
    let disk_budget = 1024;
    let mut cache = MultiLayerCache::new(memory_budget, disk_budget);
    let key = b"key";
    let value = b"value";
    cache.put(key, value).unwrap();
    assert_eq!(cache.get(key).map(|v| v.as_slice()), Some(&value[..]));
    assert_eq!(cache.disk_usage(), 5);
    assert_eq!(cache.len(), 1);
}

#[test]
fn test_size_limit() {
    let memory_budget = 1024;
    let disk_budget = 1024;
    let mut cache = MultiLayerCache::new(memory_budget, disk_budget);
    for n in 0..1024u16 {
        let key = n.to_be_bytes();
        let value = n.to_be_bytes();
        cache.put(&key, &value).unwrap();
    }
    let keys = resident_keys(&cache);
    let min_key = keys.iter().min().unwrap();
    let max_key = keys.iter().max().unwrap();
    let min_key = u16::from_be_bytes([min_key[0], min_key[1]]);
    let max_key = u16::from_be_bytes([max_key[0], max_key[1]]);
    assert_eq!(min_key, 512);
    assert_eq!(max_key, 1023);
    assert_eq!(cache.len(), 512);
    assert_eq!(cache.disk_usage(), 1024);
    assert!(cache.get(&511u16.to_be_bytes()).is_none());
    assert_eq!(
        cache.get(&512u16.to_be_bytes()).map(|v| v.as_slice()),
        Some(&512u16.to_be_bytes()[..])
    );
}

#[test]
fn oversized_value_is_refused_and_changes_nothing() {
    let mut cache = MultiLayerCache::new(16, 4);
    cache.put(b"a", b"12").unwrap();
    let before = cache.stored_entries();
    let result = cache.put(b"k", b"12345");
    assert!(matches!(result, Err(CreedmoorError::CacheObjectSizeTooLarge(5))));
    assert!(cache.get(b"k").is_none());
    assert_eq!(cache.disk_usage(), 2);
    assert_eq!(cache.last_token(), 1);
    let after = cache.stored_entries();
    assert_eq!(after.len(), before.len());
    assert_eq!(after[0].token, before[0].token);
    assert_eq!(after[0].key, before[0].key);
    assert_eq!(after[0].value, before[0].value);
}

#[test]
fn oversized_value_under_resident_key_keeps_the_old_value() {
    let mut cache = MultiLayerCache::new(16, 4);
    cache.put(b"k", b"12").unwrap();
    let result = cache.put(b"k", b"123456");
    assert_eq!(result.err(), Some(CreedmoorError::CacheObjectSizeTooLarge(6)));
    assert_eq!(cache.get(b"k").map(|v| v.as_slice()), Some(&b"12"[..]));
    assert_eq!(cache.disk_usage(), 2);
}

#[test]
fn value_of_exactly_the_budget_is_stored_and_evicts_everything() {
    let mut cache = MultiLayerCache::new(16, 4);
    cache.put(b"a", b"1").unwrap();
    cache.put(b"b", b"22").unwrap();
    let commit = cache.put(b"c", b"4444").unwrap();
    assert_eq!(commit.evicted.len(), 2);
    assert_eq!(commit.evicted[0].key, b"a".to_vec());
    assert_eq!(commit.evicted[1].key, b"b".to_vec());
    assert_eq!(commit.usage, 4);
    assert_eq!(resident_keys(&cache), vec![b"c".to_vec()]);
    assert_eq!(cache.disk_usage(), 4);
}

#[test]
fn empty_value_is_stored_and_takes_no_bytes() {
    let mut cache = MultiLayerCache::new(16, 0);
    let commit = cache.put(b"a", b"").unwrap();
    assert!(commit.evicted.is_empty());
    assert_eq!(commit.usage, 0);
    assert_eq!(cache.get(b"a").map(|v| v.len()), Some(0));
    assert_eq!(cache.len(), 1);
    let result = cache.put(b"b", b"1");
    assert_eq!(result.err(), Some(CreedmoorError::CacheObjectSizeTooLarge(1)));
}

#[test]
fn usage_stays_within_the_budget_after_every_put() {
    let mut cache = MultiLayerCache::new(64, 10);
    let sizes = [3usize, 7, 1, 10, 4, 4, 4, 0, 9, 2, 11, 5];
    for (n, size) in sizes.iter().enumerate() {
        let key = [n as u8];
        let value = vec![0xabu8; *size];
        let _ = cache.put(&key, &value);
        assert!(cache.disk_usage() <= 10);
        assert_eq!(cache.disk_usage(), resident_sum(&cache));
    }
    // 11 bytes were refused; the last write of five bytes left [9, 2] too large.
    assert_eq!(resident_keys(&cache), vec![vec![9u8], vec![11u8]]);
    assert_eq!(cache.disk_usage(), 7);
}

#[test]
fn usage_is_the_sum_of_the_resident_sizes() {
    let mut cache = MultiLayerCache::new(64, 100);
    cache.put(b"a", &[1u8; 30]).unwrap();
    cache.put(b"b", &[2u8; 40]).unwrap();
    assert_eq!(cache.disk_usage(), 70);
    assert_eq!(resident_sum(&cache), 70);
    // 70 + 50 - 100 = 20 bytes must go: the oldest entry, of 30, is enough.
    let commit = cache.put(b"c", &[3u8; 50]).unwrap();
    assert_eq!(commit.evicted.len(), 1);
    assert_eq!(commit.evicted[0].key, b"a".to_vec());
    assert_eq!(commit.evicted[0].size, 30);
    assert_eq!(commit.usage, 90);
    assert_eq!(cache.disk_usage(), 90);
    assert_eq!(resident_sum(&cache), 90);
}

#[test]
fn eviction_stops_as_soon_as_enough_is_freed() {
    let mut cache = MultiLayerCache::new(64, 10);
    cache.put(b"a", &[0u8; 2]).unwrap();
    cache.put(b"b", &[0u8; 2]).unwrap();
    cache.put(b"c", &[0u8; 2]).unwrap();
    cache.put(b"d", &[0u8; 2]).unwrap();
    assert_eq!(cache.disk_usage(), 8);
    // 8 + 5 - 10 = 3 bytes must go: two entries of two bytes each.
    let commit = cache.put(b"e", &[0u8; 5]).unwrap();
    let gone: Vec<Vec<u8>> = commit.evicted.iter().map(|r| r.key.clone()).collect();
    assert_eq!(gone, vec![b"a".to_vec(), b"b".to_vec()]);
    assert_eq!(resident_keys(&cache), vec![b"c".to_vec(), b"d".to_vec(), b"e".to_vec()]);
    assert_eq!(cache.disk_usage(), 9);
}

#[test]
fn most_recent_entries_stay() {
    // Seven entries of three bytes under a budget that fits exactly three.
    let mut cache = MultiLayerCache::new(64, 10);
    for n in 1..=7u8 {
        cache.put(&[b'k', n], &[n; 3]).unwrap();
    }
    let expected: Vec<Vec<u8>> = (5..=7u8).map(|n| vec![b'k', n]).collect();
    assert_eq!(resident_keys(&cache), expected);
    for n in 1..=4u8 {
        assert!(cache.get(&[b'k', n]).is_none());
    }
    for n in 5..=7u8 {
        assert_eq!(cache.get(&[b'k', n]).map(|v| v.as_slice()), Some(&[n; 3][..]));
    }
    assert_eq!(cache.disk_usage(), 9);
}

#[test]
fn evicted_keys_leave_data_and_index_together() {
    let mut cache = MultiLayerCache::new(64, 6);
    cache.put(b"a", b"111").unwrap();
    cache.put(b"b", b"222").unwrap();
    let commit = cache.put(b"c", b"3333").unwrap();
    assert_eq!(commit.evicted.len(), 2);
    for record in commit.evicted.iter() {
        assert!(cache.get(&record.key).is_none());
        assert!(!resident_keys(&cache).contains(&record.key));
    }
    let keys = resident_keys(&cache);
    assert_eq!(keys.len(), cache.stored_entries().len());
    for key in keys.iter() {
        assert!(cache.get(key).is_some());
    }
    for record in 0..cache.recency().len() {
        let record = cache.recency().record(record);
        assert_eq!(cache.get(&record.key).map(|v| v.len() as u64), Some(record.size));
    }
}

#[test]
fn commit_reports_token_and_usage() {
    let mut cache = MultiLayerCache::new(64, 10);
    let first = cache.put(b"a", b"12").unwrap();
    assert_eq!(first.token, 1);
    assert_eq!(first.usage, 2);
    assert!(first.evicted.is_empty());
    let second = cache.put(b"b", b"345").unwrap();
    assert_eq!(second.token, 2);
    assert_eq!(second.usage, 5);
    assert_eq!(cache.last_token(), 2);
    assert_eq!(cache.recency().record(0).token, 1);
    assert_eq!(cache.recency().record(1).token, 2);
}

#[test]
fn writing_a_resident_key_replaces_its_entry() {
    let mut cache = MultiLayerCache::new(64, 10);
    cache.put(b"a", b"1111").unwrap();
    cache.put(b"b", b"22").unwrap();
    let commit = cache.put(b"a", b"333").unwrap();
    assert_eq!(commit.evicted.len(), 1);
    assert_eq!(commit.evicted[0].key, b"a".to_vec());
    assert_eq!(commit.evicted[0].token, 1);
    assert_eq!(commit.evicted[0].size, 4);
    assert_eq!(commit.token, 3);
    assert_eq!(commit.usage, 5);
    assert_eq!(cache.get(b"a").map(|v| v.as_slice()), Some(&b"333"[..]));
    // The rewritten key is now the newest entry.
    assert_eq!(resident_keys(&cache), vec![b"b".to_vec(), b"a".to_vec()]);
    assert_eq!(cache.disk_usage(), 5);
    assert_eq!(cache.len(), 2);
}

#[test]
fn reading_does_not_refresh_recency() {
    let mut cache = MultiLayerCache::new(64, 4);
    cache.put(b"a", b"11").unwrap();
    cache.put(b"b", b"22").unwrap();
    assert!(cache.get(b"a").is_some());
    cache.put(b"c", b"33").unwrap();
    assert!(cache.get(b"a").is_none());
    assert!(cache.get(b"b").is_some());
}

#[test]
fn reopening_preserves_usage_and_entries() {
    let mut cache = MultiLayerCache::new(64, 10);
    for n in 0..9u8 {
        cache.put(&[n], &vec![n; (n % 4) as usize + 1]).unwrap();
    }
    let stored = cache.stored_entries();
    let reopened =
        MultiLayerCache::restore(64, 10, Some(cache.disk_usage()), &stored).unwrap();
    assert_eq!(reopened.disk_usage(), cache.disk_usage());
    assert_eq!(reopened.len(), cache.len());
    assert_eq!(reopened.last_token(), cache.last_token());
    let again = reopened.stored_entries();
    assert_eq!(again.len(), stored.len());
    for (a, b) in again.iter().zip(stored.iter()) {
        assert_eq!(a.token, b.token);
        assert_eq!(a.key, b.key);
        assert_eq!(a.value, b.value);
        assert_eq!(reopened.get(&a.key), Some(&b.value));
    }
}

#[test]
fn reopening_an_unwritten_store_sets_the_counter_to_zero() {
    let reopened = MultiLayerCache::restore(64, 10, None, &Vec::new()).unwrap();
    assert_eq!(reopened.disk_usage(), 0);
    assert_eq!(reopened.len(), 0);
}

fn entry(token: u128, key: &[u8], value: &[u8]) -> StoredEntry {
    StoredEntry { token, key: key.to_vec(), value: value.to_vec() }
}

#[test]
fn restore_refuses_what_is_no_state_of_the_tier() {
    let good = vec![entry(3, b"a", b"11"), entry(5, b"b", b"222")];
    assert!(MultiLayerCache::restore(64, 10, Some(5), &good).is_some());
    // The counter is not the sum of the sizes.
    assert!(MultiLayerCache::restore(64, 10, Some(4), &good).is_none());
    assert!(MultiLayerCache::restore(64, 10, None, &good).is_none());
    // The values do not fit in the budget.
    assert!(MultiLayerCache::restore(64, 4, Some(5), &good).is_none());
    // Tokens do not grow.
    let unordered = vec![entry(5, b"a", b"11"), entry(5, b"b", b"222")];
    assert!(MultiLayerCache::restore(64, 10, Some(5), &unordered).is_none());
    // A key occurs twice.
    let twice = vec![entry(3, b"a", b"11"), entry(5, b"a", b"222")];
    assert!(MultiLayerCache::restore(64, 10, Some(5), &twice).is_none());
    // A token of zero was never handed out.
    let zero = vec![entry(0, b"a", b"11")];
    assert!(MultiLayerCache::restore(64, 10, Some(2), &zero).is_none());
}

#[test]
fn restore_entry_says_whether_it_took_the_entry() {
    let mut cache = MultiLayerCache::new(64, 5);
    assert!(cache.restore_entry(7, b"a", b"111"));
    assert!(!cache.restore_entry(7, b"b", b"1"));
    assert!(!cache.restore_entry(8, b"a", b"1"));
    assert!(!cache.restore_entry(8, b"b", b"111"));
    assert!(cache.restore_entry(8, b"b", b"11"));
    assert_eq!(cache.disk_usage(), 5);
    assert_eq!(cache.last_token(), 8);
    // The next write carries on from the restored clock.
    let commit = cache.put(b"c", b"1").unwrap();
    assert_eq!(commit.token, 9);
    assert_eq!(commit.evicted.len(), 1);
    assert_eq!(commit.evicted[0].key, b"a".to_vec());
}
