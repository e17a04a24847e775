use creedmoor::{gather_keys_for_eviction, CreedmoorError, Op, RecencyIndex};

fn index_of(sizes: &[u64]) -> RecencyIndex {
    let mut index = RecencyIndex::new();
    for (n, size) in sizes.iter().enumerate() {
        index.push(n as u128 + 1, &[n as u8], *size);
    }
    index
}

#[test]
fn nothing_is_gathered_when_nothing_is_required() {
    let index = index_of(&[4, 5, 6]);
    let (total, keys) = gather_keys_for_eviction(&index, 0).unwrap();
    assert_eq!(total, 0);
    assert!(keys.is_empty());
    assert_eq!(index.len(), 3);
}

#[test]
fn oldest_records_are_gathered_until_enough_is_freed() {
    let index = index_of(&[4, 5, 6]);
    let (total, keys) = gather_keys_for_eviction(&index, 4).unwrap();
    assert_eq!((total, keys), (4, vec![vec![0u8]]));
    let (total, keys) = gather_keys_for_eviction(&index, 5).unwrap();
    assert_eq!((total, keys), (9, vec![vec![0u8], vec![1u8]]));
    let (total, keys) = gather_keys_for_eviction(&index, 15).unwrap();
    assert_eq!((total, keys), (15, vec![vec![0u8], vec![1u8], vec![2u8]]));
}

#[test]
fn records_of_no_bytes_are_gathered_on_the_way() {
    let index = index_of(&[0, 0, 3, 0]);
    let (total, keys) = gather_keys_for_eviction(&index, 1).unwrap();
    assert_eq!(total, 3);
    assert_eq!(keys.len(), 3);
}

#[test]
fn exhaustion_is_reported() {
    let index = index_of(&[4, 5, 6]);
    let result = gather_keys_for_eviction(&index, 16);
    assert_eq!(result.err(), Some(CreedmoorError::EvictionShortfall));
    let empty = RecencyIndex::new();
    assert_eq!(
        gather_keys_for_eviction(&empty, 1).err(),
        Some(CreedmoorError::EvictionShortfall)
    );
    assert!(gather_keys_for_eviction(&empty, 0).is_ok());
}

#[test]
fn sizes_beyond_the_counter_range_are_added_up() {
    let index = index_of(&[u64::MAX - 1, u64::MAX]);
    let (total, keys) = gather_keys_for_eviction(&index, u64::MAX).unwrap();
    assert_eq!(total, 2 * (u64::MAX as u128) - 1);
    assert_eq!(keys.len(), 2);
}

#[test]
fn counter_moves_by_the_operand() {
    assert_eq!(Op::Add.apply(10, 5), 15);
    assert_eq!(Op::Sub.apply(10, 5), 5);
    assert_eq!(Op::Sub.apply(10, 10), 0);
    assert_eq!(Op::Add.apply(u64::MAX - 1, 1), u64::MAX);
}
