use creedmoor::bytes::{bytes_eq, bytes_to_vec};
use creedmoor::{ObjectData, RecencyIndex};

#[test]
fn byte_strings_compare_by_content() {
    assert!(bytes_eq(b"", b""));
    assert!(bytes_eq(b"abc", b"abc"));
    assert!(!bytes_eq(b"abc", b"abd"));
    assert!(!bytes_eq(b"abc", b"ab"));
    assert!(!bytes_eq(b"", b"a"));
    assert_eq!(bytes_to_vec(b"xyz"), b"xyz".to_vec());
}

#[test]
fn object_data_holds_one_value_per_key() {
    let mut data = ObjectData::new();
    assert_eq!(data.len(), 0);
    assert_eq!(data.insert(b"a", b"1"), None);
    assert_eq!(data.insert(b"b", b"2"), None);
    assert_eq!(data.insert(b"a", b"3"), Some(b"1".to_vec()));
    assert_eq!(data.len(), 2);
    assert_eq!(data.get(b"a"), Some(&b"3".to_vec()));
    assert_eq!(data.get(b"b"), Some(&b"2".to_vec()));
    assert_eq!(data.get(b"c"), None);
    assert_eq!(data.remove(b"a"), Some(b"3".to_vec()));
    assert_eq!(data.remove(b"a"), None);
    assert_eq!(data.get(b"a"), None);
    assert_eq!(data.len(), 1);
}

#[test]
fn recency_index_pops_the_smallest_token() {
    let mut index = RecencyIndex::new();
    index.push(10, b"a", 1);
    index.push(20, b"b", 2);
    index.push(30, b"c", 3);
    assert_eq!(index.len(), 3);
    assert_eq!(index.record(1).token, 20);
    let oldest = index.pop_min().unwrap();
    assert_eq!((oldest.token, oldest.key, oldest.size), (10, b"a".to_vec(), 1));
    let next = index.pop_min().unwrap();
    assert_eq!(next.token, 20);
    assert_eq!(index.len(), 1);
    assert_eq!(index.pop_min().unwrap().token, 30);
    assert!(index.pop_min().is_none());
}

#[test]
fn recency_index_removes_the_record_of_a_key() {
    let mut index = RecencyIndex::new();
    index.push(1, b"a", 1);
    index.push(2, b"b", 2);
    index.push(3, b"c", 3);
    let removed = index.remove_key(b"b").unwrap();
    assert_eq!((removed.token, removed.size), (2, 2));
    assert!(index.remove_key(b"b").is_none());
    assert_eq!(index.len(), 2);
    assert_eq!(index.record(0).key, b"a".to_vec());
    assert_eq!(index.record(1).key, b"c".to_vec());
}
