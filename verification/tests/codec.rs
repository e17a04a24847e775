use creedmoor::codec::{
    decode_record, decode_token, encode_record, encode_token, ivec_to_u64, u64_to_ivec,
};

#[test]
fn usage_counter_is_eight_big_endian_bytes() {
    assert_eq!(u64_to_ivec(0), vec![0u8; 8]);
    assert_eq!(u64_to_ivec(258), vec![0, 0, 0, 0, 0, 0, 1, 2]);
    assert_eq!(u64_to_ivec(u64::MAX), vec![0xffu8; 8]);
    assert_eq!(u64_to_ivec(0x0102030405060708), vec![1, 2, 3, 4, 5, 6, 7, 8]);
    assert_eq!(u64_to_ivec(1024), 1024u64.to_be_bytes().to_vec());
}

#[test]
fn usage_counter_is_read_from_the_first_eight_bytes() {
    assert_eq!(ivec_to_u64(&[0, 0, 0, 0, 0, 0, 1, 2]), 258);
    assert_eq!(ivec_to_u64(&[1, 2, 3, 4, 5, 6, 7, 8]), 0x0102030405060708);
    assert_eq!(ivec_to_u64(&[0xff; 8]), u64::MAX);
    assert_eq!(ivec_to_u64(&[0, 0, 0, 0, 0, 0, 0, 7, 9, 9]), 7);
    for value in [0u64, 1, 255, 256, 65535, 1 << 40, u64::MAX - 1] {
        assert_eq!(ivec_to_u64(&u64_to_ivec(value)), value);
        assert_eq!(ivec_to_u64(&value.to_be_bytes()), value);
    }
}

#[test]
fn record_is_the_key_followed_by_the_size() {
    assert_eq!(encode_record(b"ab", 3), vec![b'a', b'b', 0, 0, 0, 0, 0, 0, 0, 3]);
    assert_eq!(encode_record(b"", 256), vec![0, 0, 0, 0, 0, 0, 1, 0]);
    assert_eq!(decode_record(&[b'a', b'b', 0, 0, 0, 0, 0, 0, 0, 3]), (b"ab".to_vec(), 3));
    assert_eq!(decode_record(&[0, 0, 0, 0, 0, 0, 1, 0]), (Vec::new(), 256));
    let stored = encode_record(b"some key", u64::MAX);
    assert_eq!(decode_record(&stored), (b"some key".to_vec(), u64::MAX));
}

#[test]
fn tokens_are_sixteen_big_endian_bytes() {
    let mut expected = vec![0u8; 16];
    expected[15] = 1;
    assert_eq!(encode_token(1), expected);
    assert_eq!(encode_token(u128::MAX), vec![0xffu8; 16]);
    assert_eq!(encode_token(1 << 64), (1u128 << 64).to_be_bytes().to_vec());
    for token in [0u128, 1, 255, 256, 1 << 64, u128::MAX] {
        assert_eq!(decode_token(&encode_token(token)), token);
    }
}

#[test]
fn stored_tokens_sort_as_the_tokens_do() {
    let tokens = [0u128, 1, 2, 255, 256, 257, 65536, 1 << 64, (1 << 64) + 1, u128::MAX];
    for pair in tokens.windows(2) {
        assert!(encode_token(pair[0]) < encode_token(pair[1]));
    }
}
