use typed_store::bigendian::{
    bias_position, bits_to_signed, decode_u32, decode_u64, encode_u32, encode_u64,
    signed_to_bits, unbias_position,
};
use typed_store::codec::{
    decode_data_key_map_item, decode_data_key_set_item, decode_data_key_sorted_list_item,
    decode_data_key_sorted_set_item_with_score, decode_meta_key, encode_data_key_list_item,
    encode_data_key_map_item, encode_data_key_set_item, encode_data_key_sorted_list_item,
    encode_data_key_sorted_set_item_with_score, encode_data_key_sorted_set_item_without_score,
    encode_data_key_sorted_set_prefix, encode_data_key_sorted_set_reverse_prefix,
    encode_data_prefix, encode_data_range_end, encode_meta_key, fill_empty_data, key_tail,
    prefix_data, prefix_meta,
};
use typed_store::lex::{compare_score_bytes, has_prefix};
use typed_store::sorted_list::bump_deleted;
use typed_store::{KeyMeta, KeyType};

#[test]
fn meta_key_is_the_tag_and_the_name() {
    assert_eq!(prefix_meta(), vec![0x6D, 0x6D, 0x3A]);
    assert_eq!(encode_meta_key(b"user"), b"mm:user".to_vec());
    assert_eq!(encode_meta_key(b""), b"mm:".to_vec());
    assert_eq!(decode_meta_key(b"mm:user").unwrap(), "user");
    assert_eq!(decode_meta_key(b"mm:").unwrap(), "");
    assert_eq!(decode_meta_key(b"m").unwrap(), "");
    assert!(decode_meta_key(&[0x6D, 0x6D, 0x3A, 0xFF, 0xFE]).is_err());
}

#[test]
fn data_prefix_is_the_tag_and_the_id() {
    assert_eq!(prefix_data(), vec![0x64, 0x3A]);
    assert_eq!(
        encode_data_prefix(0x0102_0304_0506_0708),
        vec![0x64, 0x3A, 1, 2, 3, 4, 5, 6, 7, 8]
    );
    assert_eq!(encode_data_prefix(0), vec![0x64, 0x3A, 0, 0, 0, 0, 0, 0, 0, 0]);
    assert_eq!(encode_data_range_end(255), vec![0x64, 0x3A, 0, 0, 0, 0, 0, 0, 1, 0]);
    assert_eq!(encode_data_range_end(u64::MAX), vec![0x64, 0x3B]);
    assert_eq!(fill_empty_data(), vec![0]);
}

#[test]
fn item_keys_follow_the_layout() {
    assert_eq!(
        encode_data_key_map_item(1, b"f"),
        vec![0x64, 0x3A, 0, 0, 0, 0, 0, 0, 0, 1, b'f']
    );
    assert_eq!(encode_data_key_set_item(2, b"xy"), [&encode_data_prefix(2)[..], b"xy"].concat());
    assert_eq!(decode_data_key_map_item(&encode_data_key_map_item(1, b"field")).unwrap(), "field");
    assert!(decode_data_key_map_item(&encode_data_key_map_item(1, &[0xC0])).is_err());
    assert_eq!(decode_data_key_set_item(&encode_data_key_set_item(2, b"xy")), b"xy");
    assert_eq!(decode_data_key_set_item(b"short"), b"");
    assert_eq!(key_tail(b"abcdef", 2), b"cdef");
    assert_eq!(key_tail(b"ab", 3), b"");
}

#[test]
fn list_positions_are_biased_so_that_keys_sort_as_positions() {
    assert_eq!(
        encode_data_key_list_item(1, 0),
        [&encode_data_prefix(1)[..], &[0x80, 0, 0, 0, 0, 0, 0, 0]].concat()
    );
    assert_eq!(
        encode_data_key_list_item(1, -1),
        [&encode_data_prefix(1)[..], &[0x7F, 0xFF, 0xFF, 0xFF, 0xFF, 0xFF, 0xFF, 0xFF]].concat()
    );
    assert_eq!(
        encode_data_key_list_item(1, i64::MIN),
        [&encode_data_prefix(1)[..], &[0; 8]].concat()
    );
    assert_eq!(
        encode_data_key_list_item(1, i64::MAX),
        [&encode_data_prefix(1)[..], &[0xFF; 8]].concat()
    );
    let positions = [i64::MIN, -300, -1, 0, 1, 255, 256, i64::MAX];
    for pair in positions.windows(2) {
        let a = encode_data_key_list_item(9, pair[0]);
        let b = encode_data_key_list_item(9, pair[1]);
        assert!(a < b);
        assert_eq!(compare_score_bytes(&a, &b), -1);
    }
    for p in positions {
        assert_eq!(unbias_position(bias_position(p)), p);
        assert_eq!(bits_to_signed(signed_to_bits(p)), p);
    }
    assert_eq!(bias_position(-1), 0x7FFF_FFFF_FFFF_FFFF);
    assert_eq!(signed_to_bits(-1), u64::MAX);
    assert_eq!(signed_to_bits(i64::MIN), 0x8000_0000_0000_0000);
}

#[test]
fn sorted_list_key_is_score_then_sequence() {
    let key = encode_data_key_sorted_list_item(3, &[0xAA, 0xBB], 0x0102);
    assert_eq!(
        key,
        [&encode_data_prefix(3)[..], &[0xAA, 0xBB], &[0, 0, 0, 0, 0, 0, 1, 2]].concat()
    );
    assert_eq!(decode_data_key_sorted_list_item(&key), &[0xAA, 0xBB]);
    assert_eq!(decode_data_key_sorted_list_item(&encode_data_key_sorted_list_item(3, b"", 7)), b"");
    assert_eq!(decode_data_key_sorted_list_item(b"too short"), b"");
}

#[test]
fn sorted_set_keys_come_in_two_families() {
    assert_eq!(encode_data_key_sorted_set_prefix(4), [&encode_data_prefix(4)[..], &[0]].concat());
    assert_eq!(
        encode_data_key_sorted_set_reverse_prefix(4),
        [&encode_data_prefix(4)[..], &[1]].concat()
    );
    let forward = encode_data_key_sorted_set_item_with_score(4, &[9, 8], b"member");
    assert_eq!(forward, [&encode_data_prefix(4)[..], &[0, 9, 8], b"member"].concat());
    assert_eq!(
        encode_data_key_sorted_set_item_without_score(4, b"member"),
        [&encode_data_prefix(4)[..], &[1], b"member"].concat()
    );
    assert_eq!(
        decode_data_key_sorted_set_item_with_score(&forward, 2),
        (vec![9, 8], b"member".to_vec())
    );
    assert_eq!(
        decode_data_key_sorted_set_item_with_score(&forward[..12], 2),
        (vec![9], vec![])
    );
}

#[test]
fn integers_are_written_most_significant_byte_first() {
    assert_eq!(encode_u64(0x0102_0304_0506_0708), vec![1, 2, 3, 4, 5, 6, 7, 8]);
    assert_eq!(encode_u64(u64::MAX), vec![0xFF; 8]);
    assert_eq!(encode_u32(0xDEAD_BEEF), vec![0xDE, 0xAD, 0xBE, 0xEF]);
    assert_eq!(decode_u64(&[9, 1, 2, 3, 4, 5, 6, 7, 8], 1), 0x0102_0304_0506_0708);
    assert_eq!(decode_u32(&[0xDE, 0xAD, 0xBE, 0xEF], 0), 0xDEAD_BEEF);
}

#[test]
fn meta_record_has_the_fixed_layout() {
    let mut meta = KeyMeta::new(0x0102, KeyType::ListKey);
    assert_eq!(meta.decode_list_extra(), (0, 1));
    meta.count = 3;
    meta.encode_list_extra(-2, 2);
    let bytes = meta.get_bytes();
    let mut expected = vec![0, 0, 0, 0, 0, 0, 1, 2, 3, 0, 0, 0, 0, 0, 0, 0, 3];
    expected.extend_from_slice(&(-2i64).to_be_bytes());
    expected.extend_from_slice(&2i64.to_be_bytes());
    assert_eq!(bytes, expected);
    let back = KeyMeta::from_bytes(&bytes).unwrap();
    assert_eq!((back.id, back.key_type, back.count), (0x0102, KeyType::ListKey, 3));
    assert_eq!(back.decode_list_extra(), (-2, 2));
    assert_eq!(back.clone().get_bytes(), bytes);
}

#[test]
fn meta_records_of_each_type_start_empty() {
    let map = KeyMeta::new(1, KeyType::MapKey);
    assert_eq!(map.get_bytes(), vec![0, 0, 0, 0, 0, 0, 0, 1, 1, 0, 0, 0, 0, 0, 0, 0, 0]);
    assert_eq!(KeyMeta::new(1, KeyType::SetKey).get_bytes()[8], 2);
    let sorted_list = KeyMeta::new(1, KeyType::SortedListKey);
    assert_eq!(sorted_list.get_bytes()[8], 4);
    assert_eq!(sorted_list.decode_sorted_list_extra(), (0, 0, 0));
    let mut sorted_set = KeyMeta::new(1, KeyType::SortedSetKey);
    assert_eq!(sorted_set.get_bytes()[8], 5);
    assert_eq!(sorted_set.decode_sorted_set_extra(), (0, 0));
    sorted_set.encode_sorted_set_extra(0x0102_0304, 7);
    assert_eq!(sorted_set.extra, vec![1, 2, 3, 4, 7]);
    let mut list = KeyMeta::new(1, KeyType::SortedListKey);
    list.encode_sorted_list_extra(0x0A0B, 2, 3);
    assert_eq!(list.extra, vec![0, 0, 0, 0, 0, 0, 0x0A, 0x0B, 0, 0, 0, 2, 0, 0, 0, 3]);
    assert_eq!(list.decode_sorted_list_extra(), (0x0A0B, 2, 3));
}

#[test]
fn meta_records_that_cannot_be_read_are_refused() {
    assert!(KeyMeta::from_bytes(&[0; 16]).is_none());
    assert!(KeyMeta::from_bytes(&[0; 17]).is_none());
    let mut bytes = KeyMeta::new(1, KeyType::ListKey).get_bytes();
    bytes.pop();
    assert!(KeyMeta::from_bytes(&bytes).is_none());
    let mut bytes = KeyMeta::new(1, KeyType::MapKey).get_bytes();
    bytes.push(0);
    assert!(KeyMeta::from_bytes(&bytes).is_none());
    assert_eq!(KeyType::from_u8(0), None);
    assert_eq!(KeyType::from_u8(6), None);
    for t in [KeyType::MapKey, KeyType::SetKey, KeyType::ListKey, KeyType::SortedListKey, KeyType::SortedSetKey] {
        assert_eq!(KeyType::from_u8(t.to_u8()), Some(t));
    }
}

#[test]
fn scores_compare_byte_by_byte() {
    assert_eq!(compare_score_bytes(&[1, 2], &[1, 2]), 0);
    assert_eq!(compare_score_bytes(&[1, 2], &[1, 3]), -1);
    assert_eq!(compare_score_bytes(&[2], &[1, 3]), 1);
    assert_eq!(compare_score_bytes(&[1], &[1, 0]), -1);
    assert_eq!(compare_score_bytes(&[1, 0], &[1]), 1);
    assert_eq!(compare_score_bytes(&[], &[]), 0);
    assert_eq!(compare_score_bytes(&[], &[0]), -1);
    assert_eq!(compare_score_bytes(&[0xFF], &[0x7F, 0xFF]), 1);
    assert!(has_prefix(b"ab", b"abc"));
    assert!(has_prefix(b"", b"abc"));
    assert!(has_prefix(b"abc", b"abc"));
    assert!(!has_prefix(b"abcd", b"abc"));
    assert!(!has_prefix(b"ac", b"abc"));
}

#[test]
fn the_count_of_pops_starts_again_at_each_multiple() {
    assert_eq!(bump_deleted(0, 300), (1, false));
    assert_eq!(bump_deleted(298, 300), (299, false));
    assert_eq!(bump_deleted(299, 300), (0, true));
    assert_eq!(bump_deleted(599, 300), (0, true));
    assert_eq!(bump_deleted(0, 1), (0, true));
    assert_eq!(bump_deleted(5, 0), (6, false));
    assert_eq!(bump_deleted(u32::MAX, 0), (0, false));
    assert_eq!(bump_deleted(u32::MAX, 7), (0, false));
    assert_eq!(bump_deleted(u32::MAX, 2), (0, true));
}
