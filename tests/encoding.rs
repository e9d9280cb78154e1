use string_agg_state::byte_order::compare_bytes;
use string_agg_state::memcmp::frame_complete;
use string_agg_state::ordered_key::{serialize_datum, ArrayImpl, OrderType, OrderedArraysSerializer};
use string_agg_state::store::{Keyspace, MemoryStateStore};

#[test]
fn compare_bytes_is_lexicographic() {
    assert!(compare_bytes(&[1, 2], &[1, 3]) < 0);
    assert!(compare_bytes(&[1, 2], &[1, 2, 0]) < 0);
    assert_eq!(compare_bytes(&[4], &[4]), 0);
    assert!(compare_bytes(&[5], &[4, 9]) > 0);
    assert_eq!(compare_bytes(&[], &[]), 0);
}

fn utf8(v: &[&str]) -> ArrayImpl {
    ArrayImpl::Utf8(v.iter().map(|s| Some(s.to_string())).collect())
}

#[test]
fn string_key_encoding_is_framed() {
    let col = utf8(&["hello world", ""]);
    let e = serialize_datum(&col, 0, false);
    assert_eq!(e[0], 1);
    // a flag byte, then two groups of eight bytes, each closed by a marker
    assert_eq!(e.len(), 20);
    assert_eq!(e[1], 1);
    assert_eq!(&e[2..10], b"hello wo");
    assert_eq!(e[10], 9);
    assert_eq!(e[19], 3);
    assert!(frame_complete(&e[1..]));
    assert_eq!(serialize_datum(&col, 1, false), vec![1, 0]);
}

#[test]
fn string_encoding_keeps_order() {
    let col = utf8(&["abc", "abd", "ab"]);
    let a = serialize_datum(&col, 0, false);
    let b = serialize_datum(&col, 1, false);
    let c = serialize_datum(&col, 2, false);
    assert!(compare_bytes(&a, &b) < 0);
    assert!(compare_bytes(&c, &a) < 0);
    let ra = serialize_datum(&col, 0, true);
    let rb = serialize_datum(&col, 1, true);
    assert!(compare_bytes(&ra, &rb) > 0);
}

#[test]
fn i64_encoding_flips_the_sign_bit() {
    let col = ArrayImpl::Int64(vec![Some(0), Some(-1)]);
    assert_eq!(serialize_datum(&col, 0, false), vec![1, 0x80, 0, 0, 0, 0, 0, 0, 0]);
    assert_eq!(
        serialize_datum(&col, 1, false),
        vec![1, 0x7f, 0xff, 0xff, 0xff, 0xff, 0xff, 0xff, 0xff]
    );
    assert_eq!(
        serialize_datum(&col, 0, true),
        vec![254, 0x7f, 0xff, 0xff, 0xff, 0xff, 0xff, 0xff, 0xff]
    );
}

#[test]
fn truncated_frames_are_detected() {
    assert!(!frame_complete(&[]));
    assert!(frame_complete(&[0]));
    assert!(!frame_complete(&[1, 1, 2, 3]));
    assert!(frame_complete(&[1, 0, 0, 0, 0, 0, 0, 0, 0, 3]));
    assert!(!frame_complete(&[1, 0, 0, 0, 0, 0, 0, 0, 0, 9]));
}

#[test]
fn nulls_first_ascending_last_descending() {
    let col = ArrayImpl::Int64(vec![None, Some(i64::MIN)]);
    let null_asc = serialize_datum(&col, 0, false);
    let min_asc = serialize_datum(&col, 1, false);
    assert_eq!(null_asc, vec![0]);
    assert!(compare_bytes(&null_asc, &min_asc) < 0);
    let null_desc = serialize_datum(&col, 0, true);
    let min_desc = serialize_datum(&col, 1, true);
    assert_eq!(null_desc, vec![255]);
    assert!(compare_bytes(&null_desc, &min_desc) > 0);
}

#[test]
fn row_keys_follow_multi_column_order() {
    let ser = OrderedArraysSerializer::new(vec![(OrderType::Descending, 0), (OrderType::Ascending, 1)]);
    let data = [
        ArrayImpl::Utf8(vec![Some("a".to_string()), Some("b".to_string()), Some("b".to_string())]),
        ArrayImpl::Int64(vec![Some(1), Some(2), Some(3)]),
    ];
    let mut keys = vec![];
    ser.serialize(&data, 3, &mut keys);
    assert_eq!(keys.len(), 3);
    // "b" before "a" (descending), then 2 before 3 (ascending)
    assert!(compare_bytes(&keys[1], &keys[2]) < 0);
    assert!(compare_bytes(&keys[2], &keys[0]) < 0);
    assert_eq!(keys[0], ser.serialize_row(&data, 0));
}

#[test]
fn bool_column_encodes_one_byte() {
    let col = ArrayImpl::Bool(vec![Some(false), Some(true)]);
    assert_eq!(serialize_datum(&col, 0, false), vec![1, 0]);
    assert_eq!(serialize_datum(&col, 1, false), vec![1, 1]);
    assert_eq!(serialize_datum(&col, 1, true), vec![254, 254]);
}

#[test]
fn keyspace_scan_strips_prefix_in_order() {
    let mut store = MemoryStateStore::new();
    let ks = Keyspace::executor_root(7);
    let other = Keyspace::executor_root(8);
    store.put(ks.prefixed_key(&[3]), vec![30]);
    store.put(ks.prefixed_key(&[1]), vec![10]);
    store.put(other.prefixed_key(&[2]), vec![20]);
    let all = ks.scan_strip_prefix(&store);
    assert_eq!(all, vec![(vec![1], vec![10]), (vec![3], vec![30])]);
    store.ingest_batch(vec![(ks.prefixed_key(&[1]), None), (ks.prefixed_key(&[4]), Some(vec![40]))]);
    let all = ks.scan_strip_prefix(&store);
    assert_eq!(all, vec![(vec![3], vec![30]), (vec![4], vec![40])]);
}
