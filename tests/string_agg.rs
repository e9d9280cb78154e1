use string_agg_state::ordered_key::{ArrayImpl, OrderType, OrderedArraysSerializer};
use string_agg_state::store::{Keyspace, MemoryStateStore};
use string_agg_state::string_agg::{ManagedStringAggState, Op, StateError};

fn create_managed_state(row_count: usize) -> ManagedStringAggState {
    let keyspace = Keyspace::executor_root(0x2333);
    let sort_key_indices = vec![0, 1];
    let value_index = 0;
    let orderings = vec![OrderType::Descending, OrderType::Ascending];
    let order_pairs = orderings
        .clone()
        .into_iter()
        .zip(sort_key_indices.clone().into_iter())
        .collect::<Vec<_>>();
    let sort_key_serializer = OrderedArraysSerializer::new(order_pairs);
    ManagedStringAggState::new(
        keyspace,
        row_count,
        sort_key_indices,
        value_index,
        "||".to_string(),
        sort_key_serializer,
    )
}

fn strs(v: &[&str]) -> ArrayImpl {
    ArrayImpl::Utf8(v.iter().map(|s| Some(s.to_string())).collect())
}

fn ints(v: &[i64]) -> ArrayImpl {
    ArrayImpl::Int64(v.iter().map(|x| Some(*x)).collect())
}

fn apply(
    state: &mut ManagedStringAggState,
    store: &MemoryStateStore,
    ops: &[Op],
    s: &[&str],
    i: &[i64],
) {
    state
        .apply_batch(store, ops, None, &[strs(s), ints(i)])
        .unwrap();
}

fn flush_into(state: &mut ManagedStringAggState, store: &mut MemoryStateStore) {
    let mut write_batch = vec![];
    state.flush(&mut write_batch);
    store.ingest_batch(write_batch);
}

#[test]
fn test_managed_string_agg_state() {
    let mut store = MemoryStateStore::new();
    let mut managed_state = create_managed_state(0);
    assert!(!managed_state.is_dirty());

    // Insert.
    apply(
        &mut managed_state,
        &store,
        &[Op::Insert, Op::Insert, Op::Insert],
        &["abc", "def", "ghi"],
        &[0, 1, 2],
    );
    assert!(managed_state.is_dirty());

    // Check output after insertion.
    assert_eq!(
        managed_state.get_output(&store).unwrap(),
        Some("ghi||def||abc".to_string())
    );

    flush_into(&mut managed_state, &mut store);
    assert!(!managed_state.is_dirty());

    // Insert and delete.
    apply(
        &mut managed_state,
        &store,
        &[Op::Insert, Op::Delete, Op::Insert],
        &["def", "abc", "abc"],
        &[3, 0, 4],
    );
    assert!(managed_state.is_dirty());

    // Check output after insertion and deletion.
    assert_eq!(
        managed_state.get_output(&store).unwrap(),
        Some("ghi||def||def||abc".to_string())
    );

    flush_into(&mut managed_state, &mut store);
    assert!(!managed_state.is_dirty());

    // Deletion.
    apply(
        &mut managed_state,
        &store,
        &[Op::Delete, Op::Delete, Op::Delete],
        &["def", "def", "abc"],
        &[3, 1, 4],
    );
    assert!(managed_state.is_dirty());

    // Check output after deletion.
    assert_eq!(
        managed_state.get_output(&store).unwrap(),
        Some("ghi".to_string())
    );

    flush_into(&mut managed_state, &mut store);
    assert!(!managed_state.is_dirty());

    // Check output after flush.
    assert_eq!(
        managed_state.get_output(&store).unwrap(),
        Some("ghi".to_string())
    );

    // Drop the state like machine crashes.
    let row_count = managed_state.get_row_count();
    drop(managed_state);

    // Recover the state by `row_count`.
    let mut managed_state = create_managed_state(row_count);
    assert!(!managed_state.is_dirty());
    // Get the output after recovery
    assert_eq!(
        managed_state.get_output(&store).unwrap(),
        Some("ghi".to_string())
    );

    // Insert and delete the same string.
    apply(
        &mut managed_state,
        &store,
        &[Op::Insert, Op::Delete, Op::Insert],
        &["ghi", "ghi", "ghi"],
        &[5, 2, 6],
    );
    assert!(managed_state.is_dirty());
    assert_eq!(
        managed_state.get_output(&store).unwrap(),
        Some("ghi||ghi".to_string())
    );
    // Since no flushing happened, it is still dirty.
    assert!(managed_state.is_dirty());

    // Delete all the strings.
    apply(
        &mut managed_state,
        &store,
        &[Op::Delete, Op::Delete],
        &["ghi", "ghi"],
        &[5, 6],
    );
    assert!(managed_state.is_dirty());
    assert_eq!(managed_state.get_output(&store).unwrap(), None);
    assert_eq!(managed_state.get_row_count(), 0);

    apply(
        &mut managed_state,
        &store,
        &[Op::Insert, Op::Insert],
        &["code", "miko"],
        &[7, 8],
    );
    flush_into(&mut managed_state, &mut store);
    assert!(!managed_state.is_dirty());
    let row_count = managed_state.get_row_count();

    drop(managed_state);
    let mut managed_state = create_managed_state(row_count);
    // Delete right after recovery.
    apply(
        &mut managed_state,
        &store,
        &[Op::Delete, Op::Insert],
        &["code", "miko"],
        &[7, 9],
    );
    assert_eq!(
        managed_state.get_output(&store).unwrap(),
        Some("miko||miko".to_string())
    );
    flush_into(&mut managed_state, &mut store);
    assert!(!managed_state.is_dirty());

    let row_count = managed_state.get_row_count();

    drop(managed_state);
    let mut managed_state = create_managed_state(row_count);
    assert_eq!(
        managed_state.get_output(&store).unwrap(),
        Some("miko||miko".to_string())
    );

    // Insert and Delete but not flush before crash.
    apply(
        &mut managed_state,
        &store,
        &[Op::Insert, Op::Delete, Op::Insert],
        &["naive", "miko", "simple"],
        &[10, 9, 11],
    );
    assert_eq!(
        managed_state.get_output(&store).unwrap(),
        Some("simple||naive||miko".to_string())
    );

    let row_count = managed_state.get_row_count();

    drop(managed_state);
    let mut managed_state = create_managed_state(row_count);
    // As we didn't flush the changes, the result should be the same as the
    // result before last changes.
    assert_eq!(
        managed_state.get_output(&store).unwrap(),
        Some("miko||miko".to_string())
    );
}

#[test]
fn insert_update_delete_then_recover() {
    let mut store = MemoryStateStore::new();
    let mut state = create_managed_state(0);
    apply(&mut state, &store, &[Op::Insert; 3], &["abc", "def", "ghi"], &[0, 1, 2]);
    assert_eq!(state.get_output(&store).unwrap(), Some("ghi||def||abc".to_string()));
    apply(
        &mut state,
        &store,
        &[Op::Insert, Op::Delete, Op::Insert],
        &["def", "abc", "abc"],
        &[3, 0, 4],
    );
    assert_eq!(state.get_output(&store).unwrap(), Some("ghi||def||def||abc".to_string()));
    apply(&mut state, &store, &[Op::Delete; 3], &["def", "def", "abc"], &[3, 1, 4]);
    assert_eq!(state.get_output(&store).unwrap(), Some("ghi".to_string()));
    flush_into(&mut state, &mut store);
    let mut state = create_managed_state(1);
    assert_eq!(state.get_output(&store).unwrap(), Some("ghi".to_string()));
}

#[test]
fn order_independent_grouping() {
    let rows: [(&str, i64); 4] = [("b", 1), ("a", 2), ("c", 3), ("b", 4)];
    let orders: [[usize; 4]; 3] = [[0, 1, 2, 3], [3, 2, 1, 0], [2, 0, 3, 1]];
    for order in orders.iter() {
        let store = MemoryStateStore::new();
        let mut state = create_managed_state(0);
        // first two rows in one batch, the others in a second
        for part in [&order[..2], &order[2..]] {
            let s: Vec<&str> = part.iter().map(|i| rows[*i].0).collect();
            let i: Vec<i64> = part.iter().map(|i| rows[*i].1).collect();
            apply(&mut state, &store, &vec![Op::Insert; part.len()], &s, &i);
        }
        assert_eq!(state.get_output(&store).unwrap(), Some("c||b||b||a".to_string()));
    }
}

#[test]
fn insert_then_delete_leaves_no_write() {
    let mut store = MemoryStateStore::new();
    let mut state = create_managed_state(0);
    apply(&mut state, &store, &[Op::Insert], &["x"], &[1]);
    flush_into(&mut state, &mut store);
    assert_eq!(state.get_output(&store).unwrap(), Some("x".to_string()));
    apply(&mut state, &store, &[Op::Insert, Op::Delete], &["y", "y"], &[2, 2]);
    assert_eq!(state.get_output(&store).unwrap(), Some("x".to_string()));
    let mut write_batch = vec![];
    state.flush(&mut write_batch);
    // the loaded row is written back unchanged; the cancelled row leaves
    // no write at all
    assert_eq!(write_batch.len(), 1);
    assert!(write_batch[0].1.is_some());
}

#[test]
fn cancellation_in_fresh_state_writes_nothing() {
    let store = MemoryStateStore::new();
    let mut state = create_managed_state(0);
    apply(&mut state, &store, &[Op::Insert, Op::Delete], &["y", "y"], &[2, 2]);
    assert_eq!(state.get_output(&store).unwrap(), None);
    let mut write_batch = vec![];
    state.flush(&mut write_batch);
    assert!(write_batch.is_empty());
}

#[test]
fn empty_state_is_absent() {
    let store = MemoryStateStore::new();
    let mut state = create_managed_state(0);
    assert_eq!(state.get_output(&store).unwrap(), None);
    assert!(!state.is_dirty());
}

#[test]
fn invisible_rows_are_skipped() {
    let store = MemoryStateStore::new();
    let mut state = create_managed_state(0);
    let vis = vec![true, false, true];
    state
        .apply_batch(
            &store,
            &[Op::Insert, Op::Insert, Op::Insert],
            Some(&vis),
            &[strs(&["a", "b", "c"]), ints(&[1, 2, 3])],
        )
        .unwrap();
    assert_eq!(state.get_row_count(), 2);
    assert_eq!(state.get_output(&store).unwrap(), Some("c||a".to_string()));
}

#[test]
fn all_invisible_batch_changes_nothing() {
    let store = MemoryStateStore::new();
    let mut state = create_managed_state(0);
    let vis = vec![false];
    state
        .apply_batch(&store, &[Op::Insert], Some(&vis), &[strs(&["a"]), ints(&[1])])
        .unwrap();
    assert!(!state.is_dirty());
    assert_eq!(state.get_row_count(), 0);
}

#[test]
fn updates_act_as_insert_and_delete() {
    let store = MemoryStateStore::new();
    let mut state = create_managed_state(0);
    apply(&mut state, &store, &[Op::Insert], &["old"], &[1]);
    apply(&mut state, &store, &[Op::UpdateDelete, Op::UpdateInsert], &["old", "new"], &[1, 1]);
    assert_eq!(state.get_row_count(), 1);
    assert_eq!(state.get_output(&store).unwrap(), Some("new".to_string()));
}

#[test]
fn delete_below_zero_is_refused() {
    let store = MemoryStateStore::new();
    let mut state = create_managed_state(0);
    let r = state.apply_batch(&store, &[Op::Delete], None, &[strs(&["a"]), ints(&[1])]);
    assert_eq!(r, Err(StateError::InvariantViolation));
    assert!(!state.is_dirty());
    assert_eq!(state.get_row_count(), 0);
}

#[test]
fn undecodable_value_is_a_decode_error() {
    let mut store = MemoryStateStore::new();
    let keyspace = Keyspace::executor_root(0x2333);
    store.put(keyspace.prefixed_key(&[1, 2]), vec![1, 2, 3]);
    let mut state = create_managed_state(1);
    assert_eq!(state.get_output(&store), Err(StateError::Decode));
    let r = state.apply_batch(&store, &[Op::Insert], None, &[strs(&["a"]), ints(&[1])]);
    assert_eq!(r, Err(StateError::Decode));
    assert_eq!(state.get_row_count(), 1);
}

#[test]
fn null_value_joins_as_empty_string() {
    let store = MemoryStateStore::new();
    let mut state = create_managed_state(0);
    state
        .apply_batch(
            &store,
            &[Op::Insert, Op::Insert],
            None,
            &[ArrayImpl::Utf8(vec![Some("a".to_string()), None]), ints(&[1, 2])],
        )
        .unwrap();
    // the null sorts last in the descending column
    assert_eq!(state.get_output(&store).unwrap(), Some("a||".to_string()));
}

#[test]
fn flush_writes_prefixed_keys_and_deletes() {
    let mut store = MemoryStateStore::new();
    let mut state = create_managed_state(0);
    apply(&mut state, &store, &[Op::Insert], &["a"], &[1]);
    flush_into(&mut state, &mut store);
    let mut state = create_managed_state(1);
    apply(&mut state, &store, &[Op::Delete], &["a"], &[1]);
    let mut write_batch = vec![];
    state.flush(&mut write_batch);
    assert_eq!(write_batch.len(), 1);
    assert_eq!(&write_batch[0].0[..5], &[b'e', 0, 0, 0x23, 0x33]);
    assert_eq!(write_batch[0].1, None);
    assert!(!state.is_dirty());
    // flushing a clean state writes nothing
    let mut again = vec![];
    state.flush(&mut again);
    assert!(again.is_empty());
}

#[test]
fn flushed_values_are_encoded_and_decode_back() {
    let mut store = MemoryStateStore::new();
    let mut state = create_managed_state(0);
    apply(&mut state, &store, &[Op::Insert], &["hello world"], &[1]);
    let mut write_batch = vec![];
    state.flush(&mut write_batch);
    assert_eq!(write_batch.len(), 1);
    let value = write_batch[0].1.clone().unwrap();
    assert_ne!(value, b"hello world".to_vec());
    assert_eq!(value.len(), 19);
    store.ingest_batch(write_batch);
    let mut state = create_managed_state(1);
    assert_eq!(state.get_output(&store).unwrap(), Some("hello world".to_string()));
}

#[test]
fn repeated_output_is_memoized_and_keeps_dirty() {
    let store = MemoryStateStore::new();
    let mut state = create_managed_state(0);
    apply(&mut state, &store, &[Op::Insert, Op::Insert], &["a", "b"], &[1, 2]);
    let first = state.get_output(&store).unwrap();
    assert_eq!(first, Some("b||a".to_string()));
    assert_eq!(state.get_output(&store).unwrap(), first);
    assert!(state.is_dirty());
    assert_eq!(state.get_row_count(), 2);
}

#[test]
fn invisible_batch_after_flush_stays_clean() {
    let mut store = MemoryStateStore::new();
    let mut state = create_managed_state(0);
    apply(&mut state, &store, &[Op::Insert], &["a"], &[1]);
    flush_into(&mut state, &mut store);
    let vis = vec![false, false];
    state
        .apply_batch(&store, &[Op::Insert, Op::Delete], Some(&vis), &[strs(&["b", "a"]), ints(&[2, 1])])
        .unwrap();
    assert!(!state.is_dirty());
    assert_eq!(state.get_row_count(), 1);
    let mut write_batch = vec![];
    state.flush(&mut write_batch);
    assert!(write_batch.is_empty());
    assert_eq!(state.get_output(&store).unwrap(), Some("a".to_string()));
}

#[test]
fn complete_frame_that_is_not_utf8_is_a_decode_error() {
    let mut store = MemoryStateStore::new();
    let keyspace = Keyspace::executor_root(0x2333);
    // one group of eight bytes with one significant byte, 0xff: not UTF-8
    store.put(keyspace.prefixed_key(&[7]), vec![1, 0xff, 0, 0, 0, 0, 0, 0, 0, 1]);
    let mut state = create_managed_state(1);
    assert_eq!(state.get_output(&store), Err(StateError::Decode));
    assert!(!state.is_dirty());
}
