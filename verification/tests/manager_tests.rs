use rollup_state::Key;
use rollup_state::StateError;
use rollup_state::Value;
use rollup_state::block_state_manager::BlockStateManager;
use rollup_state::block_state_manager::TreeQuery;
use rollup_state::db::Database;
use rollup_state::state::FrozenSnapshot;
use rollup_state::state::StateCheckpoint;

fn key(s: &str) -> Key {
    Key::new(s.as_bytes().to_vec())
}

fn val(s: &str) -> Value {
    Value::new(s.as_bytes().to_vec())
}

fn bh(s: &str) -> Vec<u8> {
    s.as_bytes().to_vec()
}

fn db_get(manager: &BlockStateManager, k: &str) -> Option<String> {
    manager
        .db_ref()
        .get(&key(k))
        .map(|v| String::from_utf8_lossy(&v.value).to_string())
}

fn write_values(snapshot_ref: TreeQuery, values: &[(&str, &str)]) -> FrozenSnapshot {
    let checkpoint = StateCheckpoint::new(snapshot_ref);
    let mut working_set = checkpoint.to_revertable();
    for (k, v) in values {
        let k = key(k);
        let v = val(v);
        working_set.set(&k, v);
    }
    let checkpoint = working_set.commit();
    let (_witness, snapshot) = checkpoint.freeze();
    snapshot
}

#[test]
fn new() {
    let db = Database::new();
    let state_manager = BlockStateManager::new(db);
    assert!(state_manager.db_ref().is_empty());
    assert!(state_manager.is_empty());
}

#[test]
fn linear_progression_with_2_blocks_delay() {
    let db = Database::new();
    let mut state_manager = BlockStateManager::new(db);
    assert!(state_manager.is_empty());
    let genesis_block = bh("genesis");
    let block_a = bh("a");
    let block_b = bh("b");
    let block_c = bh("c");

    // Block A
    let block_a_values = vec![("x", "1"), ("y", "2")];
    let snapshot_ref = state_manager.get_new_ref(&genesis_block, &block_a).unwrap();

    assert!(!state_manager.is_empty());
    let snapshot = write_values(snapshot_ref, &block_a_values);
    state_manager.add_snapshot(snapshot).unwrap();
    assert!(!state_manager.is_empty());
    assert!(state_manager.db_ref().is_empty());

    // Block B
    let block_b_values = vec![("x", "3"), ("z", "4")];
    let snapshot_ref = state_manager.get_new_ref(&block_a, &block_b).unwrap();
    let snapshot = write_values(snapshot_ref, &block_b_values);
    let snapshot_id_b = snapshot.get_id();
    state_manager.add_snapshot(snapshot).unwrap();
    let under_b = state_manager
        .get_value_recursively(&snapshot_id_b, &key("x"))
        .expect("the parent layer knows x")
        .expect("x is not deleted");
    assert_eq!(under_b.value, b"1".to_vec());
    assert!(state_manager.db_ref().is_empty());

    // Finalizing A
    state_manager.finalize_snapshot(&block_a).unwrap();
    assert!(!state_manager.db_ref().is_empty());
    assert_eq!(Some("1".to_string()), db_get(&state_manager, "x"));
    assert_eq!(Some("2".to_string()), db_get(&state_manager, "y"));
    assert_eq!(None, db_get(&state_manager, "z"));

    // Block C
    let block_c_values = vec![("x", "5"), ("z", "6")];
    let snapshot_ref = state_manager.get_new_ref(&block_b, &block_c).unwrap();
    let snapshot = write_values(snapshot_ref, &block_c_values);
    state_manager.add_snapshot(snapshot).unwrap();

    // Finalizing B
    state_manager.finalize_snapshot(&block_b).unwrap();
    assert!(!state_manager.is_empty());
    assert!(!state_manager.db_ref().is_empty());
    assert_eq!(Some("3".to_string()), db_get(&state_manager, "x"));
    assert_eq!(Some("2".to_string()), db_get(&state_manager, "y"));
    assert_eq!(Some("4".to_string()), db_get(&state_manager, "z"));

    state_manager.finalize_snapshot(&block_c).unwrap();
    assert_eq!(Some("5".to_string()), db_get(&state_manager, "x"));
    assert_eq!(Some("2".to_string()), db_get(&state_manager, "y"));
    assert_eq!(Some("6".to_string()), db_get(&state_manager, "z"));
    assert!(state_manager.is_empty());
}

#[test]
fn fork_added() {
    let db = Database::new();
    let mut state_manager = BlockStateManager::new(db);
    let parent = bh("p");
    let block_q = bh("q");
    let block_r = bh("r");
    let block_r2 = bh("r2");

    let ref_q = state_manager.get_new_ref(&parent, &block_q).unwrap();
    let snap_q = write_values(ref_q, &[("a", "1")]);
    state_manager.add_snapshot(snap_q).unwrap();

    let ref_r = state_manager.get_new_ref(&parent, &block_r).unwrap();
    let snap_r = write_values(ref_r, &[("a", "2"), ("b", "3")]);
    state_manager.add_snapshot(snap_r).unwrap();

    let ref_r2 = state_manager.get_new_ref(&block_r, &block_r2).unwrap();
    let id_r2 = ref_r2.get_id();
    let snap_r2 = write_values(ref_r2, &[("c", "4")]);
    state_manager.add_snapshot(snap_r2).unwrap();

    // a handle under a child of r2 sees r's and r2's values, not q's
    let ref_probe = state_manager.get_new_ref(&block_r2, &bh("probe")).unwrap();
    let seen = ref_probe
        .get_value_from_cache_layers(&state_manager, &key("a"))
        .expect("r wrote a");
    assert_eq!(seen.value, b"2".to_vec());
    state_manager.finalize_snapshot(&bh("probe")).unwrap();

    // finalizing q prunes r, r2 and everything below them
    state_manager.finalize_snapshot(&block_q).unwrap();
    assert_eq!(Some(b"1".to_vec()), state_manager.db_ref().get(&key("a")).map(|v| v.value));
    assert_eq!(None, state_manager.db_ref().get(&key("b")));
    assert_eq!(None, state_manager.db_ref().get(&key("c")));
    assert!(state_manager.is_empty());

    // the pruned fork's snapshot id is no longer registered
    let late = write_values(TreeQuery::new(id_r2), &[("d", "5")]);
    assert_eq!(Err(StateError::UnknownBlock), state_manager.add_snapshot(late));
}

#[test]
fn adding_alien_snapshot() {
    let db = Database::new();
    let mut state_manager = BlockStateManager::new(db);
    let alien = write_values(TreeQuery::new(42), &[("a", "1")]);
    assert_eq!(Err(StateError::UnknownBlock), state_manager.add_snapshot(alien));
    assert!(state_manager.is_empty());
}

#[test]
fn finalizing_alien_block() {
    let db = Database::new();
    let mut state_manager = BlockStateManager::new(db);
    assert_eq!(
        Err(StateError::UnknownBlock),
        state_manager.finalize_snapshot(&bh("nowhere"))
    );
    assert!(state_manager.is_empty());
}

#[test]
fn finalizing_same_block_hash_twice() {
    let db = Database::new();
    let mut state_manager = BlockStateManager::new(db);
    let snapshot_ref = state_manager.get_new_ref(&bh("genesis"), &bh("a")).unwrap();
    let snapshot = write_values(snapshot_ref, &[("x", "1")]);
    state_manager.add_snapshot(snapshot).unwrap();
    assert_eq!(Ok(()), state_manager.finalize_snapshot(&bh("a")));
    assert_eq!(Err(StateError::UnknownBlock), state_manager.finalize_snapshot(&bh("a")));
    assert_eq!(Some(b"1".to_vec()), state_manager.db_ref().get(&key("x")).map(|v| v.value));
}

#[test]
fn requesting_ref_from_same_block_twice() {
    let db = Database::new();
    let mut state_manager = BlockStateManager::new(db);
    let first = state_manager.get_new_ref(&bh("p"), &bh("c"));
    assert!(first.is_ok());
    assert_eq!(
        Err(StateError::DuplicateChild),
        state_manager.get_new_ref(&bh("p"), &bh("c")).map(|q| q.get_id())
    );
    assert_eq!(
        Err(StateError::DuplicateChild),
        state_manager.get_new_ref(&bh("other"), &bh("c")).map(|q| q.get_id())
    );
}

#[test]
fn registering_layer_twice() {
    let db = Database::new();
    let mut state_manager = BlockStateManager::new(db);
    let snapshot_ref = state_manager.get_new_ref(&bh("g"), &bh("a")).unwrap();
    let id = snapshot_ref.get_id();
    let first = write_values(TreeQuery::new(id), &[("x", "1")]);
    let second = write_values(TreeQuery::new(id), &[("x", "2")]);
    assert_eq!(Ok(()), state_manager.add_snapshot(first));
    assert_eq!(Err(StateError::DuplicateLayer), state_manager.add_snapshot(second));
}

#[test]
fn finalizing_unregistered_block_prunes_but_commits_nothing() {
    let db = Database::new();
    let mut state_manager = BlockStateManager::new(db);
    // the block is opened but its layer is never registered
    let _ref_a = state_manager.get_new_ref(&bh("g"), &bh("a")).unwrap();
    let ref_b = state_manager.get_new_ref(&bh("g"), &bh("b")).unwrap();
    let snap_b = write_values(ref_b, &[("x", "9")]);
    state_manager.add_snapshot(snap_b).unwrap();
    assert_eq!(Ok(()), state_manager.finalize_snapshot(&bh("a")));
    // nothing was committed, and the registered sibling b was pruned
    assert!(state_manager.db_ref().is_empty());
    assert!(state_manager.is_empty());
}
