use rollup_state::Key;
use rollup_state::block_state_manager::TreeQuery;
use rollup_state::rollup_interface::Snapshot;
use rollup_state::state::StateCheckpoint;
use rollup_state::state::StateReaderAndWriter;
use rollup_state::ReadOnlyLock;
use rollup_state::Value;
use rollup_state::db::Database;
use rollup_state::witness::Witness;

fn key(s: &str) -> Key {
    Key::new(s.as_bytes().to_vec())
}

fn val(s: &str) -> Value {
    Value::new(s.as_bytes().to_vec())
}

#[test]
fn database_set_get_delete() {
    let mut db = Database::new();
    assert!(db.is_empty());
    assert_eq!(None, db.get(&key("x")));
    db.set(&key("x"), val("1"));
    assert!(!db.is_empty());
    assert_eq!(Some(b"1".to_vec()), db.get(&key("x")).map(|v| v.value));
    db.set(&key("x"), val("2"));
    assert_eq!(Some(b"2".to_vec()), db.get(&key("x")).map(|v| v.value));
    db.delete(&key("x"));
    assert_eq!(None, db.get(&key("x")));
    assert!(db.is_empty());
}

#[test]
fn database_commit_applies_sets_and_deletes() {
    let mut db = Database::new();
    db.set(&key("x"), val("1"));
    db.set(&key("z"), val("9"));
    let batch = vec![
        (key("y"), Some(val("2"))),
        (key("x"), None),
    ];
    db.commit(batch);
    assert_eq!(None, db.get(&key("x")));
    assert_eq!(Some(b"2".to_vec()), db.get(&key("y")).map(|v| v.value));
    assert_eq!(Some(b"9".to_vec()), db.get(&key("z")).map(|v| v.value));
}

#[test]
fn database_commit_last_write_wins() {
    let mut db = Database::new();
    let batch = vec![
        (key("x"), Some(val("1"))),
        (key("x"), Some(val("2"))),
    ];
    db.commit(batch);
    assert_eq!(Some(b"2".to_vec()), db.get(&key("x")).map(|v| v.value));
}

#[test]
fn witness_tracks_operations_in_order() {
    let mut witness = Witness::default();
    assert_eq!(witness.len(), 0);
    witness.track_operation(&key("a"), Some(val("1")));
    witness.track_operation(&key("b"), None);
    assert_eq!(witness.len(), 2);
    let (k0, v0) = witness.entry(0);
    assert_eq!(k0.key, b"a".to_vec());
    assert_eq!(v0.unwrap().value, b"1".to_vec());
    let (k1, v1) = witness.entry(1);
    assert_eq!(k1.key, b"b".to_vec());
    assert!(v1.is_none());
}

#[test]
fn witness_append_keeps_both_sides() {
    let mut left = Witness::default();
    left.track_operation(&key("a"), Some(val("1")));
    let mut right = Witness::default();
    right.track_operation(&key("b"), Some(val("2")));
    left.append(right);
    assert_eq!(left.len(), 2);
    let (k1, _) = witness_entry(&left, 1);
    assert_eq!(k1.key, b"b".to_vec());
}

fn witness_entry(w: &Witness, i: usize) -> (Key, Option<Value>) {
    w.entry(i)
}

#[test]
fn key_and_value_clone_bytes() {
    let k = key("hello");
    let k2 = k.clone();
    assert_eq!(k.key, k2.key);
    let v = val("world");
    let v2 = v.clone();
    assert_eq!(v.value, v2.value);
}

#[test]
fn read_only_lock_hands_out_shared_access() {
    let lock = ReadOnlyLock::new(7u64);
    assert_eq!(*lock.read(), 7u64);
}

#[test]
fn cache_log_reader_and_writer() {
    let mut log = sov_first_read_last_write_cache::cache::CacheLog::default();
    assert_eq!(None, log.get(&key("x")));
    log.set(&key("x"), val("1"));
    assert_eq!(Some(b"1".to_vec()), log.get(&key("x")).map(|v| v.value));
    log.set(&key("x"), val("2"));
    assert_eq!(Some(b"2".to_vec()), log.get(&key("x")).map(|v| v.value));
    log.delete(&key("x"));
    assert_eq!(None, log.get(&key("x")));
}

#[test]
fn frozen_snapshot_interface_lookup() {
    let checkpoint = StateCheckpoint::new(TreeQuery::new(7));
    let mut working_set = checkpoint.to_revertable();
    working_set.set(&key("x"), val("1"));
    let (_witness, snapshot) = working_set.commit().freeze();

    assert_eq!(7, Snapshot::get_id(&snapshot));
    assert_eq!(
        Some(b"1".to_vec()),
        Snapshot::get_value(&snapshot, &key("x")).map(|v| v.value)
    );
    assert_eq!(None, Snapshot::get_value(&snapshot, &key("y")));
}
