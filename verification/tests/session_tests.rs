use rollup_state::Key;
use rollup_state::Value;
use rollup_state::block_state_manager::BlockStateManager;
use rollup_state::cache::LayerLookup;
use rollup_state::db::Database;
use rollup_state::state::StateCheckpoint;

fn key(s: &str) -> Key {
    Key::new(s.as_bytes().to_vec())
}

fn val(s: &str) -> Value {
    Value::new(s.as_bytes().to_vec())
}

fn bh(s: &str) -> Vec<u8> {
    s.as_bytes().to_vec()
}

/// Build a manager holding one registered block `a` (child of `genesis`)
/// whose layer wrote `x = 1`.
fn manager_with_block_a() -> BlockStateManager {
    let db = Database::new();
    let mut manager = BlockStateManager::new(db);
    let snapshot_ref = manager.get_new_ref(&bh("genesis"), &bh("a")).unwrap();
    let checkpoint = StateCheckpoint::new(snapshot_ref);
    let mut working_set = checkpoint.to_revertable();
    working_set.set(&key("x"), val("1"));
    let checkpoint = working_set.commit();
    let (_witness, snapshot) = checkpoint.freeze();
    manager.add_snapshot(snapshot).unwrap();
    manager
}

#[test]
fn revert_inside_block() {
    let mut manager = manager_with_block_a();
    let snapshot_ref = manager.get_new_ref(&bh("a"), &bh("b")).unwrap();
    let checkpoint = StateCheckpoint::new(snapshot_ref);

    // a set followed by a get stays inside the pending overlay: no witness
    let mut working_set = checkpoint.to_revertable();
    working_set.set(&key("x"), val("9"));
    let seen = working_set.get(&manager, &key("x")).unwrap();
    assert_eq!(seen.value, b"9".to_vec());
    let checkpoint = working_set.revert();

    // after the revert, a fresh working set reads the parent's value and
    // witnesses exactly that one read
    let mut working_set = working_set_over(checkpoint);
    let seen = working_set.get(&manager, &key("x")).unwrap();
    assert_eq!(seen.value, b"1".to_vec());
    let checkpoint = working_set.commit();
    let (witness, _snapshot) = checkpoint.freeze();
    assert_eq!(witness.len(), 1);
    let (k, v) = witness.entry(0);
    assert_eq!(k.key, b"x".to_vec());
    assert_eq!(v.unwrap().value, b"1".to_vec());
}

fn working_set_over(checkpoint: StateCheckpoint) -> rollup_state::state::WorkingSet {
    checkpoint.to_revertable()
}

#[test]
fn revert_discards_reads_writes_and_deletes() {
    let mut manager = manager_with_block_a();
    let snapshot_ref = manager.get_new_ref(&bh("a"), &bh("b")).unwrap();
    let checkpoint = StateCheckpoint::new(snapshot_ref);

    let mut working_set = checkpoint.to_revertable();
    let _ = working_set.get(&manager, &key("x"));
    working_set.set(&key("y"), val("7"));
    working_set.delete(&key("x"));
    let checkpoint = working_set.revert();

    // the reverted checkpoint freezes into an empty layer and witness
    let (witness, snapshot) = checkpoint.freeze();
    assert_eq!(witness.len(), 0);
    assert!(matches!(snapshot.get_value(&key("x")), LayerLookup::Miss));
    assert!(matches!(snapshot.get_value(&key("y")), LayerLookup::Miss));
}

#[test]
fn delete_visibility() {
    let db = Database::new();
    let mut manager = BlockStateManager::new(db);

    // block a writes k = 1 and is finalized into the store
    let ref_a = manager.get_new_ref(&bh("genesis"), &bh("a")).unwrap();
    let checkpoint = StateCheckpoint::new(ref_a);
    let mut working_set = checkpoint.to_revertable();
    working_set.set(&key("k"), val("1"));
    let (_w, snap_a) = working_set.commit().freeze();
    manager.add_snapshot(snap_a).unwrap();
    manager.finalize_snapshot(&bh("a")).unwrap();
    assert_eq!(Some(b"1".to_vec()), manager.db_ref().get(&key("k")).map(|v| v.value));

    // block b deletes k and is registered but not finalized
    let ref_b = manager.get_new_ref(&bh("a"), &bh("b")).unwrap();
    let checkpoint = StateCheckpoint::new(ref_b);
    let mut working_set = checkpoint.to_revertable();
    working_set.delete(&key("k"));
    let (_w, snap_b) = working_set.commit().freeze();
    manager.add_snapshot(snap_b).unwrap();

    // a read under a child of b sees the tombstone, not the store value
    let ref_c = manager.get_new_ref(&bh("b"), &bh("c")).unwrap();
    assert_eq!(None, ref_c.get_value_from_cache_layers(&manager, &key("k")));

    // a read under a fresh fork next to b falls through to the store
    let ref_d = manager.get_new_ref(&bh("a"), &bh("d")).unwrap();
    let seen = ref_d.get_value_from_cache_layers(&manager, &key("k")).unwrap();
    assert_eq!(seen.value, b"1".to_vec());
}

#[test]
fn repeated_reads_witness_once() {
    let mut manager = manager_with_block_a();
    let snapshot_ref = manager.get_new_ref(&bh("a"), &bh("b")).unwrap();
    let checkpoint = StateCheckpoint::new(snapshot_ref);

    let mut working_set = checkpoint.to_revertable();
    let first = working_set.get(&manager, &key("x")).unwrap();
    let second = working_set.get(&manager, &key("x")).unwrap();
    assert_eq!(first.value, b"1".to_vec());
    assert_eq!(second.value, b"1".to_vec());
    // a read of a key nobody wrote is witnessed as observed-absent
    assert_eq!(None, working_set.get(&manager, &key("nope")));
    let checkpoint = working_set.commit();
    let (witness, snapshot) = checkpoint.freeze();
    assert_eq!(witness.len(), 2);
    let (k0, v0) = witness.entry(0);
    assert_eq!(k0.key, b"x".to_vec());
    assert_eq!(v0.unwrap().value, b"1".to_vec());
    let (k1, v1) = witness.entry(1);
    assert_eq!(k1.key, b"nope".to_vec());
    assert!(v1.is_none());
    // the cross-boundary reads were recorded into the layer's read log
    assert!(matches!(snapshot.get_value(&key("x")), LayerLookup::Hit(_)));
    assert!(matches!(snapshot.get_value(&key("nope")), LayerLookup::Tombstone));
}

#[test]
fn committed_writes_reach_the_next_working_set() {
    let mut manager = manager_with_block_a();
    let snapshot_ref = manager.get_new_ref(&bh("a"), &bh("b")).unwrap();
    let checkpoint = StateCheckpoint::new(snapshot_ref);

    let mut working_set = checkpoint.to_revertable();
    working_set.set(&key("q"), val("5"));
    let checkpoint = working_set.commit();

    let mut working_set = checkpoint.to_revertable();
    let seen = working_set.get(&manager, &key("q")).unwrap();
    assert_eq!(seen.value, b"5".to_vec());
    let (witness, snapshot) = working_set.commit().freeze();
    // the read was served by the layer itself: nothing crossed the boundary
    assert_eq!(witness.len(), 0);
    match snapshot.get_value(&key("q")) {
        LayerLookup::Hit(v) => assert_eq!(v.value, b"5".to_vec()),
        _ => panic!("the committed write must be in the layer"),
    }
}
