use rollup_state::Key;
use rollup_state::Value;
use rollup_state::block_state_manager::BlockStateManager;
use rollup_state::db::Database;
use rollup_state::state::StateCheckpoint;
use rollup_state::stf::Operation;
use rollup_state::stf::SampleSTF;
use rollup_state::stf::runner;

fn key(s: &str) -> Key {
    Key::new(s.as_bytes().to_vec())
}

fn val(s: &str) -> Value {
    Value::new(s.as_bytes().to_vec())
}

fn bh(s: &str) -> Vec<u8> {
    s.as_bytes().to_vec()
}

#[test]
fn runner_linear_chain() {
    let db = Database::new();
    let mut manager = BlockStateManager::new(db);
    let stf = SampleSTF::new();

    let chain = vec![bh("g"), bh("a"), bh("b"), bh("c")];
    let finalized = vec![None, Some(bh("a")), Some(bh("b")), Some(bh("c"))];
    let batch_1 = vec![
        Operation::Get(key("x")),
        Operation::Put(key("x"), val("1")),
    ];
    let batch_2 = vec![
        Operation::Get(key("x")),
        Operation::Put(key("y"), val("2")),
        Operation::Put(key("x"), val("3")),
    ];
    let batch_3 = vec![
        Operation::Put(key("x"), val("4")),
        Operation::Get(key("x")),
    ];
    let batches = vec![
        vec![(bh("a"), batch_1)],
        vec![(bh("b"), batch_2)],
        vec![(bh("c"), batch_3)],
        vec![],
    ];

    assert_eq!(Ok(()), runner(stf, &mut manager, chain, finalized, batches));
    assert_eq!(Some(b"4".to_vec()), manager.db_ref().get(&key("x")).map(|v| v.value));
    assert_eq!(Some(b"2".to_vec()), manager.db_ref().get(&key("y")).map(|v| v.value));
    assert!(manager.is_empty());
}

#[test]
fn skip_marker_transaction_leaves_no_trace() {
    let db = Database::new();
    let mut manager = BlockStateManager::new(db);
    let mut stf = SampleSTF::new();

    let snapshot_ref = manager.get_new_ref(&bh("g"), &bh("a")).unwrap();
    let blobs = vec![
        Operation::Put(key("foo"), val("bar")),
        Operation::Put(key("k"), val("v")),
    ];
    let (witness, snapshot) = stf.apply_slot(&manager, snapshot_ref, blobs);
    assert_eq!(witness.len(), 0);
    manager.add_snapshot(snapshot).unwrap();
    manager.finalize_snapshot(&bh("a")).unwrap();
    assert_eq!(None, manager.db_ref().get(&key("foo")));
    assert_eq!(Some(b"v".to_vec()), manager.db_ref().get(&key("k")).map(|v| v.value));
}

#[test]
fn apply_operation_reads_through_parents() {
    let db = Database::new();
    let mut manager = BlockStateManager::new(db);
    let mut stf = SampleSTF::new();

    // block a writes x = 1
    let ref_a = manager.get_new_ref(&bh("g"), &bh("a")).unwrap();
    let (_w, snap_a) = stf.apply_slot(&manager, ref_a, vec![Operation::Put(key("x"), val("1"))]);
    manager.add_snapshot(snap_a).unwrap();

    // under block b, a get of x crosses the boundary and is witnessed
    let ref_b = manager.get_new_ref(&bh("a"), &bh("b")).unwrap();
    let checkpoint = StateCheckpoint::new(ref_b);
    let checkpoint = stf.apply_operation(&manager, checkpoint, Operation::Get(key("x")));
    let (witness, snapshot) = checkpoint.freeze();
    assert_eq!(witness.len(), 1);
    let (k, v) = witness.entry(0);
    assert_eq!(k.key, b"x".to_vec());
    assert_eq!(v.unwrap().value, b"1".to_vec());
    drop(snapshot);
}

#[test]
fn runner_stops_on_duplicate_child() {
    let db = Database::new();
    let mut manager = BlockStateManager::new(db);
    let stf = SampleSTF::new();

    let chain = vec![bh("g")];
    let finalized: Vec<Option<Vec<u8>>> = vec![None];
    let batches = vec![vec![
        (bh("a"), vec![Operation::Put(key("x"), val("1"))]),
        (bh("a"), vec![Operation::Put(key("x"), val("2"))]),
    ]];

    assert_eq!(
        Err(rollup_state::StateError::DuplicateChild),
        runner(stf, &mut manager, chain, finalized, batches)
    );
}
