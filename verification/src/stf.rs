//! A sample state-transition function and the driver loop that feeds it
//! blocks, layers and finalization signals.

use vstd::prelude::*;
use crate::block_state_manager::BlockStateManager;
use crate::block_state_manager::ManagerModel;
use crate::block_state_manager::TreeQuery;
use crate::block_state_manager::spec_finalize;
use crate::block_state_manager::spec_open_child;
use crate::block_state_manager::spec_register_layer;
use crate::state::SnapshotModel;
use crate::state::CheckpointModel;
use crate::state::FrozenSnapshot;
use crate::state::StateCheckpoint;
use crate::state::checkpoint_wf;
use crate::state::spec_ws_begin;
use crate::state::spec_ws_commit;
use crate::state::spec_ws_get_state;
use crate::state::spec_ws_set;
use crate::state::witness_faithful;
use crate::types::Key;
use crate::types::StateError;
use crate::types::Value;
use crate::types::bytes_eq;
use crate::witness::Witness;

verus! {

/// One opaque transaction handed to the sample state-transition function.
pub enum Operation {
    /// Read the key through the session.
    Get(Key),
    /// Bind the key to the value.
    Put(Key, Value),
}

/// The key of the marker transaction the sample STF refuses.
pub open spec fn skip_key() -> Seq<u8> {
    seq![102u8, 111u8, 111u8]
}

/// The value of the marker transaction the sample STF refuses.
pub open spec fn skip_value() -> Seq<u8> {
    seq![98u8, 97u8, 114u8]
}

fn is_skip_marker(key: &Key, value: &Value) -> (r: bool)
    ensures
        r == (key@ == skip_key() && value@ == skip_value()),
{
    let fk: Vec<u8> = vec![102u8, 111u8, 111u8];
    let fv: Vec<u8> = vec![98u8, 97u8, 114u8];
    proof {
        assert(fk@ =~= skip_key());
        assert(fv@ =~= skip_value());
    }
    bytes_eq(&key.key, &fk) && bytes_eq(&value.value, &fv)
}

/// The checkpoint after one operation: a read runs and commits inside its
/// own working set; a write is staged and committed, except the marker
/// transaction, which is reverted and leaves no trace.
pub open spec fn spec_apply_operation(
    c: CheckpointModel,
    m: ManagerModel,
    op: Operation,
) -> CheckpointModel {
    match op {
        Operation::Get(key) => spec_ws_commit(spec_ws_get_state(spec_ws_begin(c), m, key@)),
        Operation::Put(key, value) => if key@ == skip_key() && value@ == skip_value() {
            c
        } else {
            spec_ws_commit(spec_ws_set(spec_ws_begin(c), key@, Some(value@)))
        },
    }
}

/// The checkpoint after a batch of operations, applied in order.
pub open spec fn spec_apply_slot(
    c: CheckpointModel,
    m: ManagerModel,
    ops: Seq<Operation>,
) -> CheckpointModel
    decreases ops.len(),
{
    if ops.len() == 0 {
        c
    } else {
        spec_apply_slot(spec_apply_operation(c, m, ops[0]), m, ops.subrange(1, ops.len() as int))
    }
}

/// The checkpoint a block starts from: an empty layer and witness under the
/// given snapshot id.
pub open spec fn spec_checkpoint_empty(id: u64) -> CheckpointModel {
    CheckpointModel {
        reads: Map::empty(),
        writes: Map::empty(),
        witness: Seq::empty(),
        parent_id: id,
    }
}

/// The sample state-transition function: it executes `Get` and `Put`
/// transactions against an execution session, one working set each.
pub struct SampleSTF {}

impl SampleSTF {
    pub fn new() -> (r: SampleSTF) {
        SampleSTF {  }
    }

    /// Apply one operation inside its own working set and commit it, except
    /// the marker transaction, which is reverted instead.
    pub fn apply_operation(
        &mut self,
        manager: &BlockStateManager,
        checkpoint: StateCheckpoint,
        operation: Operation,
    ) -> (r: StateCheckpoint)
        requires
            manager.wf(),
            checkpoint_wf(checkpoint@),
        ensures
            r@ == spec_apply_operation(checkpoint@, manager@, operation),
            checkpoint_wf(r@),
    {
        let mut working_set = checkpoint.to_revertable();
        match operation {
            Operation::Get(key) => {
                let _ = working_set.get(manager, &key);
                working_set.commit()
            },
            Operation::Put(key, value) => {
                if is_skip_marker(&key, &value) {
                    working_set.revert()
                } else {
                    working_set.set(&key, value);
                    working_set.commit()
                }
            },
        }
    }

    /// Apply a batch of transactions over a fresh checkpoint anchored at the
    /// given snapshot handle, and freeze the result into the block's witness
    /// and frozen layer.
    pub fn apply_slot(
        &mut self,
        manager: &BlockStateManager,
        base: TreeQuery,
        blobs: Vec<Operation>,
    ) -> (r: (Witness, FrozenSnapshot))
        requires
            manager.wf(),
        ensures
            ({
                let c = spec_apply_slot(spec_checkpoint_empty(base.id), manager@, blobs@);
                &&& r.0@ == c.witness
                &&& r.1@.id == base.id
                &&& r.1@.reads == c.reads
                &&& r.1@.writes == c.writes
                &&& witness_faithful(r.1@.reads, r.0@)
            }),
    {
        let ghost m = manager@;
        let ghost all = blobs@;
        let ghost c0 = spec_checkpoint_empty(base.id);
        let mut checkpoint = StateCheckpoint::new(base);
        proof {
            assert(checkpoint@ == c0);
        }
        let mut ops = blobs;
        while ops.len() > 0
            invariant
                manager.wf(),
                m == manager@,
                checkpoint_wf(checkpoint@),
                checkpoint@.parent_id == base.id,
                spec_apply_slot(checkpoint@, m, ops@) == spec_apply_slot(c0, m, all),
            decreases ops@.len(),
        {
            let ghost ops0 = ops@;
            let op = ops.remove(0);
            proof {
                assert(ops@ =~= ops0.subrange(1, ops0.len() as int));
            }
            checkpoint = self.apply_operation(manager, checkpoint, op);
        }
        proof {
            assert(spec_apply_slot(checkpoint@, m, ops@) == checkpoint@);
        }
        checkpoint.freeze()
    }
}

impl crate::rollup_interface::STF for SampleSTF {
    type Witness = Witness;

    type BlobTransaction = Operation;

    type CheckpointRef = TreeQuery;

    type Snapshot = FrozenSnapshot;

    type Context = BlockStateManager;

    open spec fn context_inv(&self, context: &BlockStateManager) -> bool {
        context.wf()
    }

    fn apply_slot(
        &mut self,
        context: &BlockStateManager,
        base: TreeQuery,
        blobs: Vec<Operation>,
    ) -> (Witness, FrozenSnapshot) {
        SampleSTF::apply_slot(self, context, base, blobs)
    }
}

/// How many child blocks the batches will open in all.
pub open spec fn forks_total(batches: Seq<Vec<(Vec<u8>, Vec<Operation>)>>) -> int
    decreases batches.len(),
{
    if batches.len() == 0 {
        0
    } else {
        batches[0]@.len() + forks_total(batches.subrange(1, batches.len() as int))
    }
}

proof fn lemma_forks_total_nonneg(batches: Seq<Vec<(Vec<u8>, Vec<Operation>)>>)
    ensures
        forks_total(batches) >= 0,
    decreases batches.len(),
{
    if batches.len() > 0 {
        lemma_forks_total_nonneg(batches.subrange(1, batches.len() as int));
    }
}

/// The model transition of executing one fork: open the child under the
/// current block, run the transition function over its batch against the
/// opened tree, and register the resulting layer.  Opening fails exactly
/// when the child hash is not fresh; registration of a freshly opened
/// child cannot fail.
pub open spec fn spec_run_fork(
    m: ManagerModel,
    cur: Seq<u8>,
    child: Seq<u8>,
    ops: Seq<Operation>,
) -> Result<ManagerModel, StateError> {
    if cur == child || m.parents.contains_key(child) || m.children.contains_key(child) {
        Err(StateError::DuplicateChild)
    } else {
        let m1 = spec_open_child(m, cur, child);
        let id = (m.next + 1) as u64;
        let c = spec_apply_slot(spec_checkpoint_empty(id), m1, ops);
        Ok(spec_register_layer(m1, SnapshotModel { id, reads: c.reads, writes: c.writes }))
    }
}

/// The model transition of executing every fork of one arriving block, in
/// order, stopping at the first failure.
pub open spec fn spec_run_forks(
    m: ManagerModel,
    cur: Seq<u8>,
    forks: Seq<(Vec<u8>, Vec<Operation>)>,
) -> Result<ManagerModel, StateError>
    decreases forks.len(),
{
    if forks.len() == 0 {
        Ok(m)
    } else {
        match spec_run_fork(m, cur, forks[0].0@, forks[0].1@) {
            Ok(m2) => spec_run_forks(m2, cur, forks.subrange(1, forks.len() as int)),
            Err(e) => Err(e),
        }
    }
}

/// The model transition of an optional finalization signal.
pub open spec fn spec_finalize_step(m: ManagerModel, fin: Option<Vec<u8>>) -> Result<
    ManagerModel,
    StateError,
> {
    match fin {
        None => Ok(m),
        Some(b) => if m.parents.contains_key(b@) {
            Ok(spec_finalize(m, b@))
        } else {
            Err(StateError::UnknownBlock)
        },
    }
}

/// The model transition of the whole driver loop: per arriving block,
/// execute its forks and then the optional finalization, stopping at the
/// first failure.
pub open spec fn spec_runner(
    m: ManagerModel,
    chain: Seq<Vec<u8>>,
    fins: Seq<Option<Vec<u8>>>,
    batches: Seq<Vec<(Vec<u8>, Vec<Operation>)>>,
) -> Result<ManagerModel, StateError>
    decreases chain.len(),
{
    if chain.len() == 0 {
        Ok(m)
    } else {
        match spec_run_forks(m, chain[0]@, batches[0]@) {
            Ok(m2) => match spec_finalize_step(m2, fins[0]) {
                Ok(m3) => spec_runner(
                    m3,
                    chain.subrange(1, chain.len() as int),
                    fins.subrange(1, fins.len() as int),
                    batches.subrange(1, batches.len() as int),
                ),
                Err(e) => Err(e),
            },
            Err(e) => Err(e),
        }
    }
}

/// Where the driver stands in the middle of one block: the remaining forks
/// of the current block, its finalization signal, and the blocks after it.
spec fn spec_run_rest(
    m: ManagerModel,
    cur: Seq<u8>,
    forks: Seq<(Vec<u8>, Vec<Operation>)>,
    fin: Option<Vec<u8>>,
    chain: Seq<Vec<u8>>,
    fins: Seq<Option<Vec<u8>>>,
    batches: Seq<Vec<(Vec<u8>, Vec<Operation>)>>,
) -> Result<ManagerModel, StateError> {
    match spec_run_forks(m, cur, forks) {
        Ok(m2) => match spec_finalize_step(m2, fin) {
            Ok(m3) => spec_runner(m3, chain, fins, batches),
            Err(e) => Err(e),
        },
        Err(e) => Err(e),
    }
}

/// The driver loop: one entry of `chain` per arriving block, the forks to
/// execute under it, and optionally a block to finalize afterwards.  Each
/// fork opens a child, runs the transition function over its batch, and
/// registers the resulting layer.  The first failing step stops the loop
/// and surfaces its error; the final manager state is exactly the fold of
/// the model transitions over the inputs.
#[verifier::rlimit(50)]
#[verifier::loop_isolation(false)]
pub fn runner(
    stf: SampleSTF,
    manager: &mut BlockStateManager,
    chain: Vec<Vec<u8>>,
    finalized_blocks: Vec<Option<Vec<u8>>>,
    batches: Vec<Vec<(Vec<u8>, Vec<Operation>)>>,
) -> (r: Result<(), StateError>)
    requires
        old(manager).wf(),
        chain@.len() == finalized_blocks@.len(),
        chain@.len() == batches@.len(),
        old(manager)@.next + forks_total(batches@) <= u64::MAX,
    ensures
        final(manager).wf(),
        match r {
            Ok(()) => spec_runner(old(manager)@, chain@, finalized_blocks@, batches@)
                == Ok::<ManagerModel, StateError>(final(manager)@),
            Err(e) => spec_runner(old(manager)@, chain@, finalized_blocks@, batches@) == Err::<
                ManagerModel,
                StateError,
            >(e),
        },
{
    let ghost target = spec_runner(old(manager)@, chain@, finalized_blocks@, batches@);
    let mut stf = stf;
    let mut chain_rem = chain;
    let mut fins_rem = finalized_blocks;
    let mut batches_rem = batches;
    while chain_rem.len() > 0
        invariant
            manager.wf(),
            chain_rem@.len() == fins_rem@.len(),
            chain_rem@.len() == batches_rem@.len(),
            manager@.next + forks_total(batches_rem@) <= u64::MAX,
            spec_runner(manager@, chain_rem@, fins_rem@, batches_rem@) == target,
        decreases chain_rem@.len(),
    {
        let ghost chain0 = chain_rem@;
        let ghost fins0 = fins_rem@;
        let ghost batches0 = batches_rem@;
        let current_block_hash = chain_rem.remove(0);
        let finalized = fins_rem.remove(0);
        let ghost fin_e = finalized;
        let mut forks = batches_rem.remove(0);
        proof {
            assert(chain_rem@ =~= chain0.subrange(1, chain0.len() as int));
            assert(fins_rem@ =~= fins0.subrange(1, fins0.len() as int));
            assert(batches_rem@ =~= batches0.subrange(1, batches0.len() as int));
            lemma_forks_total_nonneg(batches_rem@);
            assert(spec_run_rest(
                manager@,
                current_block_hash@,
                forks@,
                fin_e,
                chain_rem@,
                fins_rem@,
                batches_rem@,
            ) == target);
        }
        while forks.len() > 0
            invariant
                manager.wf(),
                manager@.next + forks@.len() + forks_total(batches_rem@) <= u64::MAX,
                forks_total(batches_rem@) >= 0,
                chain_rem@.len() == fins_rem@.len(),
                chain_rem@.len() == batches_rem@.len(),
                spec_run_rest(
                    manager@,
                    current_block_hash@,
                    forks@,
                    fin_e,
                    chain_rem@,
                    fins_rem@,
                    batches_rem@,
                ) == target,
            decreases forks@.len(),
        {
            let ghost m_before = manager@;
            let ghost forks0 = forks@;
            proof {
                manager.lemma_fork_tree_consistency();
            }
            let (child_block_hash, blob) = forks.remove(0);
            proof {
                assert(forks@ =~= forks0.subrange(1, forks0.len() as int));
                assert(forks0[0].0 == child_block_hash && forks0[0].1 == blob);
            }
            let snapshot_ref = match manager.get_new_ref(&current_block_hash, &child_block_hash) {
                Ok(q) => q,
                Err(e) => {
                    proof {
                        assert(spec_run_fork(
                            m_before,
                            current_block_hash@,
                            child_block_hash@,
                            blob@,
                        ) == Err::<ManagerModel, StateError>(StateError::DuplicateChild));
                        assert(spec_run_forks(m_before, current_block_hash@, forks0) == Err::<
                            ManagerModel,
                            StateError,
                        >(StateError::DuplicateChild));
                        assert(target == Err::<ManagerModel, StateError>(e));
                    }
                    return Err(e);
                },
            };
            proof {
                assert(manager@ == spec_open_child(
                    m_before,
                    current_block_hash@,
                    child_block_hash@,
                ));
                assert(snapshot_ref.id == m_before.next + 1);
            }
            let (_witness, snapshot) = stf.apply_slot(manager, snapshot_ref, blob);
            proof {
                let m1 = manager@;
                let id = (m_before.next + 1) as u64;
                let c = spec_apply_slot(spec_checkpoint_empty(id), m1, blob@);
                assert(snapshot@ == SnapshotModel { id, reads: c.reads, writes: c.writes });
            }
            match manager.add_snapshot(snapshot) {
                Ok(()) => {
                    proof {
                        assert(spec_run_fork(
                            m_before,
                            current_block_hash@,
                            child_block_hash@,
                            blob@,
                        ) == Ok::<ManagerModel, StateError>(manager@));
                        assert(spec_run_forks(m_before, current_block_hash@, forks0)
                            == spec_run_forks(manager@, current_block_hash@, forks@));
                    }
                },
                Err(e) => {
                    // a freshly opened child always has a known id and no
                    // registered layer, so registration cannot fail here
                    proof {
                        let m1 = spec_open_child(
                            m_before,
                            current_block_hash@,
                            child_block_hash@,
                        );
                        assert(m1.id_index.contains_key(snapshot@.id));
                        assert(m1.id_index[snapshot@.id] == child_block_hash@);
                        assert(!m1.layers.contains_key(child_block_hash@)) by {
                            if m_before.layers.contains_key(child_block_hash@) {
                                assert(m_before.parents.contains_key(child_block_hash@));
                            }
                        }
                        assert(false);
                    }
                    return Err(e);
                },
            }
        }
        let ghost m2 = manager@;
        proof {
            assert(spec_run_forks(m2, current_block_hash@, forks@) == Ok::<
                ManagerModel,
                StateError,
            >(m2));
        }
        if let Some(finalized_block_hash) = finalized {
            proof {
                assert(fin_e == Some(finalized_block_hash));
            }
            match manager.finalize_snapshot(&finalized_block_hash) {
                Ok(()) => {
                    proof {
                        assert(spec_finalize_step(m2, fin_e) == Ok::<ManagerModel, StateError>(
                            manager@,
                        ));
                        assert(spec_runner(manager@, chain_rem@, fins_rem@, batches_rem@)
                            == target);
                    }
                },
                Err(e) => {
                    proof {
                        assert(spec_finalize_step(m2, fin_e) == Err::<ManagerModel, StateError>(
                            StateError::UnknownBlock,
                        ));
                        assert(target == Err::<ManagerModel, StateError>(e));
                    }
                    return Err(e);
                },
            }
        } else {
            proof {
                assert(fin_e is None);
                assert(spec_finalize_step(m2, fin_e) == Ok::<ManagerModel, StateError>(manager@));
                assert(spec_runner(manager@, chain_rem@, fins_rem@, batches_rem@) == target);
            }
        }
    }
    Ok(())
}

} // verus!
