use vstd::prelude::*;
use sov_first_read_last_write_cache::cache::CacheLog;
use crate::cache::LayerLookup;
use crate::cache::cache_log_get;
use crate::cache::cache_reads;
use crate::cache::cache_writes;
use crate::cache::spec_log_lookup;
use crate::types::Key;

verus! {

/// Mathematical contents of one block's layer: its snapshot id, first-read
/// log and last-write log.
pub struct SnapshotModel {
    pub id: u64,
    pub reads: Map<Seq<u8>, Option<Seq<u8>>>,
    pub writes: Map<Seq<u8>, Option<Seq<u8>>>,
}

/// A block's completed cache layer: immutable once produced, tagged with the
/// snapshot id of the handle it was built under.  It answers own-layer
/// lookups and can be drained into a store payload; it never consults
/// parents.
pub struct FrozenSnapshot {
    id: u64,
    local_cache: CacheLog,
}

impl View for FrozenSnapshot {
    type V = SnapshotModel;

    closed spec fn view(&self) -> SnapshotModel {
        SnapshotModel {
            id: self.id,
            reads: cache_reads(self.local_cache),
            writes: cache_writes(self.local_cache),
        }
    }
}

impl FrozenSnapshot {
    /// Look the key up in this layer only: last write first, then first
    /// read, never a parent.
    pub fn get_value(&self, key: &Key) -> (r: LayerLookup)
        ensures
            r@ == spec_log_lookup(self@.reads, self@.writes, key@),
    {
        cache_log_get(&self.local_cache, key)
    }

    pub fn get_id(&self) -> (r: u64)
        ensures
            r == self@.id,
    {
        self.id
    }

    /// Consume the snapshot and yield the cache log that backs it, for
    /// draining its writes into the store.
    pub fn into_cache_log(self) -> (r: CacheLog)
        ensures
            cache_reads(r) == self@.reads,
            cache_writes(r) == self@.writes,
    {
        self.local_cache
    }

    pub(crate) fn from_parts(id: u64, local_cache: CacheLog) -> (r: FrozenSnapshot)
        ensures
            r@.id == id,
            r@.reads == cache_reads(local_cache),
            r@.writes == cache_writes(local_cache),
    {
        FrozenSnapshot { id, local_cache }
    }
}

} // verus!

// === the execution session: checkpoint and working set ===

verus! {

use crate::block_state_manager::BlockStateManager;
use crate::block_state_manager::ManagerModel;
use crate::block_state_manager::TreeQuery;
use crate::block_state_manager::spec_handle_lookup;
use crate::bytemap::ByteMap;
use crate::cache::cache_log_add_read;
use crate::cache::cache_log_add_write;
use crate::cache::new_cache_log;
use crate::types::Value;
use crate::types::clone_bytes;
use crate::types::clone_opt_value;
use crate::types::opt_value_view;
use crate::witness::Witness;

/// Mathematical contents of a checkpoint: the layer being built, the
/// witness accumulated so far, and the snapshot id of the parent handle.
pub struct CheckpointModel {
    pub reads: Map<Seq<u8>, Option<Seq<u8>>>,
    pub writes: Map<Seq<u8>, Option<Seq<u8>>>,
    pub witness: Seq<(Seq<u8>, Option<Seq<u8>>)>,
    pub parent_id: u64,
}

/// Witness faithfulness: the witness holds exactly one entry per key of the
/// first-read log, in some order, each with the value that was recorded --
/// the value the caller was given when the read crossed the layer boundary.
pub open spec fn witness_faithful(
    reads: Map<Seq<u8>, Option<Seq<u8>>>,
    w: Seq<(Seq<u8>, Option<Seq<u8>>)>,
) -> bool {
    &&& forall|i: int, j: int| 0 <= i < j < w.len() ==> w[i].0 != w[j].0
    &&& forall|i: int|
        0 <= i < w.len() ==> reads.contains_key(#[trigger] w[i].0) && reads[w[i].0] == w[i].1
    &&& forall|k: Seq<u8>|
        reads.contains_key(k) ==> exists|i: int| 0 <= i < w.len() && w[i].0 == k
}

pub open spec fn checkpoint_wf(c: CheckpointModel) -> bool {
    witness_faithful(c.reads, c.witness)
}

/// Mathematical contents of a working set: the checkpoint it started from
/// (untouched until commit) and the revertible pending state.
pub struct WorkingSetModel {
    pub base: CheckpointModel,
    pub pending_reads: Map<Seq<u8>, Option<Seq<u8>>>,
    pub pending_writes: Map<Seq<u8>, Option<Seq<u8>>>,
    pub pending_witness: Seq<(Seq<u8>, Option<Seq<u8>>)>,
}

pub open spec fn working_set_wf(w: WorkingSetModel) -> bool {
    &&& checkpoint_wf(w.base)
    &&& witness_faithful(w.pending_reads, w.pending_witness)
    &&& forall|k: Seq<u8>| #[trigger]
        w.pending_reads.contains_key(k) ==> !w.base.reads.contains_key(k)
            && !w.base.writes.contains_key(k)
}

/// Opening a working set over a checkpoint: the pending state starts empty.
pub open spec fn spec_ws_begin(c: CheckpointModel) -> WorkingSetModel {
    WorkingSetModel {
        base: c,
        pending_reads: Map::empty(),
        pending_writes: Map::empty(),
        pending_witness: Seq::empty(),
    }
}

/// What a session read finds before it would cross the layer boundary:
/// pending overlay first, then the pending reads, then the checkpoint layer.
pub open spec fn spec_session_lookup(w: WorkingSetModel, k: Seq<u8>) -> Option<Option<Seq<u8>>> {
    if w.pending_writes.contains_key(k) {
        Some(w.pending_writes[k])
    } else if w.pending_reads.contains_key(k) {
        Some(w.pending_reads[k])
    } else {
        spec_log_lookup(w.base.reads, w.base.writes, k)
    }
}

/// The value a session read returns: the nearest layer of the session, or
/// the parent layers and the store beyond the boundary.
pub open spec fn spec_ws_get_value(w: WorkingSetModel, m: ManagerModel, k: Seq<u8>) -> Option<
    Seq<u8>,
> {
    match spec_session_lookup(w, k) {
        Some(x) => x,
        None => spec_handle_lookup(m, w.base.parent_id, k),
    }
}

/// The state after a session read: only a read that crossed the layer
/// boundary is recorded, into the pending reads and the pending witness.
pub open spec fn spec_ws_get_state(w: WorkingSetModel, m: ManagerModel, k: Seq<u8>) -> WorkingSetModel {
    if spec_session_lookup(w, k) is Some {
        w
    } else {
        let v = spec_handle_lookup(m, w.base.parent_id, k);
        WorkingSetModel {
            pending_reads: w.pending_reads.insert(k, v),
            pending_witness: w.pending_witness.push((k, v)),
            ..w
        }
    }
}

/// The state after a session write: last write wins in the pending overlay;
/// writes are never witnessed.
pub open spec fn spec_ws_set(w: WorkingSetModel, k: Seq<u8>, v: Option<Seq<u8>>) -> WorkingSetModel {
    WorkingSetModel { pending_writes: w.pending_writes.insert(k, v), ..w }
}

/// The checkpoint that committing a working set produces: pending reads are
/// folded into the first-read log, pending writes into the last-write log
/// (a write that restores the recorded first-read value of its key is
/// dropped), and the pending witness is appended.
pub open spec fn spec_ws_commit(w: WorkingSetModel) -> CheckpointModel {
    let reads1 = w.base.reads.union_prefer_right(w.pending_reads);
    CheckpointModel {
        reads: reads1,
        writes: Map::new(
            |k: Seq<u8>|
                if w.pending_writes.contains_key(k) {
                    !(reads1.contains_key(k) && reads1[k] == w.pending_writes[k])
                } else {
                    w.base.writes.contains_key(k)
                },
            |k: Seq<u8>|
                if w.pending_writes.contains_key(k) {
                    w.pending_writes[k]
                } else {
                    w.base.writes[k]
                },
        ),
        witness: w.base.witness + w.pending_witness,
        parent_id: w.base.parent_id,
    }
}

/// The checkpoint that reverting a working set returns: the base, with no
/// trace of the session's reads, writes or witness entries.
pub open spec fn spec_ws_revert(w: WorkingSetModel) -> CheckpointModel {
    w.base
}

/// A checkpoint: owns the layer being built for one block and the handle to
/// its parent.  It is converted into a working set for each transaction and
/// frozen into a `FrozenSnapshot` when the block is done.
pub struct StateCheckpoint {
    cache: CacheLog,
    witness: Witness,
    parent: TreeQuery,
}

impl View for StateCheckpoint {
    type V = CheckpointModel;

    closed spec fn view(&self) -> CheckpointModel {
        CheckpointModel {
            reads: cache_reads(self.cache),
            writes: cache_writes(self.cache),
            witness: self.witness@,
            parent_id: self.parent.id,
        }
    }
}

impl StateCheckpoint {
    pub fn new(parent: TreeQuery) -> (r: StateCheckpoint)
        ensures
            r@.reads == Map::<Seq<u8>, Option<Seq<u8>>>::empty(),
            r@.writes == Map::<Seq<u8>, Option<Seq<u8>>>::empty(),
            r@.witness == Seq::<(Seq<u8>, Option<Seq<u8>>)>::empty(),
            r@.parent_id == parent.id,
            checkpoint_wf(r@),
    {
        let r = StateCheckpoint { cache: new_cache_log(), witness: Witness::default(), parent };
        proof {
            assert(r@.reads =~= Map::<Seq<u8>, Option<Seq<u8>>>::empty());
            assert(r@.writes =~= Map::<Seq<u8>, Option<Seq<u8>>>::empty());
        }
        r
    }

    /// Open a working set over this checkpoint; its writes can be reverted.
    pub fn to_revertable(self) -> (r: WorkingSet)
        ensures
            r@ == spec_ws_begin(self@),
            checkpoint_wf(self@) ==> r.wf(),
    {
        let r = WorkingSet {
            cache: RevertableWriter {
                inner: self.cache,
                reads: ByteMap::new(),
                writes: ByteMap::new(),
            },
            witness: self.witness,
            pending_witness: Witness::default(),
            parent: self.parent,
        };
        proof {
            assert(r@.pending_reads =~= Map::<Seq<u8>, Option<Seq<u8>>>::empty());
            assert(r@.pending_writes =~= Map::<Seq<u8>, Option<Seq<u8>>>::empty());
        }
        r
    }

    /// Consume the checkpoint: the layer becomes the block's frozen
    /// snapshot, tagged with the parent handle's id, and the witness is
    /// handed back alongside.
    pub fn freeze(self) -> (r: (Witness, FrozenSnapshot))
        ensures
            r.0@ == self@.witness,
            r.1@.id == self@.parent_id,
            r.1@.reads == self@.reads,
            r.1@.writes == self@.writes,
            checkpoint_wf(self@) ==> witness_faithful(r.1@.reads, r.0@),
    {
        let snapshot = FrozenSnapshot::from_parts(self.parent.id, self.cache);
        (self.witness, snapshot)
    }
}

struct RevertableWriter {
    inner: CacheLog,
    reads: ByteMap<Option<Value>>,
    writes: ByteMap<Option<Value>>,
}

/// A working set: a checkpoint plus a revertible pending overlay holding
/// one transaction's effects, and the witness entries it produced.
pub struct WorkingSet {
    cache: RevertableWriter,
    witness: Witness,
    pending_witness: Witness,
    parent: TreeQuery,
}

impl View for WorkingSet {
    type V = WorkingSetModel;

    closed spec fn view(&self) -> WorkingSetModel {
        WorkingSetModel {
            base: CheckpointModel {
                reads: cache_reads(self.cache.inner),
                writes: cache_writes(self.cache.inner),
                witness: self.witness@,
                parent_id: self.parent.id,
            },
            pending_reads: self.cache.reads@.map_values(|v: Option<Value>| opt_value_view(v)),
            pending_writes: self.cache.writes@.map_values(|v: Option<Value>| opt_value_view(v)),
            pending_witness: self.pending_witness@,
        }
    }
}

impl WorkingSet {
    pub closed spec fn wf(&self) -> bool {
        &&& self.cache.reads.wf()
        &&& self.cache.writes.wf()
        &&& working_set_wf(self@)
    }

    /// The checkpoint this working set started from is recoverable from the
    /// working set's own model.
    pub proof fn lemma_wf_model(&self)
        requires
            self.wf(),
        ensures
            working_set_wf(self@),
    {
    }

    /// Read a key: pending overlay first, then the pending reads, then the
    /// checkpoint layer; only a read that crosses the layer boundary
    /// consults the parent layers and the store, and only that read is
    /// recorded in the pending reads and the pending witness.
    pub fn get(&mut self, manager: &BlockStateManager, key: &Key) -> (r: Option<Value>)
        requires
            old(self).wf(),
            manager.wf(),
        ensures
            final(self).wf(),
            opt_value_view(r) == spec_ws_get_value(old(self)@, manager@, key@),
            final(self)@ == spec_ws_get_state(old(self)@, manager@, key@),
    {
        match self.cache.writes.get(&key.key) {
            Some(ov) => {
                return clone_opt_value(ov);
            },
            None => {},
        }
        match self.cache.reads.get(&key.key) {
            Some(ov) => {
                return clone_opt_value(ov);
            },
            None => {},
        }
        match cache_log_get(&self.cache.inner, key) {
            LayerLookup::Hit(v) => {
                return Some(v);
            },
            LayerLookup::Tombstone => {
                return None;
            },
            LayerLookup::Miss => {},
        }
        let r = self.parent.get_value_from_cache_layers(manager, key);
        let ghost w0 = self@;
        self.cache.reads.insert(clone_bytes(&key.key), clone_opt_value(&r));
        self.pending_witness.track_operation(key, clone_opt_value(&r));
        proof {
            let v = opt_value_view(r);
            assert(self@.pending_reads =~= w0.pending_reads.insert(key@, v));
            assert(self@.pending_witness =~= w0.pending_witness.push((key@, v)));
            assert(self@ == spec_ws_get_state(old(self)@, manager@, key@));
            // well-formedness: the key was absent everywhere, so the new
            // entry pairs with the new witness entry alone
            assert forall|i: int, j: int|
                0 <= i < j < self@.pending_witness.len() implies self@.pending_witness[i].0
                != self@.pending_witness[j].0 by {
                if j == self@.pending_witness.len() - 1 {
                    assert(w0.pending_reads.contains_key(w0.pending_witness[i].0));
                }
            }
            assert forall|k: Seq<u8>|
                self@.pending_reads.contains_key(k) implies exists|i: int|
                0 <= i < self@.pending_witness.len() && self@.pending_witness[i].0 == k by {
                if k == key@ {
                    assert(self@.pending_witness[self@.pending_witness.len() - 1].0 == k);
                } else {
                    let i = choose|i: int|
                        0 <= i < w0.pending_witness.len() && w0.pending_witness[i].0 == k;
                    assert(self@.pending_witness[i].0 == k);
                }
            }
        }
        r
    }

    /// Bind the key to the value in the pending overlay.
    pub fn set(&mut self, key: &Key, value: Value)
        requires
            old(self).wf(),
        ensures
            final(self).wf(),
            final(self)@ == spec_ws_set(old(self)@, key@, Some(value@)),
    {
        let ghost w0 = self@;
        let ghost v = value@;
        self.cache.writes.insert(clone_bytes(&key.key), Some(value));
        proof {
            assert(self@.pending_writes =~= w0.pending_writes.insert(key@, Some(v)));
        }
    }

    /// Record a deletion of the key in the pending overlay.
    pub fn delete(&mut self, key: &Key)
        requires
            old(self).wf(),
        ensures
            final(self).wf(),
            final(self)@ == spec_ws_set(old(self)@, key@, None),
    {
        let ghost w0 = self@;
        self.cache.writes.insert(clone_bytes(&key.key), None);
        proof {
            assert(self@.pending_writes =~= w0.pending_writes.insert(key@, None));
        }
    }

    /// Fold the pending overlay into the checkpoint's layer and append the
    /// pending witness; the next working set sees these effects as part of
    /// the checkpoint.
    #[verifier::rlimit(50)]
    pub fn commit(self) -> (r: StateCheckpoint)
        requires
            self.wf(),
        ensures
            r@ == spec_ws_commit(self@),
            checkpoint_wf(r@),
    {
        let ghost w = self@;
        let ghost reads1 = w.base.reads.union_prefer_right(w.pending_reads);
        let WorkingSet { cache, witness, pending_witness, parent } = self;
        let RevertableWriter { mut inner, reads, writes } = cache;
        let mut base_witness = witness;

        // fold the pending reads into the first-read log
        let read_entries = reads.into_entries();
        let rn = read_entries.len();
        let mut i: usize = 0;
        proof {
            assert(cache_reads(inner) =~= w.base.reads.union_prefer_right(
                w.pending_reads.restrict(prefix_keys_ov(read_entries@, 0)),
            ));
        }
        while i < rn
            invariant
                0 <= i <= rn,
                rn == read_entries@.len(),
                cache_writes(inner) == w.base.writes,
                working_set_wf(w),
                forall|i1: int, i2: int|
                    0 <= i1 < i2 < rn ==> read_entries@[i1].0@ != read_entries@[i2].0@,
                forall|j: int|
                    0 <= j < rn ==> w.pending_reads.contains_key(#[trigger] read_entries@[j].0@)
                        && w.pending_reads[read_entries@[j].0@] == opt_value_view(
                        read_entries@[j].1,
                    ),
                forall|k: Seq<u8>|
                    w.pending_reads.contains_key(k) ==> exists|j: int|
                        0 <= j < rn && read_entries@[j].0@ == k,
                cache_reads(inner) == w.base.reads.union_prefer_right(
                    w.pending_reads.restrict(prefix_keys_ov(read_entries@, i as int)),
                ),
            decreases rn - i,
        {
            let ghost pk = prefix_keys_ov(read_entries@, i as int);
            let ghost pk1 = prefix_keys_ov(read_entries@, i + 1);
            let entry_key = clone_bytes(&read_entries[i].0);
            let key = Key::new(entry_key);
            let ghost v = opt_value_view(read_entries@[i as int].1);
            proof {
                assert(read_entries@[i as int].0@ == key@);
                assert(w.pending_reads.contains_key(key@) && w.pending_reads[key@] == v);
                assert(!w.base.reads.contains_key(key@) && !w.base.writes.contains_key(key@));
                assert(!pk.contains(key@)) by {
                    if pk.contains(key@) {
                        let j = choose|j: int| 0 <= j < i && read_entries@[j].0@ == key@;
                    }
                }
                assert(pk1 =~= pk.insert(key@)) by {
                    assert forall|x: Seq<u8>| pk1.contains(x) implies pk.insert(key@).contains(
                        x,
                    ) by {
                        let j = choose|j: int| 0 <= j < i + 1 && read_entries@[j].0@ == x;
                        if j < i {
                            assert(pk.contains(x));
                        }
                    }
                    assert forall|x: Seq<u8>| pk.insert(key@).contains(x) implies pk1.contains(
                        x,
                    ) by {
                        if x == key@ {
                            assert(read_entries@[i as int].0@ == x);
                        } else {
                            let j = choose|j: int| 0 <= j < i && read_entries@[j].0@ == x;
                        }
                    }
                }
                assert(!cache_reads(inner).contains_key(key@));
                assert(spec_log_lookup(cache_reads(inner), cache_writes(inner), key@) is None);
            }
            match cache_log_add_read(&mut inner, &key, &read_entries[i].1) {
                Ok(()) => {},
                Err(_) => {
                    proof {
                        assert(false);
                    }
                },
            }
            proof {
                assert(cache_reads(inner) =~= w.base.reads.union_prefer_right(
                    w.pending_reads.restrict(pk1),
                ));
            }
            i += 1;
        }
        proof {
            let pkr = prefix_keys_ov(read_entries@, rn as int);
            assert(w.pending_reads.restrict(pkr) =~= w.pending_reads) by {
                assert forall|k: Seq<u8>|
                    w.pending_reads.contains_key(k) implies pkr.contains(k) by {
                    let j = choose|j: int| 0 <= j < rn && read_entries@[j].0@ == k;
                }
            }
            assert(cache_reads(inner) =~= reads1);
        }

        // fold the pending writes into the last-write log
        let write_entries = writes.into_entries();
        let wn = write_entries.len();
        let mut j: usize = 0;
        proof {
            assert(cache_writes(inner) =~= spec_partial_writes(
                w,
                prefix_keys_ov(write_entries@, 0),
            ));
        }
        while j < wn
            invariant
                0 <= j <= wn,
                wn == write_entries@.len(),
                cache_reads(inner) == reads1,
                working_set_wf(w),
                reads1 == w.base.reads.union_prefer_right(w.pending_reads),
                forall|j2: int|
                    0 <= j2 < wn ==> w.pending_writes.contains_key(
                        #[trigger] write_entries@[j2].0@,
                    ) && w.pending_writes[write_entries@[j2].0@] == opt_value_view(
                        write_entries@[j2].1,
                    ),
                forall|k: Seq<u8>|
                    w.pending_writes.contains_key(k) ==> exists|j2: int|
                        0 <= j2 < wn && write_entries@[j2].0@ == k,
                cache_writes(inner) == spec_partial_writes(
                    w,
                    prefix_keys_ov(write_entries@, j as int),
                ),
            decreases wn - j,
        {
            let ghost pk = prefix_keys_ov(write_entries@, j as int);
            let ghost pk1 = prefix_keys_ov(write_entries@, j + 1);
            let entry_key = clone_bytes(&write_entries[j].0);
            let key = Key::new(entry_key);
            let ghost v = opt_value_view(write_entries@[j as int].1);
            proof {
                assert(write_entries@[j as int].0@ == key@);
                assert(w.pending_writes.contains_key(key@) && w.pending_writes[key@] == v);
                assert(pk1 =~= pk.insert(key@)) by {
                    assert forall|x: Seq<u8>| pk1.contains(x) implies pk.insert(key@).contains(
                        x,
                    ) by {
                        let j2 = choose|j2: int| 0 <= j2 < j + 1 && write_entries@[j2].0@ == x;
                        if j2 < j {
                            assert(pk.contains(x));
                        }
                    }
                    assert forall|x: Seq<u8>| pk.insert(key@).contains(x) implies pk1.contains(
                        x,
                    ) by {
                        if x == key@ {
                            assert(write_entries@[j as int].0@ == x);
                        } else {
                            let j2 = choose|j2: int| 0 <= j2 < j && write_entries@[j2].0@ == x;
                        }
                    }
                }
            }
            cache_log_add_write(&mut inner, &key, &write_entries[j].1);
            proof {
                assert(cache_writes(inner) =~= spec_partial_writes(w, pk1));
            }
            j += 1;
        }

        // append the pending witness to the block's witness
        base_witness.append(pending_witness);

        let r = StateCheckpoint { cache: inner, witness: base_witness, parent };
        proof {
            let t = spec_ws_commit(w);
            let pkw = prefix_keys_ov(write_entries@, wn as int);
            assert(r@.writes =~= t.writes) by {
                assert forall|k: Seq<u8>|
                    w.pending_writes.contains_key(k) implies pkw.contains(k) by {
                    let j2 = choose|j2: int| 0 <= j2 < wn && write_entries@[j2].0@ == k;
                }
                assert forall|k: Seq<u8>| pkw.contains(k) implies w.pending_writes.contains_key(
                    k,
                ) by {
                    let j2 = choose|j2: int| 0 <= j2 < wn && write_entries@[j2].0@ == k;
                }
            }
            assert(r@ == t);
            // the combined witness remains faithful to the combined reads
            let bw = w.base.witness;
            let pw = w.pending_witness;
            assert forall|i1: int, i2: int|
                0 <= i1 < i2 < t.witness.len() implies t.witness[i1].0 != t.witness[i2].0 by {
                if i1 < bw.len() && i2 >= bw.len() {
                    assert(t.witness[i1] == bw[i1]);
                    assert(t.witness[i2] == pw[i2 - bw.len()]);
                    assert(w.base.reads.contains_key(bw[i1].0));
                    assert(w.pending_reads.contains_key(pw[i2 - bw.len()].0));
                } else if i1 >= bw.len() {
                    assert(t.witness[i1] == pw[i1 - bw.len()]);
                    assert(t.witness[i2] == pw[i2 - bw.len()]);
                } else {
                    assert(t.witness[i1] == bw[i1]);
                    assert(t.witness[i2] == bw[i2]);
                }
            }
            assert forall|i1: int| 0 <= i1 < t.witness.len() implies t.reads.contains_key(
                #[trigger] t.witness[i1].0,
            ) && t.reads[t.witness[i1].0] == t.witness[i1].1 by {
                if i1 < bw.len() {
                    assert(t.witness[i1] == bw[i1]);
                    assert(w.base.reads.contains_key(bw[i1].0));
                    assert(!w.pending_reads.contains_key(bw[i1].0));
                } else {
                    assert(t.witness[i1] == pw[i1 - bw.len()]);
                }
            }
            assert forall|k: Seq<u8>| t.reads.contains_key(k) implies exists|i1: int|
                0 <= i1 < t.witness.len() && t.witness[i1].0 == k by {
                if w.pending_reads.contains_key(k) {
                    let i1 = choose|i1: int| 0 <= i1 < pw.len() && pw[i1].0 == k;
                    assert(t.witness[bw.len() + i1].0 == k);
                } else {
                    let i1 = choose|i1: int| 0 <= i1 < bw.len() && bw[i1].0 == k;
                    assert(t.witness[i1].0 == k);
                }
            }
        }
        r
    }

    /// Discard the pending overlay and the witness entries recorded since
    /// the working set began: the checkpoint comes back exactly as it was.
    pub fn revert(self) -> (r: StateCheckpoint)
        ensures
            r@ == spec_ws_revert(self@),
    {
        StateCheckpoint { cache: self.cache.inner, witness: self.witness, parent: self.parent }
    }
}

/// The keys of the first `i` entries of an overlay list.
pub open spec fn prefix_keys_ov(e: Seq<(Vec<u8>, Option<Value>)>, i: int) -> Set<Seq<u8>> {
    Set::new(|k: Seq<u8>| exists|j: int| 0 <= j < i && e[j].0@ == k)
}

/// The last-write log after folding the pending writes for the keys in
/// `done`: a write that restores the key's recorded first-read value drops
/// the key from the log.
pub open spec fn spec_partial_writes(w: WorkingSetModel, done: Set<Seq<u8>>) -> Map<
    Seq<u8>,
    Option<Seq<u8>>,
> {
    let reads1 = w.base.reads.union_prefer_right(w.pending_reads);
    Map::new(
        |k: Seq<u8>|
            if done.contains(k) && w.pending_writes.contains_key(k) {
                !(reads1.contains_key(k) && reads1[k] == w.pending_writes[k])
            } else {
                w.base.writes.contains_key(k)
            },
        |k: Seq<u8>|
            if done.contains(k) && w.pending_writes.contains_key(k) {
                w.pending_writes[k]
            } else {
                w.base.writes[k]
            },
    )
}

} // verus!

// === laws of the execution session ===

verus! {

/// One working-set operation, for quantifying over operation sequences.
pub enum SessionOp {
    Get(Seq<u8>),
    Put(Seq<u8>, Seq<u8>),
    Delete(Seq<u8>),
}

/// The model transition of one working-set operation.
pub open spec fn apply_session_op(
    w: WorkingSetModel,
    m: ManagerModel,
    op: SessionOp,
) -> WorkingSetModel {
    match op {
        SessionOp::Get(k) => spec_ws_get_state(w, m, k),
        SessionOp::Put(k, v) => spec_ws_set(w, k, Some(v)),
        SessionOp::Delete(k) => spec_ws_set(w, k, None),
    }
}

/// The model transition of a sequence of working-set operations, in order.
pub open spec fn apply_session_ops(
    w: WorkingSetModel,
    m: ManagerModel,
    ops: Seq<SessionOp>,
) -> WorkingSetModel
    decreases ops.len(),
{
    if ops.len() == 0 {
        w
    } else {
        apply_session_ops(apply_session_op(w, m, ops[0]), m, ops.subrange(1, ops.len() as int))
    }
}

proof fn lemma_session_ops_preserve_base(w: WorkingSetModel, m: ManagerModel, ops: Seq<SessionOp>)
    ensures
        apply_session_ops(w, m, ops).base == w.base,
    decreases ops.len(),
{
    if ops.len() > 0 {
        assert(apply_session_op(w, m, ops[0]).base == w.base);
        lemma_session_ops_preserve_base(
            apply_session_op(w, m, ops[0]),
            m,
            ops.subrange(1, ops.len() as int),
        );
    }
}

/// Revert idempotence: whatever sequence of operations runs on a working
/// set opened over a checkpoint, reverting yields exactly that checkpoint
/// back -- the same layer contents and the same witness as if the sequence
/// had never run.
pub proof fn lemma_revert_idempotent(c: CheckpointModel, m: ManagerModel, ops: Seq<SessionOp>)
    ensures
        spec_ws_revert(apply_session_ops(spec_ws_begin(c), m, ops)) == c,
{
    lemma_session_ops_preserve_base(spec_ws_begin(c), m, ops);
}

/// Witness faithfulness: in a well-formed checkpoint the witness holds one
/// entry per key read across the layer boundary -- keys pairwise distinct,
/// each entry carrying the value recorded as the key's first read, and
/// every recorded key present.
pub proof fn lemma_witness_faithful(c: CheckpointModel)
    requires
        checkpoint_wf(c),
    ensures
        forall|i: int, j: int| 0 <= i < j < c.witness.len() ==> c.witness[i].0 != c.witness[j].0,
        forall|i: int|
            0 <= i < c.witness.len() ==> c.reads.contains_key(#[trigger] c.witness[i].0)
                && c.reads[c.witness[i].0] == c.witness[i].1,
        forall|k: Seq<u8>|
            c.reads.contains_key(k) ==> exists|i: int|
                0 <= i < c.witness.len() && c.witness[i].0 == k,
{
}

} // verus!

// === the layer read/write interface ===

verus! {



/// Read/write access to one cache layer as the session uses it: lookups
/// that never consult parents, a last-write-wins set, and a delete that
/// records a tombstone.
pub trait StateReaderAndWriter {
    /// The first-read log of the layer.
    spec fn reads_model(&self) -> Map<Seq<u8>, Option<Seq<u8>>>;

    /// The last-write log of the layer.
    spec fn writes_model(&self) -> Map<Seq<u8>, Option<Seq<u8>>>;

    /// Own-layer lookup: a tombstone or an unknown key both answer "not
    /// found".
    fn get(&mut self, key: &Key) -> (r: Option<Value>)
        ensures
            final(self).reads_model() == old(self).reads_model(),
            final(self).writes_model() == old(self).writes_model(),
            opt_value_view(r) == (match spec_log_lookup(
                old(self).reads_model(),
                old(self).writes_model(),
                key@,
            ) {
                Some(Some(v)) => Some(v),
                _ => None::<Seq<u8>>,
            }),
    ;

    /// Record a write of the value; writing back the key's recorded
    /// first-read value drops the write instead.
    fn set(&mut self, key: &Key, value: Value)
        ensures
            final(self).reads_model() == old(self).reads_model(),
            final(self).writes_model() == (if old(self).reads_model().contains_key(key@) && old(
                self,
            ).reads_model()[key@] == Some(value@) {
                old(self).writes_model().remove(key@)
            } else {
                old(self).writes_model().insert(key@, Some(value@))
            }),
    ;

    /// Record a deletion of the key.
    fn delete(&mut self, key: &Key)
        ensures
            final(self).reads_model() == old(self).reads_model(),
            final(self).writes_model() == (if old(self).reads_model().contains_key(key@) && old(
                self,
            ).reads_model()[key@] == None::<Seq<u8>> {
                old(self).writes_model().remove(key@)
            } else {
                old(self).writes_model().insert(key@, None::<Seq<u8>>)
            }),
    ;
}

impl StateReaderAndWriter for CacheLog {
    open spec fn reads_model(&self) -> Map<Seq<u8>, Option<Seq<u8>>> {
        cache_reads(*self)
    }

    open spec fn writes_model(&self) -> Map<Seq<u8>, Option<Seq<u8>>> {
        cache_writes(*self)
    }

    fn get(&mut self, key: &Key) -> (r: Option<Value>) {
        match cache_log_get(&*self, key) {
            LayerLookup::Hit(v) => Some(v),
            LayerLookup::Tombstone => None,
            LayerLookup::Miss => None,
        }
    }

    fn set(&mut self, key: &Key, value: Value) {
        cache_log_add_write(self, key, &Some(value));
    }

    fn delete(&mut self, key: &Key) {
        cache_log_add_write(self, key, &None);
    }
}

impl crate::rollup_interface::Snapshot for FrozenSnapshot {
    type Id = u64;

    type Key = Key;

    type Value = Value;

    fn get_value(&self, key: &Key) -> Option<Value> {
        match FrozenSnapshot::get_value(self, key) {
            LayerLookup::Hit(v) => Some(v),
            LayerLookup::Tombstone => None,
            LayerLookup::Miss => None,
        }
    }

    fn get_id(&self) -> u64 {
        FrozenSnapshot::get_id(self)
    }
}

} // verus!
