//! The block-state manager: a tree of frozen cache layers keyed by block
//! hash, stacked over the persistent store.  It opens child blocks, registers
//! completed layers, walks parent chains for reads, and finalizes blocks into
//! the store while pruning the orphaned sibling subtrees.

use vstd::prelude::*;
use crate::bytemap::ByteMap;
use crate::cache::LayerLookup;
use crate::cache::spec_log_lookup;
use crate::db::Database;
use crate::idmap::IdMap;
use crate::state::FrozenSnapshot;
use crate::state::SnapshotModel;
use crate::types::Key;
use crate::types::StateError;
use crate::types::Value;
use crate::types::clone_bytes;
use crate::types::opt_value_view;

verus! {

/// Identifier of one snapshot handle; assigned in increasing order, so a
/// child block always carries a larger id than its parent.
pub type SnapshotId = u64;

/// The views of a list of block hashes.
pub open spec fn hashes_view(v: Vec<Vec<u8>>) -> Seq<Seq<u8>> {
    Seq::new(v@.len(), |i: int| v@[i]@)
}

/// What a frozen layer offers the manager: own-layer lookups and its id.
pub trait Snapshot {
    /// The mathematical contents of the layer.
    spec fn model(&self) -> SnapshotModel;

    /// Own-layer lookup; never consults parents.
    fn get_value(&self, key: &Key) -> (r: LayerLookup)
        ensures
            r@ == spec_log_lookup(self.model().reads, self.model().writes, key@),
    ;

    fn get_id(&self) -> (r: SnapshotId)
        ensures
            r == self.model().id,
    ;
}

impl Snapshot for FrozenSnapshot {
    open spec fn model(&self) -> SnapshotModel {
        self@
    }

    fn get_value(&self, key: &Key) -> (r: LayerLookup) {
        FrozenSnapshot::get_value(self, key)
    }

    fn get_id(&self) -> (r: SnapshotId) {
        FrozenSnapshot::get_id(self)
    }
}

/// The abstract state of the manager: the store contents, the fork tree
/// (parents, ordered children, registered layers) and the snapshot-id
/// bookkeeping.
pub struct ManagerModel {
    /// Contents of the persistent store.
    pub store: Map<Seq<u8>, Seq<u8>>,
    /// Registered frozen layer per block hash.
    pub layers: Map<Seq<u8>, SnapshotModel>,
    /// Ordered children per parent block hash.
    pub children: Map<Seq<u8>, Seq<Seq<u8>>>,
    /// Parent per child block hash.
    pub parents: Map<Seq<u8>, Seq<u8>>,
    /// Snapshot id per open block hash.
    pub ids: Map<Seq<u8>, SnapshotId>,
    /// Block hash per snapshot id (inverse of `ids`).
    pub id_index: Map<SnapshotId, Seq<u8>>,
    /// The most recently assigned snapshot id.
    pub next: SnapshotId,
}

/// Parent pointers never increase snapshot ids: walking upward strictly
/// decreases the id, so parent chains are acyclic and walks terminate.
pub open spec fn ord_wf(m: ManagerModel) -> bool {
    forall|c: Seq<u8>| #[trigger]
        m.parents.contains_key(c) ==> m.ids.contains_key(c) && (m.ids.contains_key(m.parents[c])
            ==> m.ids[m.parents[c]] < m.ids[c])
}

/// The fork-tree invariant: children lists and parent pointers mirror each
/// other, every registered layer belongs to an open block, and the
/// snapshot-id maps are inverse bijections bounded by the id counter.
pub open spec fn tree_wf(m: ManagerModel) -> bool {
    &&& ord_wf(m)
    &&& forall|p: Seq<u8>, i: int|
        m.children.contains_key(p) && 0 <= i < m.children[p].len() ==> m.parents.contains_key(
            #[trigger] m.children[p][i],
        ) && m.parents[m.children[p][i]] == p
    &&& forall|p: Seq<u8>, i: int, j: int|
        #![trigger m.children[p][i], m.children[p][j]]
        m.children.contains_key(p) && 0 <= i < j < m.children[p].len() ==> m.children[p][i]
            != m.children[p][j]
    &&& forall|c: Seq<u8>| #[trigger]
        m.parents.contains_key(c) ==> m.children.contains_key(m.parents[c])
            && m.children[m.parents[c]].contains(c)
    &&& forall|b: Seq<u8>| #[trigger]
        m.layers.contains_key(b) ==> m.parents.contains_key(b) && m.ids.contains_key(b)
            && m.layers[b].id == m.ids[b]
    &&& forall|h: Seq<u8>| #[trigger] m.ids.contains_key(h) ==> m.parents.contains_key(h)
    &&& forall|h: Seq<u8>| #[trigger]
        m.ids.contains_key(h) ==> m.id_index.contains_key(m.ids[h]) && m.id_index[m.ids[h]] == h
            && 1 <= m.ids[h] <= m.next
    &&& forall|id: SnapshotId| #[trigger]
        m.id_index.contains_key(id) ==> m.ids.contains_key(m.id_index[id])
            && m.ids[m.id_index[id]] == id
}

/// The answer the layer tree gives for a key, walking upward from block `a`:
/// `Some(Some(v))` when the nearest ancestor that knows the key holds `v`,
/// `Some(None)` when it holds a tombstone, `None` when no ancestor layer
/// knows the key and the caller must fall through to the store.
pub open spec fn ancestors_lookup(m: ManagerModel, a: Seq<u8>, key: Seq<u8>) -> Option<
    Option<Seq<u8>>,
>
    decreases (if m.ids.contains_key(a) {
        m.ids[a] + 1
    } else {
        0
    }) as int
        when ord_wf(m)
{
    let from_layer = if m.layers.contains_key(a) {
        spec_log_lookup(m.layers[a].reads, m.layers[a].writes, key)
    } else {
        None
    };
    if from_layer is Some {
        from_layer
    } else if m.parents.contains_key(a) {
        ancestors_lookup(m, m.parents[a], key)
    } else {
        None
    }
}

/// What `get_value_recursively` returns for a snapshot id: the walk starts
/// at the *parent* of the block the id names; an unknown id or a parentless
/// block answers `None` (fall through to the store).
pub open spec fn spec_get_value_recursively(m: ManagerModel, id: SnapshotId, key: Seq<u8>) -> Option<
    Option<Seq<u8>>,
> {
    if m.id_index.contains_key(id) && m.parents.contains_key(m.id_index[id]) {
        ancestors_lookup(m, m.parents[m.id_index[id]], key)
    } else {
        None
    }
}

/// What a snapshot handle's read returns: the nearest ancestor's value, "not
/// found" on an ancestor tombstone, or the store's value when no ancestor
/// layer knows the key.
pub open spec fn spec_handle_lookup(m: ManagerModel, id: SnapshotId, key: Seq<u8>) -> Option<
    Seq<u8>,
> {
    match spec_get_value_recursively(m, id, key) {
        Some(Some(v)) => Some(v),
        Some(None) => None,
        None => if m.store.contains_key(key) {
            Some(m.store[key])
        } else {
            None
        },
    }
}

/// View of a tri-state lookup answer.
pub open spec fn opt_opt_view(r: Option<Option<Value>>) -> Option<Option<Seq<u8>>> {
    match r {
        Some(Some(v)) => Some(Some(v@)),
        Some(None) => Some(None),
        None => None,
    }
}

/// The read interface a snapshot handle needs from the manager.
pub trait QueryParents {
    /// The manager state the queries answer against.
    spec fn q_model(&self) -> ManagerModel;

    /// The manager's invariant.
    spec fn q_wf(&self) -> bool;

    /// Walk the parent chain of the block the snapshot id names.
    fn get_value_recursively(&self, snapshot_id: &SnapshotId, key: &Key) -> (r: Option<
        Option<Value>,
    >)
        requires
            self.q_wf(),
        ensures
            opt_opt_view(r) == spec_get_value_recursively(self.q_model(), *snapshot_id, key@),
    ;
}

/// A snapshot handle: the read-only capability handed to the execution
/// engine for one pending child block.  It exposes lookups through the
/// block's ancestors and nothing else.
pub struct TreeQuery {
    pub id: SnapshotId,
}

impl TreeQuery {
    pub fn new(id: SnapshotId) -> (r: TreeQuery)
        ensures
            r.id == id,
    {
        TreeQuery { id }
    }

    pub fn get_id(&self) -> (r: SnapshotId)
        ensures
            r == self.id,
    {
        self.id
    }

    /// Read through the parent layers of this handle's block, falling back
    /// to the store; an ancestor tombstone is an authoritative "not found".
    pub fn get_value_from_cache_layers(&self, manager: &BlockStateManager, key: &Key) -> (r: Option<
        Value,
    >)
        requires
            manager.wf(),
        ensures
            opt_value_view(r) == spec_handle_lookup(manager@, self.id, key@),
    {
        match manager.get_value_recursively(&self.id, key) {
            Some(Some(v)) => Some(v),
            Some(None) => None,
            None => manager.db_ref().get(key),
        }
    }
}

/// The block-state manager.
pub struct BlockStateManager {
    db: Database,
    snapshots: ByteMap<FrozenSnapshot>,
    chain_forks: ByteMap<Vec<Vec<u8>>>,
    blocks_to_parent: ByteMap<Vec<u8>>,
    hash_to_id: ByteMap<SnapshotId>,
    snapshot_id_to_block_hash: IdMap<Vec<u8>>,
    latest_snapshot_id: SnapshotId,
}

impl View for BlockStateManager {
    type V = ManagerModel;

    closed spec fn view(&self) -> ManagerModel {
        ManagerModel {
            store: self.db@,
            layers: self.snapshots@.map_values(|s: FrozenSnapshot| s@),
            children: self.chain_forks@.map_values(|v: Vec<Vec<u8>>| hashes_view(v)),
            parents: self.blocks_to_parent@.map_values(|v: Vec<u8>| v@),
            ids: self.hash_to_id@,
            id_index: self.snapshot_id_to_block_hash@.map_values(|v: Vec<u8>| v@),
            next: self.latest_snapshot_id,
        }
    }
}

impl BlockStateManager {
    /// The representation invariant: the underlying maps are well formed and
    /// the abstract state satisfies the fork-tree invariant.
    pub closed spec fn maps_wf(&self) -> bool {
        &&& self.db.wf()
        &&& self.snapshots.wf()
        &&& self.chain_forks.wf()
        &&& self.blocks_to_parent.wf()
        &&& self.hash_to_id.wf()
        &&& self.snapshot_id_to_block_hash.wf()
    }

    pub closed spec fn wf(&self) -> bool {
        &&& self.maps_wf()
        &&& tree_wf(self@)
    }

    /// Fork-tree consistency: in every reachable manager state, each child
    /// recorded under a parent points back to that parent, and every
    /// registered layer belongs to a block with a parent entry.
    pub proof fn lemma_fork_tree_consistency(&self)
        requires
            self.wf(),
        ensures
            tree_wf(self@),
            forall|p: Seq<u8>, i: int|
                self@.children.contains_key(p) && 0 <= i < self@.children[p].len()
                    ==> self@.parents.contains_key(#[trigger] self@.children[p][i])
                    && self@.parents[self@.children[p][i]] == p,
            forall|b: Seq<u8>| #[trigger]
                self@.layers.contains_key(b) ==> self@.parents.contains_key(b),
    {
    }

    pub fn new(db: Database) -> (r: BlockStateManager)
        requires
            db.wf(),
        ensures
            r.wf(),
            r@.store == db@,
            r@.layers == Map::<Seq<u8>, SnapshotModel>::empty(),
            r@.children == Map::<Seq<u8>, Seq<Seq<u8>>>::empty(),
            r@.parents == Map::<Seq<u8>, Seq<u8>>::empty(),
            r@.ids == Map::<Seq<u8>, SnapshotId>::empty(),
            r@.id_index == Map::<SnapshotId, Seq<u8>>::empty(),
            r@.next == 0,
    {
        let r = BlockStateManager {
            db,
            snapshots: ByteMap::new(),
            chain_forks: ByteMap::new(),
            blocks_to_parent: ByteMap::new(),
            hash_to_id: ByteMap::new(),
            snapshot_id_to_block_hash: IdMap::new(),
            latest_snapshot_id: 0,
        };
        proof {
            assert(r@.layers =~= Map::<Seq<u8>, SnapshotModel>::empty());
            assert(r@.children =~= Map::<Seq<u8>, Seq<Seq<u8>>>::empty());
            assert(r@.parents =~= Map::<Seq<u8>, Seq<u8>>::empty());
            assert(r@.id_index =~= Map::<SnapshotId, Seq<u8>>::empty());
        }
        r
    }

    /// The store the manager commits finalized layers into.
    pub fn db_ref(&self) -> (r: &Database)
        requires
            self.wf(),
        ensures
            r@ == self@.store,
            r.wf(),
    {
        &self.db
    }

    pub fn latest_snapshot_id(&self) -> (r: SnapshotId)
        ensures
            r == self@.next,
    {
        self.latest_snapshot_id
    }

    /// True when the fork tree holds no block at all.
    pub fn is_empty(&self) -> (r: bool)
        requires
            self.wf(),
        ensures
            r == (self@.children == Map::<Seq<u8>, Seq<Seq<u8>>>::empty()
                && self@.parents == Map::<Seq<u8>, Seq<u8>>::empty() && self@.layers == Map::<
                Seq<u8>,
                SnapshotModel,
            >::empty() && self@.id_index == Map::<SnapshotId, Seq<u8>>::empty()),
    {
        let r = self.chain_forks.is_empty() && self.blocks_to_parent.is_empty()
            && self.snapshots.is_empty() && self.snapshot_id_to_block_hash.is_empty();
        proof {
            lemma_map_values_empty(self.chain_forks@, |v: Vec<Vec<u8>>| hashes_view(v));
            lemma_map_values_empty(self.blocks_to_parent@, |v: Vec<u8>| v@);
            lemma_map_values_empty(self.snapshots@, |s: FrozenSnapshot| s@);
            lemma_map_values_empty(self.snapshot_id_to_block_hash@, |v: Vec<u8>| v@);
        }
        r
    }

    /// Walk the parent chain of the block named by `snapshot_id`, from its
    /// parent upward: the nearest layer that knows the key answers; a
    /// tombstone stops the walk; an unknown ancestor falls through.
    pub fn get_value_recursively(&self, snapshot_id: &SnapshotId, key: &Key) -> (r: Option<
        Option<Value>,
    >)
        requires
            self.wf(),
        ensures
            opt_opt_view(r) == spec_get_value_recursively(self@, *snapshot_id, key@),
    {
        let ghost m = self@;
        let hash = match self.snapshot_id_to_block_hash.get(snapshot_id) {
            Some(h) => h,
            None => {
                return None;
            },
        };
        let mut current: Vec<u8> = match self.blocks_to_parent.get(hash) {
            Some(p) => clone_bytes(p),
            None => {
                return None;
            },
        };
        proof {
            assert(m.id_index.contains_key(*snapshot_id) && m.id_index[*snapshot_id] == hash@);
            assert(m.parents.contains_key(hash@) && m.parents[hash@] == current@);
        }
        loop
            invariant
                self.wf(),
                m == self@,
                spec_get_value_recursively(m, *snapshot_id, key@) == ancestors_lookup(
                    m,
                    current@,
                    key@,
                ),
            decreases (if m.ids.contains_key(current@) {
                m.ids[current@] + 1
            } else {
                0
            }) as int,
        {
            match self.snapshots.get(&current) {
                Some(snap) => {
                    proof {
                        assert(m.layers.contains_key(current@) && m.layers[current@] == snap@);
                    }
                    match snap.get_value(key) {
                        LayerLookup::Hit(v) => {
                            return Some(Some(v));
                        },
                        LayerLookup::Tombstone => {
                            return Some(None);
                        },
                        LayerLookup::Miss => {},
                    }
                },
                None => {
                    proof {
                        assert(!m.layers.contains_key(current@));
                    }
                },
            }
            match self.blocks_to_parent.get(&current) {
                Some(p) => {
                    proof {
                        assert(m.parents.contains_key(current@) && m.parents[current@] == p@);
                    }
                    current = clone_bytes(p);
                },
                None => {
                    return None;
                },
            }
        }
    }

    /// Open a new child block under `prev_block_hash`: assign it the next
    /// snapshot id and record it in the fork tree.  The parent may be
    /// unknown (a virtual root).  The child hash must be entirely fresh:
    /// not only may it not already have a parent assignment, it may not be
    /// its own parent nor already head a children list -- otherwise an open
    /// could close a cycle of parent pointers, and the fork tree must stay
    /// acyclic for parent-chain walks to terminate.
    pub fn get_new_ref(&mut self, prev_block_hash: &Vec<u8>, current_block_hash: &Vec<u8>) -> (r:
        Result<TreeQuery, StateError>)
        requires
            old(self).wf(),
            old(self)@.next < SnapshotId::MAX,
        ensures
            final(self).wf(),
            match r {
                Ok(q) => {
                    &&& prev_block_hash@ != current_block_hash@
                    &&& !old(self)@.parents.contains_key(current_block_hash@)
                    &&& !old(self)@.children.contains_key(current_block_hash@)
                    &&& q.id == old(self)@.next + 1
                    &&& final(self)@ == spec_open_child(
                        old(self)@,
                        prev_block_hash@,
                        current_block_hash@,
                    )
                },
                Err(e) => {
                    &&& e == StateError::DuplicateChild
                    &&& (prev_block_hash@ == current_block_hash@ || old(
                        self,
                    )@.parents.contains_key(current_block_hash@) || old(
                        self,
                    )@.children.contains_key(current_block_hash@))
                    &&& final(self)@ == old(self)@
                },
            },
    {
        let ghost m0 = self@;
        if crate::types::bytes_eq(prev_block_hash, current_block_hash)
            || self.blocks_to_parent.contains_key(current_block_hash)
            || self.chain_forks.contains_key(current_block_hash) {
            return Err(StateError::DuplicateChild);
        }
        self.latest_snapshot_id = self.latest_snapshot_id + 1;
        let id = self.latest_snapshot_id;
        self.snapshot_id_to_block_hash.insert(id, clone_bytes(current_block_hash));
        self.hash_to_id.insert(clone_bytes(current_block_hash), id);
        self.blocks_to_parent.insert(
            clone_bytes(current_block_hash),
            clone_bytes(prev_block_hash),
        );
        let mut list = match self.chain_forks.remove(prev_block_hash) {
            Some(l) => l,
            None => Vec::new(),
        };
        list.push(clone_bytes(current_block_hash));
        self.chain_forks.insert(clone_bytes(prev_block_hash), list);
        proof {
            let m1 = self@;
            let prev = prev_block_hash@;
            let cur = current_block_hash@;
            let target = spec_open_child(m0, prev, cur);
            assert(m1.layers =~= target.layers);
            assert(m1.parents =~= target.parents);
            assert(m1.ids =~= target.ids);
            assert(m1.id_index =~= target.id_index);
            assert(hashes_view(list) =~= (if m0.children.contains_key(prev) {
                m0.children[prev]
            } else {
                Seq::<Seq<u8>>::empty()
            }).push(cur));
            assert(m1.children =~= target.children);
            assert(m1 == target);
            lemma_open_child_wf(m0, prev, cur);
        }
        Ok(TreeQuery { id })
    }

    /// Register a completed frozen layer under the block hash its snapshot
    /// id was opened for.
    pub fn add_snapshot(&mut self, snapshot: FrozenSnapshot) -> (r: Result<(), StateError>)
        requires
            old(self).wf(),
        ensures
            final(self).wf(),
            match r {
                Ok(()) => {
                    &&& old(self)@.id_index.contains_key(snapshot@.id)
                    &&& !old(self)@.layers.contains_key(old(self)@.id_index[snapshot@.id])
                    &&& final(self)@ == spec_register_layer(old(self)@, snapshot@)
                },
                Err(e) => {
                    &&& final(self)@ == old(self)@
                    &&& (e == StateError::UnknownBlock || e == StateError::DuplicateLayer)
                    &&& (e == StateError::UnknownBlock <==> !old(self)@.id_index.contains_key(
                        snapshot@.id,
                    ))
                    &&& (e == StateError::DuplicateLayer <==> old(self)@.id_index.contains_key(
                        snapshot@.id,
                    ) && old(self)@.layers.contains_key(old(self)@.id_index[snapshot@.id]))
                },
            },
    {
        let id = snapshot.get_id();
        let hash = match self.snapshot_id_to_block_hash.get(&id) {
            Some(h) => clone_bytes(h),
            None => {
                return Err(StateError::UnknownBlock);
            },
        };
        if self.snapshots.contains_key(&hash) {
            return Err(StateError::DuplicateLayer);
        }
        let ghost m0 = self@;
        self.snapshots.insert(hash, snapshot);
        proof {
            assert(self@.layers =~= spec_register_layer(m0, snapshot@).layers);
            assert(self@ == spec_register_layer(m0, snapshot@));
            let m1 = self@;
            let h = m0.id_index[snapshot@.id];
            assert forall|b: Seq<u8>| #[trigger] m1.layers.contains_key(b) implies m1.parents.contains_key(b)
                && m1.ids.contains_key(b) && m1.layers[b].id == m1.ids[b] by {
                if b == h {
                    assert(m0.id_index.contains_key(snapshot@.id));
                    assert(m0.ids.contains_key(h) && m0.ids[h] == snapshot@.id);
                } else {
                    assert(m0.layers.contains_key(b));
                }
            }
        }
        Ok(())
    }
}

/// The model transition of opening a child block.
pub open spec fn spec_open_child(m: ManagerModel, prev: Seq<u8>, cur: Seq<u8>) -> ManagerModel {
    let id = (m.next + 1) as SnapshotId;
    ManagerModel {
        store: m.store,
        layers: m.layers,
        children: m.children.insert(
            prev,
            (if m.children.contains_key(prev) {
                m.children[prev]
            } else {
                Seq::<Seq<u8>>::empty()
            }).push(cur),
        ),
        parents: m.parents.insert(cur, prev),
        ids: m.ids.insert(cur, id),
        id_index: m.id_index.insert(id, cur),
        next: id,
    }
}

/// The model transition of registering a frozen layer.
pub open spec fn spec_register_layer(m: ManagerModel, s: SnapshotModel) -> ManagerModel {
    ManagerModel { layers: m.layers.insert(m.id_index[s.id], s), ..m }
}

proof fn lemma_open_child_wf(m: ManagerModel, prev: Seq<u8>, cur: Seq<u8>)
    requires
        tree_wf(m),
        m.next < SnapshotId::MAX,
        prev != cur,
        !m.parents.contains_key(cur),
        !m.children.contains_key(cur),
    ensures
        tree_wf(spec_open_child(m, prev, cur)),
{
    let t = spec_open_child(m, prev, cur);
    let id = (m.next + 1) as SnapshotId;
    // the fresh hash is nobody's parent: a parent hash always keys a
    // children list
    assert forall|c: Seq<u8>| #[trigger] m.parents.contains_key(c) implies m.parents[c] != cur by {
        assert(m.children.contains_key(m.parents[c]));
    }
    // the fresh id is not in use
    assert(!m.id_index.contains_key(id)) by {
        if m.id_index.contains_key(id) {
            assert(m.ids[m.id_index[id]] == id);
        }
    }
    assert(ord_wf(t)) by {
        assert forall|c: Seq<u8>| #[trigger] t.parents.contains_key(c) implies t.ids.contains_key(c)
            && (t.ids.contains_key(t.parents[c]) ==> t.ids[t.parents[c]] < t.ids[c]) by {
            if c == cur {
                assert(t.ids[cur] == id);
                if t.ids.contains_key(prev) {
                    if prev == cur {
                    } else {
                        assert(m.ids.contains_key(prev));
                        assert(m.ids[prev] <= m.next);
                    }
                }
            } else {
                assert(m.parents.contains_key(c));
                assert(m.parents[c] != cur);
            }
        }
    }
    assert forall|p: Seq<u8>, i: int|
        t.children.contains_key(p) && 0 <= i < t.children[p].len() implies t.parents.contains_key(
        #[trigger] t.children[p][i],
    ) && t.parents[t.children[p][i]] == p by {
        if p == prev {
            let old_list = if m.children.contains_key(prev) {
                m.children[prev]
            } else {
                Seq::<Seq<u8>>::empty()
            };
            if i < old_list.len() {
                assert(m.children.contains_key(prev) && m.children[prev][i] == t.children[p][i]);
                assert(m.parents[t.children[p][i]] == p);
                assert(t.children[p][i] != cur);
            } else {
                assert(t.children[p][i] == cur);
            }
        } else {
            assert(m.children.contains_key(p) && m.children[p][i] == t.children[p][i]);
            assert(t.children[p][i] != cur);
        }
    }
    assert forall|p: Seq<u8>, i: int, j: int|
        t.children.contains_key(p) && 0 <= i < j < t.children[p].len() implies t.children[p][i]
        != t.children[p][j] by {
        if p == prev {
            let old_list = if m.children.contains_key(prev) {
                m.children[prev]
            } else {
                Seq::<Seq<u8>>::empty()
            };
            if j < old_list.len() {
                assert(m.children.contains_key(prev));
                assert(m.children[prev][i] == t.children[p][i]);
                assert(m.children[prev][j] == t.children[p][j]);
            } else {
                // the new last element is the fresh hash, which cannot be an
                // existing child: existing children have parent entries
                assert(t.children[p][j] == cur);
                if i < old_list.len() {
                    assert(m.children.contains_key(prev));
                    assert(m.parents.contains_key(m.children[prev][i]));
                    assert(t.children[p][i] != cur);
                }
            }
        }
    }
    assert forall|c: Seq<u8>| #[trigger] t.parents.contains_key(c) implies t.children.contains_key(
        t.parents[c],
    ) && t.children[t.parents[c]].contains(c) by {
        if c == cur {
            assert(t.children[prev].last() == cur);
            assert(t.children[prev].contains(cur));
        } else {
            assert(m.parents.contains_key(c));
            assert(m.children.contains_key(m.parents[c]) && m.children[m.parents[c]].contains(c));
            if m.parents[c] == prev {
                let old_list = if m.children.contains_key(prev) {
                    m.children[prev]
                } else {
                    Seq::<Seq<u8>>::empty()
                };
                let k = choose|k: int| 0 <= k < old_list.len() && old_list[k] == c;
                assert(t.children[prev][k] == c);
                assert(t.children[prev].contains(c));
            }
        }
    }
    assert forall|h: Seq<u8>| #[trigger] t.ids.contains_key(h) implies t.id_index.contains_key(
        t.ids[h],
    ) && t.id_index[t.ids[h]] == h && 1 <= t.ids[h] <= t.next by {
        if h == cur {
        } else {
            assert(m.ids.contains_key(h));
            assert(m.ids[h] != id);
        }
    }
    assert forall|i2: SnapshotId| #[trigger] t.id_index.contains_key(i2) implies t.ids.contains_key(
        t.id_index[i2],
    ) && t.ids[t.id_index[i2]] == i2 by {
        if i2 == id {
        } else {
            assert(m.id_index.contains_key(i2));
            assert(m.id_index[i2] != cur) by {
                if m.id_index[i2] == cur {
                    assert(m.ids.contains_key(cur));
                }
            }
        }
    }
}

/// Mapping the values of an empty map yields an empty map, and conversely.
proof fn lemma_map_values_empty<K, V, W>(m: Map<K, V>, f: spec_fn(V) -> W)
    ensures
        (m == Map::<K, V>::empty()) == (m.map_values(f) == Map::<K, W>::empty()),
{
    if m == Map::<K, V>::empty() {
        assert(m.map_values(f) =~= Map::<K, W>::empty());
    } else {
        if m.map_values(f) == Map::<K, W>::empty() {
            assert forall|k: K| !m.contains_key(k) by {
                if m.contains_key(k) {
                    assert(m.map_values(f).contains_key(k));
                    assert(Map::<K, W>::empty().contains_key(k));
                }
            }
            assert(m =~= Map::<K, V>::empty());
        }
    }
}

} // verus!

// === finalization: model and supporting lemmas ===

verus! {

/// `x` is `root` itself or a descendant of `root` along parent pointers.
pub open spec fn descends(m: ManagerModel, x: Seq<u8>, root: Seq<u8>) -> bool
    decreases (if m.ids.contains_key(x) {
        m.ids[x] + 1
    } else {
        0
    }) as int
        when ord_wf(m)
{
    ||| x == root
    ||| (m.parents.contains_key(x) && descends(m, m.parents[x], root))
}

/// The siblings of `b` at the moment of its finalization: the other children
/// of `b`'s parent.
pub open spec fn sibling_set(m: ManagerModel, b: Seq<u8>) -> Set<Seq<u8>> {
    m.children[m.parents[b]].to_set().remove(b)
}

/// The orphans of finalizing `b`: every block that is a sibling of `b` or a
/// descendant of such a sibling.
pub open spec fn orphan_set(m: ManagerModel, b: Seq<u8>) -> Set<Seq<u8>> {
    Set::new(
        |x: Seq<u8>| exists|s: Seq<u8>| sibling_set(m, b).contains(s) && descends(m, x, s),
    )
}

/// The blocks finalizing `b` removes from the tree: `b` itself and the
/// orphans.
pub open spec fn gone_set(m: ManagerModel, b: Seq<u8>) -> Set<Seq<u8>> {
    orphan_set(m, b).insert(b)
}

/// The model transition of finalizing block `b`: its layer's writes are
/// applied to the store; `b` and the orphans leave every mapping; the parent
/// loses its children list.  `b`'s own children list survives so that its
/// descendants can be finalized later.
pub open spec fn spec_finalize(m: ManagerModel, b: Seq<u8>) -> ManagerModel {
    let p = m.parents[b];
    let gone = gone_set(m, b);
    ManagerModel {
        store: if m.layers.contains_key(b) {
            crate::db::apply_writes(m.store, m.layers[b].writes)
        } else {
            m.store
        },
        layers: m.layers.remove_keys(gone),
        children: m.children.remove_keys(orphan_set(m, b).insert(p)),
        parents: m.parents.remove_keys(gone),
        ids: m.ids.remove_keys(gone),
        id_index: Map::new(
            |id: SnapshotId| m.id_index.contains_key(id) && !gone.contains(m.id_index[id]),
            |id: SnapshotId| m.id_index[id],
        ),
        next: m.next,
    }
}

/// Walking upward strictly decreases ids: an ancestor's id is below the
/// descendant's.
proof fn lemma_descends_ids(m: ManagerModel, x: Seq<u8>, root: Seq<u8>)
    requires
        ord_wf(m),
        descends(m, x, root),
        x != root,
    ensures
        m.parents.contains_key(x),
        m.ids.contains_key(x),
        m.ids.contains_key(root) ==> m.ids[root] < m.ids[x],
    decreases (if m.ids.contains_key(x) {
        m.ids[x] + 1
    } else {
        0
    }) as int,
{
    assert(m.parents.contains_key(x));
    let px = m.parents[x];
    if px == root {
    } else {
        lemma_descends_ids(m, px, root);
    }
}

/// A strict descendant reaches its root through one of the root's children.
proof fn lemma_descends_child(m: ManagerModel, x: Seq<u8>, root: Seq<u8>)
    requires
        ord_wf(m),
        descends(m, x, root),
        x != root,
    ensures
        exists|c: Seq<u8>|
            m.parents.contains_key(c) && m.parents[c] == root && #[trigger] descends(m, x, c),
    decreases (if m.ids.contains_key(x) {
        m.ids[x] + 1
    } else {
        0
    }) as int,
{
    let px = m.parents[x];
    if px == root {
        assert(descends(m, x, x));
        assert(m.parents.contains_key(x) && m.parents[x] == root && descends(m, x, x));
    } else {
        lemma_descends_ids(m, x, root);
        lemma_descends_child(m, px, root);
        let c = choose|c: Seq<u8>|
            m.parents.contains_key(c) && m.parents[c] == root && #[trigger] descends(m, px, c);
        assert(descends(m, x, c));
    }
}

/// Neither the finalized block nor its parent is an orphan.
proof fn lemma_target_not_orphan(m: ManagerModel, b: Seq<u8>)
    requires
        tree_wf(m),
        m.parents.contains_key(b),
    ensures
        !orphan_set(m, b).contains(b),
        !orphan_set(m, b).contains(m.parents[b]),
    {
    let p = m.parents[b];
    assert forall|s: Seq<u8>| sibling_set(m, b).contains(s) implies !descends(m, p, s) && !descends(
        m,
        b,
        s,
    ) by {
        assert(m.children[p].contains(s));
        let k = choose|k: int| 0 <= k < m.children[p].len() && m.children[p][k] == s;
        assert(m.parents.contains_key(s) && m.parents[s] == p);
        assert(p != s);
        if descends(m, p, s) {
            lemma_descends_ids(m, p, s);
            assert(m.ids[s] < m.ids[p]);
            assert(m.ids[p] < m.ids[s]);
        }
        if descends(m, b, s) {
            assert(b != s);
            assert(descends(m, p, s));
        }
    }
    if orphan_set(m, b).contains(b) {
        let s = choose|s: Seq<u8>| sibling_set(m, b).contains(s) && descends(m, b, s);
    }
    if orphan_set(m, b).contains(p) {
        let s = choose|s: Seq<u8>| sibling_set(m, b).contains(s) && descends(m, p, s);
    }
}

/// Every orphan has a parent entry.
proof fn lemma_orphan_open(m: ManagerModel, b: Seq<u8>, x: Seq<u8>)
    requires
        tree_wf(m),
        m.parents.contains_key(b),
        orphan_set(m, b).contains(x),
    ensures
        m.parents.contains_key(x),
{
    let p = m.parents[b];
    let s = choose|s: Seq<u8>| sibling_set(m, b).contains(s) && descends(m, x, s);
    if x == s {
        assert(m.children[p].contains(s));
        let k = choose|k: int| 0 <= k < m.children[p].len() && m.children[p][k] == s;
        assert(m.parents.contains_key(s));
    }
}

/// Finalization preserves the fork-tree invariant.
proof fn lemma_finalize_wf(m: ManagerModel, b: Seq<u8>)
    requires
        tree_wf(m),
        m.parents.contains_key(b),
    ensures
        tree_wf(spec_finalize(m, b)),
{
    let p = m.parents[b];
    let orph = orphan_set(m, b);
    let gone = gone_set(m, b);
    let t = spec_finalize(m, b);
    lemma_target_not_orphan(m, b);

    // a child of an orphan is an orphan
    assert forall|c: Seq<u8>|
        m.parents.contains_key(c) && orph.contains(#[trigger] m.parents[c]) implies orph.contains(
        c,
    ) by {
        let s = choose|s: Seq<u8>|
            sibling_set(m, b).contains(s) && descends(m, m.parents[c], s);
        assert(descends(m, c, s));
        assert(orph.contains(c));
    }
    // a child of the parent p is b itself or an orphan
    assert forall|c: Seq<u8>|
        m.parents.contains_key(c) && m.parents[c] == p && c != b implies orph.contains(c) by {
        assert(m.children[p].contains(c));
        assert(sibling_set(m, b).contains(c));
        assert(descends(m, c, c));
    }
    // an orphan is a sibling of b or the child of another orphan
    assert forall|c: Seq<u8>| #[trigger]
        orph.contains(c) implies sibling_set(m, b).contains(c) || (m.parents.contains_key(c)
        && orph.contains(m.parents[c])) by {
        let s = choose|s: Seq<u8>| sibling_set(m, b).contains(s) && descends(m, c, s);
        if c != s {
            assert(descends(m, m.parents[c], s));
            assert(orph.contains(m.parents[c]));
        }
    }

    assert(ord_wf(t)) by {
        assert forall|c: Seq<u8>| #[trigger] t.parents.contains_key(c) implies t.ids.contains_key(c)
            && (t.ids.contains_key(t.parents[c]) ==> t.ids[t.parents[c]] < t.ids[c]) by {
            assert(m.parents.contains_key(c));
        }
    }
    assert forall|q: Seq<u8>, i: int|
        t.children.contains_key(q) && 0 <= i < t.children[q].len() implies t.parents.contains_key(
        #[trigger] t.children[q][i],
    ) && t.parents[t.children[q][i]] == q by {
        assert(m.children.contains_key(q));
        assert(!orph.contains(q) && q != p);
        let c = m.children[q][i];
        assert(m.parents.contains_key(c) && m.parents[c] == q);
        assert(!orph.contains(c)) by {
            if orph.contains(c) {
                if sibling_set(m, b).contains(c) {
                    assert(m.children[p].contains(c));
                    let k = choose|k: int| 0 <= k < m.children[p].len() && m.children[p][k] == c;
                    assert(m.parents[c] == p);
                }
            }
        }
        assert(c != b);
    }
    assert forall|q: Seq<u8>, i: int, j: int|
        #![trigger t.children[q][i], t.children[q][j]]
        t.children.contains_key(q) && 0 <= i < j < t.children[q].len() implies t.children[q][i]
        != t.children[q][j] by {
        assert(m.children.contains_key(q));
        assert(m.children[q][i] == t.children[q][i]);
        assert(m.children[q][j] == t.children[q][j]);
    }
    assert forall|c: Seq<u8>| #[trigger] t.parents.contains_key(c) implies t.children.contains_key(
        t.parents[c],
    ) && t.children[t.parents[c]].contains(c) by {
        let q = m.parents[c];
        assert(m.children.contains_key(q) && m.children[q].contains(c));
        assert(!orph.contains(c) && c != b);
        assert(!orph.contains(q)) by {
            if orph.contains(q) {
                assert(orph.contains(c));
            }
        }
        assert(q != p);
    }
    assert forall|x: Seq<u8>| #[trigger] t.layers.contains_key(x) implies t.parents.contains_key(x)
        && t.ids.contains_key(x) && t.layers[x].id == t.ids[x] by {
        assert(m.layers.contains_key(x));
    }
    assert forall|h: Seq<u8>| #[trigger] t.ids.contains_key(h) implies t.parents.contains_key(
        h,
    ) by {
        assert(m.ids.contains_key(h));
    }
    assert forall|h: Seq<u8>| #[trigger] t.ids.contains_key(h) implies t.id_index.contains_key(
        t.ids[h],
    ) && t.id_index[t.ids[h]] == h && 1 <= t.ids[h] <= t.next by {
        assert(m.ids.contains_key(h));
        assert(m.id_index.contains_key(m.ids[h]) && m.id_index[m.ids[h]] == h);
        assert(!gone.contains(h));
    }
    assert forall|id: SnapshotId| #[trigger] t.id_index.contains_key(id) implies t.ids.contains_key(
        t.id_index[id],
    ) && t.ids[t.id_index[id]] == id by {
        assert(m.id_index.contains_key(id));
        assert(m.ids.contains_key(m.id_index[id]));
    }
}

} // verus!


// === finalization: executable operation ===

verus! {

use crate::db::batch_map;

/// A batch with pairwise-distinct keys that carries exactly the entries of
/// `w` describes `w` itself.
proof fn lemma_batch_map_exact(s: Seq<(Key, Option<Value>)>, w: Map<Seq<u8>, Option<Seq<u8>>>)
    requires
        forall|i: int, j: int| 0 <= i < j < s.len() ==> s[i].0@ != s[j].0@,
        forall|i: int|
            0 <= i < s.len() ==> w.contains_key(#[trigger] s[i].0@) && w[s[i].0@]
                == opt_value_view(s[i].1),
        forall|k: Seq<u8>| w.contains_key(k) ==> exists|i: int| 0 <= i < s.len() && s[i].0@ == k,
    ensures
        batch_map(s) == w,
    decreases s.len(),
{
    if s.len() == 0 {
        assert forall|k: Seq<u8>| !w.contains_key(k) by {
            if w.contains_key(k) {
                let i = choose|i: int| 0 <= i < s.len() && s[i].0@ == k;
            }
        }
        assert(batch_map(s) =~= w);
    } else {
        let s2 = s.drop_last();
        let last = s.last();
        let lk = last.0@;
        let w2 = w.remove(lk);
        assert(s[s.len() - 1] == last);
        assert forall|i: int, j: int| 0 <= i < j < s2.len() implies s2[i].0@ != s2[j].0@ by {
            assert(s2[i] == s[i] && s2[j] == s[j]);
        }
        assert forall|i: int| 0 <= i < s2.len() implies w2.contains_key(#[trigger] s2[i].0@)
            && w2[s2[i].0@] == opt_value_view(s2[i].1) by {
            assert(s2[i] == s[i]);
            assert(s[i].0@ != lk);
        }
        assert forall|k: Seq<u8>| w2.contains_key(k) implies exists|i: int|
            0 <= i < s2.len() && s2[i].0@ == k by {
            let i = choose|i: int| 0 <= i < s.len() && s[i].0@ == k;
            assert(i < s.len() - 1);
            assert(s2[i] == s[i]);
        }
        lemma_batch_map_exact(s2, w2);
        assert(w[lk] == opt_value_view(last.1));
        assert(batch_map(s) == w2.insert(lk, opt_value_view(last.1)));
        assert(w2.insert(lk, w[lk]) =~= w);
    }
}

/// Removing one more key equals removing it together with the earlier set.
proof fn lemma_remove_keys_step<V>(m: Map<Seq<u8>, V>, s: Set<Seq<u8>>, k: Seq<u8>)
    ensures
        m.remove_keys(s).remove(k) == m.remove_keys(s.insert(k)),
{
    assert(m.remove_keys(s).remove(k) =~= m.remove_keys(s.insert(k)));
}

/// The invariant of the pruning worklist: `td` holds pairwise-distinct
/// orphans whose parents have been pruned already (or are the finalization
/// parent); every orphan is pruned or descends from a worklist entry.
pub open spec fn worklist_inv(
    m0: ManagerModel,
    b: Seq<u8>,
    removed: Set<Seq<u8>>,
    td: Seq<Seq<u8>>,
) -> bool {
    let p = m0.parents[b];
    let orph = orphan_set(m0, b);
    &&& forall|i1: int, i2: int| 0 <= i1 < i2 < td.len() ==> td[i1] != td[i2]
    &&& forall|i: int|
        0 <= i < td.len() ==> orphan_set(m0, b).contains(#[trigger] td[i]) && !removed.contains(
            td[i],
        ) && (removed.contains(m0.parents[td[i]]) || m0.parents[td[i]] == p)
    &&& removed.subset_of(orph)
    &&& forall|x: Seq<u8>| #[trigger]
        removed.contains(x) ==> removed.contains(m0.parents[x]) || m0.parents[x] == p
    &&& forall|x: Seq<u8>| #[trigger]
        orph.contains(x) ==> removed.contains(x) || (exists|i: int|
            0 <= i < td.len() && descends(m0, x, td[i]))
}

/// Popping the last worklist entry and enqueuing its children preserves the
/// worklist invariant.
#[verifier::rlimit(100)]
#[verifier::spinoff_prover]
proof fn lemma_prune_pop(
    m0: ManagerModel,
    b: Seq<u8>,
    removed: Set<Seq<u8>>,
    td0: Seq<Seq<u8>>,
    more: Seq<Seq<u8>>,
)
    requires
        tree_wf(m0),
        m0.parents.contains_key(b),
        worklist_inv(m0, b, removed, td0),
        td0.len() > 0,
        m0.children.contains_key(td0.last()) ==> more == m0.children[td0.last()],
        !m0.children.contains_key(td0.last()) ==> more.len() == 0,
    ensures
        worklist_inv(m0, b, removed.insert(td0.last()), td0.drop_last() + more),
        orphan_set(m0, b).contains(td0.last()),
        m0.parents.contains_key(td0.last()),
        m0.ids.contains_key(td0.last()),
        td0.last() != b,
        td0.last() != m0.parents[b],
        !removed.contains(td0.last()),
{
    let p = m0.parents[b];
    let orph = orphan_set(m0, b);
    let y = td0.last();
    let removed2 = removed.insert(y);
    let td1 = td0.drop_last() + more;
    lemma_target_not_orphan(m0, b);
    assert(orph.contains(y) && !removed.contains(y));
    lemma_orphan_open(m0, b, y);
    assert(y != b && y != p);
    assert(m0.ids.contains_key(y));
    assert(forall|i: int| 0 <= i < td0.len() - 1 ==> td1[i] == td0[i]);
    assert(forall|i: int| 0 <= i < more.len() ==> td1[td0.len() - 1 + i] == more[i]);
    // facts about the enqueued children of y
    assert forall|i: int| 0 <= i < more.len() implies m0.parents.contains_key(#[trigger] more[i])
        && m0.parents[more[i]] == y && orph.contains(more[i]) && more[i] != y by {
        assert(m0.children.contains_key(y));
        assert(m0.children[y][i] == more[i]);
        let c = more[i];
        assert(m0.parents.contains_key(c) && m0.parents[c] == y);
        let s = choose|s: Seq<u8>| sibling_set(m0, b).contains(s) && descends(m0, y, s);
        assert(descends(m0, c, s));
        assert(orph.contains(c));
        if c == y {
            assert(m0.parents[y] == y);
            assert(m0.ids[y] < m0.ids[y]);
        }
    }
    // distinctness of the new worklist
    assert forall|i1: int, i2: int| 0 <= i1 < i2 < td1.len() implies td1[i1] != td1[i2] by {
        if i1 < td0.len() - 1 && i2 < td0.len() - 1 {
            assert(td1[i1] == td0[i1] && td1[i2] == td0[i2]);
        } else if i1 < td0.len() - 1 {
            // an old entry's parent is pruned or p; a new entry's parent is
            // y, which is neither
            let c1 = td1[i1];
            let c2 = td1[i2];
            assert(c1 == td0[i1]);
            assert(c2 == more[i2 - (td0.len() - 1)]);
            assert(m0.parents[c2] == y);
            assert(removed.contains(m0.parents[c1]) || m0.parents[c1] == p);
        } else {
            let j1 = i1 - (td0.len() - 1);
            let j2 = i2 - (td0.len() - 1);
            assert(m0.children.contains_key(y));
            assert(m0.children[y][j1] == td1[i1]);
            assert(m0.children[y][j2] == td1[i2]);
        }
    }
    // entry facts for the new worklist
    assert forall|i: int| 0 <= i < td1.len() implies orph.contains(#[trigger] td1[i])
        && !removed2.contains(td1[i]) && (removed2.contains(m0.parents[td1[i]])
        || m0.parents[td1[i]] == p) by {
        if i < td0.len() - 1 {
            assert(td1[i] == td0[i]);
            assert(td0[i] != y);
        } else {
            let c = td1[i];
            assert(c == more[i - (td0.len() - 1)]);
            assert(m0.parents[c] == y && removed2.contains(y));
            assert(c != y);
            if removed.contains(c) {
                assert(removed.contains(m0.parents[c]) || m0.parents[c] == p);
            }
        }
    }
    // the pruned set stays inside the orphans and parent-closed
    assert forall|x: Seq<u8>| #[trigger] removed2.contains(x) implies removed2.contains(
        m0.parents[x],
    ) || m0.parents[x] == p by {
        if x == y {
            assert(removed.contains(m0.parents[y]) || m0.parents[y] == p);
        }
    }
    // coverage of the orphans by the new state
    assert forall|x: Seq<u8>| #[trigger] orph.contains(x) implies removed2.contains(x) || (exists|
        i: int,
    |
        0 <= i < td1.len() && descends(m0, x, td1[i])) by {
        if !removed2.contains(x) {
            let i = choose|i: int| 0 <= i < td0.len() && descends(m0, x, td0[i]);
            if i < td0.len() - 1 {
                assert(td1[i] == td0[i]);
                assert(0 <= i < td1.len() && descends(m0, x, td1[i]));
            } else {
                // x descended through y: it descends from one of y's children
                assert(descends(m0, x, y));
                assert(x != y);
                lemma_descends_child(m0, x, y);
                let c = choose|c: Seq<u8>|
                    m0.parents.contains_key(c) && m0.parents[c] == y && #[trigger] descends(
                        m0,
                        x,
                        c,
                    );
                assert(m0.children.contains_key(y) && m0.children[y].contains(c));
                let j = choose|j: int| 0 <= j < m0.children[y].len() && m0.children[y][j] == c;
                assert(td1[td0.len() - 1 + j] == c);
                assert(0 <= td0.len() - 1 + j < td1.len() && descends(
                    m0,
                    x,
                    td1[td0.len() - 1 + j],
                ));
            }
        }
    }
}

/// An empty worklist means every orphan has been pruned.
proof fn lemma_prune_done(m0: ManagerModel, b: Seq<u8>, removed: Set<Seq<u8>>)
    requires
        worklist_inv(m0, b, removed, Seq::<Seq<u8>>::empty()),
    ensures
        removed == orphan_set(m0, b),
{
    let orph = orphan_set(m0, b);
    assert forall|x: Seq<u8>| orph.contains(x) implies removed.contains(x) by {
        if !removed.contains(x) {
            let i = choose|i: int|
                0 <= i < Seq::<Seq<u8>>::empty().len() && descends(
                    m0,
                    x,
                    Seq::<Seq<u8>>::empty()[i],
                );
        }
    }
    assert(removed =~= orph);
}

impl BlockStateManager {
    /// Finalize the block: commit its layer's writes (if registered) to the
    /// store, remove the block from the tree, and discard the entire subtree
    /// of each of its siblings.  Finalizing an unknown block fails and
    /// changes nothing; so does finalizing the same block twice.
    #[verifier::rlimit(100)]
    pub fn finalize_snapshot(&mut self, block_hash: &Vec<u8>) -> (r: Result<(), StateError>)
        requires
            old(self).wf(),
        ensures
            final(self).wf(),
            match r {
                Ok(()) => old(self)@.parents.contains_key(block_hash@) && final(self)@
                    == spec_finalize(old(self)@, block_hash@),
                Err(e) => {
                    &&& e == StateError::UnknownBlock
                    &&& !old(self)@.parents.contains_key(block_hash@)
                    &&& !old(self)@.layers.contains_key(block_hash@)
                    &&& final(self)@ == old(self)@
                },
            },
    {
        let ghost m0 = self@;
        let ghost b = block_hash@;
        proof {
            self.blocks_to_parent.lemma_finite();
            assert(m0.parents.dom() =~= self.blocks_to_parent@.dom());
        }
        let parent: Vec<u8> = match self.blocks_to_parent.remove(block_hash) {
            Some(p) => p,
            None => {
                proof {
                    assert(self.blocks_to_parent@ =~= old(self).blocks_to_parent@);
                    assert(self@ == m0);
                    if m0.layers.contains_key(b) {
                        assert(m0.parents.contains_key(b));
                    }
                }
                return Err(StateError::UnknownBlock);
            },
        };
        let ghost p = parent@;
        proof {
            assert(m0.parents.contains_key(b) && m0.parents[b] == p);
            lemma_target_not_orphan(m0, b);
        }
        let ghost orph = orphan_set(m0, b);

        // commit the layer of the finalized block, if one was registered
        match self.snapshots.remove(block_hash) {
            Some(snap) => {
                proof {
                    assert(m0.layers.contains_key(b) && m0.layers[b] == snap@);
                }
                let writes = crate::cache::cache_log_take_writes(snap.into_cache_log());
                proof {
                    lemma_batch_map_exact(writes@, m0.layers[b].writes);
                }
                self.db.commit(writes);
            },
            None => {
                proof {
                    assert(!m0.layers.contains_key(b));
                }
            },
        }
        proof {
            assert(self.db@ == spec_finalize(m0, b).store);
        }

        // release the snapshot id of the finalized block
        match self.hash_to_id.remove(block_hash) {
            Some(idv) => {
                let _ = self.snapshot_id_to_block_hash.remove(&idv);
                proof {
                    assert(idv == m0.ids[b]);
                }
            },
            None => {
                proof {
                    assert(m0.ids.contains_key(b));
                    assert(false);
                }
            },
        }

        // the other children of the parent are the roots of the orphaned
        // subtrees
        let siblings: Vec<Vec<u8>> = match self.chain_forks.remove(&parent) {
            Some(list) => list,
            None => {
                proof {
                    assert(m0.children.contains_key(p));
                    assert(false);
                }
                Vec::new()
            },
        };
        proof {
            assert(hashes_view(siblings) == m0.children[p]);
        }
        let mut to_discard: Vec<Vec<u8>> = Vec::new();
        let n = siblings.len();
        let mut k: usize = 0;
        while k < n
            invariant
                0 <= k <= n,
                n == siblings@.len(),
                hashes_view(siblings) == m0.children[p],
                tree_wf(m0),
                m0.parents.contains_key(b),
                p == m0.parents[b],
                b == block_hash@,
                forall|i: int|
                    0 <= i < to_discard@.len() ==> #[trigger] to_discard@[i]@ != b && (exists|
                        j: int,
                    |
                        0 <= j < k && siblings@[j]@ == to_discard@[i]@),
                forall|j: int|
                    0 <= j < k && #[trigger] siblings@[j]@ != b ==> (exists|i: int|
                        0 <= i < to_discard@.len() && to_discard@[i]@ == siblings@[j]@),
                forall|i1: int, i2: int|
                    0 <= i1 < i2 < to_discard@.len() ==> to_discard@[i1]@ != to_discard@[i2]@,
            decreases n - k,
        {
            let ghost td_before = to_discard@;
            if !crate::types::bytes_eq(&siblings[k], block_hash) {
                to_discard.push(clone_bytes(&siblings[k]));
                proof {
                    assert(to_discard@[to_discard@.len() - 1]@ == siblings@[k as int]@);
                    assert(forall|i: int|
                        0 <= i < td_before.len() ==> to_discard@[i] == td_before[i]);
                    assert forall|i1: int, i2: int|
                        0 <= i1 < i2 < to_discard@.len() implies to_discard@[i1]@
                        != to_discard@[i2]@ by {
                        if i2 == to_discard@.len() - 1 {
                            let j = choose|j: int|
                                0 <= j < k && siblings@[j]@ == to_discard@[i1]@;
                            assert(m0.children[p][j] == siblings@[j]@);
                            assert(m0.children[p][k as int] == siblings@[k as int]@);
                        }
                    }
                    assert forall|j: int|
                        0 <= j < k + 1 && #[trigger] siblings@[j]@ != b implies (exists|i: int|
                        0 <= i < to_discard@.len() && to_discard@[i]@ == siblings@[j]@) by {
                        if j < k {
                            let i0 = choose|i: int|
                                0 <= i < td_before.len() && td_before[i]@ == siblings@[j]@;
                            assert(to_discard@[i0]@ == siblings@[j]@);
                        } else {
                            assert(to_discard@[to_discard@.len() - 1]@ == siblings@[j]@);
                        }
                    }
                }
            } else {
                proof {
                    assert(siblings@[k as int]@ == b);
                }
            }
            k += 1;
        }

        let ghost mut removed: Set<Seq<u8>> = Set::empty();
        proof {
            // the filtered worklist satisfies the pruning invariant
            assert forall|i: int| 0 <= i < hashes_view(to_discard).len() implies orphan_set(
                m0,
                b,
            ).contains(#[trigger] hashes_view(to_discard)[i]) && m0.parents.contains_key(
                hashes_view(to_discard)[i],
            ) && m0.parents[hashes_view(to_discard)[i]] == p by {
                let c = hashes_view(to_discard)[i];
                assert(c == to_discard@[i]@);
                let j = choose|j: int| 0 <= j < siblings@.len() && siblings@[j]@ == c;
                assert(m0.children[p][j] == c);
                assert(m0.parents.contains_key(c) && m0.parents[c] == p);
                assert(m0.children[p].contains(c));
                assert(sibling_set(m0, b).contains(c));
                assert(descends(m0, c, c));
            }
            assert forall|x: Seq<u8>| #[trigger] orph.contains(x) implies removed.contains(x) || (
            exists|i: int|
                0 <= i < hashes_view(to_discard).len() && descends(
                    m0,
                    x,
                    hashes_view(to_discard)[i],
                )) by {
                let s = choose|s: Seq<u8>| sibling_set(m0, b).contains(s) && descends(m0, x, s);
                assert(m0.children[p].contains(s));
                let j = choose|j: int| 0 <= j < m0.children[p].len() && m0.children[p][j] == s;
                assert(siblings@[j]@ == s);
                let i = choose|i: int| 0 <= i < to_discard@.len() && to_discard@[i]@ == s;
                assert(hashes_view(to_discard)[i] == s);
                assert(descends(m0, x, hashes_view(to_discard)[i]));
            }
            assert(worklist_inv(m0, b, removed, hashes_view(to_discard)));
            // the maps now reflect the removal of b alone
            assert(self@.parents =~= m0.parents.remove_keys(removed.insert(b)));
            assert(self@.children =~= m0.children.remove_keys(removed.insert(p)));
            assert(self@.layers =~= m0.layers.remove_keys(removed.insert(b)));
            assert(self@.ids =~= m0.ids.remove_keys(removed.insert(b)));
            assert(self@.id_index =~= Map::new(
                |id: SnapshotId| m0.id_index.contains_key(id) && !removed.insert(b).contains(
                    m0.id_index[id],
                ),
                |id: SnapshotId| m0.id_index[id],
            )) by {
                assert forall|id: SnapshotId|
                    m0.id_index.contains_key(id) && m0.id_index[id] != b implies id
                    != m0.ids[b] by {
                    if id == m0.ids[b] {
                        assert(m0.id_index[m0.ids[b]] == b);
                    }
                }
            }
        }

        while to_discard.len() > 0
            invariant
                self.maps_wf(),
                tree_wf(m0),
                m0.parents.contains_key(b),
                p == m0.parents[b],
                b == block_hash@,
                orph == orphan_set(m0, b),
                m0.parents.dom().finite(),
                worklist_inv(m0, b, removed, hashes_view(to_discard)),
                self@.parents == m0.parents.remove_keys(removed.insert(b)),
                self@.children == m0.children.remove_keys(removed.insert(p)),
                self@.layers == m0.layers.remove_keys(removed.insert(b)),
                self@.ids == m0.ids.remove_keys(removed.insert(b)),
                self@.id_index == Map::new(
                    |id: SnapshotId| m0.id_index.contains_key(id) && !removed.insert(b).contains(
                        m0.id_index[id],
                    ),
                    |id: SnapshotId| m0.id_index[id],
                ),
                self@.store == spec_finalize(m0, b).store,
                self@.next == m0.next,
            decreases self@.parents.dom().len(),
        {
            let ghost td0 = hashes_view(to_discard);
            let ghost parents_before = self@.parents;
            let next_hash: Vec<u8> = match to_discard.pop() {
                Some(h) => h,
                None => {
                    proof {
                        assert(false);
                    }
                    Vec::new()
                },
            };
            let ghost y = next_hash@;
            proof {
                assert(y == td0.last());
                assert(hashes_view(to_discard) =~= td0.drop_last());
            }
            // the children of the pruned block join the worklist
            let ghost children_before = self@.children;
            let ghost forks_before = self.chain_forks@;
            let mut more: Vec<Vec<u8>> = match self.chain_forks.remove(&next_hash) {
                Some(list) => list,
                None => Vec::new(),
            };
            let ghost more_view = hashes_view(more);
            proof {
                assert(orph.contains(td0[td0.len() - 1]) && !removed.contains(
                    td0[td0.len() - 1],
                ));
                assert(orph.contains(y) && !removed.contains(y));
                lemma_target_not_orphan(m0, b);
                assert(y != b) by {
                    if y == b {
                        assert(orph.contains(b));
                    }
                }
                assert(y != p) by {
                    if y == p {
                        assert(orph.contains(p));
                    }
                }
                assert(children_before == forks_before.map_values(
                    |v: Vec<Vec<u8>>| hashes_view(v),
                ));
                if m0.children.contains_key(y) {
                    assert(children_before.contains_key(y));
                    assert(forks_before.contains_key(y));
                    assert(hashes_view(forks_before[y]) == children_before[y]);
                    assert(children_before[y] == m0.children[y]);
                    assert(more_view == m0.children[y]);
                } else {
                    assert(!children_before.contains_key(y));
                    assert(!forks_before.contains_key(y));
                    assert(more_view =~= Seq::<Seq<u8>>::empty());
                    assert(more_view.len() == 0);
                }
                lemma_prune_pop(m0, b, removed, td0, more_view);
            }
            let _ = self.blocks_to_parent.remove(&next_hash);
            let _ = self.snapshots.remove(&next_hash);
            let ghost idx_before = self@.id_index;
            match self.hash_to_id.remove(&next_hash) {
                Some(idv) => {
                    proof {
                        lemma_orphan_open(m0, b, y);
                        assert(idv == m0.ids[y]);
                    }
                    let _ = self.snapshot_id_to_block_hash.remove(&idv);
                    proof {
                        assert(self@.id_index =~= idx_before.remove(idv));
                    }
                },
                None => {
                    proof {
                        assert(m0.ids.contains_key(y));
                        assert(self@.ids.contains_key(y));
                        assert(false);
                    }
                },
            }
            to_discard.append(&mut more);
            proof {
                let removed2 = removed.insert(y);
                assert(hashes_view(to_discard) =~= td0.drop_last() + more_view);
                // the maps after removing y
                assert(self@.parents =~= parents_before.remove(y));
                lemma_remove_keys_step(m0.parents, removed.insert(b), y);
                assert(removed.insert(b).insert(y) =~= removed2.insert(b));
                assert(self@.parents == m0.parents.remove_keys(removed2.insert(b)));
                assert(self@.children =~= children_before.remove(y));
                lemma_remove_keys_step(m0.children, removed.insert(p), y);
                assert(removed.insert(p).insert(y) =~= removed2.insert(p));
                assert(self@.children == m0.children.remove_keys(removed2.insert(p)));
                assert(self@.layers =~= m0.layers.remove_keys(removed.insert(b)).remove(y));
                lemma_remove_keys_step(m0.layers, removed.insert(b), y);
                assert(self@.layers == m0.layers.remove_keys(removed2.insert(b)));
                assert(self@.ids =~= m0.ids.remove_keys(removed.insert(b)).remove(y));
                lemma_remove_keys_step(m0.ids, removed.insert(b), y);
                assert(self@.ids == m0.ids.remove_keys(removed2.insert(b)));
                assert(self@.id_index =~= Map::new(
                    |id: SnapshotId| m0.id_index.contains_key(id) && !removed2.insert(b).contains(
                        m0.id_index[id],
                    ),
                    |id: SnapshotId| m0.id_index[id],
                )) by {
                    assert forall|id: SnapshotId|
                        m0.id_index.contains_key(id) && m0.id_index[id] != y implies id
                        != m0.ids[y] by {
                        if id == m0.ids[y] {
                            assert(m0.id_index[m0.ids[y]] == y);
                        }
                    }
                }
                // the measure decreases: y left the parents map
                assert(parents_before.contains_key(y));
                assert(parents_before.dom().finite()) by {
                    vstd::set_lib::lemma_len_subset(parents_before.dom(), m0.parents.dom());
                }
                assert(self@.parents.dom() =~= parents_before.dom().remove(y));
                vstd::set::axiom_set_remove_len(parents_before.dom(), y);
                removed = removed2;
            }
        }

        proof {
            assert(hashes_view(to_discard) =~= Seq::<Seq<u8>>::empty());
            lemma_prune_done(m0, b, removed);
            let t = spec_finalize(m0, b);
            assert(self@.parents =~= t.parents);
            assert(self@.children =~= t.children);
            assert(self@.layers =~= t.layers);
            assert(self@.ids =~= t.ids);
            assert(self@.id_index =~= t.id_index);
            assert(self@ == t);
            lemma_finalize_wf(m0, b);
        }
        Ok(())
    }
}

} // verus!

// === laws of finalization ===

verus! {

/// Orphan pruning completeness: after finalizing `b`, every block that at
/// the moment of the call was a sibling of `b`, or a descendant of such a
/// sibling, is absent from all three fork-tree mappings.
pub proof fn lemma_orphan_pruning_complete(m: ManagerModel, b: Seq<u8>, x: Seq<u8>)
    requires
        tree_wf(m),
        m.parents.contains_key(b),
        orphan_set(m, b).contains(x),
    ensures
        !spec_finalize(m, b).parents.contains_key(x),
        !spec_finalize(m, b).children.contains_key(x),
        !spec_finalize(m, b).layers.contains_key(x),
{
}

/// Finalization round-trip: registering the layer of a block and then
/// finalizing that block leaves the store holding exactly that layer's
/// writes on top of its prior contents; no other block's writes are
/// applied.
pub proof fn lemma_finalize_round_trip(m: ManagerModel, s: SnapshotModel)
    requires
        tree_wf(m),
        m.id_index.contains_key(s.id),
    ensures
        spec_finalize(spec_register_layer(m, s), m.id_index[s.id]).store == crate::db::apply_writes(
            m.store,
            s.writes,
        ),
{
    let b = m.id_index[s.id];
    let m1 = spec_register_layer(m, s);
    assert(m1.layers.contains_key(b) && m1.layers[b] == s);
    assert(m1.store == m.store);
}

} // verus!

// === the manager as a parent-chain query source ===

verus! {

impl QueryParents for BlockStateManager {
    open spec fn q_model(&self) -> ManagerModel {
        self@
    }

    open spec fn q_wf(&self) -> bool {
        self.wf()
    }

    fn get_value_recursively(&self, snapshot_id: &SnapshotId, key: &Key) -> (r: Option<
        Option<Value>,
    >) {
        BlockStateManager::get_value_recursively(self, snapshot_id, key)
    }
}

} // verus!
