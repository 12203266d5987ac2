use vstd::prelude::*;

verus! {

/// A snapshot of the state as the rollup interface sees it: it answers for
/// values written or observed on its own state and never queries parents or
/// the store.
pub trait Snapshot {
    type Id;

    type Key;

    type Value;

    /// Own value: a value from this snapshot's own cache alone.
    fn get_value(&self, key: &Self::Key) -> Option<Self::Value>;

    /// Helper for mapping snapshots to the blocks they belong to.
    fn get_id(&self) -> Self::Id;
}

/// A state-transition function: it consumes one snapshot handle plus a batch
/// of opaque transactions and returns the witness of the block's execution
/// together with exactly one completed snapshot.
pub trait STF {
    type Witness;

    type BlobTransaction;

    type CheckpointRef;

    type Snapshot;

    /// The read-only surroundings the transition function consults; for
    /// this library, the block-state manager holding the parent layers.
    type Context;

    /// What the transition function needs of its context.
    spec fn context_inv(&self, context: &Self::Context) -> bool;

    fn apply_slot(
        &mut self,
        context: &Self::Context,
        base: Self::CheckpointRef,
        blobs: Vec<Self::BlobTransaction>,
    ) -> (Self::Witness, Self::Snapshot)
        requires
            old(self).context_inv(context),
    ;
}

} // verus!
