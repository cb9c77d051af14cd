//! What the tree operations that answer with a boolean mean.
//!
//! The answer `false` stands for situations that ask for different responses. Each operation here names its outcomes,
//! and no other module makes the calls.
use crate::primitives::BlockHeight;
use crate::trees::{pruned, rolled_back, tree_at_checkpoint, tree_rolled_back, CheckpointView, NoteTree, TreeError, TreeView};
use vstd::prelude::*;

verus! {

/// Outcome of appending a checkpoint that records the tree's current frontier at a new height.
#[derive(Clone, Copy, Debug, PartialEq, Eq, Structural)]
pub enum CheckpointAppendOutcome {
    /// The frontier was recorded.
    Appended,
    /// The id is not above the newest checkpoint. The tree is unchanged.
    NotAboveNewest,
}

/// Outcome of rolling a tree back to a checkpoint.
#[derive(Clone, Copy, Debug, PartialEq, Eq, Structural)]
pub enum RollbackOutcome {
    /// The tree was truncated to the checkpoint's state.
    RolledBack,
    /// No checkpoint exists with the given id. The tree is unchanged.
    NoSuchCheckpoint,
}

/// Whether all checkpoints of the tree are below `id`.
pub open spec fn above_newest(tree: TreeView, id: BlockHeight) -> bool {
    forall|other: BlockHeight| #[trigger] tree.checkpoints.contains_key(other) ==> other < id
}

impl NoteTree {
    /// Appends a checkpoint that records the tree's current frontier.
    ///
    /// The oldest checkpoints go where there are too many, apart from those retained.
    pub fn append_checkpoint(&mut self, checkpoint_id: BlockHeight) -> (r: CheckpointAppendOutcome)
        ensures
            (r == CheckpointAppendOutcome::Appended) == above_newest(old(self)@, checkpoint_id),
            r == CheckpointAppendOutcome::NotAboveNewest ==> final(self)@ == old(self)@,
            r == CheckpointAppendOutcome::Appended ==> {
                &&& final(self)@ == tree_at_checkpoint(old(self)@, checkpoint_id)
                &&& final(self)@.checkpoints == pruned(
                    old(self)@.checkpoints.insert(
                        checkpoint_id,
                        CheckpointView {
                            position: final(self)@.checkpoints[checkpoint_id].position,
                            marks_removed: Set::empty(),
                        },
                    ),
                    old(self)@.retained,
                )
                &&& final(self)@.shards.len() == old(self)@.shards.len()
                &&& old(self)@.shards.len() == 0
                    ==> final(self)@.checkpoints[checkpoint_id].position.is_none()
                &&& final(self)@.orchard == old(self)@.orchard
                &&& final(self)@.cap == old(self)@.cap
                &&& final(self)@.retained == old(self)@.retained
            },
    {
        let ghost before = self@;
        if self.checkpoint(checkpoint_id) {
            assert(above_newest(before, checkpoint_id));
            CheckpointAppendOutcome::Appended
        } else {
            assert(!above_newest(before, checkpoint_id));
            CheckpointAppendOutcome::NotAboveNewest
        }
    }

    /// Takes the tree back to the state at a checkpoint.
    ///
    /// This fails, and changes nothing, where the last leaf of that state is no longer in the tree.
    pub fn rollback_to_checkpoint(&mut self, checkpoint_id: BlockHeight) -> (r: Result<RollbackOutcome, TreeError>)
        ensures
            (r == Ok::<RollbackOutcome, TreeError>(RollbackOutcome::NoSuchCheckpoint)) == !old(self)@.checkpoints.contains_key(checkpoint_id),
            r == Ok::<RollbackOutcome, TreeError>(RollbackOutcome::NoSuchCheckpoint) ==> final(self)@ == old(self)@,
            old(self)@.checkpoints.contains_key(checkpoint_id) ==> {
                match tree_rolled_back(old(self)@, checkpoint_id) {
                    Ok(tree) => r == Ok::<RollbackOutcome, TreeError>(RollbackOutcome::RolledBack) && final(self)@
                        == tree,
                    Err(error) => r == Err::<RollbackOutcome, TreeError>(error) && final(self)@ == old(self)@,
                }
            },
            r == Ok::<RollbackOutcome, TreeError>(RollbackOutcome::RolledBack) ==> {
                &&& final(self)@.checkpoints == rolled_back(old(self)@.checkpoints, checkpoint_id)
                &&& final(self)@.shards.len() <= old(self)@.shards.len()
                &&& final(self)@.orchard == old(self)@.orchard
                &&& final(self)@.retained == old(self)@.retained
                &&& old(self)@.checkpoints[checkpoint_id].position.is_none() ==> final(self)@.shards.len() == 0
            },
            r is Err ==> old(self)@.checkpoints[checkpoint_id].position.is_some(),
    {
        match self.truncate_to_checkpoint(checkpoint_id) {
            Ok(true) => Ok(RollbackOutcome::RolledBack),
            Ok(false) => Ok(RollbackOutcome::NoSuchCheckpoint),
            Err(error) => Err(error),
        }
    }

    /// Keeps the checkpoint at `checkpoint_id` from being pruned.
    pub fn retain_checkpoint(&mut self, checkpoint_id: BlockHeight)
        ensures
            final(self)@ == (TreeView { retained: old(self)@.retained.insert(checkpoint_id), ..old(self)@ }),
    {
        self.ensure_retained(checkpoint_id);
    }
}

/// Appending twice at one height records the frontier once.
pub proof fn law_checkpoint_is_appended_once(
    checkpoints: Map<BlockHeight, CheckpointView>,
    retained: Set<BlockHeight>,
    id: BlockHeight,
    checkpoint: CheckpointView,
)
    requires
        forall|other: BlockHeight| #[trigger] checkpoints.contains_key(other) ==> other < id,
    ensures
        pruned(checkpoints.insert(id, checkpoint), retained).contains_key(id),
        pruned(checkpoints.insert(id, checkpoint), retained)[id] == checkpoint,
{
    let all = checkpoints.insert(id, checkpoint);
    assert(crate::trees::newer_unretained(all, retained, id) =~= Set::<BlockHeight>::empty());
}

} // verus!
