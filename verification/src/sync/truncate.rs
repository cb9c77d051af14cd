//! What a correct truncation does: two decisions, and the code that applies them.
//!
//! [`plan_truncation`] decides for the wallet as a whole whether there is nothing to do, everything goes, or the wallet
//! is rolled back to the target. [`plan_pool_truncation`] decides for one tree, from what it records. Each outcome
//! for a tree carries the checkpoint that justifies it.
//!
//! - Blocks, transactions, nullifiers and outpoints keep exactly the data at or below the height.
//! - A tree that holds a checkpoint at the height is rolled back to it.
//! - A tree that records nothing above the height is left as it is: it has nothing to remove.
//! - A tree that holds state above the height and no checkpoint at it cannot be rolled back. Only clearing the
//!   wallet and rescanning restores it.
use crate::error::SyncError;
use crate::primitives::{BlockHeight, ShieldedPool, TxId};
use crate::sync::state::{truncate_scan_ranges, truncated};
use crate::trees::{
    lists_checkpoints, rolled_back, tree_rolled_back, CheckpointEntry, CheckpointView, NoteTree, TreeError, TreeView,
};
use crate::sync::targets::{add_scan_targets, confirmed_targets, is_confirmed_target};
use crate::wallet::data::{blocks_up_to, stores_cut_off, transactions_cut_off, truncate_stores, up_to, Wallet};
use crate::wallet::shard_trees::{fresh_tree, ShardTrees, ShardTreesView};
use crate::wallet::stores::tx_views;
use crate::wallet::sync_state::{no_session, ScanTarget, SyncState};
use crate::wallet::transaction::{TransactionView, WalletTransaction};
use vstd::prelude::*;

verus! {

/// What a truncation decision reads of the wallet: where scanning began and how far it has reached.
#[derive(Clone, Copy, Debug, PartialEq, Eq, Structural)]
pub struct WalletTruncationState {
    /// A target below it means that no retained state can anchor the wallet.
    pub birthday: BlockHeight,
    /// A target above it leaves nothing to remove.
    pub highest_scanned_height: BlockHeight,
}

/// What the decision for one tree reads of it.
///
/// A checkpoint records every scanned state that the tree has taken in, so the newest one bounds what was scanned.
#[derive(Clone, Copy, Debug, PartialEq, Eq, Structural)]
pub struct TreeTruncationFacts {
    /// The checkpoint that the tree holds exactly at the target.
    pub checkpoint_at_target: Option<BlockHeight>,
    /// The newest checkpoint that the tree holds.
    pub newest_checkpoint: Option<BlockHeight>,
}

/// The correct truncation of one tree, with what justifies it.
#[derive(Clone, Copy, Debug, PartialEq, Eq, Structural)]
pub enum PoolTruncation {
    /// The tree holds this checkpoint at the target: roll back to it.
    ToCheckpoint { checkpoint: BlockHeight },
    /// The tree records nothing above the target: leave it as it is.
    Untouched,
    /// The tree holds state above the target and no checkpoint at it: only a rescan restores it.
    RequiresRescan {
        /// The newest checkpoint, which is above the target.
        newest_checkpoint: BlockHeight,
    },
}

/// The correct truncation of the wallet.
#[derive(Clone, Copy, Debug, PartialEq, Eq, Structural)]
pub enum TruncationPlan {
    /// The target lies above the highest scanned block: nothing is removed.
    NoOp,
    /// The target lies below the wallet birthday, or is height zero: everything goes.
    ClearAll,
    /// Roll the wallet back.
    Truncate {
        /// The height retained. Everything strictly above it goes.
        height: BlockHeight,
    },
}

/// The correct truncation of the wallet.
pub open spec fn truncation_plan(state: WalletTruncationState, truncate_height: BlockHeight) -> TruncationPlan {
    if truncate_height == 0 || truncate_height < state.birthday {
        TruncationPlan::ClearAll
    } else if truncate_height > state.highest_scanned_height {
        TruncationPlan::NoOp
    } else {
        TruncationPlan::Truncate { height: truncate_height }
    }
}

/// The correct truncation of a tree.
pub open spec fn pool_truncation(facts: TreeTruncationFacts, truncate_height: BlockHeight) -> PoolTruncation {
    match (facts.checkpoint_at_target, facts.newest_checkpoint) {
        (Some(checkpoint), _) => PoolTruncation::ToCheckpoint { checkpoint },
        (None, Some(newest_checkpoint)) => if newest_checkpoint > truncate_height {
            PoolTruncation::RequiresRescan { newest_checkpoint }
        } else {
            PoolTruncation::Untouched
        },
        (None, None) => PoolTruncation::Untouched,
    }
}

/// Whether the facts are those of a tree with the given checkpoints.
pub open spec fn facts_of(
    facts: TreeTruncationFacts,
    checkpoints: Map<BlockHeight, CheckpointView>,
    truncate_height: BlockHeight,
) -> bool {
    &&& facts.checkpoint_at_target == if checkpoints.contains_key(truncate_height) {
        Some(truncate_height)
    } else {
        None
    }
    &&& match facts.newest_checkpoint {
        Some(newest) => checkpoints.contains_key(newest) && forall|id: BlockHeight| #[trigger]
            checkpoints.contains_key(id) ==> id <= newest,
        None => forall|id: BlockHeight| !#[trigger] checkpoints.contains_key(id),
    }
}

/// Decides the correct truncation of the wallet.
pub fn plan_truncation(wallet_state: WalletTruncationState, truncate_height: BlockHeight) -> (r: TruncationPlan)
    ensures
        r == truncation_plan(wallet_state, truncate_height),
{
    if truncate_height == 0 || truncate_height < wallet_state.birthday {
        return TruncationPlan::ClearAll;
    }
    if truncate_height > wallet_state.highest_scanned_height {
        return TruncationPlan::NoOp;
    }
    TruncationPlan::Truncate { height: truncate_height }
}

/// Decides the correct truncation of one tree.
pub fn plan_pool_truncation(facts: TreeTruncationFacts, truncate_height: BlockHeight) -> (r: PoolTruncation)
    ensures
        r == pool_truncation(facts, truncate_height),
{
    if let Some(checkpoint) = facts.checkpoint_at_target {
        return PoolTruncation::ToCheckpoint { checkpoint };
    }
    match facts.newest_checkpoint {
        Some(newest_checkpoint) => if newest_checkpoint > truncate_height {
            PoolTruncation::RequiresRescan { newest_checkpoint }
        } else {
            PoolTruncation::Untouched
        },
        None => PoolTruncation::Untouched,
    }
}

/// Reads what the decision needs of one tree.
pub fn tree_facts(tree: &NoteTree, truncate_height: BlockHeight) -> (r: TreeTruncationFacts)
    ensures
        facts_of(r, tree@.checkpoints, truncate_height),
{
    let entries = tree.checkpoints();
    let ghost held = tree@.checkpoints;
    let mut at_target: Option<BlockHeight> = None;
    let count: usize = entries.len();
    let mut i: usize = 0;
    while i < count
        invariant
            i <= count == entries@.len(),
            lists_checkpoints(entries@, held),
            at_target == if exists|k: int| 0 <= k < i && (#[trigger] entries@[k]).id == truncate_height {
                Some(truncate_height)
            } else {
                None
            },
        decreases count - i,
    {
        if entries[i].id == truncate_height {
            at_target = Some(truncate_height);
        }
        i = i + 1;
    }
    proof {
        assert(held.contains_key(truncate_height) == exists|k: int|
            0 <= k < count && (#[trigger] entries@[k]).id == truncate_height);
    }
    let newest: Option<BlockHeight> = if count == 0 {
        None
    } else {
        Some(entries[count - 1].id)
    };
    proof {
        assert forall|id: BlockHeight| #[trigger] held.contains_key(id) implies count > 0 && id <= entries@[count
            - 1].id by {
            let k = choose|k: int| 0 <= k < entries@.len() && (#[trigger] entries@[k]).id == id;
            if k < count - 1 {
                assert(entries@[k].id < entries@[count - 1].id);
            }
        }
    }
    TreeTruncationFacts { checkpoint_at_target: at_target, newest_checkpoint: newest }
}

// --- what the decisions promise ---

/// The outcome for a tree is the one that its set of checkpoints asks for: it rolls back where there is a checkpoint
/// at the target, and otherwise asks for a rescan where there is one above it.
pub proof fn law_pool_outcome_agrees_with_the_checkpoints(
    facts: TreeTruncationFacts,
    checkpoints: Map<BlockHeight, CheckpointView>,
    truncate_height: BlockHeight,
)
    requires
        facts_of(facts, checkpoints, truncate_height),
    ensures
        pool_truncation(facts, truncate_height) is ToCheckpoint <==> checkpoints.contains_key(truncate_height),
        pool_truncation(facts, truncate_height) matches PoolTruncation::ToCheckpoint { checkpoint } ==> checkpoint
            == truncate_height,
        pool_truncation(facts, truncate_height) is RequiresRescan <==> !checkpoints.contains_key(truncate_height)
            && exists|id: BlockHeight| #[trigger] checkpoints.contains_key(id) && id > truncate_height,
        pool_truncation(facts, truncate_height) matches PoolTruncation::RequiresRescan { newest_checkpoint }
            ==> checkpoints.contains_key(newest_checkpoint) && newest_checkpoint > truncate_height && forall|
            id: BlockHeight,
        | #[trigger] checkpoints.contains_key(id) ==> id <= newest_checkpoint,
{
}

/// A tree that records nothing above the target is never condemned to a rescan.
pub proof fn law_nothing_above_is_never_condemned(facts: TreeTruncationFacts, truncate_height: BlockHeight)
    requires
        facts.newest_checkpoint matches Some(newest) ==> newest <= truncate_height,
    ensures
        !(pool_truncation(facts, truncate_height) is RequiresRescan),
{
}

/// A tree that a target leaves untouched is left untouched by every higher target, too.
pub proof fn law_untouched_is_upward_closed(
    low: TreeTruncationFacts,
    high: TreeTruncationFacts,
    checkpoints: Map<BlockHeight, CheckpointView>,
    low_height: BlockHeight,
    high_height: BlockHeight,
)
    requires
        facts_of(low, checkpoints, low_height),
        facts_of(high, checkpoints, high_height),
        low_height <= high_height,
        pool_truncation(low, low_height) is Untouched,
    ensures
        pool_truncation(high, high_height) is Untouched,
{
}

/// Every target has exactly one plan, and the retained height of a rollback is the target, which is not below the
/// birthday and has been scanned.
pub proof fn law_plan_is_total(state: WalletTruncationState, truncate_height: BlockHeight)
    ensures
        truncation_plan(state, truncate_height) is ClearAll <==> truncate_height == 0 || truncate_height < state.birthday,
        truncation_plan(state, truncate_height) is NoOp <==> truncate_height > 0 && state.birthday <= truncate_height
            && state.highest_scanned_height < truncate_height,
        truncation_plan(state, truncate_height) matches TruncationPlan::Truncate { height } ==> height
            == truncate_height && state.birthday <= height <= state.highest_scanned_height && height > 0,
{
}

// --- the trees ---

/// How truncating one tree ends.
pub enum TreeOutcome {
    /// The tree is truncated.
    Truncated(TreeView),
    /// The tree needs a rescan.
    Condemned,
    /// The tree no longer holds what its checkpoint needs.
    Refused(TreeError),
}

/// The correct truncation of a tree, carried out.
pub open spec fn tree_outcome(tree: TreeView, truncate_height: BlockHeight) -> TreeOutcome {
    if tree.checkpoints.contains_key(truncate_height) {
        match tree_rolled_back(tree, truncate_height) {
            Ok(back) => TreeOutcome::Truncated(back),
            Err(error) => TreeOutcome::Refused(error),
        }
    } else if exists|id: BlockHeight| #[trigger] tree.checkpoints.contains_key(id) && id > truncate_height {
        TreeOutcome::Condemned
    } else {
        TreeOutcome::Truncated(tree)
    }
}

/// Whether the tree holds no checkpoint above the height.
pub open spec fn nothing_above(tree: TreeView, height: BlockHeight) -> bool {
    forall|id: BlockHeight| #[trigger] tree.checkpoints.contains_key(id) ==> id <= height
}

/// Truncates one tree.
pub fn truncate_tree<E>(tree: &mut NoteTree, pool: ShieldedPool, truncate_height: BlockHeight) -> (r: Result<
    (),
    SyncError<E>,
>)
    ensures
        final(tree)@.orchard == old(tree)@.orchard,
        match tree_outcome(old(tree)@, truncate_height) {
            TreeOutcome::Truncated(view) => r.is_ok() && final(tree)@ == view,
            TreeOutcome::Condemned => r == Err::<(), SyncError<E>>(SyncError::TruncationError(truncate_height, pool))
                && final(tree)@ == old(tree)@,
            TreeOutcome::Refused(error) => {
                &&& r == Err::<(), SyncError<E>>(SyncError::ShardTreeError(error))
                &&& final(tree)@ == old(tree)@
                &&& old(tree)@.checkpoints[truncate_height].position.is_some()
            },
        },
        r.is_ok() && old(tree)@.checkpoints.contains_key(truncate_height) ==> final(tree)@.checkpoints == rolled_back(
            old(tree)@.checkpoints,
            truncate_height,
        ),
        r.is_ok() ==> nothing_above(final(tree)@, truncate_height),
{
    let facts = tree_facts(tree, truncate_height);
    proof {
        law_pool_outcome_agrees_with_the_checkpoints(facts, tree@.checkpoints, truncate_height);
    }
    match plan_pool_truncation(facts, truncate_height) {
        PoolTruncation::ToCheckpoint { checkpoint } => match tree.rollback_to_checkpoint(checkpoint) {
            Ok(_) => Ok(()),
            Err(error) => Err(SyncError::ShardTreeError(error)),
        },
        PoolTruncation::Untouched => Ok(()),
        PoolTruncation::RequiresRescan { newest_checkpoint } => Err(
            SyncError::TruncationError(truncate_height, pool),
        ),
    }
}

/// How truncating the trees of all pools ends: with the first pool whose tree cannot be truncated, or with none.
pub open spec fn trees_outcome(trees: ShardTreesView, truncate_height: BlockHeight) -> (
    ShardTreesView,
    Option<(ShieldedPool, TreeOutcome)>,
) {
    match tree_outcome(trees.sapling, truncate_height) {
        TreeOutcome::Truncated(sapling) => match tree_outcome(trees.orchard, truncate_height) {
            TreeOutcome::Truncated(orchard) => match tree_outcome(trees.ironwood, truncate_height) {
                TreeOutcome::Truncated(ironwood) => (ShardTreesView { sapling, orchard, ironwood }, None),
                other => (
                    ShardTreesView { sapling, orchard, ..trees },
                    Some((ShieldedPool::Ironwood, other)),
                ),
            },
            other => (ShardTreesView { sapling, ..trees }, Some((ShieldedPool::Orchard, other))),
        },
        other => (trees, Some((ShieldedPool::Sapling, other))),
    }
}

/// The error of a tree that could not be truncated.
pub open spec fn outcome_error<E>(
    refused: (ShieldedPool, TreeOutcome),
    truncate_height: BlockHeight,
) -> SyncError<E> {
    match refused.1 {
        TreeOutcome::Refused(error) => SyncError::ShardTreeError(error),
        _ => SyncError::TruncationError(truncate_height, refused.0),
    }
}

/// Truncates the trees of all pools, in the order of the pools.
pub fn truncate_shard_trees<E>(trees: &mut ShardTrees, truncate_height: BlockHeight) -> (r: Result<(), SyncError<E>>)
    requires
        old(trees).wf(),
    ensures
        final(trees).wf(),
        final(trees)@ == trees_outcome(old(trees)@, truncate_height).0,
        match trees_outcome(old(trees)@, truncate_height).1 {
            None => r.is_ok(),
            Some(refused) => r == Err::<(), SyncError<E>>(outcome_error(refused, truncate_height)),
        },
        r.is_ok() ==> nothing_above(final(trees)@.sapling, truncate_height) && nothing_above(
            final(trees)@.orchard,
            truncate_height,
        ) && nothing_above(final(trees)@.ironwood, truncate_height),
{
    if let Err(error) = truncate_tree(&mut trees.sapling, ShieldedPool::Sapling, truncate_height) {
        return Err(error);
    }
    if let Err(error) = truncate_tree(&mut trees.orchard, ShieldedPool::Orchard, truncate_height) {
        return Err(error);
    }
    truncate_tree(&mut trees.ironwood, ShieldedPool::Ironwood, truncate_height)
}

/// The checkpoint at the target or the lowest above it.
pub open spec fn is_next_checkpoint(
    checkpoints: Map<BlockHeight, CheckpointView>,
    target_height: BlockHeight,
    id: BlockHeight,
) -> bool {
    &&& checkpoints.contains_key(id)
    &&& id >= target_height
    &&& forall|other: BlockHeight| #[trigger]
        checkpoints.contains_key(other) && other >= target_height ==> id <= other
}

/// The tree at the lowest checkpoint at or above the target height, or as it is if there is none.
pub open spec fn tree_at_next_checkpoint(tree: TreeView, target_height: BlockHeight) -> Result<TreeView, TreeError> {
    if exists|id: BlockHeight| is_next_checkpoint(tree.checkpoints, target_height, id) {
        tree_rolled_back(
            tree,
            choose|id: BlockHeight| is_next_checkpoint(tree.checkpoints, target_height, id),
        )
    } else {
        Ok(tree)
    }
}

/// Truncates the tree to the lowest checkpoint at or above the target height.
///
/// If all checkpoints are below the target height, nothing is truncated. Data at the target height is never removed,
/// only data above it.
pub fn truncate_tree_to_next_checkpoint(target_height: BlockHeight, tree: &mut NoteTree) -> (r: Result<(), TreeError>)
    ensures
        final(tree)@.orchard == old(tree)@.orchard,
        match tree_at_next_checkpoint(old(tree)@, target_height) {
            Ok(view) => r.is_ok() && final(tree)@ == view,
            Err(error) => r == Err::<(), TreeError>(error) && final(tree)@ == old(tree)@,
        },
        (forall|id: BlockHeight| #[trigger] old(tree)@.checkpoints.contains_key(id) ==> id < target_height)
            ==> r.is_ok() && final(tree)@ == old(tree)@,
        forall|id: BlockHeight| #[trigger]
            is_next_checkpoint(old(tree)@.checkpoints, target_height, id) ==> match tree_rolled_back(old(tree)@, id) {
                Ok(view) => r.is_ok() && final(tree)@ == view && view.checkpoints == rolled_back(
                    old(tree)@.checkpoints,
                    id,
                ),
                Err(error) => r == Err::<(), TreeError>(error) && final(tree)@ == old(tree)@,
            },
{
    let entries = tree.checkpoints();
    let ghost held = tree@.checkpoints;
    let count: usize = entries.len();
    let mut i: usize = 0;
    while i < count && entries[i].id < target_height
        invariant
            i <= count == entries@.len(),
            forall|k: int| 0 <= k < i ==> (#[trigger] entries@[k]).id < target_height,
        decreases count - i,
    {
        i = i + 1;
    }
    if i == count {
        proof {
            assert forall|id: BlockHeight| #[trigger] held.contains_key(id) implies id < target_height by {
                let k = choose|k: int| 0 <= k < entries@.len() && (#[trigger] entries@[k]).id == id;
            }
        }
        return Ok(());
    }
    let next: u32 = entries[i].id;
    proof {
        assert(held.contains_key(entries@[i as int].id));
        assert forall|other: BlockHeight| #[trigger] held.contains_key(other) && other >= target_height implies next
            <= other by {
            let k = choose|k: int| 0 <= k < entries@.len() && (#[trigger] entries@[k]).id == other;
            if k > i {
                assert(entries@[i as int].id < entries@[k].id);
            }
        }
        assert(is_next_checkpoint(held, target_height, next));
        assert forall|id: BlockHeight| #[trigger] is_next_checkpoint(held, target_height, id) implies id == next by {}
    }
    match tree.rollback_to_checkpoint(next) {
        Ok(_) => Ok(()),
        Err(error) => Err(error),
    }
}

/// Every tree has a next checkpoint for a target unless all its checkpoints are below it.
pub proof fn law_next_checkpoint_exists(
    entries: Seq<CheckpointEntry>,
    checkpoints: Map<BlockHeight, CheckpointView>,
    target_height: BlockHeight,
    id: BlockHeight,
)
    requires
        lists_checkpoints(entries, checkpoints),
        checkpoints.contains_key(id),
        id >= target_height,
    ensures
        exists|next: BlockHeight| is_next_checkpoint(checkpoints, target_height, next),
{
    let k = choose|k: int| 0 <= k < entries.len() && (#[trigger] entries[k]).id == id;
    lemma_next_below(entries, checkpoints, target_height, k);
}

proof fn lemma_next_below(
    entries: Seq<CheckpointEntry>,
    checkpoints: Map<BlockHeight, CheckpointView>,
    target_height: BlockHeight,
    k: int,
)
    requires
        lists_checkpoints(entries, checkpoints),
        0 <= k < entries.len(),
        entries[k].id >= target_height,
    ensures
        exists|next: BlockHeight| is_next_checkpoint(checkpoints, target_height, next),
    decreases k,
{
    if k > 0 && entries[k - 1].id >= target_height {
        lemma_next_below(entries, checkpoints, target_height, k - 1);
    } else {
        let next = entries[k].id;
        assert(checkpoints.contains_key(entries[k].id));
        assert forall|other: BlockHeight| #[trigger] checkpoints.contains_key(other) && other >= target_height implies
            next <= other by {
            let j = choose|j: int| 0 <= j < entries.len() && (#[trigger] entries[j]).id == other;
            if j < k {
                if j < k - 1 {
                    assert(entries[j].id < entries[k - 1].id);
                }
            } else if j > k {
                assert(entries[k].id < entries[j].id);
            }
        }
        assert(is_next_checkpoint(checkpoints, target_height, next));
    }
}

// --- the wallet ---

/// Whether the trees are those before the first block.
pub open spec fn trees_cleared(trees: ShardTreesView) -> bool {
    &&& trees.sapling == fresh_tree(false)
    &&& trees.orchard == fresh_tree(true)
    &&& trees.ironwood == fresh_tree(true)
}

/// Whether every store has been reset, and all that is left of the transactions are the targets by which a rescan
/// finds those that are in a block.
pub open spec fn wallet_cleared(before: &Wallet, transactions: Map<TxId, TransactionView>, after: &Wallet) -> bool {
    &&& after.sync_state.scan_ranges@.len() == 0
    &&& after.sync_state.sapling_shard_ranges@.len() == 0
    &&& after.sync_state.orchard_shard_ranges@.len() == 0
    &&& after.sync_state.ironwood_shard_ranges@.len() == 0
    &&& after.sync_state.initial_sync_state == no_session()
    &&& forall|t: ScanTarget| #[trigger]
        after.sync_state.scan_targets@.dom().contains(t) == is_confirmed_target(transactions, 0, t)
    &&& after.wallet_blocks@ == blocks_up_to(before.wallet_blocks@, 0)
    &&& after.wallet_transactions@ == Map::<TxId, WalletTransaction>::empty()
    &&& after.nullifiers.sapling@ == up_to(before.nullifiers.sapling@, 0)
    &&& after.nullifiers.orchard@ == up_to(before.nullifiers.orchard@, 0)
    &&& after.nullifiers.ironwood@ == up_to(before.nullifiers.ironwood@, 0)
    &&& after.outpoints@ == up_to(before.outpoints@, 0)
    &&& trees_cleared(after.shard_trees@)
    &&& after.birthday == before.birthday
    &&& after.transparent_addresses == before.transparent_addresses
    &&& after.save_required
}

/// Resets every store to empty, while keeping the heights and ids of confirmed transactions as scan targets, so that
/// the rescan that follows can find them.
pub fn clear_wallet_data(wallet: &mut Wallet, now: u32)
    requires
        old(wallet).wf(),
    ensures
        final(wallet).wf(),
        wallet_cleared(old(wallet), tx_views(old(wallet).wallet_transactions@), final(wallet)),
{
    let scan_targets = confirmed_targets(&wallet.wallet_transactions, 0);
    truncate_stores(wallet, 0, true, now);
    wallet.shard_trees = ShardTrees::new();
    truncate_scan_ranges(0, &mut wallet.sync_state);
    wallet.wallet_transactions.clear();
    add_scan_targets(&mut wallet.sync_state, &scan_targets);
    wallet.save_required = true;
}

/// What the wallet looks like to a truncation decision.
pub open spec fn truncation_state(sync_state: &SyncState) -> WalletTruncationState {
    WalletTruncationState {
        birthday: sync_state.birthday()->0,
        highest_scanned_height: sync_state.scanned_top()->0,
    }
}

/// Whether the two wallets differ in nothing but the stores and the trees.
pub open spec fn same_but_data(before: &Wallet, after: &Wallet) -> bool {
    &&& after.birthday == before.birthday
    &&& after.sync_state == before.sync_state
    &&& after.transparent_addresses == before.transparent_addresses
    &&& after.save_required == before.save_required
}

/// What truncating the data of the wallet does.
pub open spec fn data_truncated<E>(
    before: &Wallet,
    after: &Wallet,
    truncate_height: BlockHeight,
    now: u32,
    r: Result<(), SyncError<E>>,
) -> bool {
    match truncation_plan(truncation_state(&before.sync_state), truncate_height) {
        TruncationPlan::NoOp => r.is_ok() && *after == *before,
        TruncationPlan::ClearAll => {
            &&& r.is_ok()
            &&& stores_cut_off(before, after, 0, true, now)
            &&& trees_cleared(after.shard_trees@)
            &&& same_but_data(before, after)
        },
        TruncationPlan::Truncate { height } => {
            let (trees, refused) = trees_outcome(before.shard_trees@, height);
            match refused {
                None => {
                    &&& r.is_ok()
                    &&& stores_cut_off(before, after, height, true, now)
                    &&& after.shard_trees@ == trees
                    &&& nothing_above(trees.sapling, height)
                    &&& nothing_above(trees.orchard, height)
                    &&& nothing_above(trees.ironwood, height)
                    &&& same_but_data(before, after)
                },
                Some((pool, TreeOutcome::Refused(error))) => {
                    &&& r == Err::<(), SyncError<E>>(SyncError::ShardTreeError(error))
                    &&& stores_cut_off(before, after, height, true, now)
                    &&& after.shard_trees@ == trees
                    &&& same_but_data(before, after)
                },
                Some((pool, _)) => {
                    &&& r == Err::<(), SyncError<E>>(SyncError::TruncationError(height, pool))
                    &&& wallet_cleared(
                        before,
                        transactions_cut_off(&before.wallet_transactions, height, true, now),
                        after,
                    )
                },
            }
        },
    }
}

/// Removes wallet blocks, transactions, nullifiers, outpoints and tree data above the given height.
///
/// Where a tree cannot be rolled back, the wallet is cleared for a rescan and the error says so.
pub fn truncate_wallet_data<E>(wallet: &mut Wallet, truncate_height: BlockHeight, now: u32) -> (r: Result<
    (),
    SyncError<E>,
>)
    requires
        old(wallet).wf(),
        old(wallet).sync_state.scan_ranges@.len() > 0,
    ensures
        final(wallet).wf(),
        data_truncated(old(wallet), final(wallet), truncate_height, now, r),
{
    let wallet_state = WalletTruncationState {
        birthday: wallet.sync_state.wallet_birthday().unwrap(),
        highest_scanned_height: wallet.sync_state.highest_scanned_height().unwrap(),
    };
    match plan_truncation(wallet_state, truncate_height) {
        TruncationPlan::NoOp => Ok(()),
        TruncationPlan::ClearAll => {
            truncate_stores(wallet, 0, true, now);
            wallet.shard_trees = ShardTrees::new();
            Ok(())
        },
        TruncationPlan::Truncate { height } => {
            truncate_stores(wallet, height, true, now);
            let ghost cut = *wallet;
            match truncate_shard_trees::<E>(&mut wallet.shard_trees, height) {
                Ok(()) => Ok(()),
                Err(SyncError::TruncationError(at, pool)) => {
                    clear_wallet_data(wallet, now);
                    proof {
                        assert(blocks_up_to(cut.wallet_blocks@, 0) =~= blocks_up_to(old(wallet).wallet_blocks@, 0));
                        assert(up_to(cut.outpoints@, 0) =~= up_to(old(wallet).outpoints@, 0));
                        assert(up_to(cut.nullifiers.sapling@, 0) =~= up_to(old(wallet).nullifiers.sapling@, 0));
                        assert(up_to(cut.nullifiers.orchard@, 0) =~= up_to(old(wallet).nullifiers.orchard@, 0));
                        assert(up_to(cut.nullifiers.ironwood@, 0) =~= up_to(old(wallet).nullifiers.ironwood@, 0));
                    }
                    Err(SyncError::TruncationError(at, pool))
                },
                Err(error) => Err(error),
            }
        },
    }
}

/// Truncates wallet data alone and leaves the scan ranges as they are.
///
/// This is for finding the fork of a re-org: the affected blocks have been set to be verified, so that they must stay
/// in the scan ranges while the data is rewound.
pub fn truncate_data_for_verification<E>(wallet: &mut Wallet, truncate_height: BlockHeight, now: u32) -> (r: Result<
    (),
    SyncError<E>,
>)
    requires
        old(wallet).wf(),
        old(wallet).sync_state.scan_ranges@.len() > 0,
    ensures
        final(wallet).wf(),
        data_truncated(old(wallet), final(wallet), truncate_height, now, r),
{
    truncate_wallet_data(wallet, truncate_height, now)
}

/// Truncates wallet data and scan ranges to the given height.
///
/// This is for every case in which the height that the wallet claims is itself wrong.
pub fn targeted_truncate_wallet_height<E>(wallet: &mut Wallet, truncate_height: BlockHeight, now: u32) -> (r: Result<
    (),
    SyncError<E>,
>)
    requires
        old(wallet).wf(),
        old(wallet).sync_state.scan_ranges@.len() > 0,
    ensures
        final(wallet).wf(),
        r.is_err() ==> data_truncated(old(wallet), final(wallet), truncate_height, now, r),
        r.is_ok() ==> data_truncated(
            old(wallet),
            &(Wallet { sync_state: old(wallet).sync_state, ..*final(wallet) }),
            truncate_height,
            now,
            r,
        ),
        r.is_ok() && truncate_height == 0 ==> final(wallet).sync_state.blank(),
        r.is_ok() && truncate_height > 0 ==> {
            &&& final(wallet).sync_state.same_but_scan_ranges(&old(wallet).sync_state)
            &&& final(wallet).sync_state.scan_ranges@ == truncated(
                old(wallet).sync_state.scan_ranges@,
                truncate_height,
            )
        },
{
    if let Err(error) = truncate_wallet_data(wallet, truncate_height, now) {
        return Err(error);
    }
    let ghost mid = *wallet;
    truncate_scan_ranges(truncate_height, &mut wallet.sync_state);
    assert(mid == (Wallet { sync_state: old(wallet).sync_state, ..*wallet }));
    Ok(())
}

/// A wallet whose trees hold a checkpoint at the target, or nothing above it, is never cleared by a rollback.
pub proof fn law_healthy_wallet_survives_truncation<E>(
    before: &Wallet,
    after: &Wallet,
    height: BlockHeight,
    now: u32,
    r: Result<(), SyncError<E>>,
)
    requires
        data_truncated(before, after, height, now, r),
        truncation_plan(truncation_state(&before.sync_state), height) is Truncate,
        forall|pool: ShieldedPool| #[trigger] before.shard_trees.of(pool).checkpoints.contains_key(height) || forall|
            id: BlockHeight,
        | #[trigger] before.shard_trees.of(pool).checkpoints.contains_key(id) ==> id <= height,
    ensures
        after.wallet_blocks@ == blocks_up_to(before.wallet_blocks@, height),
        r matches Err(error) ==> error is ShardTreeError,
{
    assert(before.shard_trees.of(ShieldedPool::Sapling) == before.shard_trees@.sapling);
    assert(before.shard_trees.of(ShieldedPool::Orchard) == before.shard_trees@.orchard);
    assert(before.shard_trees.of(ShieldedPool::Ironwood) == before.shard_trees@.ironwood);
}

} // verus!
