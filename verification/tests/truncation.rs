//! Planning and carrying out truncations.

use pepper_sync::error::SyncError;
use pepper_sync::primitives::{BlockRange, Nullifier, OutputId, ShieldedPool, TxId};
use pepper_sync::scan_range::{ScanPriority, ScanRange};
use pepper_sync::shardtree_ext::{CheckpointAppendOutcome, RollbackOutcome};
use pepper_sync::sync::truncate::{
    clear_wallet_data, plan_pool_truncation, plan_truncation, targeted_truncate_wallet_height, tree_facts,
    truncate_tree_to_next_checkpoint, truncate_wallet_data, PoolTruncation, TreeTruncationFacts, TruncationPlan,
    WalletTruncationState,
};
use pepper_sync::wallet::data::{truncate_stores, Wallet};
use pepper_sync::wallet::shard_trees::ShardTrees;
use pepper_sync::wallet::status::ConfirmationStatus;
use pepper_sync::wallet::stores::WalletBlock;
use pepper_sync::wallet::sync_state::{ScanTarget, TreeBounds};
use pepper_sync::wallet::transaction::{ChainTransaction, WalletTransaction};

fn wallet_state() -> WalletTruncationState {
    WalletTruncationState { birthday: 6, highest_scanned_height: 10 }
}

fn facts(at_target: Option<u32>, newest_checkpoint: Option<u32>) -> TreeTruncationFacts {
    TreeTruncationFacts { checkpoint_at_target: at_target, newest_checkpoint }
}

fn block(height: u32) -> WalletBlock {
    WalletBlock {
        block_height: height,
        block_hash: [0; 32],
        prev_hash: [0; 32],
        time: 0,
        txids: Vec::new(),
        tree_bounds: TreeBounds::zero(),
    }
}

fn transaction(txid: u8, status: ConfirmationStatus) -> WalletTransaction {
    WalletTransaction {
        txid: TxId::from_bytes([txid; 32]),
        status,
        transaction: ChainTransaction { bytes: Vec::new(), expiry_height: 0 },
        datetime: 0,
        transparent_coins: Vec::new(),
        sapling_notes: Vec::new(),
        orchard_notes: Vec::new(),
        ironwood_notes: Vec::new(),
        outgoing_sapling_notes: Vec::new(),
        outgoing_orchard_notes: Vec::new(),
        outgoing_ironwood_notes: Vec::new(),
    }
}

/// A wallet that is synced from its birthday 6 up to height 10.
fn synced_wallet(shard_trees: ShardTrees) -> Wallet {
    let mut wallet = Wallet::new(6);
    for height in 6..=10u32 {
        wallet.wallet_blocks.insert(height, block(height));
    }
    wallet.sync_state.scan_ranges = vec![ScanRange::from_parts(BlockRange::new(6, 11), ScanPriority::Scanned)];
    wallet.shard_trees = shard_trees;
    wallet
}

fn trees_with_checkpoints(sapling: &[u32], orchard: &[u32]) -> ShardTrees {
    let mut shard_trees = ShardTrees::new();
    for height in sapling {
        assert_eq!(shard_trees.sapling.append_checkpoint(*height), CheckpointAppendOutcome::Appended);
    }
    for height in orchard {
        assert_eq!(shard_trees.orchard.append_checkpoint(*height), CheckpointAppendOutcome::Appended);
    }
    shard_trees
}

#[test]
fn outcomes_match_store_behavior() {
    // A new tree of the wallet already holds the checkpoint of height zero.
    let mut tree = ShardTrees::new().orchard;
    assert_eq!(tree.append_checkpoint(5), CheckpointAppendOutcome::Appended);
    assert_eq!(tree.append_checkpoint(5), CheckpointAppendOutcome::NotAboveNewest);
    assert_eq!(tree.rollback_to_checkpoint(5), Ok(RollbackOutcome::RolledBack));
    assert_eq!(tree.rollback_to_checkpoint(4), Ok(RollbackOutcome::NoSuchCheckpoint));
}

#[test]
fn migrated_empty_tree_is_untouched() {
    assert_eq!(plan_truncation(wallet_state(), 8), TruncationPlan::Truncate { height: 8 });
    assert_eq!(plan_pool_truncation(facts(Some(8), Some(10)), 8), PoolTruncation::ToCheckpoint { checkpoint: 8 });
    assert_eq!(plan_pool_truncation(facts(None, Some(0)), 8), PoolTruncation::Untouched);
}

#[test]
fn checkpointless_tree_is_untouched() {
    assert_eq!(plan_pool_truncation(facts(None, None), 8), PoolTruncation::Untouched);
}

#[test]
fn pruned_checkpoint_requires_rescan() {
    assert_eq!(
        plan_pool_truncation(facts(None, Some(10)), 8),
        PoolTruncation::RequiresRescan { newest_checkpoint: 10 }
    );
}

#[test]
fn checkpoint_at_target_rolls_back() {
    assert_eq!(plan_pool_truncation(facts(Some(8), Some(10)), 8), PoolTruncation::ToCheckpoint { checkpoint: 8 });
}

#[test]
fn target_above_highest_scanned_is_a_no_op() {
    assert_eq!(plan_truncation(wallet_state(), 11), TruncationPlan::NoOp);
}

#[test]
fn target_below_birthday_clears_all() {
    assert_eq!(plan_truncation(wallet_state(), 5), TruncationPlan::ClearAll);
}

#[test]
fn height_zero_clears_all() {
    let state = WalletTruncationState { birthday: 0, highest_scanned_height: 10 };
    assert_eq!(plan_truncation(state, 0), TruncationPlan::ClearAll);
}

#[test]
fn target_at_birthday_truncates() {
    assert!(matches!(plan_truncation(wallet_state(), 6), TruncationPlan::Truncate { height } if height == 6));
}

#[test]
fn exhaustive_sweep_matches_the_reference_model() {
    const MAX: u32 = 6;
    for birthday in 0..=MAX {
        for highest_scanned_height in 0..=MAX {
            for target in 0..=MAX {
                let plan = plan_truncation(WalletTruncationState { birthday, highest_scanned_height }, target);
                if target == 0 || target < birthday {
                    assert_eq!(plan, TruncationPlan::ClearAll);
                    continue;
                }
                if target > highest_scanned_height {
                    assert_eq!(plan, TruncationPlan::NoOp);
                    continue;
                }
                assert_eq!(plan, TruncationPlan::Truncate { height: target });

                for checkpoint_at_target in [None, Some(target)] {
                    for newest_checkpoint in std::iter::once(None).chain((0..=MAX).map(Some)) {
                        let outcome =
                            plan_pool_truncation(TreeTruncationFacts { checkpoint_at_target, newest_checkpoint }, target);
                        let expected = if let Some(checkpoint) = checkpoint_at_target {
                            PoolTruncation::ToCheckpoint { checkpoint }
                        } else {
                            match newest_checkpoint {
                                Some(newest_checkpoint) if newest_checkpoint > target => {
                                    PoolTruncation::RequiresRescan { newest_checkpoint }
                                }
                                _ => PoolTruncation::Untouched,
                            }
                        };
                        assert_eq!(outcome, expected);
                        if newest_checkpoint.map_or(true, |newest| newest <= target) {
                            assert!(!matches!(outcome, PoolTruncation::RequiresRescan { .. }));
                        }
                    }
                }
            }
        }
    }
}

#[test]
fn gather_reports_store_ground_truth() {
    let shard_trees = trees_with_checkpoints(&[], &[3, 5]);
    assert_eq!(tree_facts(&shard_trees.orchard, 5), facts(Some(5), Some(5)));
    assert_eq!(tree_facts(&shard_trees.sapling, 5), facts(None, Some(0)));
    assert_eq!(tree_facts(&shard_trees.ironwood, 5), tree_facts(&shard_trees.sapling, 5));
    assert_eq!(tree_facts(&shard_trees.orchard, 4), facts(None, Some(5)));
}

#[test]
fn migrated_wallet_survives_reorg_truncation() {
    let heights = [6, 7, 8, 9, 10];
    let mut wallet = synced_wallet(trees_with_checkpoints(&heights, &heights));
    let result: Result<(), SyncError<String>> = truncate_wallet_data(&mut wallet, 8, 77);
    assert!(result.is_ok(), "reorg truncation wiped a healthy migrated wallet: {result:?}");
    assert!(wallet.wallet_blocks.contains_key(&6));
    assert!(wallet.wallet_blocks.contains_key(&8));
    assert!(!wallet.wallet_blocks.contains_key(&9));
    assert_eq!(tree_facts(&wallet.shard_trees.sapling, 8), facts(Some(8), Some(8)));
    assert_eq!(tree_facts(&wallet.shard_trees.orchard, 8), facts(Some(8), Some(8)));
    assert_eq!(tree_facts(&wallet.shard_trees.ironwood, 8), facts(None, Some(0)));
    assert_eq!(
        wallet.sync_state.scan_ranges,
        vec![ScanRange::from_parts(BlockRange::new(6, 11), ScanPriority::Scanned)]
    );
}

#[test]
fn unrecoverable_tree_still_clears_wallet_data() {
    let mut wallet = synced_wallet(trees_with_checkpoints(&[6, 7, 8, 9, 10], &[9, 10]));
    let result: Result<(), SyncError<String>> = truncate_wallet_data(&mut wallet, 8, 77);
    assert!(matches!(result, Err(SyncError::TruncationError(8, ShieldedPool::Orchard))));
    assert!(!wallet.wallet_blocks.contains_key(&6));
}

/// Whatever a store files above the height of a truncation is gone, and what it files below stays.
#[test]
fn truncated_stores_hold_nothing_above() {
    let mut wallet = synced_wallet(ShardTrees::new());
    for height in [7u32, 8, 9] {
        let txid = TxId::from_bytes([height as u8; 32]);
        let target = ScanTarget { block_height: height, txid, narrow_scan_area: true };
        wallet.nullifiers.sapling.insert(Nullifier::from_bytes([height as u8; 32]), target);
        wallet.nullifiers.ironwood.insert(Nullifier::from_bytes([height as u8; 32]), target);
        wallet.outpoints.insert(OutputId::new(txid, 1), target);
        wallet.wallet_transactions.insert(txid, transaction(height as u8, ConfirmationStatus::Confirmed(height)));
    }
    truncate_stores(&mut wallet, 8, true, 77);
    assert_eq!(wallet.wallet_blocks.len(), 3);
    assert_eq!(wallet.nullifiers.sapling.len(), 2);
    assert_eq!(wallet.nullifiers.ironwood.len(), 2);
    assert_eq!(wallet.outpoints.len(), 2);
    let status = |n: u8| wallet.wallet_transactions.get(&TxId::from_bytes([n; 32])).map(|t| t.status());
    assert_eq!(status(7), Some(ConfirmationStatus::Confirmed(7)));
    assert_eq!(status(8), Some(ConfirmationStatus::Confirmed(8)));
    assert!(matches!(status(9), Some(ConfirmationStatus::Failed(_)) | None));
}

/// Clearing the wallet keeps the targets of what it had confirmed, to be scanned again.
#[test]
fn clearing_keeps_confirmed_transactions_as_targets() {
    let mut wallet = synced_wallet(trees_with_checkpoints(&[6, 10], &[]));
    let confirmed = transaction(1, ConfirmationStatus::Confirmed(9));
    let pending = transaction(2, ConfirmationStatus::Mempool(10));
    wallet.wallet_transactions.insert(confirmed.txid(), confirmed);
    wallet.wallet_transactions.insert(pending.txid(), pending);
    clear_wallet_data(&mut wallet, 77);
    assert_eq!(wallet.wallet_blocks.len(), 0);
    assert_eq!(wallet.wallet_transactions.len(), 0);
    assert_eq!(tree_facts(&wallet.shard_trees.sapling, 6), facts(None, Some(0)));
    let expected = ScanTarget { block_height: 9, txid: TxId::from_bytes([1; 32]), narrow_scan_area: true };
    assert_eq!(wallet.sync_state.scan_targets.len(), 1);
    assert!(wallet.sync_state.scan_targets.contains_key(&expected));
    assert!(wallet.save_required);
}

/// A tree is rolled back to the oldest checkpoint that is not below the target.
#[test]
fn next_checkpoint_is_the_least_one_not_below() {
    let mut trees = trees_with_checkpoints(&[3, 7, 9], &[]);
    assert_eq!(truncate_tree_to_next_checkpoint(5, &mut trees.sapling), Ok(()));
    assert_eq!(tree_facts(&trees.sapling, 7), facts(Some(7), Some(7)));
}

/// A targeted truncation to the birthday keeps the wallet, one below it clears the wallet.
#[test]
fn targeted_truncation_clears_only_below_the_birthday() {
    let heights = [6, 7, 8, 9, 10];
    let mut wallet = synced_wallet(trees_with_checkpoints(&heights, &heights));
    let result: Result<(), SyncError<String>> = targeted_truncate_wallet_height(&mut wallet, 6, 77);
    assert_eq!(result, Ok(()));
    assert_eq!(wallet.wallet_blocks.len(), 1);
    let result: Result<(), SyncError<String>> = targeted_truncate_wallet_height(&mut wallet, 5, 77);
    assert_eq!(result, Ok(()));
    assert_eq!(wallet.wallet_blocks.len(), 0);
}
