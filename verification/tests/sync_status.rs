//! Progress of a sync and its completion.

use pepper_sync::error::SyncStatusError;
use pepper_sync::primitives::BlockRange;
use pepper_sync::scan_range::{ScanPriority, ScanRange};
use pepper_sync::sync::progress::{
    calculate_scanned_outputs, scanned_range_tree_bounds, set_initial_state, sync_result, sync_status,
    update_wallet_tree_bounds, MissingBlock, OutputCounts, Progress, SyncStatus, TreeSizes,
};
use pepper_sync::wallet::data::Wallet;
use pepper_sync::wallet::stores::WalletBlock;
use pepper_sync::wallet::sync_state::TreeBounds;

const PERCENTAGE_SCALE: f32 = 100.0;
const BIRTHDAY_HEIGHT: u32 = 1_000;
const TOTAL_BLOCKS: u32 = 10;
const SCANNED_BLOCKS: u32 = 5;
const CHAIN_TIP_HEIGHT: u32 = BIRTHDAY_HEIGHT + TOTAL_BLOCKS - 1;
const SCANNED_RANGE_END: u32 = BIRTHDAY_HEIGHT + SCANNED_BLOCKS;
const STALENESS_FACTOR: u32 = 500;
const SAPLING_TOTAL_OUTPUTS: u32 = 10;
const SAPLING_SCANNED_OUTPUTS: u32 = 3;
const ORCHARD_TOTAL_OUTPUTS: u32 = 20;
const ORCHARD_SCANNED_OUTPUTS: u32 = 5;
const IRONWOOD_TOTAL_OUTPUTS: u32 = 40;
const IRONWOOD_SCANNED_OUTPUTS: u32 = 7;
const TOTAL_OUTPUTS: u32 = SAPLING_TOTAL_OUTPUTS + ORCHARD_TOTAL_OUTPUTS + IRONWOOD_TOTAL_OUTPUTS;
const SCANNED_OUTPUTS: u32 = SAPLING_SCANNED_OUTPUTS + ORCHARD_SCANNED_OUTPUTS + IRONWOOD_SCANNED_OUTPUTS;

fn percentage(progress: Progress) -> f32 {
    (progress.scanned as f32 / progress.total as f32) * PERCENTAGE_SCALE
}

fn scan_range(start: u32, end: u32, priority: ScanPriority) -> ScanRange {
    ScanRange::from_parts(BlockRange::new(start, end), priority)
}

fn status(sync_start_height: u32, priorities: &[ScanPriority]) -> SyncStatus {
    let none = Progress { scanned: 0, total: 0 };
    let no_outputs = OutputCounts { sapling: 0, orchard: 0, ironwood: 0 };
    SyncStatus {
        scan_ranges: priorities
            .iter()
            .enumerate()
            .map(|(index, priority)| {
                let start = 1_000 + 10 * index as u32;
                scan_range(start, start + 10, *priority)
            })
            .collect(),
        sync_start_height,
        session_blocks_scanned: 0,
        total_blocks_scanned: 0,
        session_blocks_progress: none,
        total_blocks_progress: none,
        session_outputs_scanned: no_outputs,
        pool_outputs_scanned: no_outputs,
        session_outputs_progress: none,
        total_outputs_progress: none,
        total_outputs_scanned: 0,
        total_outputs: 0,
        awaits_nullifiers: false,
    }
}

fn flat_bounds(sapling: u32, orchard: u32, ironwood: u32) -> TreeBounds {
    TreeBounds {
        sapling_initial_tree_size: sapling,
        sapling_final_tree_size: sapling,
        orchard_initial_tree_size: orchard,
        orchard_final_tree_size: orchard,
        ironwood_initial_tree_size: ironwood,
        ironwood_final_tree_size: ironwood,
    }
}

fn block(height: u32, tree_bounds: TreeBounds) -> WalletBlock {
    WalletBlock {
        block_height: height,
        block_hash: [0; 32],
        prev_hash: [0; 32],
        time: 0,
        txids: Vec::new(),
        tree_bounds,
    }
}

fn span_bounds() -> TreeBounds {
    TreeBounds {
        sapling_initial_tree_size: 100,
        sapling_final_tree_size: 110,
        orchard_initial_tree_size: 200,
        orchard_final_tree_size: 220,
        ironwood_initial_tree_size: 300,
        ironwood_final_tree_size: 340,
    }
}

#[test]
fn never_started_is_not_complete() {
    assert!(!status(0, &[]).is_complete());
}

#[test]
fn started_with_no_scan_ranges_is_complete() {
    assert!(status(1_000, &[]).is_complete());
}

#[test]
fn all_ranges_scanned_is_complete() {
    assert!(status(1_000, &[ScanPriority::Scanned, ScanPriority::Scanned]).is_complete());
}

#[test]
fn output_free_range_is_complete() {
    let status = status(1_000, &[ScanPriority::Scanned]);
    assert_eq!(status.total_outputs, 0);
    assert!(status.is_complete());
}

#[test]
fn nullifier_retrieval_pending_is_not_complete() {
    for pending in [ScanPriority::ScannedWithoutMapping, ScanPriority::RefetchingNullifiers] {
        assert!(!status(1_000, &[ScanPriority::Scanned, pending]).is_complete());
    }
}

#[test]
fn unscanned_range_is_not_complete() {
    let mut status = status(1_000, &[ScanPriority::Scanned, ScanPriority::Historic]);
    status.total_outputs_scanned = 10_000;
    status.total_outputs = 10_000;
    assert!(!status.is_complete());
}

#[test]
fn exact_ratio_fields_agree_with_per_pool_totals() {
    let mut wallet = Wallet::new(0);
    wallet.sync_state.scan_ranges = vec![scan_range(1_000, 1_010, ScanPriority::Scanned)];
    wallet.sync_state.initial_sync_state.sync_start_height = 1_000;
    wallet.sync_state.initial_sync_state.wallet_tree_bounds = span_bounds();
    wallet.sync_state.initial_sync_state.previously_scanned_sapling_outputs = 1;
    wallet.sync_state.initial_sync_state.previously_scanned_orchard_outputs = 2;
    wallet.sync_state.initial_sync_state.previously_scanned_ironwood_outputs = 3;
    wallet.wallet_blocks.insert(1_000, block(1_000, flat_bounds(100, 200, 300)));
    wallet.wallet_blocks.insert(1_009, block(1_009, flat_bounds(103, 205, 307)));

    let status = sync_status(&wallet).unwrap();
    assert_eq!(status.pool_outputs_scanned.sapling, 3);
    assert_eq!(status.pool_outputs_scanned.orchard, 5);
    assert_eq!(status.pool_outputs_scanned.ironwood, 7);
    assert_eq!(
        status.total_outputs_scanned,
        u64::from(status.pool_outputs_scanned.sapling)
            + u64::from(status.pool_outputs_scanned.orchard)
            + u64::from(status.pool_outputs_scanned.ironwood),
    );
    assert_eq!(status.total_outputs_scanned, 15);
    assert_eq!(status.total_outputs, 70);
    let expected_percentage = (status.total_outputs_scanned as f32 / status.total_outputs as f32) * 100.0;
    assert!((percentage(status.total_outputs_progress) - expected_percentage).abs() < f32::EPSILON);

    assert_eq!(status.session_outputs_scanned, OutputCounts { sapling: 2, orchard: 3, ironwood: 4 });
    assert_eq!(status.session_outputs_progress, Progress { scanned: 9, total: 64 });
    assert!(status.is_complete());
    let result = sync_result(&status);
    assert_eq!(result.sync_start_height, 1_000);
    assert_eq!(result.sync_end_height, 1_009);
    assert_eq!(result.blocks_scanned, status.session_blocks_scanned);
    assert_eq!(result.outputs_scanned, OutputCounts { sapling: 2, orchard: 3, ironwood: 4 });
}

/// A wallet half of whose span is scanned, with counts of earlier sessions far beyond the span.
fn stale_state_wallet() -> Wallet {
    let mut wallet = Wallet::new(0);
    wallet.sync_state.scan_ranges = vec![
        scan_range(BIRTHDAY_HEIGHT, SCANNED_RANGE_END, ScanPriority::Scanned),
        scan_range(SCANNED_RANGE_END, CHAIN_TIP_HEIGHT + 1, ScanPriority::Historic),
    ];
    let initial = &mut wallet.sync_state.initial_sync_state;
    initial.sync_start_height = BIRTHDAY_HEIGHT;
    initial.wallet_tree_bounds = span_bounds();
    initial.previously_scanned_blocks = TOTAL_BLOCKS * STALENESS_FACTOR;
    initial.previously_scanned_sapling_outputs = TOTAL_OUTPUTS * STALENESS_FACTOR;
    initial.previously_scanned_orchard_outputs = TOTAL_OUTPUTS * STALENESS_FACTOR;
    initial.previously_scanned_ironwood_outputs = TOTAL_OUTPUTS * STALENESS_FACTOR;
    wallet.wallet_blocks.insert(BIRTHDAY_HEIGHT, block(BIRTHDAY_HEIGHT, flat_bounds(100, 200, 300)));
    wallet.wallet_blocks.insert(
        SCANNED_RANGE_END - 1,
        block(
            SCANNED_RANGE_END - 1,
            flat_bounds(
                100 + SAPLING_SCANNED_OUTPUTS,
                200 + ORCHARD_SCANNED_OUTPUTS,
                300 + IRONWOOD_SCANNED_OUTPUTS,
            ),
        ),
    );
    wallet
}

#[test]
fn stale_block_state_reports_total_progress_not_completion() {
    let status = sync_status(&stale_state_wallet()).unwrap();
    let expected_total = (SCANNED_BLOCKS as f32 / TOTAL_BLOCKS as f32) * PERCENTAGE_SCALE;
    assert!((percentage(status.total_blocks_progress) - expected_total).abs() < f32::EPSILON);
    assert_ne!(percentage(status.session_blocks_progress), PERCENTAGE_SCALE);
    assert!((percentage(status.session_blocks_progress) - expected_total).abs() < f32::EPSILON);
}

#[test]
fn stale_output_state_reports_total_progress_not_completion() {
    let status = sync_status(&stale_state_wallet()).unwrap();
    let expected_total = (SCANNED_OUTPUTS as f32 / TOTAL_OUTPUTS as f32) * PERCENTAGE_SCALE;
    assert!((percentage(status.total_outputs_progress) - expected_total).abs() < f32::EPSILON);
    assert_ne!(percentage(status.session_outputs_progress), PERCENTAGE_SCALE);
    assert!((percentage(status.session_outputs_progress) - expected_total).abs() < f32::EPSILON);
}

/// A session without scan ranges has no status, and one that misses a bounding block names it.
#[test]
fn status_errors_name_what_is_missing() {
    let mut wallet = Wallet::new(6);
    assert_eq!(sync_status(&wallet).map(|status| status.is_complete()), Ok(false));
    wallet.sync_state.initial_sync_state.sync_start_height = 10;
    assert_eq!(sync_status(&wallet), Err(SyncStatusError::NoSyncData));
    wallet.sync_state.scan_ranges = vec![scan_range(10, 20, ScanPriority::Scanned)];
    wallet.sync_state.initial_sync_state.sync_start_height = 10;
    wallet.wallet_blocks.insert(10, block(10, flat_bounds(0, 0, 0)));
    assert_eq!(sync_status(&wallet), Err(SyncStatusError::WalletError(MissingBlock { height: 19 })));
    assert_eq!(calculate_scanned_outputs(&wallet), Err(MissingBlock { height: 19 }));
    let bounds = scanned_range_tree_bounds(&wallet.wallet_blocks, &BlockRange::new(10, 11));
    assert_eq!(bounds, Ok(flat_bounds(0, 0, 0)));
}

/// The state of a session is set up from what earlier sessions scanned.
#[test]
fn initial_state_counts_earlier_sessions() {
    let mut wallet = stale_state_wallet();
    assert_eq!(set_initial_state(&mut wallet, CHAIN_TIP_HEIGHT), Ok(()));
    let initial = wallet.sync_state.initial_sync_state;
    assert_eq!(initial.previously_scanned_blocks, SCANNED_BLOCKS);
    assert_eq!(initial.previously_scanned_sapling_outputs, SAPLING_SCANNED_OUTPUTS);
    assert_eq!(initial.previously_scanned_orchard_outputs, ORCHARD_SCANNED_OUTPUTS);
    assert_eq!(initial.previously_scanned_ironwood_outputs, IRONWOOD_SCANNED_OUTPUTS);
    update_wallet_tree_bounds(
        &mut wallet,
        TreeSizes { sapling: 1, orchard: 2, ironwood: 3 },
        TreeSizes { sapling: 4, orchard: 5, ironwood: 6 },
    );
    let bounds = wallet.sync_state.initial_sync_state.wallet_tree_bounds;
    assert_eq!(bounds.sapling_initial_tree_size, 1);
    assert_eq!(bounds.orchard_initial_tree_size, 2);
    assert_eq!(bounds.ironwood_initial_tree_size, 3);
    assert_eq!(bounds.sapling_final_tree_size, 4);
    assert_eq!(bounds.orchard_final_tree_size, 5);
    assert_eq!(bounds.ironwood_final_tree_size, 6);
}
