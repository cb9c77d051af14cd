//! What a sound sync state is, and that no other one is read.

use pepper_sync::primitives::{BlockRange, ShieldedPool};
use pepper_sync::scan_range::{ScanPriority, ScanRange};
use pepper_sync::wallet::codec::{ReadError, Reader};
use pepper_sync::wallet::integrity::SyncStateIntegrityError;
use pepper_sync::wallet::sync_state::SyncState;

fn range(start: u32, end: u32) -> BlockRange {
    BlockRange { start, end }
}

fn scan_range(start: u32, end: u32, priority: ScanPriority) -> ScanRange {
    ScanRange::from_parts(range(start, end), priority)
}

fn honest_state() -> SyncState {
    let mut state = SyncState::new();
    state.scan_ranges =
        vec![scan_range(1, 361, ScanPriority::Scanned), scan_range(361, 601, ScanPriority::Historic)];
    state.sapling_shard_ranges = vec![range(10, 50), range(80, 120)];
    state.orchard_shard_ranges = vec![range(100, 200)];
    state.ironwood_shard_ranges = vec![range(400, 500)];
    let bounds = &mut state.initial_sync_state.wallet_tree_bounds;
    bounds.sapling_initial_tree_size = 100;
    bounds.sapling_final_tree_size = 500;
    bounds.orchard_initial_tree_size = 0;
    bounds.orchard_final_tree_size = 300;
    bounds.ironwood_initial_tree_size = 7;
    bounds.ironwood_final_tree_size = 7;
    state.initial_sync_state.previously_scanned_blocks = 360;
    state
}

fn read(bytes: &[u8]) -> Result<SyncState, ReadError> {
    SyncState::read(&mut Reader::new(bytes))
}

#[test]
fn the_honest_wallets_pass() {
    assert_eq!(SyncState::new().validate(), Ok(()));
    assert_eq!(honest_state().validate(), Ok(()));
}

#[test]
fn attack_empty_scan_range() {
    let mut state = honest_state();
    state.scan_ranges.push(scan_range(601, 601, ScanPriority::Historic));
    assert_eq!(state.validate(), Err(SyncStateIntegrityError::EmptyScanRange { index: 2, at: 601 }));
}

#[test]
fn attack_scan_range_gap() {
    let mut state = honest_state();
    state.scan_ranges.push(scan_range(650, 700, ScanPriority::Historic));
    assert_eq!(
        state.validate(),
        Err(SyncStateIntegrityError::ScanRangeGap { index: 1, end: 601, next_start: 650 })
    );
}

#[test]
fn attack_scan_range_overlap() {
    let mut state = honest_state();
    state.scan_ranges.push(scan_range(550, 700, ScanPriority::Historic));
    assert_eq!(
        state.validate(),
        Err(SyncStateIntegrityError::ScanRangeOverlap { index: 1, end: 601, next_start: 550 })
    );
}

#[test]
fn attack_reversed_scan_ranges() {
    let mut state = honest_state();
    state.scan_ranges =
        vec![scan_range(361, 601, ScanPriority::Historic), scan_range(1, 361, ScanPriority::Scanned)];
    assert_eq!(
        state.validate(),
        Err(SyncStateIntegrityError::ScanRangeOverlap { index: 0, end: 601, next_start: 1 })
    );
}

#[test]
fn attack_empty_shard_range() {
    let mut state = honest_state();
    state.orchard_shard_ranges = vec![range(100, 100)];
    assert_eq!(
        state.validate(),
        Err(SyncStateIntegrityError::EmptyShardRange { pool: ShieldedPool::Orchard, index: 0, at: 100 })
    );
}

#[test]
fn attack_inverted_shard_range() {
    let mut state = honest_state();
    state.sapling_shard_ranges = vec![range(200, 100)];
    assert_eq!(
        state.validate(),
        Err(SyncStateIntegrityError::InvertedShardRange {
            pool: ShieldedPool::Sapling,
            index: 0,
            start: 200,
            end: 100,
        })
    );
}

#[test]
fn attack_shard_range_disorder() {
    let mut descending = honest_state();
    descending.ironwood_shard_ranges = vec![range(300, 400), range(100, 200)];
    assert_eq!(
        descending.validate(),
        Err(SyncStateIntegrityError::ShardRangeDisorder {
            pool: ShieldedPool::Ironwood,
            index: 0,
            end: 400,
            next_start: 100,
        })
    );

    let mut overlapping = honest_state();
    overlapping.ironwood_shard_ranges = vec![range(100, 200), range(150, 300)];
    assert_eq!(
        overlapping.validate(),
        Err(SyncStateIntegrityError::ShardRangeDisorder {
            pool: ShieldedPool::Ironwood,
            index: 0,
            end: 200,
            next_start: 150,
        })
    );
}

#[test]
fn attack_inverted_tree_bounds() {
    let mut state = honest_state();
    state.initial_sync_state.wallet_tree_bounds.orchard_initial_tree_size = 500;
    state.initial_sync_state.wallet_tree_bounds.orchard_final_tree_size = 100;
    assert_eq!(
        state.validate(),
        Err(SyncStateIntegrityError::InvertedTreeBounds {
            pool: ShieldedPool::Orchard,
            initial_tree_size: 500,
            final_tree_size: 100,
        })
    );
}

#[test]
fn truncation_drift_is_not_an_attack() {
    let mut state = honest_state();
    state.initial_sync_state.previously_scanned_blocks = 500;
    assert_eq!(state.validate(), Ok(()));
}

#[test]
fn attack_everything_at_once_peels_in_order() {
    let mut state = SyncState::new();
    state.scan_ranges =
        vec![scan_range(100, 100, ScanPriority::Historic), scan_range(150, 200, ScanPriority::Historic)];
    state.sapling_shard_ranges = vec![range(200, 100)];
    state.orchard_shard_ranges = vec![range(50, 50)];
    state.ironwood_shard_ranges = vec![range(300, 400), range(100, 200)];
    state.initial_sync_state.wallet_tree_bounds.sapling_initial_tree_size = 9;
    state.initial_sync_state.wallet_tree_bounds.sapling_final_tree_size = 1;

    assert!(matches!(state.validate(), Err(SyncStateIntegrityError::EmptyScanRange { index: 0, .. })));

    state.scan_ranges = vec![scan_range(1, 101, ScanPriority::Scanned)];
    assert!(matches!(
        state.validate(),
        Err(SyncStateIntegrityError::InvertedShardRange { pool: ShieldedPool::Sapling, .. })
    ));

    state.sapling_shard_ranges.clear();
    assert!(matches!(
        state.validate(),
        Err(SyncStateIntegrityError::EmptyShardRange { pool: ShieldedPool::Orchard, .. })
    ));

    state.orchard_shard_ranges.clear();
    assert!(matches!(
        state.validate(),
        Err(SyncStateIntegrityError::ShardRangeDisorder { pool: ShieldedPool::Ironwood, .. })
    ));

    state.ironwood_shard_ranges.clear();
    assert!(matches!(
        state.validate(),
        Err(SyncStateIntegrityError::InvertedTreeBounds { pool: ShieldedPool::Sapling, .. })
    ));

    state.initial_sync_state.wallet_tree_bounds.sapling_final_tree_size = 9;
    assert_eq!(state.validate(), Ok(()));
}

#[test]
fn attack_poisoned_wallet_file_fails_to_load() {
    let honest = honest_state();
    let mut bytes = Vec::new();
    assert!(honest.write(&mut bytes).is_ok(), "an honest state serializes");
    assert!(read(&bytes).is_ok());

    let mut poisoned = honest_state();
    poisoned.sapling_shard_ranges = vec![range(300, 400), range(100, 200)];
    let mut bytes = Vec::new();
    assert!(poisoned.write(&mut bytes).is_ok(), "serialization does not validate; only read does");
    assert_eq!(read(&bytes), Err(ReadError::InvalidData));
}

#[test]
fn attack_inverted_scan_range_bytes_fail_to_load() {
    let honest = honest_state();
    let mut bytes = Vec::new();
    assert!(honest.write(&mut bytes).is_ok(), "an honest state serializes");
    // After the version and the number of ranges, a byte each, stands the start of the first range.
    bytes[2..6].copy_from_slice(&u32::MAX.to_le_bytes());
    assert_eq!(read(&bytes), Err(ReadError::InvalidData));
}
