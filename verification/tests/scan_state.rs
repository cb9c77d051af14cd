//! Scan ranges, their priorities and the shards they cover.

use pepper_sync::chain::{ChainParameters, NetworkType, UpgradeHeights};
use pepper_sync::primitives::{BlockRange, ShieldedPool, TxId};
use pepper_sync::scan_range::{ScanPriority, ScanRange};
use pepper_sync::sync::select::{find_scan_targets, select_scan_range};
use pepper_sync::sync::shards::{
    add_shard_ranges, determine_block_range, pop_newest_shard_range, prioritize_scan_ranges, set_chain_tip_scan_range,
    set_found_note_scan_range, SubtreeRoot,
};
use pepper_sync::sync::state::{
    calculate_scanned_blocks, create_scan_range, merge_scan_ranges, punch_scan_priority, reopen_scan_ranges_inner,
    reset_refetching_nullifiers_scan_range, reset_scan_ranges, set_scan_priority, set_scanned_scan_range,
    set_verify_scan_range, split_out_scan_range, VerifyEnd,
};
use pepper_sync::sync::targets::add_scan_targets;
use pepper_sync::wallet::sync_state::{ScanTarget, SyncState};

fn network(nu6_3: Option<u32>) -> ChainParameters {
    ChainParameters::of(
        NetworkType::Regtest,
        UpgradeHeights {
            overwinter: Some(1),
            sapling: Some(1),
            blossom: Some(1),
            heartwood: Some(1),
            canopy: Some(1),
            nu5: Some(1),
            nu6: Some(1),
            nu6_1: Some(1),
            nu6_2: Some(1),
            nu6_3,
        },
    )
}

fn range(start: u32, end: u32, priority: ScanPriority) -> ScanRange {
    ScanRange::from_parts(BlockRange::new(start, end), priority)
}

fn state_of(scan_ranges: Vec<ScanRange>) -> SyncState {
    let mut sync_state = SyncState::new();
    sync_state.scan_ranges = scan_ranges;
    sync_state
}

fn sync_state_with_ranges(birthday: u32, tip: u32) -> SyncState {
    state_of(vec![range(birthday, tip + 1, ScanPriority::Historic)])
}

fn root(completing_block_height: u64) -> SubtreeRoot {
    SubtreeRoot { root_hash: Vec::new(), completing_block_hash: Vec::new(), completing_block_height }
}

fn target(block_height: u32, narrow_scan_area: bool) -> ScanTarget {
    ScanTarget { block_height, txid: TxId::from_bytes([block_height as u8; 32]), narrow_scan_area }
}

#[test]
fn refetched_newest_root_rebuilds_its_shard_range() {
    let parameters = network(Some(100));
    let mut sync_state = SyncState::new();
    add_shard_ranges(&parameters, ShieldedPool::Orchard, &mut sync_state, &vec![root(100), root(200)]);
    let initial = sync_state.orchard_shard_ranges.clone();
    assert_eq!(initial.len(), 2);

    pop_newest_shard_range(&mut sync_state, ShieldedPool::Orchard);
    add_shard_ranges(&parameters, ShieldedPool::Orchard, &mut sync_state, &vec![root(200)]);
    assert_eq!(sync_state.orchard_shard_ranges, initial);

    pop_newest_shard_range(&mut sync_state, ShieldedPool::Orchard);
    add_shard_ranges(&parameters, ShieldedPool::Orchard, &mut sync_state, &vec![root(205)]);
    assert_eq!(sync_state.orchard_shard_ranges.len(), 2);
    assert_eq!(sync_state.orchard_shard_ranges.last().unwrap().end, 206);
    assert_eq!(sync_state.orchard_shard_ranges.last().unwrap().start, 100);
}

#[test]
fn ironwood_before_nu6_3_downgrades_to_orchard() {
    let sync_state = sync_state_with_ranges(1, 200);
    let range = determine_block_range(&network(Some(100)), &sync_state, 50, Some(ShieldedPool::Ironwood));
    assert!(range.contains(50), "range should cover the requested height even after downgrade");
}

#[test]
fn ironwood_without_nu6_3_always_downgrades_to_orchard() {
    let sync_state = sync_state_with_ranges(1, 200);
    let range = determine_block_range(&network(None), &sync_state, 150, Some(ShieldedPool::Ironwood));
    assert!(range.contains(150));
}

#[test]
fn ironwood_at_nu6_3_activation_uses_ironwood_shard_ranges() {
    let mut sync_state = sync_state_with_ranges(1, 200);
    sync_state.ironwood_shard_ranges = vec![BlockRange::new(100, 150)];
    let range = determine_block_range(&network(Some(100)), &sync_state, 120, Some(ShieldedPool::Ironwood));
    assert_eq!(range.start, 100);
    assert_eq!(range.end, 150);
}

#[test]
fn chain_tip_priority_confined_to_tip_when_ironwood_shards_are_empty() {
    let mut sync_state = sync_state_with_ranges(1_000, 20_000);
    sync_state.sapling_shard_ranges = vec![BlockRange::new(1_000, 18_000)];
    sync_state.orchard_shard_ranges = vec![BlockRange::new(1_000, 18_500)];
    assert!(sync_state.ironwood_shard_ranges.is_empty());

    set_chain_tip_scan_range(&network(Some(19_000)), &mut sync_state, 20_000);

    let chain_tip_start = sync_state
        .scan_ranges()
        .iter()
        .filter(|range| range.priority() == ScanPriority::ChainTip)
        .map(|range| range.block_range().start)
        .min()
        .expect("chain tip punch should mark at least one range");
    assert!(chain_tip_start >= 17_999, "the tip reaches down to {chain_tip_start}");
}

#[test]
fn truncate_scan_ranges() {
    let mut sync_state = state_of(vec![
        range(1, 99, ScanPriority::Historic),
        range(100, 199, ScanPriority::Historic),
        range(200, 299, ScanPriority::Historic),
        range(300, 399, ScanPriority::Historic),
    ]);
    pepper_sync::sync::state::truncate_scan_ranges(250, &mut sync_state);
    assert_eq!(
        sync_state.scan_ranges,
        vec![
            range(1, 99, ScanPriority::Historic),
            range(100, 199, ScanPriority::Historic),
            range(200, 251, ScanPriority::Historic),
        ]
    );
}

#[test]
fn reopen_scan_ranges_from() {
    let mut sync_state = state_of(vec![
        range(1, 100, ScanPriority::Scanned),
        range(100, 200, ScanPriority::Scanned),
        range(200, 300, ScanPriority::ScannedWithoutMapping),
        range(300, 400, ScanPriority::Scanning),
    ]);
    reopen_scan_ranges_inner(&mut sync_state, 150);
    assert_eq!(
        sync_state.scan_ranges,
        vec![
            range(1, 100, ScanPriority::Scanned),
            range(100, 150, ScanPriority::Scanned),
            range(150, 200, ScanPriority::Historic),
            range(200, 300, ScanPriority::Historic),
            range(300, 400, ScanPriority::Scanning),
        ]
    );
}

#[test]
fn reopen_scan_ranges_from_below_the_wallet() {
    let mut sync_state =
        state_of(vec![range(100, 200, ScanPriority::Scanned), range(200, 300, ScanPriority::Scanned)]);
    reopen_scan_ranges_inner(&mut sync_state, 1);
    assert_eq!(
        sync_state.scan_ranges,
        vec![range(100, 200, ScanPriority::Historic), range(200, 300, ScanPriority::Historic)]
    );
}

/// A range is split out of another with its own priority, and nothing is lost around it.
#[test]
fn splitting_keeps_the_rest() {
    let whole = range(10, 20, ScanPriority::Historic);
    assert_eq!(
        split_out_scan_range(whole, BlockRange::new(13, 15), ScanPriority::FoundNote),
        vec![
            range(10, 13, ScanPriority::Historic),
            range(13, 15, ScanPriority::FoundNote),
            range(15, 20, ScanPriority::Historic),
        ]
    );
    assert_eq!(
        split_out_scan_range(whole, BlockRange::new(5, 15), ScanPriority::FoundNote),
        vec![range(10, 15, ScanPriority::FoundNote), range(15, 20, ScanPriority::Historic)]
    );
    assert_eq!(
        split_out_scan_range(whole, BlockRange::new(5, 25), ScanPriority::FoundNote),
        vec![range(10, 20, ScanPriority::FoundNote)]
    );
}

/// Scanned ranges are not punched, and a punched range covers the same blocks as before.
#[test]
fn punching_leaves_scanned_ranges_alone() {
    let mut sync_state = state_of(vec![
        range(1, 10, ScanPriority::Scanned),
        range(10, 20, ScanPriority::Historic),
        range(20, 30, ScanPriority::Verify),
    ]);
    punch_scan_priority(&mut sync_state, BlockRange::new(5, 25), ScanPriority::FoundNote);
    assert_eq!(
        sync_state.scan_ranges,
        vec![
            range(1, 10, ScanPriority::Scanned),
            range(10, 20, ScanPriority::FoundNote),
            range(20, 30, ScanPriority::Verify),
        ]
    );
}

/// Neighbours of the given priority become one range.
#[test]
fn merging_joins_neighbours() {
    let mut sync_state = state_of(vec![
        range(1, 10, ScanPriority::Scanned),
        range(10, 20, ScanPriority::Scanned),
        range(20, 30, ScanPriority::Historic),
        range(30, 40, ScanPriority::Historic),
    ]);
    merge_scan_ranges(&mut sync_state, ScanPriority::Scanned);
    assert_eq!(
        sync_state.scan_ranges,
        vec![
            range(1, 20, ScanPriority::Scanned),
            range(20, 30, ScanPriority::Historic),
            range(30, 40, ScanPriority::Historic),
        ]
    );
    assert_eq!(calculate_scanned_blocks(&sync_state), 19);
}

/// New blocks of the chain come in as one more range.
#[test]
fn the_chain_grows_by_a_range() {
    let mut sync_state = state_of(vec![range(1, 11, ScanPriority::Scanned)]);
    create_scan_range(10, 15, &mut sync_state);
    assert_eq!(
        sync_state.scan_ranges,
        vec![range(1, 11, ScanPriority::Scanned), range(11, 16, ScanPriority::Historic)]
    );
    assert_eq!(sync_state.wallet_birthday(), Some(1));
    assert_eq!(sync_state.last_known_chain_height(), Some(15));
    assert_eq!(sync_state.fully_scanned_height(), Some(10));
    assert_eq!(sync_state.highest_scanned_height(), Some(10));
    assert!(!sync_state.scan_complete());
}

/// Work of an interrupted session is taken up again.
#[test]
fn interrupted_work_is_reset() {
    let mut sync_state = state_of(vec![
        range(1, 11, ScanPriority::Scanning),
        range(11, 21, ScanPriority::RefetchingNullifiers),
        range(21, 31, ScanPriority::Scanned),
    ]);
    reset_scan_ranges(&mut sync_state);
    let priorities: Vec<ScanPriority> = sync_state.scan_ranges.iter().map(|range| range.priority()).collect();
    assert!(!priorities.contains(&ScanPriority::Scanning));
    assert!(!priorities.contains(&ScanPriority::RefetchingNullifiers));

    let mut sync_state =
        state_of(vec![range(1, 11, ScanPriority::RefetchingNullifiers), range(11, 21, ScanPriority::Scanned)]);
    reset_refetching_nullifiers_scan_range(&mut sync_state, BlockRange::new(1, 11));
    assert_eq!(sync_state.scan_ranges[0], range(1, 11, ScanPriority::ScannedWithoutMapping));
}

/// Verification takes ten blocks at the end that it is told.
#[test]
fn verification_takes_ten_blocks() {
    let mut sync_state = state_of(vec![range(1, 101, ScanPriority::Scanned)]);
    let verify = set_verify_scan_range(&mut sync_state, 50, VerifyEnd::VerifyHighest);
    assert_eq!(verify, range(91, 101, ScanPriority::Verify));
    assert_eq!(
        sync_state.scan_ranges,
        vec![range(1, 91, ScanPriority::Scanned), range(91, 101, ScanPriority::Verify)]
    );
    let mut sync_state = state_of(vec![range(1, 101, ScanPriority::Historic)]);
    let verify = set_verify_scan_range(&mut sync_state, 50, VerifyEnd::VerifyLowest);
    assert_eq!(verify, range(1, 11, ScanPriority::Verify));
}

/// A scanned range is marked as such, and may then be joined to its neighbours.
#[test]
fn scanned_ranges_are_marked() {
    let mut sync_state =
        state_of(vec![range(1, 11, ScanPriority::Scanned), range(11, 21, ScanPriority::Scanning)]);
    set_scanned_scan_range(&mut sync_state, BlockRange::new(11, 21), true);
    assert_eq!(
        sync_state.scan_ranges,
        vec![range(1, 11, ScanPriority::Scanned), range(11, 21, ScanPriority::Scanned)]
    );
    merge_scan_ranges(&mut sync_state, ScanPriority::Scanned);
    assert_eq!(sync_state.scan_ranges, vec![range(1, 21, ScanPriority::Scanned)]);
    assert!(sync_state.scan_complete());
    set_scan_priority(&mut sync_state, &BlockRange::new(1, 21), ScanPriority::Historic);
    assert_eq!(sync_state.scan_ranges, vec![range(1, 21, ScanPriority::Historic)]);
}

/// Of the ranges that wait, the one with the highest priority is scanned first.
#[test]
fn the_most_urgent_range_is_selected() {
    let mut sync_state = state_of(vec![
        range(1, 11, ScanPriority::Scanned),
        range(11, 21, ScanPriority::FoundNote),
        range(21, 31, ScanPriority::ChainTip),
    ]);
    let selected = select_scan_range(&network(None), &mut sync_state, false).unwrap();
    assert_eq!(*selected.block_range(), BlockRange::new(21, 31));
    assert_eq!(selected.priority(), ScanPriority::ChainTip);
    assert_eq!(sync_state.scan_ranges[2].priority(), ScanPriority::Scanning);
    let selected = select_scan_range(&network(None), &mut sync_state, false).unwrap();
    assert_eq!(*selected.block_range(), BlockRange::new(11, 21));
    assert_eq!(select_scan_range(&network(None), &mut sync_state, false), None);
}

/// The targets of a range are those whose blocks it holds.
#[test]
fn targets_are_found_by_height() {
    let mut sync_state = SyncState::new();
    add_scan_targets(&mut sync_state, &vec![target(5, true), target(10, true), target(15, false), target(5, true)]);
    assert_eq!(sync_state.scan_targets.len(), 3);
    let found = find_scan_targets(&sync_state, &BlockRange::new(10, 15));
    assert_eq!(found.len(), 1);
    assert!(found.contains_key(&target(10, true)));
}

/// A found note raises the shard that it lies in.
#[test]
fn found_notes_raise_their_shard() {
    let mut sync_state = sync_state_with_ranges(1, 200);
    sync_state.orchard_shard_ranges = vec![BlockRange::new(1, 81), BlockRange::new(80, 121)];
    set_found_note_scan_range(&network(None), &mut sync_state, Some(ShieldedPool::Orchard), 100);
    assert_eq!(
        sync_state.scan_ranges,
        vec![
            range(1, 80, ScanPriority::Historic),
            range(80, 121, ScanPriority::FoundNote),
            range(121, 201, ScanPriority::Historic),
        ]
    );
}

/// Priorities are set from the targets and the tip, and the ranges still cover the same blocks.
#[test]
fn prioritizing_keeps_the_coverage() {
    let mut sync_state = sync_state_with_ranges(1_000, 20_000);
    sync_state.sapling_shard_ranges = vec![BlockRange::new(1_000, 18_000)];
    sync_state.orchard_shard_ranges = vec![BlockRange::new(1_000, 18_500)];
    add_scan_targets(&mut sync_state, &vec![target(5_000, false)]);
    prioritize_scan_ranges(&network(Some(19_000)), 20_000, &mut sync_state);
    assert_eq!(sync_state.scan_ranges.first().unwrap().block_range().start, 1_000);
    assert_eq!(sync_state.scan_ranges.last().unwrap().block_range().end, 20_001);
    for pair in sync_state.scan_ranges.windows(2) {
        assert_eq!(pair[0].block_range().end, pair[1].block_range().start);
    }
    let holder = sync_state.scan_ranges.iter().find(|range| range.block_range().contains(5_000)).unwrap();
    assert_eq!(holder.priority(), ScanPriority::FoundNote);
}

/// Parts of a scan range keep its priority, and together they are the range.
#[test]
fn parts_of_a_range_keep_its_priority() {
    let whole = range(10, 20, ScanPriority::OpenAdjacent);
    assert_eq!(whole.len(), 10);
    assert!(!whole.is_empty());
    assert_eq!(whole.truncate_start(12), Some(range(12, 20, ScanPriority::OpenAdjacent)));
    assert_eq!(whole.truncate_start(20), None);
    assert_eq!(whole.truncate_end(12), Some(range(10, 12, ScanPriority::OpenAdjacent)));
    assert_eq!(whole.truncate_end(10), None);
    let (low, high) = whole.split_at(15).unwrap();
    assert_eq!(low, range(10, 15, ScanPriority::OpenAdjacent));
    assert_eq!(high, range(15, 20, ScanPriority::OpenAdjacent));
    assert_eq!(whole.split_at(10), None);
    assert!(ScanPriority::Scanned.is_scanned());
    assert!(ScanPriority::ScannedWithoutMapping.is_scanned());
    assert!(!ScanPriority::Scanning.is_scanned());
    assert!(ScanPriority::RefetchingNullifiers.awaits_nullifier_retrieval());
    assert!(!ScanPriority::Scanned.awaits_nullifier_retrieval());
}
