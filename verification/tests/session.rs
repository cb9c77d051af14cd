//! The steps of a session: requests, tasks, results and what they leave in the wallet.

use pepper_sync::chain::{ChainParameters, NetworkType, UpgradeHeights};
use pepper_sync::client::{
    inclusive_range, is_fetching_done, select_fetch_request, shielded_protocol_number, FetchRequest, InclusiveRange,
};
use pepper_sync::config::{max_nullifier_map_size, PerformanceLevel};
use pepper_sync::error::{ContinuityError, ScanError, ServerError, SyncError, SyncModeError};
use pepper_sync::primitives::{BlockRange, Nullifier, OutputId, ShieldedPool, TxId};
use pepper_sync::scan::compact::{CompactBlock, CompactOrchardAction, CompactTx};
use pepper_sync::scan::gap::Addresses;
use pepper_sync::scan::task::{
    after_no_task, create_scan_task, max_load_outputs, update_scanner, BlockEnds, LoadCounts, LoadState, LoaderSeams,
    ScanTask, ScannerAction, ScannerState,
};
use pepper_sync::scan_range::{ScanPriority, ScanRange};
use pepper_sync::sync::conditions::{
    block_is_countable, blocks_have_room, has_blocks_around, next_shard_is_known, notes_have_blocks,
    ranges_are_contiguous, roots_fit, spends_have_blocks,
};
use pepper_sync::sync::progress::{
    birthday_tree_sizes, final_tree_sizes, outputs_are_countable, SizeSource, TreeSizes,
};
use pepper_sync::sync::results::{
    complete_refetch, complete_scan, decide_mapping, handle_reorg, missing_block_bounds, refetch_is_usable,
    step_for_results, Mapping, ResultStep, ScanResults,
};
use pepper_sync::sync::process::{begin_refetch, begin_results, finish_refetch, finish_results};
use pepper_sync::sync::spend_update::spending_transactions_to_fetch;
use pepper_sync::sync::roots::{
    add_initial_frontier, needs_initial_frontier, root_requests, update_subtree_roots, FetchedRoots, RootRequests,
};
use pepper_sync::sync::session::{
    begin_pool_reopening, begin_verification, check_chain_height, finish_pool_reopening, missing_block_below, pool_history_reopened,
    Frontiers,
};
use pepper_sync::sync::shards::SubtreeRoot;
use pepper_sync::sync::truncate::tree_facts;
use pepper_sync::sync::update::{
    add_pending_transaction, discover_unified_addresses, finish_session, insert_located_trees,
    note_mempool_transaction, refetch_nullifier_ranges, update_wallet_data, FoundAddress, FoundData, MempoolStep,
};
use pepper_sync::sync_mode::{SessionStep, SyncMode};
use pepper_sync::trees::{Leaf, LeafRetention};
use pepper_sync::wallet::data::Wallet;
use pepper_sync::wallet::status::ConfirmationStatus;
use pepper_sync::wallet::stores::{NullifierMap, OutPoints, WalletBlock, WalletBlocks, WalletTransactions};
use pepper_sync::wallet::sync_state::{ScanTarget, ScanTargets, SyncState, TreeBounds};
use pepper_sync::wallet::transaction::{
    ChainTransaction, KeyId, OrchardNoteData, Rseed, SaplingNoteData, Scope, WalletNote, WalletTransaction,
};
use pepper_sync::witness::{build_located_trees, stored_subtree_root_count, subtree_fetch_start_index};

fn parameters(nu6_3: Option<u32>) -> ChainParameters {
    ChainParameters::of(
        NetworkType::Regtest,
        UpgradeHeights {
            overwinter: Some(1),
            sapling: Some(2),
            blossom: Some(2),
            heartwood: Some(2),
            canopy: Some(2),
            nu5: Some(2),
            nu6: Some(2),
            nu6_1: Some(2),
            nu6_2: Some(2),
            nu6_3,
        },
    )
}

fn range(start: u32, end: u32, priority: ScanPriority) -> ScanRange {
    ScanRange::from_parts(BlockRange::new(start, end), priority)
}

fn block(height: u32) -> WalletBlock {
    WalletBlock {
        block_height: height,
        block_hash: [height as u8; 32],
        prev_hash: [height as u8 - 1; 32],
        time: 0,
        txids: Vec::new(),
        tree_bounds: TreeBounds::zero(),
    }
}

fn wallet_with(birthday: u32, scan_ranges: Vec<ScanRange>) -> Wallet {
    let mut wallet = Wallet::new(birthday);
    wallet.sync_state.scan_ranges = scan_ranges;
    wallet
}

fn transaction(txid: u8, status: ConfirmationStatus) -> WalletTransaction {
    WalletTransaction {
        txid: TxId::from_bytes([txid; 32]),
        status,
        transaction: ChainTransaction { bytes: Vec::new(), expiry_height: 0 },
        datetime: 0,
        transparent_coins: Vec::new(),
        sapling_notes: Vec::new(),
        orchard_notes: Vec::new(),
        ironwood_notes: Vec::new(),
        outgoing_sapling_notes: Vec::new(),
        outgoing_orchard_notes: Vec::new(),
        outgoing_ironwood_notes: Vec::new(),
    }
}

fn note<N>(txid: u8, note: N, scope: Scope, nullifier: Option<u8>) -> WalletNote<N> {
    WalletNote {
        output_id: OutputId::new(TxId::from_bytes([txid; 32]), 0),
        key_id: KeyId { account_id: 1, scope },
        note,
        nullifier: nullifier.map(|n| Nullifier::from_bytes([n; 32])),
        position: None,
        memo: vec![0xf6; 1],
        spending_transaction: None,
        refetch_nullifier_ranges: Vec::new(),
    }
}

fn orchard_parts() -> OrchardNoteData {
    OrchardNoteData { recipient: [3; 43], value: 5, rho: [0; 32], rseed: [4; 32] }
}

fn target(block_height: u32, txid: u8) -> ScanTarget {
    ScanTarget { block_height, txid: TxId::from_bytes([txid; 32]), narrow_scan_area: true }
}

fn empty_frontiers() -> Frontiers {
    let mut sapling = Vec::new();
    zcash_primitives::merkle_tree::write_frontier_v1(
        &mut sapling,
        &incrementalmerkletree::frontier::Frontier::<sapling_crypto::Node, 32>::empty(),
    )
    .unwrap();
    let mut orchard = Vec::new();
    zcash_primitives::merkle_tree::write_frontier_v1(
        &mut orchard,
        &incrementalmerkletree::frontier::Frontier::<orchard::tree::MerkleHashOrchard, 32>::empty(),
    )
    .unwrap();
    Frontiers { sapling, orchard: orchard.clone(), ironwood: orchard }
}

/// Requests are served in the order in which they came.
#[test]
fn requests_are_served_in_order() {
    let mut queue = vec![FetchRequest::ChainTip, FetchRequest::CompactBlock(5)];
    assert_eq!(select_fetch_request(&mut queue), Some(FetchRequest::ChainTip));
    assert_eq!(select_fetch_request(&mut queue), Some(FetchRequest::CompactBlock(5)));
    assert_eq!(select_fetch_request(&mut queue), None);
    assert!(is_fetching_done(0, true));
    assert!(!is_fetching_done(1, true));
    assert!(!is_fetching_done(0, false));
    assert_eq!(inclusive_range(&BlockRange::new(5, 9)), InclusiveRange { first: 5, last: 8 });
    assert_eq!(shielded_protocol_number(ShieldedPool::Sapling), 0);
    assert_eq!(shielded_protocol_number(ShieldedPool::Orchard), 1);
    assert_eq!(shielded_protocol_number(ShieldedPool::Ironwood), 2);
}

/// The map of nullifiers has a limit at all levels but the highest.
#[test]
fn performance_levels_limit_the_nullifier_map() {
    assert_eq!(max_nullifier_map_size(PerformanceLevel::Low), Some(0));
    assert_eq!(max_nullifier_map_size(PerformanceLevel::Medium), Some(125_000));
    assert_eq!(max_nullifier_map_size(PerformanceLevel::High), Some(2_000_000));
    assert_eq!(max_nullifier_map_size(PerformanceLevel::Maximum), None);
    assert_eq!(max_load_outputs(PerformanceLevel::Low), 2_048);
    assert_eq!(max_load_outputs(PerformanceLevel::Maximum), 32_768);
}

/// Modes keep their numbers, and only one session runs.
#[test]
fn modes_keep_their_numbers() {
    for mode in [SyncMode::NotRunning, SyncMode::Paused, SyncMode::Running, SyncMode::Shutdown] {
        assert_eq!(SyncMode::from_u8(mode.to_u8()), Ok(mode));
    }
    assert_eq!(SyncMode::from_u8(4), Err(SyncModeError::InvalidSyncMode(4)));
    assert_eq!(SyncMode::NotRunning.begin(), Ok(SyncMode::Running));
    assert_eq!(SyncMode::Running.begin(), Err(SyncModeError::SyncAlreadyRunning));
    assert_eq!(SyncMode::Running.tick(), SessionStep::Update);
    assert_eq!(SyncMode::Paused.tick(), SessionStep::Pause);
    assert_eq!(SyncMode::Shutdown.tick(), SessionStep::Stop);
}

/// A chain of one block cannot be synced.
#[test]
fn a_chain_needs_more_than_genesis() {
    assert_eq!(check_chain_height(0), Err(ServerError::GenesisBlockOnly));
    assert_eq!(check_chain_height(2), Ok(()));
}

/// The scanner verifies first, then scans, and shuts down once all is scanned.
#[test]
fn the_scanner_moves_forward() {
    let verifying = wallet_with(1, vec![range(1, 5, ScanPriority::Scanned), range(5, 9, ScanPriority::Verify)]);
    let scanning = wallet_with(1, vec![range(1, 5, ScanPriority::Scanned), range(5, 9, ScanPriority::Scanning)]);
    let done = wallet_with(1, vec![range(1, 9, ScanPriority::Scanned)]);
    assert_eq!(
        update_scanner(ScannerState::Verification, &verifying.sync_state),
        (ScannerState::Verification, ScannerAction::Load)
    );
    assert_eq!(
        update_scanner(ScannerState::Verification, &scanning.sync_state),
        (ScannerState::Verification, ScannerAction::Wait)
    );
    assert_eq!(
        update_scanner(ScannerState::Verification, &done.sync_state),
        (ScannerState::Scan, ScannerAction::Wait)
    );
    assert_eq!(update_scanner(ScannerState::Scan, &done.sync_state), (ScannerState::Scan, ScannerAction::Load));
    assert_eq!(after_no_task(ScannerState::Scan, &scanning.sync_state), ScannerState::Scan);
    assert_eq!(after_no_task(ScannerState::Scan, &done.sync_state), ScannerState::Shutdown);
    assert_eq!(
        update_scanner(ScannerState::Shutdown, &done.sync_state),
        (ScannerState::Shutdown, ScannerAction::Shutdown)
    );
}

/// A task carries its seams, its targets and the addresses of the wallet.
#[test]
fn tasks_carry_what_they_need() {
    let mut wallet = wallet_with(1, vec![range(1, 5, ScanPriority::Scanned), range(5, 9, ScanPriority::ChainTip)]);
    wallet.wallet_blocks.insert(4, block(4));
    wallet.sync_state.scan_targets.insert(target(6, 1), ());
    wallet.sync_state.scan_targets.insert(target(10, 2), ());
    let task = create_scan_task(&parameters(None), &mut wallet, false).unwrap();
    assert_eq!(*task.scan_range.block_range(), BlockRange::new(5, 9));
    assert_eq!(task.start_seam_block, Some(block(4)));
    assert_eq!(task.end_seam_block, None);
    assert_eq!(task.scan_targets.len(), 1);
    assert_eq!(wallet.sync_state.scan_ranges[1].priority(), ScanPriority::Scanning);
    assert!(create_scan_task(&parameters(None), &mut wallet, false).is_none());
}

/// A range is not verified while the range directly below it is being scanned, so that a re-org is noticed.
#[test]
fn verification_waits_for_the_range_below() {
    let ranges = vec![
        range(1, 20, ScanPriority::Scanned),
        range(20, 40, ScanPriority::Scanning),
        range(40, 50, ScanPriority::Verify),
    ];
    let mut wallet = wallet_with(1, ranges.clone());
    assert!(create_scan_task(&parameters(None), &mut wallet, false).is_none());
    assert_eq!(wallet.sync_state.scan_ranges, ranges);
    wallet.sync_state.scan_ranges[1] = range(20, 40, ScanPriority::Scanned);
    let task = create_scan_task(&parameters(None), &mut wallet, false).unwrap();
    assert_eq!(*task.scan_range.block_range(), BlockRange::new(40, 50));
}

fn compact_block(height: u64, actions: usize) -> CompactBlock {
    let action = || CompactOrchardAction {
        nullifier: vec![0; 32],
        cmx: vec![0; 32],
        ephemeral_key: vec![0; 32],
        ciphertext: vec![0; 52],
    };
    CompactBlock {
        height,
        hash: vec![height as u8; 32],
        prev_hash: vec![height as u8 - 1; 32],
        time: 0,
        header: vec![],
        vtx: vec![CompactTx {
            index: 0,
            txid: vec![height as u8; 32],
            fee: 0,
            spends: vec![],
            outputs: vec![],
            actions: (0..actions).map(|_| action()).collect(),
            ironwood_actions: vec![],
            vin: vec![],
            vout: vec![],
        }],
        chain_metadata: None,
    }
}

fn task(start: u32, end: u32) -> ScanTask {
    ScanTask {
        compact_blocks: Vec::new(),
        scan_range: range(start, end, ScanPriority::Historic),
        start_seam_block: None,
        end_seam_block: None,
        scan_targets: ScanTargets::new(),
        transparent_addresses: Addresses::new(),
    }
}

/// A task is split before the block that would make its load too large, and nothing is lost.
#[test]
fn loads_are_split_before_they_grow_too_large() {
    let mut whole = task(5, 9);
    whole.scan_targets.insert(target(5, 1), ());
    whole.scan_targets.insert(target(7, 2), ());
    let mut load = LoadState::begin(whole);
    assert!(!load.fetches_nullifiers_only());
    assert_eq!(load.blocks_to_fetch(), BlockRange::new(5, 9));
    let first = compact_block(5, 6);
    assert!(!load.count_block(&first, 5, 10));
    load.push_block(first, 5);
    let second = compact_block(6, 6);
    assert!(load.count_block(&second, 6, 10));
    let (full, mut rest) = load.split_off_load(6, Some(block(5)), Some(block(6)));
    rest.push_block(second, 6);
    assert_eq!(*full.scan_range.block_range(), BlockRange::new(5, 6));
    assert_eq!(full.compact_blocks.len(), 1);
    assert_eq!(full.scan_targets.len(), 1);
    assert_eq!(full.end_seam_block, Some(block(6)));
    assert_eq!(rest.task.start_seam_block, Some(block(5)));
    assert_eq!(rest.task.scan_targets.len(), 1);
    assert_eq!(*rest.task.scan_range.block_range(), BlockRange::new(6, 9));
    assert_eq!(rest.counts, LoadCounts { outputs: 6, nullifiers: 0 });
    assert_eq!(rest.blocks_to_fetch(), BlockRange::new(7, 9));
}

/// A stream that broke off is opened again for the blocks that are missing, once before a block comes.
#[test]
fn broken_streams_are_opened_again() {
    let mut load = LoadState::begin(task(5, 9));
    assert_eq!(load.on_broken_stream(false, "not found"), None);
    assert_eq!(load.on_broken_stream(true, ""), Some(BlockRange::new(5, 9)));
    assert_eq!(load.on_broken_stream(true, ""), None);
    let (full, mut load) = load.take_block(compact_block(5, 0), 5, 10, None, None);
    assert!(full.is_none());
    let message = "internal: Unexpected EOF decoding stream. Try again";
    assert_eq!(load.on_broken_stream(false, message), Some(BlockRange::new(6, 9)));
    assert_eq!(load.on_broken_stream(false, message), None);
}

/// Blocks are handed on in loads of a bounded size, in which all blocks are, in their order.
#[test]
fn loads_partition_the_stream() {
    let mut load = LoadState::begin(task(5, 10));
    let mut loads: Vec<Vec<u64>> = Vec::new();
    for (height, actions) in [(5u32, 4), (6, 4), (7, 4), (8, 20), (9, 1)] {
        let next = compact_block(u64::from(height), actions);
        let splits = load.splits_before(&next, height, 10);
        let (full, rest) = load.take_block(next, height, 10, Some(block(height - 1)), None);
        assert_eq!(full.is_some(), splits);
        if let Some(full) = full {
            assert_eq!(full.end_seam_block, None);
            assert_eq!(rest.task.start_seam_block, Some(block(height - 1)));
            assert_eq!(full.scan_range.block_range().end, height);
            loads.push(full.compact_blocks.iter().map(|block| block.height).collect());
        }
        load = rest;
    }
    loads.push(load.task.compact_blocks.iter().map(|block| block.height).collect());
    assert_eq!(loads, vec![vec![5, 6], vec![7], vec![8], vec![9]]);
    assert_eq!(load.blocks_to_fetch(), BlockRange::new(10, 10));
}

/// The ends of a load are the seams of the loads beside it.
#[test]
fn ends_of_loads_become_seams() {
    let mut seams = LoaderSeams::new();
    let load = LoadState::begin(task(5, 7));
    assert_eq!(load.ends_at(5), BlockEnds { first: true, last: false });
    seams.remember(load.ends_at(5), &block(5));
    let (_, load) = load.take_block(compact_block(5, 0), 5, 10, None, None);
    assert_eq!(load.ends_at(6), BlockEnds { first: false, last: true });
    seams.remember(load.ends_at(6), &block(6));
    assert_eq!(seams.first, Some(block(5)));
    assert_eq!(seams.last, Some(block(6)));

    let mut above = LoadState::begin(task(7, 9));
    above.adopt_seams(&seams);
    assert_eq!(above.task.start_seam_block, Some(block(6)));
    assert_eq!(above.task.end_seam_block, None);
    let mut below = LoadState::begin(task(3, 5));
    below.adopt_seams(&seams);
    assert_eq!(below.task.start_seam_block, None);
    assert_eq!(below.task.end_seam_block, Some(block(5)));
    let mut elsewhere = LoadState::begin(task(20, 25));
    elsewhere.adopt_seams(&seams);
    assert_eq!(elsewhere.task.start_seam_block, None);
    assert_eq!(elsewhere.task.end_seam_block, None);

    let mut nullifiers = task(7, 9);
    nullifiers.scan_range = range(7, 9, ScanPriority::ScannedWithoutMapping);
    let mut nullifiers = LoadState::begin(nullifiers);
    nullifiers.adopt_seams(&seams);
    assert_eq!(nullifiers.task.start_seam_block, None);
    assert_eq!(nullifiers.ends_at(8), BlockEnds { first: false, last: false });
}

/// The first blocks above what is scanned are verified.
#[test]
fn verification_begins_above_what_is_scanned() {
    let mut state = SyncState::new();
    state.scan_ranges = vec![range(2, 50, ScanPriority::Scanned), range(50, 100, ScanPriority::Historic)];
    assert_eq!(begin_verification(&mut state, 99), 50);
    assert_eq!(
        state.scan_ranges,
        vec![
            range(2, 50, ScanPriority::Scanned),
            range(50, 60, ScanPriority::Verify),
            range(60, 100, ScanPriority::Historic),
        ]
    );
    let mut state = SyncState::new();
    state.scan_ranges = vec![range(2, 50, ScanPriority::Scanned)];
    assert_eq!(begin_verification(&mut state, 49), 50);
    assert_eq!(state.scan_ranges, vec![range(2, 50, ScanPriority::Scanned)]);
}

/// A task is split at a height, together with its blocks.
#[test]
fn tasks_are_split_with_their_blocks() {
    let mut whole = task(5, 9);
    for height in 5..9 {
        whole.compact_blocks.push(compact_block(height, 0));
    }
    assert_eq!(whole.split_index(7), 2);
    let (low, mut high) = whole.split(7, None, None);
    assert_eq!(low.compact_blocks.len(), 2);
    assert_eq!(high.compact_blocks.len(), 2);
    assert_eq!(high.compact_blocks[0].height, 7);
    high.adopt_seams(&None, &Some(block(6)));
    assert_eq!(high.start_seam_block, Some(block(6)));
}

/// Each error of a scan has its own consequence.
#[test]
fn results_lead_to_their_step() {
    let verify = range(5, 9, ScanPriority::Verify);
    let reorg = |height: u32| {
        ScanError::ContinuityError(ContinuityError::HashDiscontinuity {
            height,
            prev_hash: [0; 32],
            previous_block_hash: [1; 32],
        })
    };
    assert_eq!(step_for_results(&verify, None), ResultStep::Scanned);
    assert_eq!(step_for_results(&range(5, 9, ScanPriority::ScannedWithoutMapping), None), ResultStep::Refetched);
    assert_eq!(step_for_results(&verify, Some(&reorg(5))), ResultStep::Reorg { height: 5 });
    assert_eq!(step_for_results(&verify, Some(&reorg(6))), ResultStep::Fail);
    let sizes = ScanError::IncorrectTreeSize {
        shielded_protocol: ShieldedPool::Ironwood,
        height: 7,
        block_metadata_size: 3,
        calculated_size: 2,
    };
    assert_eq!(
        step_for_results(&verify, Some(&sizes)),
        ResultStep::Reopen {
            pool: ShieldedPool::Ironwood,
            height: 7,
            block_metadata_size: 3,
            calculated_size: 2,
        }
    );
    assert_eq!(step_for_results(&verify, Some(&ScanError::InvalidSaplingNullifier)), ResultStep::Fail);
}

/// A full map takes the nullifiers of the lowest open range only.
#[test]
fn a_full_map_takes_only_the_lowest_range() {
    let wallet = wallet_with(
        1,
        vec![
            range(1, 5, ScanPriority::Scanned),
            range(5, 9, ScanPriority::Scanning),
            range(9, 10, ScanPriority::Historic),
            range(10, 12, ScanPriority::Scanning),
        ],
    );
    let mut nullifiers = NullifierMap::new();
    nullifiers.orchard.insert(Nullifier::from_bytes([1; 32]), target(6, 1));
    let lowest = range(5, 9, ScanPriority::ChainTip);
    let higher = range(10, 12, ScanPriority::Historic);
    assert_eq!(
        decide_mapping(&wallet, &lowest, &nullifiers, PerformanceLevel::Low, false),
        Mapping { map_nullifiers: true, map_outpoints: true, limit_exceeded: true }
    );
    assert_eq!(
        decide_mapping(&wallet, &higher, &nullifiers, PerformanceLevel::Low, false),
        Mapping { map_nullifiers: false, map_outpoints: false, limit_exceeded: true }
    );
    assert_eq!(
        decide_mapping(&wallet, &higher, &nullifiers, PerformanceLevel::Medium, false),
        Mapping { map_nullifiers: true, map_outpoints: false, limit_exceeded: false }
    );
}

/// What was scanned is marked, and only the blocks that are still needed are kept.
#[test]
fn completed_scans_are_marked() {
    let mut wallet = wallet_with(1, vec![range(1, 5, ScanPriority::Scanned), range(5, 9, ScanPriority::Scanning)]);
    for height in [1, 4] {
        wallet.wallet_blocks.insert(height, block(height));
    }
    assert_eq!(missing_block_bounds(&wallet, &range(5, 9, ScanPriority::ChainTip)), Vec::<u32>::new());
    assert_eq!(missing_block_bounds(&wallet, &range(5, 7, ScanPriority::ChainTip)), vec![5, 6, 7]);
    let mut scanned = WalletBlocks::new();
    for height in 5..9 {
        scanned.insert(height, block(height));
    }
    complete_scan(&mut wallet, &mut scanned, &range(5, 9, ScanPriority::ChainTip), true);
    assert_eq!(wallet.sync_state.scan_ranges, vec![range(1, 9, ScanPriority::Scanned)]);
    assert!(wallet.wallet_blocks.contains_key(&1));
    assert!(wallet.wallet_blocks.contains_key(&8));

    let mut wallet = wallet_with(
        1,
        vec![range(1, 5, ScanPriority::Scanned), range(5, 9, ScanPriority::RefetchingNullifiers)],
    );
    assert!(refetch_is_usable(&wallet.sync_state, &BlockRange::new(5, 9)));
    complete_refetch(&mut wallet, BlockRange::new(5, 9));
    assert_eq!(wallet.sync_state.scan_ranges, vec![range(1, 9, ScanPriority::Scanned)]);
}

/// A reorg takes the blocks below it into the verification, and forgets what they held.
#[test]
fn reorgs_widen_the_verification() {
    let mut wallet =
        wallet_with(1, vec![range(1, 51, ScanPriority::Scanned), range(51, 61, ScanPriority::Scanning)]);
    for height in 1..=50 {
        wallet.wallet_blocks.insert(height, block(height));
        wallet.shard_trees.sapling.append_checkpoint(height);
        wallet.shard_trees.orchard.append_checkpoint(height);
    }
    let tip: Result<u32, SyncError<String>> = handle_reorg(&mut wallet, &BlockRange::new(51, 61), 51, 51, 7);
    assert_eq!(tip, Ok(60));
    assert_eq!(
        wallet.sync_state.scan_ranges,
        vec![range(1, 41, ScanPriority::Scanned), range(41, 61, ScanPriority::Verify)]
    );
    assert!(wallet.wallet_blocks.contains_key(&40));
    assert!(!wallet.wallet_blocks.contains_key(&41));
    assert_eq!(tree_facts(&wallet.shard_trees.sapling, 40).newest_checkpoint, Some(40));

    let mut wallet =
        wallet_with(1, vec![range(1, 51, ScanPriority::Scanned), range(51, 61, ScanPriority::Scanning)]);
    let refused: Result<u32, SyncError<String>> = handle_reorg(&mut wallet, &BlockRange::new(51, 61), 51, 200, 7);
    assert_eq!(refused, Err(SyncError::ServerError(ServerError::ChainVerificationError)));
}

/// A pool whose history is missing is cleared and scanned again from its activation.
#[test]
fn a_pool_is_reopened_from_its_activation() {
    let mut wallet = wallet_with(3, vec![range(3, 61, ScanPriority::Scanned)]);
    for height in 3..=60 {
        wallet.wallet_blocks.insert(height, block(height));
        wallet.shard_trees.sapling.append_checkpoint(height);
        wallet.shard_trees.orchard.append_checkpoint(height);
        wallet.shard_trees.ironwood.append_checkpoint(height);
    }
    let confirmed = transaction(1, ConfirmationStatus::Confirmed(50));
    wallet.wallet_transactions.insert(confirmed.txid(), confirmed);
    let earlier = transaction(2, ConfirmationStatus::Confirmed(20));
    wallet.wallet_transactions.insert(earlier.txid(), earlier);

    let reopening = begin_pool_reopening(&parameters(Some(40)), &mut wallet, ShieldedPool::Ironwood, 7);
    assert_eq!(reopening.rescan_from, 40);
    assert_eq!(reopening.rescan_targets, vec![target(50, 1)]);
    assert!(!wallet.wallet_blocks.contains_key(&40));
    assert!(wallet.wallet_blocks.contains_key(&39));
    assert_eq!(missing_block_below(&wallet, 40), None);
    assert_eq!(missing_block_below(&wallet, 42), Some(41));
    assert_eq!(wallet.wallet_transactions.len(), 1);

    let mut frontiers = empty_frontiers();
    frontiers.ironwood = vec![7];
    assert!(finish_pool_reopening(&mut wallet, &reopening, &frontiers).is_err());
    assert_eq!(tree_facts(&wallet.shard_trees.orchard, 39).newest_checkpoint, Some(39));
    assert_eq!(tree_facts(&wallet.shard_trees.ironwood, 3).newest_checkpoint, Some(0));
    assert_eq!(wallet.sync_state.scan_ranges, vec![range(3, 61, ScanPriority::Scanned)]);

    assert_eq!(finish_pool_reopening(&mut wallet, &reopening, &empty_frontiers()), Ok(()));
    assert_eq!(
        wallet.sync_state.scan_ranges,
        vec![range(3, 40, ScanPriority::Scanned), range(40, 61, ScanPriority::Historic)]
    );
    assert_eq!(tree_facts(&wallet.shard_trees.sapling, 39).newest_checkpoint, Some(39));
    assert_eq!(tree_facts(&wallet.shard_trees.orchard, 39).newest_checkpoint, Some(39));
    assert_eq!(tree_facts(&wallet.shard_trees.ironwood, 3).newest_checkpoint, Some(3));
    assert!(wallet.sync_state.scan_targets.contains_key(&target(50, 1)));
    let announced: SyncError<String> = pool_history_reopened(&reopening, 55, 9, 8);
    assert!(matches!(
        announced,
        SyncError::PoolHistoryReopened { pool: ShieldedPool::Ironwood, rescan_from: 40, disagreed_at: 55, .. }
    ));
}

fn root(node: u8, completing_block_height: u64) -> SubtreeRoot {
    let mut root_hash = vec![0; 32];
    root_hash[0] = node;
    SubtreeRoot { root_hash, completing_block_hash: vec![0; 32], completing_block_height }
}

/// Roots that were fetched are asked for no more, but for the newest, which is asked for again.
#[test]
fn fetched_roots_are_stored_once() {
    let mut wallet = Wallet::new(2);
    assert_eq!(root_requests(&wallet.shard_trees), RootRequests { sapling: 0, orchard: 0, ironwood: 0 });
    let fetched = FetchedRoots {
        sapling: vec![root(1, 100), root(2, 200)],
        orchard: vec![root(3, 300)],
        ironwood: Vec::new(),
    };
    assert_eq!(update_subtree_roots(&parameters(None), &mut wallet, &fetched), Ok(()));
    assert_eq!(stored_subtree_root_count(&wallet.shard_trees.sapling), 2);
    assert_eq!(subtree_fetch_start_index(&wallet.shard_trees.sapling), 1);
    assert_eq!(root_requests(&wallet.shard_trees), RootRequests { sapling: 1, orchard: 0, ironwood: 0 });
    let before = wallet.sync_state.sapling_shard_ranges.clone();
    assert_eq!(before.len(), 2);
    let again = FetchedRoots { sapling: vec![root(2, 200)], orchard: vec![root(3, 300)], ironwood: Vec::new() };
    assert_eq!(update_subtree_roots(&parameters(None), &mut wallet, &again), Ok(()));
    assert_eq!(wallet.sync_state.sapling_shard_ranges, before);
    assert_eq!(stored_subtree_root_count(&wallet.shard_trees.sapling), 2);
    assert_eq!(stored_subtree_root_count(&wallet.shard_trees.orchard), 1);

    let mut malformed = FetchedRoots { sapling: vec![root(1, 300)], orchard: Vec::new(), ironwood: Vec::new() };
    malformed.sapling[0].root_hash = vec![0xff; 32];
    assert_eq!(
        update_subtree_roots(&parameters(None), &mut wallet, &malformed),
        Err(ServerError::InvalidSubtreeRoot)
    );
}

/// A new wallet begins with the trees as they were at its birthday.
#[test]
fn new_wallets_begin_with_a_frontier() {
    let mut wallet = Wallet::new(50);
    assert!(needs_initial_frontier(&parameters(None), &wallet));
    assert_eq!(add_initial_frontier(&mut wallet, &empty_frontiers()), Ok(()));
    assert_eq!(tree_facts(&wallet.shard_trees.sapling, 50).checkpoint_at_target, Some(50));
    assert!(!needs_initial_frontier(&parameters(None), &wallet));
    assert!(!needs_initial_frontier(&parameters(None), &Wallet::new(2)));
    let mut wallet = Wallet::new(50);
    let mut frontiers = empty_frontiers();
    frontiers.sapling = vec![7];
    assert!(add_initial_frontier(&mut wallet, &frontiers).is_err());
    assert_eq!(tree_facts(&wallet.shard_trees.sapling, 50).checkpoint_at_target, None);
    let mut frontiers = empty_frontiers();
    frontiers.orchard = vec![7];
    assert!(add_initial_frontier(&mut wallet, &frontiers).is_err());
    assert_eq!(tree_facts(&wallet.shard_trees.sapling, 50).checkpoint_at_target, Some(50));
    assert_eq!(tree_facts(&wallet.shard_trees.orchard, 50).checkpoint_at_target, None);
    assert_eq!(tree_facts(&wallet.shard_trees.ironwood, 50).checkpoint_at_target, None);
    assert!(!wallet.save_required);
}

/// Subtrees are inserted up to the first that contradicts the tree, which adds no checkpoint.
#[test]
fn contradicting_subtrees_end_the_insertion() {
    let located = |start: u64, node: u8, id: u32| {
        let mut bytes = [0; 32];
        bytes[0] = node;
        let leaf = Leaf { node: bytes, retention: LeafRetention::MarkedCheckpoint(id) };
        match build_located_trees(true, start, &vec![leaf], 8) {
            Ok(located) => located,
            Err(error) => panic!("{error:?}"),
        }
    };
    let mut tree = Wallet::new(0).shard_trees.orchard;
    let mut trees = located(0, 1, 10);
    trees.extend(located(1, 2, 11));
    assert_eq!(insert_located_trees(&mut tree, trees), Ok(()));
    assert_eq!(tree_facts(&tree, 10).checkpoint_at_target, Some(10));
    assert_eq!(tree_facts(&tree, 11).newest_checkpoint, Some(11));
    let mut trees = located(2, 3, 12);
    trees.extend(located(0, 9, 13));
    trees.extend(located(3, 4, 14));
    assert!(insert_located_trees(&mut tree, trees).is_err());
    assert_eq!(tree_facts(&tree, 12).checkpoint_at_target, Some(12));
    assert_eq!(tree_facts(&tree, 12).newest_checkpoint, Some(12));
}

/// Results of a scan become part of the wallet, with the note's shard to be scanned next.
#[test]
fn found_data_enters_the_wallet() {
    let mut wallet = wallet_with(
        2,
        vec![
            range(2, 50, ScanPriority::Historic),
            range(50, 61, ScanPriority::Scanning),
            range(61, 71, ScanPriority::ScannedWithoutMapping),
        ],
    );
    wallet.sync_state.orchard_shard_ranges = vec![BlockRange::new(2, 21), BlockRange::new(20, 66)];
    let scan_range = range(50, 61, ScanPriority::ChainTip);
    assert_eq!(refetch_nullifier_ranges(&wallet.sync_state, &scan_range), vec![BlockRange::new(61, 71)]);
    let mut found = transaction(1, ConfirmationStatus::Confirmed(55));
    found.orchard_notes.push(note(1, orchard_parts(), Scope::External, Some(9)));
    let mut transactions = WalletTransactions::new();
    transactions.insert(found.txid(), found);
    let mut nullifiers = NullifierMap::new();
    nullifiers.orchard.insert(Nullifier::from_bytes([8; 32]), target(55, 1));
    let mut outpoints = OutPoints::new();
    outpoints.insert(OutputId::new(TxId::from_bytes([1; 32]), 4), target(55, 1));
    let leaf = Leaf { node: [0; 32], retention: LeafRetention::MarkedCheckpoint(60) };
    let located = match build_located_trees(true, 0, &vec![leaf], 8) {
        Ok(located) => located,
        Err(error) => panic!("{error:?}"),
    };
    let data = FoundData {
        transactions,
        sapling_located_trees: Vec::new(),
        orchard_located_trees: located,
        ironwood_located_trees: Vec::new(),
    };
    assert_eq!(
        update_wallet_data(&parameters(None), &mut wallet, &scan_range, &mut nullifiers, &mut outpoints, data),
        Ok(())
    );
    assert_eq!(
        wallet.sync_state.scan_ranges,
        vec![
            range(2, 20, ScanPriority::Historic),
            range(20, 50, ScanPriority::FoundNote),
            range(50, 61, ScanPriority::Scanning),
            range(61, 71, ScanPriority::ScannedWithoutMapping),
        ]
    );
    let kept = wallet.wallet_transactions.get(&TxId::from_bytes([1; 32])).unwrap();
    assert_eq!(kept.orchard_notes[0].refetch_nullifier_ranges, vec![BlockRange::new(61, 71)]);
    assert_eq!(wallet.nullifiers.orchard.len(), 1);
    assert_eq!(nullifiers.orchard.len(), 0);
    assert_eq!(wallet.outpoints.len(), 1);
    assert_eq!(tree_facts(&wallet.shard_trees.orchard, 60).checkpoint_at_target, Some(60));

    finish_session(&mut wallet, 7);
    let kept = wallet.wallet_transactions.get(&TxId::from_bytes([1; 32])).unwrap();
    assert_eq!(kept.orchard_notes[0].refetch_nullifier_ranges, Vec::<BlockRange>::new());
    assert!(wallet.save_required);
}

/// The results of a range enter the wallet in two steps, around the fetch of the transactions that spend its notes.
#[test]
fn results_are_taken_in_two_steps() {
    let mut wallet = wallet_with(2, vec![range(2, 50, ScanPriority::Scanned), range(50, 61, ScanPriority::Scanning)]);
    let mut funding = transaction(1, ConfirmationStatus::Confirmed(40));
    funding.orchard_notes.push(note(1, orchard_parts(), Scope::External, Some(9)));
    wallet.wallet_transactions.insert(funding.txid(), funding);
    let scan_range = range(50, 61, ScanPriority::Historic);
    let mut nullifiers = NullifierMap::new();
    nullifiers.orchard.insert(Nullifier::from_bytes([9; 32]), target(55, 3));
    nullifiers.orchard.insert(Nullifier::from_bytes([8; 32]), target(55, 3));
    let mut scanned_blocks = WalletBlocks::new();
    for height in 50..61 {
        scanned_blocks.insert(height, block(height));
    }
    let results = ScanResults {
        nullifiers,
        outpoints: OutPoints::new(),
        scanned_blocks,
        wallet_transactions: WalletTransactions::new(),
        sapling_located_trees: Vec::new(),
        orchard_located_trees: Vec::new(),
        ironwood_located_trees: Vec::new(),
    };
    let pending =
        begin_results(&parameters(None), &mut wallet, &scan_range, results, PerformanceLevel::Low, false).unwrap();
    assert!(pending.limit_exceeded);
    assert!(pending.nullifiers_mapped, "those of the lowest range are always mapped");
    assert_eq!(pending.spends.orchard.len(), 1);
    assert_eq!(wallet.nullifiers.orchard.len(), 1);
    let funding = wallet.wallet_transactions.get(&TxId::from_bytes([1; 32])).unwrap();
    assert_eq!(funding.orchard_notes[0].spending_transaction, Some(TxId::from_bytes([3; 32])));
    let to_fetch = spending_transactions_to_fetch(&wallet.wallet_transactions, &pending.spends);
    assert_eq!(to_fetch.len(), 1);

    let mut fetched = WalletTransactions::new();
    let spending = transaction(3, ConfirmationStatus::Confirmed(55));
    fetched.insert(spending.txid(), spending);
    finish_results(&mut wallet, &scan_range, pending, &mut fetched);
    assert_eq!(wallet.sync_state.scan_ranges, vec![range(2, 61, ScanPriority::Scanned)]);
    assert!(wallet.wallet_transactions.contains_key(&TxId::from_bytes([3; 32])));
    assert_eq!(wallet.nullifiers.orchard.len(), 0, "all is scanned, so none is waited for");
    assert!(wallet.wallet_blocks.contains_key(&55), "the block of a transaction is kept");
    assert!(wallet.wallet_blocks.contains_key(&60), "the last block is kept");
}

/// Nullifiers that were fetched again are of use for the first open range only.
#[test]
fn refetched_nullifiers_are_used_in_order() {
    let mut wallet = wallet_with(
        2,
        vec![
            range(2, 30, ScanPriority::Scanned),
            range(30, 50, ScanPriority::RefetchingNullifiers),
            range(50, 61, ScanPriority::RefetchingNullifiers),
        ],
    );
    let mut funding = transaction(1, ConfirmationStatus::Confirmed(10));
    funding.orchard_notes.push(note(1, orchard_parts(), Scope::External, Some(9)));
    wallet.wallet_transactions.insert(funding.txid(), funding);
    let mut nullifiers = NullifierMap::new();
    nullifiers.orchard.insert(Nullifier::from_bytes([9; 32]), target(55, 3));
    assert!(begin_refetch(&parameters(None), &mut wallet, BlockRange::new(50, 61), &mut nullifiers).is_none());
    assert_eq!(wallet.sync_state.scan_ranges[2], range(50, 61, ScanPriority::ScannedWithoutMapping));
    let mut nullifiers = NullifierMap::new();
    nullifiers.orchard.insert(Nullifier::from_bytes([9; 32]), target(35, 3));
    let spends = begin_refetch(&parameters(None), &mut wallet, BlockRange::new(30, 50), &mut nullifiers).unwrap();
    assert_eq!(spends.orchard.len(), 1);
    finish_refetch(&mut wallet, BlockRange::new(30, 50), &spends, &mut WalletTransactions::new());
    assert_eq!(
        wallet.sync_state.scan_ranges,
        vec![range(2, 50, ScanPriority::Scanned), range(50, 61, ScanPriority::ScannedWithoutMapping)]
    );
    let funding = wallet.wallet_transactions.get(&TxId::from_bytes([1; 32])).unwrap();
    assert_eq!(funding.orchard_notes[0].spending_transaction, Some(TxId::from_bytes([3; 32])));
}

/// A pending transaction is kept if it concerns the wallet.
#[test]
fn pending_transactions_are_kept_if_they_concern_the_wallet() {
    let mut wallet = wallet_with(2, vec![range(2, 61, ScanPriority::Scanned)]);
    let mut funding = transaction(1, ConfirmationStatus::Confirmed(55));
    let parts = SaplingNoteData { recipient: [3; 43], value: 1, rseed: Rseed::AfterZip212([0; 32]) };
    funding.sapling_notes.push(note(1, parts, Scope::External, Some(9)));
    wallet.wallet_transactions.insert(funding.txid(), funding);

    let unrelated = transaction(2, ConfirmationStatus::Mempool(61));
    assert!(!add_pending_transaction(&mut wallet, unrelated, &mut NullifierMap::new(), &mut OutPoints::new()));
    assert_eq!(wallet.wallet_transactions.len(), 1);

    let spending = transaction(3, ConfirmationStatus::Mempool(61));
    let mut nullifiers = NullifierMap::new();
    nullifiers.sapling.insert(Nullifier::from_bytes([9; 32]), target(61, 3));
    assert!(add_pending_transaction(&mut wallet, spending, &mut nullifiers, &mut OutPoints::new()));
    assert_eq!(wallet.wallet_transactions.len(), 2);
    let funding = wallet.wallet_transactions.get(&TxId::from_bytes([1; 32])).unwrap();
    assert_eq!(funding.sapling_notes[0].spending_transaction, Some(TxId::from_bytes([3; 32])));
}

/// A transaction that is seen in the mempool is updated if it is known, and scanned if it is not.
#[test]
fn mempool_transactions_are_updated_or_scanned() {
    let mut wallet = wallet_with(2, vec![range(2, 61, ScanPriority::Scanned)]);
    let known = transaction(1, ConfirmationStatus::Transmitted(61));
    wallet.wallet_transactions.insert(known.txid(), known);
    assert_eq!(note_mempool_transaction(&mut wallet, &TxId::from_bytes([1; 32]), 7), MempoolStep::Updated);
    let known = wallet.wallet_transactions.get(&TxId::from_bytes([1; 32])).unwrap();
    assert_eq!(known.status(), ConfirmationStatus::Mempool(61));
    assert_eq!(note_mempool_transaction(&mut wallet, &TxId::from_bytes([2; 32]), 7), MempoolStep::Scan(61));
}

/// Only notes to the external scope reveal an address.
#[test]
fn external_notes_reveal_addresses() {
    let mut received = transaction(1, ConfirmationStatus::Confirmed(55));
    received.orchard_notes.push(note(1, orchard_parts(), Scope::Internal, None));
    received.orchard_notes.push(note(1, orchard_parts(), Scope::External, None));
    assert_eq!(
        discover_unified_addresses(&received),
        vec![FoundAddress { account_id: 1, recipient: [3; 43], sapling: false }]
    );
}

/// The sizes of the trees are those of a block of the wallet, none before sapling, or those of the frontiers.
#[test]
fn tree_sizes_have_three_sources() {
    let mut wallet = Wallet::new(5);
    let mut bounded = block(5);
    bounded.tree_bounds.sapling_initial_tree_size = 3;
    bounded.tree_bounds.sapling_final_tree_size = 4;
    wallet.wallet_blocks.insert(5, bounded);
    assert_eq!(
        final_tree_sizes(&parameters(None), &wallet.wallet_blocks, 5),
        SizeSource::Known(TreeSizes { sapling: 4, orchard: 0, ironwood: 0 })
    );
    assert_eq!(
        birthday_tree_sizes(&parameters(None), &wallet.wallet_blocks, 5),
        SizeSource::Known(TreeSizes { sapling: 3, orchard: 0, ironwood: 0 })
    );
    assert_eq!(final_tree_sizes(&parameters(None), &wallet.wallet_blocks, 9), SizeSource::Frontiers(9));
    assert_eq!(
        final_tree_sizes(&parameters(None), &wallet.wallet_blocks, 1),
        SizeSource::Known(TreeSizes { sapling: 0, orchard: 0, ironwood: 0 })
    );
    assert_eq!(SyncState::new().scan_complete(), true);
}

/// Scan ranges are told apart by whether they follow each other.
#[test]
fn gaps_between_ranges_are_seen() {
    let first = range(2, 50, ScanPriority::Scanned);
    assert!(ranges_are_contiguous(&vec![]));
    assert!(ranges_are_contiguous(&vec![first, range(50, 60, ScanPriority::Historic)]));
    assert!(!ranges_are_contiguous(&vec![first, range(51, 60, ScanPriority::Historic)]));
    assert!(!ranges_are_contiguous(&vec![range(50, 50, ScanPriority::Historic)]));
}

/// A height has blocks around it if a pool is active there and its shards reach it.
#[test]
fn heights_lie_in_shards() {
    let network = parameters(Some(70));
    let mut state = SyncState::new();
    let pool = Some(ShieldedPool::Ironwood);
    assert!(!has_blocks_around(&network, &state, 10, pool));
    assert!(has_blocks_around(&network, &state, 10, None));
    state.scan_ranges = vec![range(2, 101, ScanPriority::Historic)];
    assert!(!has_blocks_around(&network, &state, 1, pool));
    assert!(has_blocks_around(&network, &state, 10, pool));
    assert!(has_blocks_around(&network, &state, 80, pool));
    assert!(!has_blocks_around(&network, &state, 101, pool));
    state.orchard_shard_ranges = vec![BlockRange::new(30, 41)];
    assert!(!has_blocks_around(&network, &state, 10, pool));
    assert!(has_blocks_around(&network, &state, 35, pool));
    assert!(has_blocks_around(&network, &state, 60, pool));
    assert!(!next_shard_is_known(&network, &state, false));
    state.orchard_shard_ranges = vec![];
    assert!(next_shard_is_known(&network, &state, false));
}

/// Only spends of own notes need blocks around them.
#[test]
fn spends_of_own_notes_are_placed() {
    let network = parameters(None);
    let mut state = SyncState::new();
    state.scan_ranges = vec![range(2, 61, ScanPriority::Historic)];
    let mut transactions = WalletTransactions::new();
    let mut found = transaction(1, ConfirmationStatus::Confirmed(5));
    found.orchard_notes = vec![note(1, orchard_parts(), Scope::External, Some(3))];
    transactions.insert(found.txid(), found);
    assert!(notes_have_blocks(&network, &state, &transactions));
    let mut map = NullifierMap::new();
    map.orchard.insert(Nullifier::from_bytes([9; 32]), target(70, 2));
    assert!(spends_have_blocks(&network, &state, &transactions, &map));
    let wide = ScanTarget { narrow_scan_area: false, ..target(60, 2) };
    map.orchard.insert(Nullifier::from_bytes([3; 32]), wide);
    assert!(spends_have_blocks(&network, &state, &transactions, &map));
    let wide = ScanTarget { narrow_scan_area: false, ..target(70, 2) };
    map.orchard.insert(Nullifier::from_bytes([3; 32]), wide);
    assert!(!spends_have_blocks(&network, &state, &transactions, &map));
    let mut late = transaction(2, ConfirmationStatus::Confirmed(70));
    late.orchard_notes = vec![note(2, orchard_parts(), Scope::External, None)];
    transactions.insert(late.txid(), late);
    assert!(!notes_have_blocks(&network, &state, &transactions));
}

/// Trees have room for so many outputs only, and for so many roots.
#[test]
fn trees_have_bounded_room() {
    let blocks = vec![compact_block(5, 2), compact_block(6, 1)];
    let sizes = |orchard: u32| TreeSizes { sapling: 0, orchard, ironwood: 0 };
    assert!(blocks_have_room(sizes(u32::MAX - 3), &blocks));
    assert!(!blocks_have_room(sizes(u32::MAX - 2), &blocks));
    assert!(block_is_countable(&blocks[0]));
    let trees = Wallet::new(0).shard_trees;
    let roots = |completing_block_height: u64| FetchedRoots {
        sapling: vec![root(1, completing_block_height)],
        orchard: Vec::new(),
        ironwood: Vec::new(),
    };
    assert!(roots_fit(&trees, &roots(u64::from(u32::MAX))));
    assert!(!roots_fit(&trees, &roots(u64::from(u32::MAX) + 1)));
}

/// Outputs are counted from sizes that ascend.
#[test]
fn descending_sizes_are_not_counted() {
    let ranges = vec![range(5, 7, ScanPriority::Scanned)];
    let sized = |height: u32, orchard: u32| {
        let mut sized = block(height);
        sized.tree_bounds.orchard_initial_tree_size = orchard;
        sized.tree_bounds.orchard_final_tree_size = orchard;
        sized
    };
    let mut blocks = WalletBlocks::new();
    assert!(outputs_are_countable(&blocks, &ranges));
    blocks.insert(5, sized(5, 10));
    blocks.insert(6, sized(6, 12));
    assert!(outputs_are_countable(&blocks, &ranges));
    blocks.insert(6, sized(6, 9));
    assert!(!outputs_are_countable(&blocks, &ranges));
}
