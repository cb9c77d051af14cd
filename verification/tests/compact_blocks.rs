//! Scanning of compact blocks.

use pepper_sync::error::{CompactFormatError, ContinuityError, ScanError};
use pepper_sync::primitives::{OutputId, ShieldedPool, TxId};
use pepper_sync::scan::compact::{
    get_compact_action, get_compact_hash, get_compact_height, get_compact_output_description, get_compact_prev_hash,
    get_compact_txid, ChainMetadata, CompactBlock, CompactOrchardAction, CompactSaplingOutput, CompactSaplingSpend,
    CompactTx,
};
use pepper_sync::scan::compact_blocks::{
    calculate_block_tree_bounds, calculate_leaves_and_retentions, calculate_positions, check_continuity,
    check_tree_size, final_sizes_of_block, set_checkpoint_retentions, BlockHead, BlockSizes, Decrypted, FoundPosition,
};
use pepper_sync::chain::NetworkType;
use pepper_sync::scan::gap::Addresses;
use pepper_sync::scan::load::{scan_compact_blocks, ScanData};
use pepper_sync::scan::scanning::{DecryptedOutputs, InitialScanData, ScanFailure};
use pepper_sync::sync::progress::TreeSizes;
use pepper_sync::trees::LeafRetention;
use pepper_sync::wallet::stores::WalletBlock;
use pepper_sync::wallet::sync_state::TreeBounds;

const ALL_POOLS: [ShieldedPool; 3] = [ShieldedPool::Sapling, ShieldedPool::Orchard, ShieldedPool::Ironwood];

fn wallet_block_with_ironwood_size(size: u32) -> WalletBlock {
    WalletBlock {
        block_height: 100,
        block_hash: [1; 32],
        prev_hash: [0; 32],
        time: 0,
        txids: vec![],
        tree_bounds: TreeBounds {
            sapling_initial_tree_size: 10,
            sapling_final_tree_size: 10,
            orchard_initial_tree_size: 10,
            orchard_final_tree_size: 10,
            ironwood_initial_tree_size: size,
            ironwood_final_tree_size: size,
        },
    }
}

fn compact_block_with_ironwood_size(size: u32) -> CompactBlock {
    CompactBlock {
        height: 100,
        hash: vec![1; 32],
        prev_hash: vec![0; 32],
        time: 0,
        header: vec![],
        vtx: vec![],
        chain_metadata: Some(ChainMetadata {
            sapling_commitment_tree_size: 10,
            orchard_commitment_tree_size: 10,
            ironwood_commitment_tree_size: size,
        }),
    }
}

fn action() -> CompactOrchardAction {
    CompactOrchardAction {
        nullifier: vec![0; 32],
        cmx: vec![0; 32],
        ephemeral_key: vec![0; 32],
        ciphertext: vec![0; 52],
    }
}

fn output() -> CompactSaplingOutput {
    CompactSaplingOutput { cmu: vec![0; 32], ephemeral_key: vec![0; 32], ciphertext: vec![0; 52] }
}

fn compact_tx(spends: usize, outputs: usize, actions: usize, ironwood_actions: usize) -> CompactTx {
    CompactTx {
        index: 0,
        txid: vec![0; 32],
        fee: 0,
        spends: (0..spends).map(|_| CompactSaplingSpend { nf: vec![0; 32] }).collect(),
        outputs: (0..outputs).map(|_| output()).collect(),
        actions: (0..actions).map(|_| action()).collect(),
        ironwood_actions: (0..ironwood_actions).map(|_| action()).collect(),
        vin: vec![],
        vout: vec![],
    }
}

fn block_with_served_ironwood_actions(action_count: usize, metadata_ironwood_size: u32) -> CompactBlock {
    let mut transaction = compact_tx(0, 0, 0, action_count);
    transaction.txid = vec![3; 32];
    let mut block = compact_block_with_ironwood_size(metadata_ironwood_size);
    block.vtx = vec![transaction];
    block
}

fn block_with_served_orchard_actions(action_count: usize, metadata_orchard_size: u32) -> CompactBlock {
    let mut block = block_with_served_ironwood_actions(0, 10);
    block.vtx[0].actions = (0..action_count).map(|_| action()).collect();
    block.chain_metadata.as_mut().unwrap().orchard_commitment_tree_size = metadata_orchard_size;
    block
}

fn initial_scan_data(ironwood_initial_tree_size: u32) -> InitialScanData {
    InitialScanData {
        start_seam_block: None,
        end_seam_block: None,
        sapling_initial_tree_size: 10,
        orchard_initial_tree_size: 10,
        ironwood_initial_tree_size,
    }
}

fn nothing_decrypted() -> DecryptedOutputs {
    DecryptedOutputs { sapling: Decrypted::new(), orchard: Decrypted::new(), ironwood: Decrypted::new() }
}

fn scan(
    blocks: &Vec<CompactBlock>,
    initial: &InitialScanData,
    decrypted: &DecryptedOutputs,
) -> Result<ScanData, ScanFailure> {
    scan_compact_blocks(
        blocks,
        initial,
        decrypted,
        &Addresses::new(),
        Addresses::new(),
        &Vec::new(),
        10,
        NetworkType::Main,
    )
}

#[test]
fn nonzero_ironwood_tree_size_mismatch_is_rejected() {
    let compact_block = compact_block_with_ironwood_size(999);
    let wallet_block = wallet_block_with_ironwood_size(7);
    assert!(matches!(
        check_tree_size(&compact_block.chain_metadata, &wallet_block),
        Err(ScanError::IncorrectTreeSize { height: _, shielded_protocol: ShieldedPool::Ironwood, .. })
    ));
}

#[test]
fn ironwood_calculated_size_counts_served_actions() {
    let scan_data = scan(
        &vec![block_with_served_ironwood_actions(5, 105)],
        &initial_scan_data(100),
        &nothing_decrypted(),
    )
    .unwrap();
    let tree_bounds = scan_data.shielded.wallet_blocks.entry(0).1.tree_bounds();
    assert_eq!(tree_bounds.ironwood_initial_tree_size, 100);
    assert_eq!(tree_bounds.ironwood_final_tree_size, 105);
}

#[test]
fn understated_ironwood_baseline_is_rejected() {
    let result = scan(
        &vec![block_with_served_ironwood_actions(5, 105)],
        &initial_scan_data(0),
        &nothing_decrypted(),
    );
    assert!(matches!(
        result,
        Err(ScanFailure::Scan(ScanError::IncorrectTreeSize {
            height: _,
            shielded_protocol: ShieldedPool::Ironwood,
            block_metadata_size: 105,
            calculated_size: 5,
        }))
    ));
}

#[test]
fn untracked_pool_history_is_rejected() {
    let compact_block = compact_block_with_ironwood_size(1354);
    let wallet_block = wallet_block_with_ironwood_size(0);
    assert!(matches!(
        check_tree_size(&compact_block.chain_metadata, &wallet_block),
        Err(ScanError::IncorrectTreeSize {
            height: _,
            shielded_protocol: ShieldedPool::Ironwood,
            block_metadata_size: 1354,
            calculated_size: 0,
        })
    ));
}

#[test]
fn untracked_pool_history_is_rejected_for_every_pool() {
    let compact_block = block_with_served_orchard_actions(0, 1354);
    let wallet_block = wallet_block_with_ironwood_size(10);
    assert!(matches!(
        check_tree_size(&compact_block.chain_metadata, &wallet_block),
        Err(ScanError::IncorrectTreeSize {
            height: _,
            shielded_protocol: ShieldedPool::Orchard,
            block_metadata_size: 1354,
            calculated_size: 10,
        })
    ));
}

#[test]
fn an_unreported_tree_size_does_not_fail_the_scan() {
    let compact_block = block_with_served_ironwood_actions(5, 0);
    let wallet_block = wallet_block_with_ironwood_size(5);
    assert!(check_tree_size(&compact_block.chain_metadata, &wallet_block).is_ok());
}

#[test]
fn an_unreported_tree_size_is_tolerated_on_blocks_without_outputs() {
    let compact_block = block_with_served_ironwood_actions(0, 0);
    let wallet_block = wallet_block_with_ironwood_size(7);
    assert!(check_tree_size(&compact_block.chain_metadata, &wallet_block).is_ok());
}

#[test]
fn counts_sum_across_transactions() {
    let mut block = compact_block_with_ironwood_size(0);
    block.vtx = vec![compact_tx(1, 2, 3, 4), compact_tx(5, 6, 7, 8)];
    assert_eq!(block.shielded_output_count(ShieldedPool::Sapling), 8);
    assert_eq!(block.shielded_output_count(ShieldedPool::Orchard), 10);
    assert_eq!(block.shielded_output_count(ShieldedPool::Ironwood), 12);
    assert_eq!(block.shielded_input_count(ShieldedPool::Sapling), 6);
    assert_eq!(block.shielded_input_count(ShieldedPool::Orchard), 10);
    assert_eq!(block.shielded_input_count(ShieldedPool::Ironwood), 12);
}

#[test]
fn empty_block_counts_zero_for_every_pool() {
    let block = compact_block_with_ironwood_size(0);
    for pool in ALL_POOLS {
        assert_eq!(block.shielded_output_count(pool), 0);
        assert_eq!(block.shielded_input_count(pool), 0);
    }
}

#[test]
fn output_count_reads_each_pools_own_field() {
    let transaction = compact_tx(1, 2, 3, 4);
    assert_eq!(transaction.shielded_output_count(ShieldedPool::Sapling), 2);
    assert_eq!(transaction.shielded_output_count(ShieldedPool::Orchard), 3);
    assert_eq!(transaction.shielded_output_count(ShieldedPool::Ironwood), 4);
}

#[test]
fn input_count_reads_spends_for_sapling_and_actions_for_action_pools() {
    let transaction = compact_tx(1, 2, 3, 4);
    assert_eq!(transaction.shielded_input_count(ShieldedPool::Sapling), 1);
    assert_eq!(transaction.shielded_input_count(ShieldedPool::Orchard), 3);
    assert_eq!(transaction.shielded_input_count(ShieldedPool::Ironwood), 4);
}

#[test]
fn empty_transaction_counts_zero_for_every_pool() {
    let transaction = compact_tx(0, 0, 0, 0);
    for pool in ALL_POOLS {
        assert_eq!(transaction.shielded_output_count(pool), 0);
        assert_eq!(transaction.shielded_input_count(pool), 0);
    }
}

fn head(height: u32, hash: u8, prev_hash: u8) -> BlockHead {
    BlockHead { height, hash: [hash; 32], prev_hash: [prev_hash; 32] }
}

/// Blocks are continuous if each follows the one below it, the seams included.
#[test]
fn continuity_is_checked_block_by_block() {
    let heads = vec![head(101, 2, 1), head(102, 3, 2)];
    let below = wallet_block_with_ironwood_size(0);
    assert_eq!(check_continuity(&heads, Some(&below), None), Ok(()));
    let mut above = wallet_block_with_ironwood_size(0);
    above.block_height = 103;
    above.block_hash = [4; 32];
    above.prev_hash = [3; 32];
    assert_eq!(check_continuity(&heads, Some(&below), Some(&above)), Ok(()));
    above.prev_hash = [9; 32];
    assert_eq!(
        check_continuity(&heads, None, Some(&above)),
        Err(ContinuityError::HashDiscontinuity { height: 103, prev_hash: [9; 32], previous_block_hash: [3; 32] })
    );
    assert_eq!(
        check_continuity(&vec![head(101, 2, 1), head(103, 3, 2)], None, None),
        Err(ContinuityError::HeightDiscontinuity { height: 103, previous_block_height: 101 })
    );
    assert_eq!(
        check_continuity(&vec![head(101, 2, 8)], Some(&below), None),
        Err(ContinuityError::HashDiscontinuity { height: 101, prev_hash: [8; 32], previous_block_hash: [1; 32] })
    );
}

/// Outputs of a block are placed behind those of all blocks before it, and its last leaf is its checkpoint.
#[test]
fn scanned_blocks_place_their_outputs() {
    let mut first = compact_block_with_ironwood_size(12);
    let mut spending = compact_tx(1, 2, 1, 2);
    spending.txid = vec![5; 32];
    spending.spends[0].nf = vec![6; 32];
    first.vtx = vec![spending];
    first.chain_metadata =
        Some(ChainMetadata {
            sapling_commitment_tree_size: 12,
            orchard_commitment_tree_size: 11,
            ironwood_commitment_tree_size: 12,
        });
    let mut second = compact_block_with_ironwood_size(12);
    second.height = 101;
    second.hash = vec![2; 32];
    second.prev_hash = vec![1; 32];
    second.vtx = vec![compact_tx(0, 1, 0, 0)];
    second.chain_metadata = Some(ChainMetadata {
        sapling_commitment_tree_size: 13,
        orchard_commitment_tree_size: 11,
        ironwood_commitment_tree_size: 12,
    });
    let mut decrypted = nothing_decrypted();
    let ours = OutputId::new(TxId::from_bytes([5; 32]), 1);
    decrypted.sapling.insert(ours, ());

    let data = scan(&vec![first, second], &initial_scan_data(10), &decrypted).unwrap();
    assert_eq!(data.shielded.wallet_blocks.len(), 2);
    assert_eq!(data.shielded.sapling_positions, vec![FoundPosition { output_id: ours, position: 11 }]);
    let retentions: Vec<LeafRetention> = data.shielded.sapling_leaves.iter().map(|leaf| leaf.retention).collect();
    assert_eq!(
        retentions,
        vec![LeafRetention::Ephemeral, LeafRetention::MarkedCheckpoint(100), LeafRetention::Checkpoint(101)]
    );
    let retentions: Vec<LeafRetention> = data.shielded.ironwood_leaves.iter().map(|leaf| leaf.retention).collect();
    assert_eq!(retentions, vec![LeafRetention::Ephemeral, LeafRetention::Checkpoint(100)]);
    assert_eq!(data.shielded.sizes, TreeSizes { sapling: 13, orchard: 11, ironwood: 12 });
    assert_eq!(data.shielded.nullifiers.sapling.len(), 1);
    assert_eq!(data.shielded.nullifiers.sapling.entry(0).0.bytes, [6; 32]);
    assert_eq!(data.shielded.nullifiers.sapling.entry(0).1.block_height, 100);
    assert_eq!(data.shielded.decrypted_scan_targets.len(), 1);
    assert_eq!(data.shielded.decrypted_scan_targets.entry(0).0.txid, ours.txid);
}

/// A spend whose nullifier is not 32 bytes long, or not an element of the field, fails the scan.
#[test]
fn malformed_nullifiers_fail_the_scan() {
    let mut block = compact_block_with_ironwood_size(10);
    block.chain_metadata = None;
    block.vtx = vec![compact_tx(1, 0, 0, 0)];
    block.vtx[0].spends[0].nf = vec![1; 31];
    let failure = scan(&vec![block], &initial_scan_data(10), &nothing_decrypted());
    assert!(matches!(failure, Err(ScanFailure::Scan(ScanError::InvalidSaplingNullifier))));

    let mut block = block_with_served_orchard_actions(1, 11);
    block.vtx[0].actions[0].nullifier = vec![1; 33];
    let failure = scan(&vec![block], &initial_scan_data(10), &nothing_decrypted());
    assert!(matches!(failure, Err(ScanFailure::Scan(ScanError::InvalidOrchardNullifierLength(33)))));

    let mut block = block_with_served_orchard_actions(1, 11);
    block.vtx[0].actions[0].nullifier = vec![0xff; 32];
    let failure = scan(&vec![block], &initial_scan_data(10), &nothing_decrypted());
    assert!(matches!(failure, Err(ScanFailure::Scan(ScanError::InvalidOrchardNullifier))));

    let mut block = compact_block_with_ironwood_size(10);
    block.hash = vec![];
    let failure = scan(&vec![block], &initial_scan_data(10), &nothing_decrypted());
    assert!(matches!(failure, Err(ScanFailure::UnnamedBlock)));
}

/// The parts of compact outputs and actions are checked one by one.
#[test]
fn compact_outputs_are_checked() {
    assert_eq!(get_compact_output_description(&output()), Ok([0; 32]));
    let mut one = output();
    one.cmu = vec![0xff; 32];
    assert_eq!(get_compact_output_description(&one), Err(CompactFormatError::InvalidValue));
    one.cmu = vec![0; 31];
    assert_eq!(get_compact_output_description(&one), Err(CompactFormatError::InvalidLength));
    one = output();
    one.ciphertext = vec![0; 51];
    assert_eq!(get_compact_output_description(&one), Err(CompactFormatError::InvalidLength));

    assert_eq!(get_compact_action(&action()), Ok([0; 32]));
    let mut one = action();
    one.cmx = vec![0xff; 32];
    assert_eq!(get_compact_action(&one), Err(CompactFormatError::InvalidValue));
    one = action();
    one.nullifier = vec![0xff; 32];
    assert_eq!(get_compact_action(&one), Err(CompactFormatError::InvalidValue));
    one = action();
    one.ephemeral_key = vec![];
    assert_eq!(get_compact_action(&one), Err(CompactFormatError::InvalidLength));
}

/// A block is named by its fields, or by its header where it has one.
#[test]
fn headers_name_their_blocks() {
    let mut block = compact_block_with_ironwood_size(0);
    assert_eq!(get_compact_hash(&block), Some([1; 32]));
    assert_eq!(get_compact_prev_hash(&block), Some([0; 32]));
    assert_eq!(get_compact_height(&block), Some(100));
    block.height = u64::MAX;
    assert_eq!(get_compact_height(&block), None);
    assert_eq!(get_compact_txid(&compact_tx(0, 0, 0, 0)), Some(TxId::from_bytes([0; 32])));

    let mut header: Vec<u8> = vec![4, 0, 0, 0];
    header.extend([7u8; 32]);
    header.extend([8u8; 32]);
    header.extend([9u8; 32]);
    header.extend([1, 2, 3, 4, 5, 6, 7, 8]);
    header.extend([10u8; 32]);
    header.extend([3, 1, 2, 3]);
    block.header = header.clone();
    let theirs = zcash_primitives::block::BlockHeader::read(&header[..]).unwrap();
    assert_eq!(get_compact_hash(&block), Some(theirs.hash().0));
    assert_ne!(get_compact_hash(&block), Some([1; 32]));
    assert_eq!(get_compact_prev_hash(&block), Some([7; 32]));
}

/// The sizes of the trees come from the block, from its height, or from the frontiers.
#[test]
fn tree_bounds_reach_back_by_the_outputs_of_the_block() {
    let block = block_with_served_ironwood_actions(5, 105);
    let sizes = TreeSizes { sapling: 10, orchard: 10, ironwood: 105 };
    assert_eq!(final_sizes_of_block(&block, 100, 1), BlockSizes::Known(sizes));
    let bounds = calculate_block_tree_bounds(&block, sizes);
    assert_eq!(bounds.ironwood_initial_tree_size, 100);
    assert_eq!(bounds.ironwood_final_tree_size, 105);
    assert_eq!(bounds.sapling_initial_tree_size, 10);
    let mut silent = block_with_served_ironwood_actions(0, 0);
    silent.chain_metadata = None;
    assert_eq!(final_sizes_of_block(&silent, 100, 1), BlockSizes::Frontiers);
}

/// Leaves keep the order of the outputs, and only decrypted ones are marked.
#[test]
fn leaves_follow_the_outputs() {
    let txid = TxId::from_bytes([4; 32]);
    let mut decrypted = Decrypted::new();
    decrypted.insert(OutputId::new(txid, 1), ());
    let outputs = vec![action(), action()];
    let mut leaves = Vec::new();
    assert!(calculate_leaves_and_retentions(&outputs, txid, &decrypted, &mut leaves));
    assert_eq!(leaves.len(), 2);
    assert_eq!(leaves[0].retention, LeafRetention::Ephemeral);
    assert_eq!(leaves[1].retention, LeafRetention::Marked);
    set_checkpoint_retentions(9, &mut leaves);
    assert_eq!(leaves[1].retention, LeafRetention::MarkedCheckpoint(9));
    set_checkpoint_retentions(10, &mut leaves);
    assert_eq!(leaves[1].retention, LeafRetention::MarkedCheckpoint(9));
    let mut positions = Vec::new();
    calculate_positions(2, txid, 40, &decrypted, &mut positions);
    assert_eq!(positions, vec![FoundPosition { output_id: OutputId::new(txid, 1), position: 41 }]);
}
