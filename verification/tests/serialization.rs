//! What is written is read back, and older versions are still read.

use pepper_sync::chain::{ChainParameters, NetworkType, UpgradeHeights};
use pepper_sync::primitives::{BlockRange, Nullifier, OutputId, TxId};
use pepper_sync::scan_range::{ScanPriority, ScanRange};
use pepper_sync::shardtree_ext::CheckpointAppendOutcome;
use pepper_sync::sync::truncate::tree_facts;
use pepper_sync::sync::update::insert_located_trees;
use pepper_sync::trees::{Leaf, LeafRetention, NoteTree, MAX_SHARDTREE_CHECKPOINTS};
use pepper_sync::wallet::codec::{
    read_list, read_optional, read_string, write_compact, write_list, write_optional, write_string, write_u32,
    write_u8, ReadError, Reader,
};
use pepper_sync::wallet::shard_trees::ShardTrees;
use pepper_sync::wallet::status::ConfirmationStatus;
use pepper_sync::wallet::stores::{NullifierMap, WalletBlock};
use pepper_sync::wallet::sync_state::{ScanTarget, SyncState, TreeBounds};
use pepper_sync::wallet::transaction::{
    ChainTransaction, IronwoodNote, IronwoodNoteData, KeyId, OrchardNote, OrchardNoteData, OutgoingNote,
    OutgoingOrchardNote, Rseed, SaplingNote, SaplingNoteData, Scope, TransparentAddressId, TransparentCoin,
    TransparentScope, WalletNote, WalletTransaction,
};
use pepper_sync::witness::build_located_trees;
use zcash_protocol::consensus::{BranchId, MAIN_NETWORK};
use zcash_protocol::memo::MemoBytes;

fn parameters() -> ChainParameters {
    ChainParameters::of(
        NetworkType::Main,
        UpgradeHeights {
            overwinter: Some(1),
            sapling: Some(1),
            blossom: Some(1),
            heartwood: Some(1),
            canopy: Some(1),
            nu5: Some(1),
            nu6: None,
            nu6_1: None,
            nu6_2: None,
            nu6_3: None,
        },
    )
}

fn sapling_recipient() -> [u8; 43] {
    let key = sapling_crypto::zip32::ExtendedSpendingKey::master(&[0; 32]).unwrap();
    key.default_address().1.to_bytes()
}

fn orchard_recipient() -> [u8; 43] {
    let key = orchard::keys::SpendingKey::from_bytes([7; 32]).unwrap();
    let key = orchard::keys::FullViewingKey::from(&key);
    key.address_at(0u32, orchard::keys::Scope::External).to_raw_address_bytes()
}

fn unified_address() -> String {
    let key = zcash_keys::keys::UnifiedSpendingKey::from_seed(&MAIN_NETWORK, &[0; 32], zip32::AccountId::ZERO)
        .unwrap()
        .to_unified_full_viewing_key();
    let (address, _) = key.default_address(zcash_keys::keys::UnifiedAddressRequest::AllAvailableKeys).unwrap();
    address.encode(&MAIN_NETWORK)
}

fn memo(text: &str) -> Vec<u8> {
    MemoBytes::from_bytes(text.as_bytes()).unwrap().as_array().to_vec()
}

fn note<N>(parts: N, nullifier: Option<Nullifier>) -> WalletNote<N> {
    WalletNote {
        output_id: OutputId::new(TxId::from_bytes([9; 32]), 70_000),
        key_id: KeyId { account_id: 3, scope: Scope::Internal },
        note: parts,
        nullifier,
        position: Some(0x1_2345_6789),
        memo: memo("thanks"),
        spending_transaction: Some(TxId::from_bytes([8; 32])),
        refetch_nullifier_ranges: vec![BlockRange::new(5, 9), BlockRange::new(11, 12)],
    }
}

fn sapling_note() -> SaplingNote {
    note(
        SaplingNoteData { recipient: sapling_recipient(), value: 100_000, rseed: Rseed::AfterZip212([6; 32]) },
        Some(Nullifier::from_bytes([0xff; 32])),
    )
}

fn orchard_note() -> OrchardNote {
    note(
        OrchardNoteData { recipient: orchard_recipient(), value: 5, rho: [0; 32], rseed: [4; 32] },
        Some(Nullifier::from_bytes([1; 32])),
    )
}

fn ironwood_note() -> IronwoodNote {
    note(IronwoodNoteData { recipient: orchard_recipient(), value: 6, rho: [0; 32], rseed: [4; 32] }, None)
}

fn coin() -> TransparentCoin {
    TransparentCoin {
        output_id: OutputId::new(TxId::from_bytes([9; 32]), 1),
        key_id: TransparentAddressId { account_id: 0, scope: TransparentScope::Refund, address_index: 17 },
        address: "t1 somewhere".to_string(),
        script: vec![0x76, 0xa9, 0x14],
        value: 2_100_000_000_000_000,
        spending_transaction: None,
    }
}

fn outgoing() -> OutgoingOrchardNote {
    OutgoingNote {
        output_id: OutputId::new(TxId::from_bytes([9; 32]), 2),
        key_id: KeyId { account_id: 0, scope: Scope::External },
        note: OrchardNoteData { recipient: orchard_recipient(), value: 7, rho: [0; 32], rseed: [4; 32] },
        memo: memo(""),
        recipient_full_unified_address: Some(unified_address()),
    }
}

fn transaction() -> WalletTransaction {
    let transaction = zcash_primitives::transaction::TransactionData::<zcash_primitives::transaction::Authorized>::from_parts(
        zcash_primitives::transaction::TxVersion::V5,
        BranchId::Nu5,
        0,
        zcash_protocol::consensus::BlockHeight::from_u32(777),
        None,
        None,
        None,
        None,
    )
    .freeze()
    .unwrap();
    let mut bytes = Vec::new();
    transaction.write(&mut bytes).unwrap();
    WalletTransaction {
        txid: TxId::from_bytes(*transaction.txid().as_ref()),
        status: ConfirmationStatus::Confirmed(700),
        transaction: ChainTransaction { bytes, expiry_height: 777 },
        datetime: 1_700_000_000,
        transparent_coins: vec![coin()],
        sapling_notes: vec![sapling_note()],
        orchard_notes: vec![orchard_note()],
        ironwood_notes: vec![ironwood_note()],
        outgoing_sapling_notes: vec![],
        outgoing_orchard_notes: vec![outgoing()],
        outgoing_ironwood_notes: vec![],
    }
}

fn retention_count(tree: &NoteTree) -> usize {
    (0..=400u32).filter(|height| tree_facts(tree, *height).checkpoint_at_target.is_some()).count()
}

fn has_checkpoint(tree: &NoteTree, height: u32) -> bool {
    tree_facts(tree, height).checkpoint_at_target == Some(height)
}

fn reload(trees: &ShardTrees) -> ShardTrees {
    let mut bytes = Vec::new();
    assert!(trees.write(&mut bytes).is_ok(), "write should succeed");
    let mut reader = Reader::new(&bytes);
    let trees = ShardTrees::read(&mut reader);
    assert_eq!(reader.remaining(), 0);
    match trees {
        Ok(trees) => trees,
        Err(error) => panic!("read should succeed: {error:?}"),
    }
}

#[test]
fn sync_state_v3_reads_with_empty_ironwood_ranges() {
    let bytes: [u8; 5] = [3, 0, 0, 0, 0];
    let sync_state = SyncState::read(&mut Reader::new(&bytes)).expect("v3 should read cleanly");
    assert!(sync_state.ironwood_shard_ranges.is_empty());
}

#[test]
fn sync_state_v4_roundtrip_preserves_ironwood_ranges() {
    let mut state = SyncState::new();
    state.ironwood_shard_ranges = vec![BlockRange::new(100, 200), BlockRange::new(300, 400)];
    state.scan_ranges.push(ScanRange::from_parts(BlockRange::new(100, 400), ScanPriority::Historic));
    let mut bytes = Vec::new();
    state.write(&mut bytes).expect("write should succeed");
    let recovered = SyncState::read(&mut Reader::new(&bytes)).expect("read should succeed");
    assert_eq!(recovered.ironwood_shard_ranges, state.ironwood_shard_ranges);
    assert_eq!(recovered.scan_ranges, state.scan_ranges);
}

#[test]
fn nullifier_map_v1_reads_with_empty_ironwood_map() {
    let bytes: [u8; 3] = [1, 0, 0];
    let map = NullifierMap::read(&mut Reader::new(&bytes)).expect("v1 should read cleanly");
    assert_eq!(map.ironwood.len(), 0);
}

#[test]
fn nullifier_map_v2_roundtrip_preserves_ironwood() {
    let map = NullifierMap::new();
    let mut bytes = Vec::new();
    map.write(&mut bytes).expect("write should succeed");
    let recovered = NullifierMap::read(&mut Reader::new(&bytes)).expect("read should succeed");
    assert_eq!(recovered.ironwood.len(), 0);
}

#[test]
fn tree_bounds_v0_reads_with_zero_ironwood_sizes() {
    let mut bytes = Vec::new();
    write_u8(&mut bytes, 0);
    for size in [10, 20, 30, 40] {
        write_u32(&mut bytes, size);
    }
    let bounds = TreeBounds::read(&mut Reader::new(&bytes)).expect("v0 should read cleanly");
    assert_eq!(bounds.sapling_initial_tree_size, 10);
    assert_eq!(bounds.orchard_final_tree_size, 40);
    assert_eq!(bounds.ironwood_initial_tree_size, 0);
    assert_eq!(bounds.ironwood_final_tree_size, 0);
}

#[test]
fn tree_bounds_v1_roundtrip() {
    let bounds = TreeBounds {
        sapling_initial_tree_size: 1,
        sapling_final_tree_size: 2,
        orchard_initial_tree_size: 3,
        orchard_final_tree_size: 4,
        ironwood_initial_tree_size: 5,
        ironwood_final_tree_size: 6,
    };
    let mut bytes = Vec::new();
    bounds.write(&mut bytes);
    let recovered = TreeBounds::read(&mut Reader::new(&bytes)).expect("read should succeed");
    assert_eq!(recovered.ironwood_initial_tree_size, 5);
    assert_eq!(recovered.ironwood_final_tree_size, 6);
    assert_eq!(recovered, bounds);
}

#[test]
fn shardtree_roundtrip_keeps_newest_checkpoints() {
    let mut shard_trees = ShardTrees::new();
    for height in 1..=150 {
        shard_trees.sapling.append_checkpoint(height);
        shard_trees.orchard.append_checkpoint(height);
    }
    let roundtripped = reload(&shard_trees);
    let oldest_kept = 150 - MAX_SHARDTREE_CHECKPOINTS as u32 + 1;
    for tree in [&roundtripped.sapling, &roundtripped.orchard] {
        assert_eq!(retention_count(tree), MAX_SHARDTREE_CHECKPOINTS);
        assert!(has_checkpoint(tree, oldest_kept));
        assert_eq!(tree_facts(tree, 0).newest_checkpoint, Some(150));
        assert!(!has_checkpoint(tree, oldest_kept - 1));
    }
}

#[test]
fn shardtree_roundtrip_keeps_pinned_anchor_checkpoints() {
    let pinned = 24;
    let mut shard_trees = ShardTrees::new();
    shard_trees.sapling.retain_checkpoint(pinned);
    for height in 1..=150 {
        shard_trees.sapling.append_checkpoint(height);
    }
    assert!(has_checkpoint(&shard_trees.sapling, pinned), "pruning must not evict a pinned checkpoint");
    let mut roundtripped = reload(&shard_trees);
    assert!(has_checkpoint(&roundtripped.sapling, pinned), "serialization must not evict a pinned checkpoint");
    assert_eq!(retention_count(&roundtripped.sapling), MAX_SHARDTREE_CHECKPOINTS + 1);
    // What is pinned is not stored: the next checkpoint has the old ones pruned.
    assert_eq!(roundtripped.sapling.append_checkpoint(151), CheckpointAppendOutcome::Appended);
    assert!(!has_checkpoint(&roundtripped.sapling, pinned));
    assert_eq!(retention_count(&roundtripped.sapling), MAX_SHARDTREE_CHECKPOINTS);
}

/// Trees with leaves are written as they are: what was read is written to the same bytes.
#[test]
fn shard_trees_with_leaves_round_trip() {
    let mut trees = ShardTrees::new();
    for (orchard, tree) in [(false, &mut trees.sapling), (true, &mut trees.ironwood)] {
        let leaves: Vec<Leaf> = (0..5u8)
            .map(|n| {
                let mut node = [0; 32];
                node[0] = n;
                let retention = match n {
                    1 => LeafRetention::Marked,
                    3 => LeafRetention::Checkpoint(30),
                    4 => LeafRetention::MarkedCheckpoint(40),
                    _ => LeafRetention::Ephemeral,
                };
                Leaf { node, retention }
            })
            .collect();
        let located = match build_located_trees(orchard, 0, &leaves, 2) {
            Ok(located) => located,
            Err(error) => panic!("{error:?}"),
        };
        assert_eq!(located.len(), 3);
        assert_eq!(insert_located_trees(tree, located), Ok(()));
        assert!(has_checkpoint(tree, 30));
        assert_eq!(tree_facts(tree, 40).newest_checkpoint, Some(40));
    }
    let again = reload(&trees);
    let (mut first, mut second) = (Vec::new(), Vec::new());
    assert!(trees.write(&mut first).is_ok());
    assert!(again.write(&mut second).is_ok());
    assert_eq!(first, second);
    assert!(has_checkpoint(&again.ironwood, 40));
    assert!(ShardTrees::read(&mut Reader::new(&first[..first.len() - 1])).is_err());
}

/// A subtree that is deeper than its level, or not one of the tree's, is refused.
#[test]
fn malformed_shards_are_refused() {
    let mut trees = ShardTrees::new();
    let leaves = vec![Leaf { node: [1; 32], retention: LeafRetention::Marked }; 2];
    match build_located_trees(false, 0, &leaves, 8) {
        Ok(located) => assert_eq!(insert_located_trees(&mut trees.sapling, located), Ok(())),
        Err(error) => panic!("{error:?}"),
    }
    let mut bytes = Vec::new();
    assert!(trees.write(&mut bytes).is_ok());
    // After the version and the number of shards, a byte each, stands the level of the first shard.
    assert_eq!(bytes[2], 16);
    bytes[2] = 0;
    assert!(matches!(ShardTrees::read(&mut Reader::new(&bytes)), Err(ReadError::InvalidData)));
    bytes[2] = 16;
    assert!(ShardTrees::read(&mut Reader::new(&bytes)).is_ok());
    // The index of the shard follows, and then the version of its form.
    assert_eq!(bytes[11], 1);
    bytes[11] = 9;
    assert!(matches!(ShardTrees::read(&mut Reader::new(&bytes)), Err(ReadError::InvalidData)));
    assert!(build_located_trees(false, 0, &vec![Leaf { node: [0xff; 32], retention: LeafRetention::Marked }], 8).is_err());
}

/// A whole sync state comes back.
#[test]
fn sync_states_round_trip() {
    let mut state = SyncState::new();
    state.scan_ranges = vec![
        ScanRange::from_parts(BlockRange::new(1, 10), ScanPriority::Scanned),
        ScanRange::from_parts(BlockRange::new(10, 20), ScanPriority::RefetchingNullifiers),
        ScanRange::from_parts(BlockRange::new(20, 30), ScanPriority::Verify),
    ];
    state.sapling_shard_ranges = vec![BlockRange::new(1, 5)];
    state.orchard_shard_ranges = vec![BlockRange::new(2, 6)];
    let target = ScanTarget { block_height: 12, txid: TxId::from_bytes([4; 32]), narrow_scan_area: true };
    state.scan_targets.insert(target, ());
    let mut bytes = Vec::new();
    assert!(state.write(&mut bytes).is_ok());
    let mut reader = Reader::new(&bytes);
    let again = SyncState::read(&mut reader).unwrap();
    assert_eq!(reader.remaining(), 0);
    assert_eq!(again, state);
}

/// A wallet block comes back.
#[test]
fn wallet_blocks_round_trip() {
    let block = WalletBlock {
        block_height: 5,
        block_hash: [1; 32],
        prev_hash: [2; 32],
        time: 77,
        txids: vec![TxId::from_bytes([3; 32]), TxId::from_bytes([4; 32])],
        tree_bounds: TreeBounds::zero(),
    };
    let mut bytes = Vec::new();
    assert!(block.write(&mut bytes).is_ok());
    assert_eq!(WalletBlock::read(&mut Reader::new(&bytes)), Ok(block));
}

/// A map of nullifiers comes back, and one that is not of the orchard field is refused.
#[test]
fn nullifier_maps_round_trip() {
    let target = ScanTarget { block_height: 12, txid: TxId::from_bytes([4; 32]), narrow_scan_area: false };
    let mut map = NullifierMap::new();
    map.sapling.insert(Nullifier::from_bytes([0xff; 32]), target);
    map.orchard.insert(Nullifier::from_bytes([1; 32]), target);
    map.ironwood.insert(Nullifier::from_bytes([2; 32]), target);
    let mut bytes = Vec::new();
    assert!(map.write(&mut bytes).is_ok());
    assert_eq!(NullifierMap::read(&mut Reader::new(&bytes)), Ok(map));
    let mut map = NullifierMap::new();
    map.orchard.insert(Nullifier::from_bytes([0xff; 32]), target);
    let mut bytes = Vec::new();
    assert!(map.write(&mut bytes).is_ok());
    assert!(NullifierMap::read(&mut Reader::new(&bytes)).is_err());
}

/// Notes of all pools come back.
#[test]
fn notes_round_trip() {
    let mut bytes = Vec::new();
    assert!(sapling_note().write(&mut bytes).is_ok());
    assert!(orchard_note().write(&mut bytes).is_ok());
    assert!(ironwood_note().write(&mut bytes).is_ok());
    let mut reader = Reader::new(&bytes);
    assert_eq!(SaplingNote::read(&mut reader), Ok(sapling_note()));
    assert_eq!(OrchardNote::read(&mut reader), Ok(orchard_note()));
    assert_eq!(IronwoodNote::read(&mut reader), Ok(ironwood_note()));
    assert_eq!(reader.remaining(), 0);
}

/// Notes whose parts the protocol libraries refuse are not read.
#[test]
fn malformed_notes_are_refused() {
    let mut note = sapling_note();
    note.note.recipient = [0xff; 43];
    let mut bytes = Vec::new();
    assert!(note.write(&mut bytes).is_ok());
    assert_eq!(SaplingNote::read(&mut Reader::new(&bytes)), Err(ReadError::InvalidData));

    let mut note = sapling_note();
    note.note.rseed = Rseed::BeforeZip212([0xff; 32]);
    let mut bytes = Vec::new();
    assert!(note.write(&mut bytes).is_ok());
    assert!(SaplingNote::read(&mut Reader::new(&bytes)).is_err());
    note.note.rseed = Rseed::BeforeZip212([1; 32]);
    let mut bytes = Vec::new();
    assert!(note.write(&mut bytes).is_ok());
    assert_eq!(SaplingNote::read(&mut Reader::new(&bytes)), Ok(note));

    let mut note = orchard_note();
    note.note.rho = [0xff; 32];
    let mut bytes = Vec::new();
    assert!(note.write(&mut bytes).is_ok());
    assert!(OrchardNote::read(&mut Reader::new(&bytes)).is_err());

    let mut note = orchard_note();
    note.nullifier = Some(Nullifier::from_bytes([0xff; 32]));
    let mut bytes = Vec::new();
    assert!(note.write(&mut bytes).is_ok());
    assert!(OrchardNote::read(&mut Reader::new(&bytes)).is_err());

    let mut note = ironwood_note();
    note.memo = vec![0x80; 512];
    let mut bytes = Vec::new();
    assert!(note.write(&mut bytes).is_ok());
    assert!(IronwoodNote::read(&mut Reader::new(&bytes)).is_err());
    note.memo = vec![0xff; 512];
    let mut bytes = Vec::new();
    assert!(note.write(&mut bytes).is_ok());
    assert_eq!(IronwoodNote::read(&mut Reader::new(&bytes)), Ok(note));
}

/// The bytes of a tree that holds one subtree, in which parents lie within each other.
fn nested_shard(parents: usize) -> Vec<u8> {
    let mut bytes = vec![1, 1, 16, 0, 0, 0, 0, 0, 0, 0, 0, 1];
    for _ in 0..parents {
        bytes.extend([2, 0]);
    }
    bytes.extend(vec![0; parents + 1]);
    bytes
}

/// A subtree that is higher than a subtree can be is refused, however deep its nodes lie.
#[test]
fn deep_subtrees_are_refused() {
    for parents in [17, 255, 256, 1_000_000] {
        let bytes = nested_shard(parents);
        let trees = ShardTrees::read(&mut Reader::new(&bytes));
        assert!(matches!(trees, Err(ReadError::InvalidData)));
    }
    let bytes = nested_shard(16);
    let trees = ShardTrees::read(&mut Reader::new(&bytes));
    assert!(matches!(trees, Err(ReadError::UnexpectedEof)));
}

/// Coins and outgoing notes come back, and an address of another network does not.
#[test]
fn coins_and_outgoing_notes_round_trip() {
    let mut bytes = Vec::new();
    assert!(coin().write(&mut bytes).is_ok());
    outgoing().write(&mut bytes);
    let mut reader = Reader::new(&bytes);
    assert_eq!(TransparentCoin::read(&mut reader), Ok(coin()));
    assert_eq!(OutgoingOrchardNote::read(&mut reader, NetworkType::Main), Ok(outgoing()));
    assert_eq!(reader.remaining(), 0);
    let mut bytes = Vec::new();
    outgoing().write(&mut bytes);
    assert!(OutgoingOrchardNote::read(&mut Reader::new(&bytes), NetworkType::Test).is_err());
    let mut costly = coin();
    costly.value += 1;
    let mut bytes = Vec::new();
    assert!(costly.write(&mut bytes).is_ok());
    assert_eq!(TransparentCoin::read(&mut Reader::new(&bytes)), Err(ReadError::InvalidData));
}

/// A transaction comes back with everything that it holds.
#[test]
fn transactions_round_trip() {
    let mut bytes = Vec::new();
    assert!(transaction().write(&mut bytes).is_ok());
    let mut reader = Reader::new(&bytes);
    assert_eq!(WalletTransaction::read(&mut reader, &parameters()), Ok(transaction()));
    assert_eq!(reader.remaining(), 0);
    let short = WalletTransaction::read(&mut Reader::new(&bytes[..60]), &parameters());
    assert_eq!(short, Err(ReadError::UnexpectedEof));
}

/// The state of a transaction comes back.
#[test]
fn statuses_round_trip() {
    for status in [
        ConfirmationStatus::Calculated(1),
        ConfirmationStatus::Transmitted(2),
        ConfirmationStatus::Mempool(3),
        ConfirmationStatus::Confirmed(4),
        ConfirmationStatus::Failed(u32::MAX),
    ] {
        let mut bytes = Vec::new();
        status.write(&mut bytes);
        assert_eq!(ConfirmationStatus::read(&mut Reader::new(&bytes)), Ok(status));
    }
    assert_eq!(ConfirmationStatus::read(&mut Reader::new(&[0, 9, 0, 0, 0, 0])), Err(ReadError::InvalidData));
}

/// Lengths have one encoding, which is the least one, and have a limit.
#[test]
fn lengths_are_canonical() {
    for (length, expected) in [
        (0, vec![0]),
        (252, vec![252]),
        (253, vec![253, 253, 0]),
        (0xffff, vec![253, 255, 255]),
        (0x1_0000, vec![254, 0, 0, 1, 0]),
    ] {
        let mut bytes = Vec::new();
        assert!(write_compact(&mut bytes, length).is_ok());
        assert_eq!(bytes, expected);
        assert_eq!(Reader::new(&bytes).read_compact(), Ok(length));
        let mut theirs = Vec::new();
        zcash_encoding::CompactSize::write(&mut theirs, length).unwrap();
        assert_eq!(bytes, theirs);
    }
    assert_eq!(Reader::new(&[253, 252, 0]).read_compact(), Err(ReadError::InvalidInput));
    assert_eq!(Reader::new(&[254, 1, 0, 0, 2]).read_compact(), Err(ReadError::InvalidInput));
    assert!(write_compact(&mut Vec::new(), 0x0200_0001).is_err());
    assert_eq!(Reader::new(&[253, 252]).read_compact(), Err(ReadError::UnexpectedEof));
}

/// Lists, options and strings come back.
#[test]
fn containers_round_trip() {
    let mut bytes = Vec::new();
    assert!(write_list(&vec![1u64, 2, u64::MAX], &mut bytes).is_ok());
    assert!(write_optional(&Some(7u8), &mut bytes).is_ok());
    assert!(write_optional::<u8>(&None, &mut bytes).is_ok());
    write_string("sm\u{f8}rrebr\u{f8}d", &mut bytes);
    let mut reader = Reader::new(&bytes);
    assert_eq!(read_list::<u64>(&mut reader, 0), Ok(vec![1, 2, u64::MAX]));
    assert_eq!(read_optional::<u8>(&mut reader, 0), Ok(Some(7)));
    assert_eq!(read_optional::<u8>(&mut reader, 0), Ok(None));
    assert_eq!(read_string(&mut reader), Ok("sm\u{f8}rrebr\u{f8}d".to_string()));
    assert_eq!(reader.rest(), Vec::<u8>::new());
    assert!(read_optional::<u8>(&mut Reader::new(&[2, 7]), 0).is_err());
    let mut bytes = Vec::new();
    write_string("ab", &mut bytes);
    let last = bytes.len() - 1;
    bytes[last] = 0xff;
    assert_eq!(read_string(&mut Reader::new(&bytes)), Err(ReadError::InvalidData));
}
