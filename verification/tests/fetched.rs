//! What is made of the bytes and texts that a server sends.

use pepper_sync::chain::{ChainParameters, NetworkType, UpgradeHeights};
use pepper_sync::error::{ScanError, ServerError};
use pepper_sync::primitives::{BlockRange, TxId};
use pepper_sync::scan_range::{ScanPriority, ScanRange};
use pepper_sync::sync::fetched::{
    check_fetched_transaction, frontiers_of_block, frontiers_of_tree_state, process_mempool_transaction,
    raw_transaction_id,
};
use pepper_sync::sync::progress::TreeSizes;
use pepper_sync::sync::update::MempoolStep;
use pepper_sync::wallet::data::Wallet;
use pepper_sync::wallet::status::ConfirmationStatus;
use pepper_sync::wallet::sync_state::ScanTarget;
use pepper_sync::wallet::transaction::{ChainTransaction, WalletTransaction};
use zcash_primitives::merkle_tree::{read_commitment_tree, write_frontier_v1};
use zcash_primitives::transaction::{Authorized, Transaction, TransactionData, TxVersion};
use zcash_protocol::consensus::BranchId;

fn parameters() -> ChainParameters {
    ChainParameters::of(
        NetworkType::Regtest,
        UpgradeHeights {
            overwinter: Some(1),
            sapling: Some(2),
            blossom: Some(2),
            heartwood: Some(2),
            canopy: Some(2),
            nu5: Some(2),
            nu6: None,
            nu6_1: None,
            nu6_2: None,
            nu6_3: None,
        },
    )
}

fn chain_transaction(lock_time: u32) -> Transaction {
    let data = TransactionData::<Authorized>::from_parts(
        TxVersion::V5,
        BranchId::Nu5,
        lock_time,
        zcash_protocol::consensus::BlockHeight::from_u32(777),
        None,
        None,
        None,
        None,
    );
    data.freeze().unwrap()
}

fn raw(transaction: &Transaction) -> Vec<u8> {
    let mut bytes = Vec::new();
    transaction.write(&mut bytes).unwrap();
    bytes
}

fn id_of(transaction: &Transaction) -> TxId {
    TxId::from_bytes(*transaction.txid().as_ref())
}

fn target(txid: TxId) -> ScanTarget {
    ScanTarget { block_height: 10, txid, narrow_scan_area: false }
}

/// The id is that of the transaction that the bytes encode.
#[test]
fn raw_transactions_have_their_ids() {
    for lock_time in [0, 7] {
        let transaction = chain_transaction(lock_time);
        assert_eq!(raw_transaction_id(&parameters(), &raw(&transaction), 10), Ok(id_of(&transaction)));
    }
    let broken = raw_transaction_id(&parameters(), &[5, 0, 0], 10);
    assert!(matches!(broken, Err(ServerError::InvalidTransaction(_))));
}

/// A server that sends another transaction than the one asked for is found out.
#[test]
fn fetched_transactions_are_those_asked_for() {
    let transaction = chain_transaction(0);
    let asked = target(id_of(&transaction));
    assert!(check_fetched_transaction(&parameters(), &raw(&transaction), &asked).is_ok());
    let other = chain_transaction(7);
    match check_fetched_transaction(&parameters(), &raw(&other), &asked) {
        Err(ScanError::IncorrectTxid { txid_requested, txid_returned }) => {
            assert_eq!(txid_requested, id_of(&transaction));
            assert_eq!(txid_returned, id_of(&other));
        }
        result => panic!("another transaction should be refused: {result:?}"),
    }
    let broken = check_fetched_transaction(&parameters(), &[], &asked);
    assert!(matches!(broken, Err(ScanError::ServerError(ServerError::InvalidTransaction(_)))));
}

/// A transaction of the mempool is noted under its id, and bytes that are none change nothing.
#[test]
fn mempool_bytes_are_noted_under_their_id() {
    let mut wallet = Wallet::new(2);
    wallet.sync_state.scan_ranges = vec![ScanRange::from_parts(BlockRange::new(2, 61), ScanPriority::Scanned)];
    let known = chain_transaction(0);
    let record = WalletTransaction {
        txid: id_of(&known),
        status: ConfirmationStatus::Transmitted(61),
        transaction: ChainTransaction { bytes: raw(&known), expiry_height: 777 },
        datetime: 0,
        transparent_coins: Vec::new(),
        sapling_notes: Vec::new(),
        orchard_notes: Vec::new(),
        ironwood_notes: Vec::new(),
        outgoing_sapling_notes: Vec::new(),
        outgoing_orchard_notes: Vec::new(),
        outgoing_ironwood_notes: Vec::new(),
    };
    wallet.wallet_transactions.insert(record.txid(), record);
    let failed = process_mempool_transaction(&parameters(), &mut wallet, &[1, 2, 3], 7);
    assert!(matches!(failed, Err(ServerError::InvalidTransaction(_))));
    let status = wallet.wallet_transactions.get(&id_of(&known)).unwrap().status();
    assert_eq!(status, ConfirmationStatus::Transmitted(61));

    let noted = process_mempool_transaction(&parameters(), &mut wallet, &raw(&known), 7);
    assert_eq!(noted, Ok((id_of(&known), MempoolStep::Updated)));
    let status = wallet.wallet_transactions.get(&id_of(&known)).unwrap().status();
    assert_eq!(status, ConfirmationStatus::Mempool(61));

    let unknown = chain_transaction(7);
    let noted = process_mempool_transaction(&parameters(), &mut wallet, &raw(&unknown), 7);
    assert_eq!(noted, Ok((id_of(&unknown), MempoolStep::Scan(61))));
}

fn hex(bytes: &[u8]) -> String {
    bytes.iter().map(|byte| format!("{byte:02x}")).collect()
}

/// The text of a commitment tree: its last two leaves, and the roots above them.
fn tree_text(left: bool, right: bool, parents: &[bool]) -> String {
    let mut bytes = Vec::new();
    let mut part = |bytes: &mut Vec<u8>, present: bool| {
        bytes.push(u8::from(present));
        if present {
            bytes.push(1);
            bytes.extend([0; 31]);
        }
    };
    part(&mut bytes, left);
    part(&mut bytes, right);
    bytes.push(parents.len() as u8);
    for parent in parents {
        part(&mut bytes, *parent);
    }
    hex(&bytes)
}

fn bytes_of(text: &str) -> Vec<u8> {
    (0..text.len() / 2).map(|i| u8::from_str_radix(&text[2 * i..2 * i + 2], 16).unwrap()).collect()
}

fn sapling_frontier(text: &str) -> Vec<u8> {
    let tree = read_commitment_tree::<sapling_crypto::Node, _, 32>(&bytes_of(text)[..]).unwrap();
    let mut bytes = Vec::new();
    write_frontier_v1(&mut bytes, &tree.to_frontier()).unwrap();
    bytes
}

fn orchard_frontier(text: &str) -> Vec<u8> {
    let tree = read_commitment_tree::<orchard::tree::MerkleHashOrchard, _, 32>(&bytes_of(text)[..]).unwrap();
    let mut bytes = Vec::new();
    write_frontier_v1(&mut bytes, &tree.to_frontier()).unwrap();
    bytes
}

/// The frontiers and the sizes are those of the trees that the texts encode.
#[test]
fn tree_states_give_frontiers_and_sizes() {
    let one = tree_text(true, false, &[]);
    let two = tree_text(true, true, &[]);
    let seven = tree_text(true, false, &[true, true]);
    let (frontiers, sizes) = frontiers_of_tree_state(&one, &two, &seven).unwrap();
    assert_eq!(sizes, TreeSizes { sapling: 1, orchard: 2, ironwood: 7 });
    assert_eq!(frontiers.sapling, sapling_frontier(&one));
    assert_eq!(frontiers.orchard, orchard_frontier(&two));
    assert_eq!(frontiers.ironwood, orchard_frontier(&seven));
    let (_, sizes) = frontiers_of_tree_state(&tree_text(true, true, &[false, true]), &one, &one).unwrap();
    assert_eq!(sizes, TreeSizes { sapling: 6, orchard: 1, ironwood: 1 });
}

/// A tree state without a text for a pool is that of an empty tree.
#[test]
fn missing_trees_are_empty() {
    let empty = tree_text(false, false, &[]);
    let (frontiers, sizes) = frontiers_of_tree_state("", &empty, "").unwrap();
    assert_eq!(sizes, TreeSizes { sapling: 0, orchard: 0, ironwood: 0 });
    assert_eq!(frontiers.sapling, sapling_frontier(&empty));
    assert_eq!(frontiers.orchard, orchard_frontier(&empty));
    assert_eq!(frontiers.ironwood, orchard_frontier(&empty));
}

fn frontier_error(sapling: &str, orchard: &str, ironwood: &str) -> String {
    match frontiers_of_tree_state(sapling, orchard, ironwood) {
        Err(ServerError::InvalidFrontier(detail)) => detail,
        Err(error) => panic!("another error: {error:?}"),
        Ok(_) => panic!("the tree state should be refused"),
    }
}

/// The first text that does not encode a tree is told.
#[test]
fn malformed_trees_are_refused() {
    let one = tree_text(true, false, &[]);
    assert_ne!(frontier_error("zz", "0", ""), frontier_error("", "0", ""));
    assert_eq!(frontier_error("", "0", "zz"), frontier_error("", "0", ""));
    assert!(!frontier_error(&one, &one, "01").is_empty());
    let without_leaf = tree_text(false, false, &[true]);
    assert_eq!(frontier_error(&one, &without_leaf, ""), "the tree has no first leaf");
    let large = tree_text(true, true, &[true; 31]);
    assert_eq!(frontier_error(&large, "", ""), "the tree is too large");
}

/// A tree state is one of a block: its height and its hash are checked first.
#[test]
fn tree_states_name_their_block() {
    let one = tree_text(true, false, &[]);
    let hash = "11".repeat(32);
    let (_, sizes) = frontiers_of_block(100, &hash, &one, "", "").unwrap();
    assert_eq!(sizes, TreeSizes { sapling: 1, orchard: 0, ironwood: 0 });
    for (height, hash) in [(100, "11"), (100, "zz"), (u64::MAX, hash.as_str())] {
        let refused = frontiers_of_block(height, hash, &one, "", "");
        assert!(matches!(refused, Err(ServerError::InvalidFrontier(_))));
    }
}
