//! The life of a spend, the height of the wallet and the expiry of transactions.

use pepper_sync::chain::{ChainParameters, NetworkType, UpgradeHeights};
use pepper_sync::error::SyncError;
use pepper_sync::primitives::{BlockRange, Nullifier, OutputId, TxId};
use pepper_sync::scan_range::{ScanPriority, ScanRange};
use pepper_sync::shardtree_ext::CheckpointAppendOutcome;
use pepper_sync::sync::cleanup::{expire_transactions, remove_irrelevant_blocks, remove_irrelevant_data};
use pepper_sync::sync::results::{drain_verdict, DrainVerdict};
use pepper_sync::sync::session::{checked_wallet_height, MAX_REORG_ALLOWANCE};
use pepper_sync::sync::spend::{
    collect_derived_nullifiers, collect_transparent_output_ids, detect_shielded_spends, set_transactions_failed,
    update_transparent_spends, ShieldedSpends,
};
use pepper_sync::sync::spend_update::{
    detect_and_mark_spends, extend_wallet_transactions, finish_shielded_spends, known_block,
    spending_transactions_to_fetch, update_spent_notes,
};
use pepper_sync::sync::truncate::{tree_facts, TreeTruncationFacts};
use pepper_sync::sorted_map::SortedMap;
use pepper_sync::sync::update::insert_located_trees;
use pepper_sync::trees::{Leaf, LeafRetention};
use pepper_sync::wallet::data::Wallet;
use pepper_sync::wallet::status::ConfirmationStatus;
use pepper_sync::wallet::stores::{NullifierMap, OutPoints, WalletBlock, WalletBlocks, WalletTransactions};
use pepper_sync::wallet::sync_state::{ScanTarget, TreeBounds};
use pepper_sync::wallet::transaction::{
    ChainTransaction, IronwoodNoteData, KeyId, OrchardNoteData, Rseed, SaplingNote, SaplingNoteData, Scope,
    TransparentAddressId, TransparentCoin, TransparentScope, WalletNote, WalletTransaction,
};

use pepper_sync::witness::build_located_trees;

const FUNDING_HEIGHT: u32 = 10;
const SPEND_HEIGHT: u32 = 100;
const FUNDING_TXID: TxId = TxId { bytes: [1; 32] };
const SPENDING_TXID: TxId = TxId { bytes: [2; 32] };
const NOTE_NULLIFIER: Nullifier = Nullifier { bytes: [42; 32] };
const NOW: u32 = 1_700_000_000;

fn local_network() -> ChainParameters {
    ChainParameters::of(
        NetworkType::Regtest,
        UpgradeHeights {
            overwinter: Some(1),
            sapling: Some(3),
            blossom: Some(3),
            heartwood: Some(3),
            canopy: Some(3),
            nu5: Some(3),
            nu6: Some(3),
            nu6_1: Some(3),
            nu6_2: Some(3),
            nu6_3: Some(3),
        },
    )
}

fn record(txid: TxId, status: ConfirmationStatus, expiry_height: u32) -> WalletTransaction {
    WalletTransaction {
        txid,
        status,
        transaction: ChainTransaction { bytes: Vec::new(), expiry_height },
        datetime: 0,
        transparent_coins: Vec::new(),
        sapling_notes: Vec::new(),
        orchard_notes: Vec::new(),
        ironwood_notes: Vec::new(),
        outgoing_sapling_notes: Vec::new(),
        outgoing_orchard_notes: Vec::new(),
        outgoing_ironwood_notes: Vec::new(),
    }
}

fn spending_record(status: ConfirmationStatus) -> WalletTransaction {
    record(SPENDING_TXID, status, 0)
}

fn funding_note(spending_transaction: Option<TxId>) -> SaplingNote {
    let extsk = sapling_crypto::zip32::ExtendedSpendingKey::master(&[0; 32]).unwrap();
    let (_, recipient) = extsk.default_address();
    WalletNote {
        output_id: OutputId::new(FUNDING_TXID, 0),
        key_id: KeyId { account_id: 0, scope: Scope::External },
        note: SaplingNoteData {
            recipient: recipient.to_bytes(),
            value: 100_000,
            rseed: Rseed::AfterZip212([0; 32]),
        },
        nullifier: Some(NOTE_NULLIFIER),
        position: None,
        memo: zcash_protocol::memo::MemoBytes::empty().as_array().to_vec(),
        spending_transaction,
        refetch_nullifier_ranges: Vec::new(),
    }
}

fn funding_transaction(spending_transaction: Option<TxId>) -> WalletTransaction {
    let mut transaction = record(FUNDING_TXID, ConfirmationStatus::Confirmed(FUNDING_HEIGHT), 0);
    transaction.sapling_notes = vec![funding_note(spending_transaction)];
    transaction
}

fn spend_target(narrow_scan_area: bool) -> ScanTarget {
    ScanTarget { block_height: SPEND_HEIGHT, txid: SPENDING_TXID, narrow_scan_area }
}

fn get_spending_txid(wallet: &Wallet) -> Option<TxId> {
    wallet.wallet_transactions.get(&FUNDING_TXID).unwrap().sapling_notes.first().unwrap().spending_transaction
}

fn run_spend_detection(wallet: &mut Wallet) {
    let derived = collect_derived_nullifiers(&wallet.wallet_transactions);
    let spends = detect_shielded_spends(&mut wallet.nullifiers, &derived);
    update_spent_notes(wallet, &spends, true);
}

fn no_spends() -> ShieldedSpends {
    ShieldedSpends { sapling: SortedMap::new(), orchard: SortedMap::new(), ironwood: SortedMap::new() }
}

#[test]
fn reset_before_scan_heals_on_spend_detection() {
    let mut wallet = Wallet::new(0);
    wallet.wallet_transactions.insert(FUNDING_TXID, funding_transaction(None));
    wallet.wallet_transactions.insert(SPENDING_TXID, spending_record(ConfirmationStatus::Failed(SPEND_HEIGHT)));
    wallet.nullifiers.sapling.insert(NOTE_NULLIFIER, spend_target(false));

    run_spend_detection(&mut wallet);

    assert_eq!(get_spending_txid(&wallet), Some(SPENDING_TXID));
    assert_eq!(wallet.nullifiers.sapling.len(), 0);
}

#[test]
fn failing_a_confirmed_transaction_must_not_destroy_the_spend_observation() {
    let mut wallet = Wallet::new(0);
    wallet.wallet_transactions.insert(FUNDING_TXID, funding_transaction(Some(SPENDING_TXID)));
    wallet.wallet_transactions.insert(SPENDING_TXID, spending_record(ConfirmationStatus::Confirmed(SPEND_HEIGHT)));

    set_transactions_failed(&mut wallet.wallet_transactions, &vec![SPENDING_TXID], NOW);

    assert_eq!(
        wallet.wallet_transactions.get(&SPENDING_TXID).unwrap().status(),
        ConfirmationStatus::Confirmed(SPEND_HEIGHT)
    );
    run_spend_detection(&mut wallet);
    assert_eq!(get_spending_txid(&wallet), Some(SPENDING_TXID));
}

#[test]
fn failed_spending_transaction_fetch_must_not_lose_the_detected_spend() {
    let mut wallet = Wallet::new(0);
    wallet.wallet_transactions.insert(FUNDING_TXID, funding_transaction(None));
    wallet.nullifiers.sapling.insert(NOTE_NULLIFIER, spend_target(true));

    let mut additional = NullifierMap::new();
    let spends = detect_and_mark_spends(&local_network(), &mut wallet, &mut additional);
    // The spending transaction has to be fetched, and the request for it fails: the session ends here.
    let to_fetch = spending_transactions_to_fetch(&wallet.wallet_transactions, &spends);
    assert!(to_fetch.contains_key(&spend_target(true)));

    let note_marked_spent = get_spending_txid(&wallet) == Some(SPENDING_TXID);
    let nullifier_still_mapped = wallet.nullifiers.sapling.contains_key(&NOTE_NULLIFIER);
    assert!(
        note_marked_spent || nullifier_still_mapped,
        "the spend observation was lost: the note is unspent and the nullifier is no longer mapped"
    );
}

#[test]
fn scanned_transaction_overwrites_failed_record() {
    let mut wallet = Wallet::new(0);
    wallet.wallet_transactions.insert(SPENDING_TXID, spending_record(ConfirmationStatus::Failed(SPEND_HEIGHT)));
    let mut scanned = WalletTransactions::new();
    scanned.insert(SPENDING_TXID, spending_record(ConfirmationStatus::Confirmed(SPEND_HEIGHT)));
    extend_wallet_transactions(&mut wallet, &mut scanned);
    assert_eq!(
        wallet.wallet_transactions.get(&SPENDING_TXID).unwrap().status(),
        ConfirmationStatus::Confirmed(SPEND_HEIGHT)
    );
}

/// The whole of a detection with its fetch: the note is spent and the spending transaction is in the wallet.
#[test]
fn a_fetched_spending_transaction_is_kept() {
    let mut wallet = Wallet::new(0);
    wallet.wallet_transactions.insert(FUNDING_TXID, funding_transaction(None));
    let mut additional = NullifierMap::new();
    additional.sapling.insert(NOTE_NULLIFIER, spend_target(true));
    let spends = detect_and_mark_spends(&local_network(), &mut wallet, &mut additional);
    assert_eq!(additional.sapling.len(), 0);
    let mut fetched = WalletTransactions::new();
    fetched.insert(SPENDING_TXID, spending_record(ConfirmationStatus::Confirmed(SPEND_HEIGHT)));
    finish_shielded_spends(&mut wallet, &spends, &mut fetched);
    assert_eq!(get_spending_txid(&wallet), Some(SPENDING_TXID));
    assert!(wallet.wallet_transactions.contains_key(&SPENDING_TXID));
}

/// An update that fails to remove a mark, as the leaf of the note is not in the tree, keeps the trees as they are.
#[test]
fn failed_spent_note_update_keeps_wallet_shard_trees() {
    let mut wallet = Wallet::new(0);
    assert_eq!(wallet.shard_trees.orchard.append_checkpoint(5), CheckpointAppendOutcome::Appended);
    let mut funding = funding_transaction(None);
    funding.sapling_notes[0].position = Some(7);
    wallet.wallet_transactions.insert(FUNDING_TXID, funding);
    wallet.wallet_transactions.insert(SPENDING_TXID, spending_record(ConfirmationStatus::Confirmed(SPEND_HEIGHT)));
    let mut before = Vec::new();
    assert!(wallet.shard_trees.write(&mut before).is_ok());
    let mut spends = no_spends();
    spends.sapling.insert(NOTE_NULLIFIER, spend_target(false));
    update_spent_notes(&mut wallet, &spends, true);
    assert_eq!(get_spending_txid(&wallet), Some(SPENDING_TXID));
    let mut after = Vec::new();
    assert!(wallet.shard_trees.write(&mut after).is_ok());
    assert_eq!(before, after);
    assert_eq!(
        tree_facts(&wallet.shard_trees.orchard, 5),
        TreeTruncationFacts { checkpoint_at_target: Some(5), newest_checkpoint: Some(5) },
        "shard trees must survive a failed spent note update"
    );
}

/// The block of a spend is the wallet's own, or else the one that was just scanned.
#[test]
fn blocks_of_spends_are_looked_up() {
    let block = |height: u32, time: u32| WalletBlock {
        block_height: height,
        block_hash: [0; 32],
        prev_hash: [0; 32],
        time,
        txids: Vec::new(),
        tree_bounds: TreeBounds::zero(),
    };
    let (mut held, mut scanned) = (WalletBlocks::new(), WalletBlocks::new());
    held.insert(7, block(7, 70));
    scanned.insert(7, block(7, 71));
    scanned.insert(8, block(8, 80));
    assert_eq!(known_block(&held, &scanned, 7), Some(block(7, 70)));
    assert_eq!(known_block(&held, &scanned, 8), Some(block(8, 80)));
    assert_eq!(known_block(&held, &scanned, 9), None);
}

fn unspent<N>(note: N, nullifier: u8) -> WalletNote<N> {
    WalletNote {
        output_id: OutputId::new(FUNDING_TXID, 1),
        key_id: KeyId { account_id: 0, scope: Scope::External },
        note,
        nullifier: Some(Nullifier::from_bytes([nullifier; 32])),
        position: None,
        memo: zcash_protocol::memo::MemoBytes::empty().as_array().to_vec(),
        spending_transaction: None,
        refetch_nullifier_ranges: Vec::new(),
    }
}

/// Spent notes of every pool are marked.
#[test]
fn spends_are_marked_in_every_pool() {
    let mut wallet = Wallet::new(0);
    let mut funding = funding_transaction(None);
    let orchard = OrchardNoteData { recipient: [0; 43], value: 5, rho: [0; 32], rseed: [4; 32] };
    funding.orchard_notes = vec![unspent(orchard, 43)];
    let ironwood = IronwoodNoteData { recipient: [0; 43], value: 6, rho: [0; 32], rseed: [4; 32] };
    funding.ironwood_notes = vec![unspent(ironwood, 44)];
    wallet.wallet_transactions.insert(FUNDING_TXID, funding);
    wallet.nullifiers.sapling.insert(NOTE_NULLIFIER, spend_target(true));
    wallet.nullifiers.orchard.insert(Nullifier::from_bytes([43; 32]), spend_target(true));
    wallet.nullifiers.ironwood.insert(Nullifier::from_bytes([44; 32]), spend_target(true));
    let mut additional = NullifierMap::new();
    detect_and_mark_spends(&local_network(), &mut wallet, &mut additional);
    let funding = wallet.wallet_transactions.get(&FUNDING_TXID).unwrap();
    assert_eq!(funding.sapling_notes[0].spending_transaction, Some(SPENDING_TXID));
    assert_eq!(funding.orchard_notes[0].spending_transaction, Some(SPENDING_TXID));
    assert_eq!(funding.ironwood_notes[0].spending_transaction, Some(SPENDING_TXID));
}

/// The trees forget the marks of spent notes, if they are told to.
#[test]
fn spent_notes_lose_their_mark() {
    let written = |with_marks: bool| {
        let mut wallet = Wallet::new(0);
        let mut funding = funding_transaction(None);
        funding.sapling_notes[0].position = Some(0);
        wallet.wallet_transactions.insert(FUNDING_TXID, funding);
        let spending = spending_record(ConfirmationStatus::Confirmed(SPEND_HEIGHT));
        wallet.wallet_transactions.insert(SPENDING_TXID, spending);
        let leaves = vec![
            Leaf { node: [1; 32], retention: LeafRetention::Marked },
            Leaf { node: [2; 32], retention: LeafRetention::Checkpoint(SPEND_HEIGHT) },
        ];
        match build_located_trees(false, 0, &leaves, 8) {
            Ok(located) => assert_eq!(insert_located_trees(&mut wallet.shard_trees.sapling, located), Ok(())),
            Err(error) => panic!("{error:?}"),
        }
        let mut before = Vec::new();
        assert!(wallet.shard_trees.write(&mut before).is_ok());
        let mut spends = no_spends();
        spends.sapling.insert(NOTE_NULLIFIER, spend_target(false));
        update_spent_notes(&mut wallet, &spends, with_marks);
        assert_eq!(get_spending_txid(&wallet), Some(SPENDING_TXID));
        let mut after = Vec::new();
        assert!(wallet.shard_trees.write(&mut after).is_ok());
        (before, after)
    };
    let (before, after) = written(true);
    assert_ne!(before, after);
    let (before, after) = written(false);
    assert_eq!(before, after);
}

/// A transaction that fails gives back the notes that it spent.
#[test]
fn failing_a_pending_transaction_releases_its_notes() {
    let mut wallet = Wallet::new(0);
    wallet.wallet_transactions.insert(FUNDING_TXID, funding_transaction(Some(SPENDING_TXID)));
    wallet.wallet_transactions.insert(SPENDING_TXID, spending_record(ConfirmationStatus::Mempool(SPEND_HEIGHT)));
    set_transactions_failed(&mut wallet.wallet_transactions, &vec![SPENDING_TXID], NOW);
    assert_eq!(
        wallet.wallet_transactions.get(&SPENDING_TXID).unwrap().status(),
        ConfirmationStatus::Failed(SPEND_HEIGHT)
    );
    assert_eq!(get_spending_txid(&wallet), None);
}

/// Coins are spent by what spends their outpoint.
#[test]
fn coins_are_spent_by_outpoint() {
    let output_id = OutputId::new(FUNDING_TXID, 3);
    let mut funding = record(FUNDING_TXID, ConfirmationStatus::Confirmed(FUNDING_HEIGHT), 0);
    funding.transparent_coins = vec![TransparentCoin {
        output_id,
        key_id: TransparentAddressId { account_id: 0, scope: TransparentScope::External, address_index: 0 },
        address: "t1".to_string(),
        script: vec![1, 2],
        value: 5,
        spending_transaction: None,
    }];
    let mut transactions = WalletTransactions::new();
    transactions.insert(FUNDING_TXID, funding);
    assert_eq!(collect_transparent_output_ids(&transactions), vec![output_id]);
    let mut outpoints = OutPoints::new();
    outpoints.insert(output_id, spend_target(false));
    let mut additional = OutPoints::new();
    update_transparent_spends(&mut transactions, &mut outpoints, &mut additional);
    assert_eq!(
        transactions.get(&FUNDING_TXID).unwrap().transparent_coins[0].spending_transaction,
        Some(SPENDING_TXID)
    );
    assert_eq!(outpoints.len(), 0);
}

#[test]
fn a_settled_and_an_unsettled_busy_scanner_are_not_one_state() {
    let settled = drain_verdict(2, 0, Some(1_400), 500);
    let unsettled = drain_verdict(2, 0, Some(50), 500);
    assert_ne!(settled, unsettled);
    assert_eq!(settled, DrainVerdict::Reenter, "settled and busy: only the loop helps");
    assert_eq!(unsettled, DrainVerdict::KeepPolling, "unsettled: the clock still runs");
}

#[test]
fn table() {
    let cases: [(usize, u32, Option<u64>, u64, DrainVerdict, &str); 10] = [
        (0, 0, None, 0, DrainVerdict::KeepPolling, "no stream yet"),
        (0, 0, Some(50), 100, DrainVerdict::KeepPolling, "settling"),
        (0, 0, Some(1_400), 0, DrainVerdict::Shutdown, "settled and drained"),
        (0, 0, Some(200), 0, DrainVerdict::Shutdown, "settle boundary"),
        (0, 3, Some(1_400), 0, DrainVerdict::Reenter, "unprocessed work"),
        (5, 1, None, 999, DrainVerdict::Reenter, "work trumps missing stream"),
        (2, 0, Some(1_400), 500, DrainVerdict::Reenter, "workers draining"),
        (2, 0, Some(1_400), 1_000, DrainVerdict::Reenter, "ceiling with workers"),
        (2, 0, Some(50), 500, DrainVerdict::KeepPolling, "unsettled stream polls"),
        (0, 0, None, 1_000, DrainVerdict::Shutdown, "ceiling without stream"),
    ];
    for (workers, unprocessed, connected_ms, elapsed_ms, expected, name) in cases {
        assert_eq!(drain_verdict(workers, unprocessed, connected_ms, elapsed_ms), expected, "{name}");
    }
}

fn wallet_with_range(start: u32, end: u32) -> Wallet {
    let mut wallet = Wallet::new(0);
    wallet.sync_state.scan_ranges =
        vec![ScanRange::from_parts(BlockRange::new(start, end), ScanPriority::Scanned)];
    wallet
}

fn checked_height(wallet: &mut Wallet, chain_height: u32) -> Result<u32, SyncError<String>> {
    checked_wallet_height(wallet, chain_height, &local_network(), NOW)
}

#[test]
fn above_allowance() {
    let mut wallet = wallet_with_range(1, 211);
    let error = checked_height(&mut wallet, 110).unwrap_err();
    assert_eq!(
        error.message(),
        format!(
            "wallet height {} is more than {} blocks ahead of best chain height {}",
            210, MAX_REORG_ALLOWANCE, 110
        )
    );
}

#[test]
fn above_chain_height_below_allowance() {
    let mut wallet = wallet_with_range(6, 10);
    assert_eq!(checked_height(&mut wallet, 4), Ok(4));
}

#[test]
fn raw_bday_above() {
    assert_eq!(checked_height(&mut Wallet::new(4), 5), Ok(4 - 1));
}

#[test]
fn raw_bday_equal() {
    assert_eq!(checked_height(&mut Wallet::new(3), 5), Ok(3 - 1));
}

#[test]
fn raw_bday_below() {
    assert_eq!(checked_height(&mut Wallet::new(1), 5), Err(SyncError::BirthdayBelowSapling(1, 3)));
}

/// The wallet may lead the chain by less than the allowance, not by the allowance.
#[test]
fn the_allowance_itself_is_too_far() {
    let mut wallet = wallet_with_range(4, 206);
    assert_eq!(checked_height(&mut wallet, 105), Err(SyncError::ChainError(205, 100, 105)));
    let mut wallet = wallet_with_range(4, 205);
    assert_eq!(checked_height(&mut wallet, 105), Ok(105));
}

fn wallet_at_height(chain_height: u32, transaction: WalletTransaction) -> Wallet {
    let mut wallet = wallet_with_range(1, chain_height + 1);
    wallet.wallet_transactions.insert(transaction.txid(), transaction);
    wallet
}

fn status_after_expiry(chain_height: u32, status: ConfirmationStatus, expiry_height: u32) -> ConfirmationStatus {
    let mut wallet = wallet_at_height(chain_height, record(FUNDING_TXID, status, expiry_height));
    expire_transactions(&mut wallet, NOW);
    wallet.wallet_transactions.get(&FUNDING_TXID).unwrap().status()
}

#[test]
fn pending_transaction_past_expiry_is_failed() {
    assert!(matches!(
        status_after_expiry(100, ConfirmationStatus::Mempool(61), 100),
        ConfirmationStatus::Failed(_)
    ));
}

#[test]
fn pending_transaction_before_expiry_is_untouched() {
    assert!(matches!(
        status_after_expiry(100, ConfirmationStatus::Mempool(61), 101),
        ConfirmationStatus::Mempool(_)
    ));
}

#[test]
fn zero_expiry_transaction_never_expires() {
    assert!(matches!(
        status_after_expiry(1_000_000, ConfirmationStatus::Mempool(61), 0),
        ConfirmationStatus::Mempool(_)
    ));
}

#[test]
fn confirmed_transaction_is_untouched() {
    assert!(matches!(
        status_after_expiry(100, ConfirmationStatus::Confirmed(61), 100),
        ConfirmationStatus::Confirmed(_)
    ));
}

/// What is cleaned up stays clean, and nothing above the fully scanned height is touched.
#[test]
fn cleanup_keeps_what_is_still_needed() {
    let mut wallet = wallet_with_range(1, 51);
    wallet.sync_state.scan_ranges.push(ScanRange::from_parts(BlockRange::new(51, 101), ScanPriority::Historic));
    for height in [10u32, 50, 60] {
        let target = ScanTarget { block_height: height, txid: SPENDING_TXID, narrow_scan_area: false };
        wallet.nullifiers.orchard.insert(Nullifier::from_bytes([height as u8; 32]), target);
        wallet.outpoints.insert(OutputId::new(FUNDING_TXID, height), target);
        wallet.sync_state.scan_targets.insert(target, ());
    }
    remove_irrelevant_data(&mut wallet);
    assert_eq!(wallet.nullifiers.orchard.len(), 1);
    assert_eq!(wallet.outpoints.len(), 1);
    assert_eq!(wallet.sync_state.scan_targets.len(), 1);
    remove_irrelevant_data(&mut wallet);
    assert_eq!(wallet.nullifiers.orchard.len(), 1);
    remove_irrelevant_blocks(&mut wallet);
    assert_eq!(wallet.wallet_blocks.len(), 0);
}
