//! Transparent addresses: their derivation, their discovery and the gap behind them.

use pepper_sync::chain::{ChainParameters, NetworkType, UpgradeHeights};
use pepper_sync::error::ScanError;
use pepper_sync::primitives::{OutputId, TxId};
use pepper_sync::scan::compact::{CompactBlock, CompactTx, CompactTxIn, CompactTxOut};
use pepper_sync::scan::gap::{
    add_block_recipients, collect_outpoints_compact, first_gap, satisfy_gap_limit, AccountKey, Addresses, Recipient,
};
use pepper_sync::scan::compact_blocks::Decrypted;
use pepper_sync::scan::load::scan_compact_blocks;
use pepper_sync::scan::scanning::{DecryptedOutputs, InitialScanData, ScanFailure};
use pepper_sync::sync::transparent::{
    commit_discovery, derive_address, discovery_range, discovery_scopes, AddressTransaction, ScopeSearch,
    TransparentAddressDiscovery, TransparentAddressDiscoveryScopes,
};
use pepper_sync::wallet::data::Wallet;
use pepper_sync::wallet::stores::OutPoints;
use pepper_sync::wallet::sync_state::{ScanTarget, ScanTargets};
use pepper_sync::wallet::transaction::{TransparentAddressId, TransparentScope};
use zcash_keys::encoding::AddressCodec;
use zcash_protocol::consensus::MAIN_NETWORK;
use zcash_transparent::keys::{IncomingViewingKey, NonHardenedChildIndex};

fn parameters() -> ChainParameters {
    ChainParameters::of(
        NetworkType::Regtest,
        UpgradeHeights {
            overwinter: Some(1),
            sapling: Some(30),
            blossom: Some(30),
            heartwood: Some(30),
            canopy: Some(30),
            nu5: Some(30),
            nu6: None,
            nu6_1: None,
            nu6_2: None,
            nu6_3: None,
        },
    )
}

fn account_public_key() -> zcash_transparent::keys::AccountPubKey {
    zcash_keys::keys::UnifiedSpendingKey::from_seed(&MAIN_NETWORK, &[0u8; 32], zip32::AccountId::ZERO)
        .expect("seed should derive")
        .to_unified_full_viewing_key()
        .transparent()
        .unwrap()
        .clone()
}

fn account_key() -> [u8; 65] {
    account_public_key().serialize().try_into().unwrap()
}

fn id(scope: TransparentScope, address_index: u32) -> TransparentAddressId {
    TransparentAddressId { account_id: 0, scope, address_index }
}

fn external(address_index: u32) -> String {
    derive_address(NetworkType::Main, &account_key(), &id(TransparentScope::External, address_index)).unwrap()
}

fn recipient(height: u32, address: String) -> Recipient {
    Recipient { height, txid: TxId::from_bytes([height as u8; 32]), address }
}

fn gap_of(indices: std::ops::Range<u32>) -> Addresses {
    let mut gap = Addresses::new();
    for index in indices {
        gap.insert(id(TransparentScope::External, index), external(index));
    }
    gap
}

fn gap_indices(gap: &Addresses) -> Vec<u32> {
    (0..gap.len()).map(|i| gap.entry(i).0.address_index).collect()
}

/// Looks for addresses in one scope until the server fails or the gap is full.
fn search(wallet: &Wallet, scope: TransparentScope, gap_limit: u8, replies: &[Option<usize>]) -> Option<ScopeSearch> {
    let mut replies = replies.iter();
    let mut search = ScopeSearch::begin(&wallet.transparent_addresses, 0, scope).unwrap();
    while let Some(address_id) = search.next_address(gap_limit) {
        let address = derive_address(NetworkType::Main, &account_key(), &address_id).unwrap();
        let found = (*replies.next().unwrap())?;
        let transactions: Vec<AddressTransaction> =
            (0..found).map(|n| AddressTransaction { height: 250, txid: TxId::from_bytes([n as u8; 32]) }).collect();
        assert!(search.note_address(address, &transactions));
    }
    Some(search)
}

#[test]
fn error_in_later_scope_does_not_persist_addresses_without_their_scan_targets() {
    let config = TransparentAddressDiscovery {
        gap_limit: 2,
        scopes: TransparentAddressDiscoveryScopes { external: true, internal: true, refund: false },
    };
    let mut wallet = Wallet::new(0);
    let mut addresses = Vec::new();
    let mut scan_targets = Vec::new();
    let scopes = discovery_scopes(&config.scopes);
    assert_eq!(scopes, vec![TransparentScope::External, TransparentScope::Internal]);

    // The first scope has one transaction and then two unused addresses. In the second one the server fails.
    let mut failed = false;
    for (scope, replies) in [
        (TransparentScope::External, vec![Some(1), Some(0), Some(0)]),
        (TransparentScope::Internal, vec![None]),
    ] {
        match search(&wallet, scope, config.gap_limit, &replies) {
            Some(found) => {
                let (mut new_addresses, mut new_targets) = found.in_use(config.gap_limit);
                addresses.append(&mut new_addresses);
                scan_targets.append(&mut new_targets);
            }
            None => failed = true,
        }
    }
    assert!(failed, "expected the simulated server failure to propagate");
    assert_eq!(addresses.len(), 1);
    assert_eq!(scan_targets.len(), 1);
    assert!(
        wallet.transparent_addresses.len() == 0 || wallet.sync_state.scan_targets.len() > 0,
        "addresses were persisted without their scan targets after an error"
    );

    commit_discovery(&mut wallet, addresses, &scan_targets);
    assert_eq!(wallet.transparent_addresses.get(&id(TransparentScope::External, 0)), Some(&external(0)));
    assert_eq!(wallet.sync_state.scan_targets.len(), 1);
    assert_eq!(wallet.sync_state.scan_targets.entry(0).0.block_height, 250);
}

/// Addresses are those that the key library derives and encodes.
#[test]
fn addresses_are_derived_from_the_account_key() {
    let key = account_public_key();
    let index = NonHardenedChildIndex::from_index(7).unwrap();
    let theirs = [
        (TransparentScope::External, key.derive_external_ivk().unwrap().derive_address(index).unwrap()),
        (TransparentScope::Internal, key.derive_internal_ivk().unwrap().derive_address(index).unwrap()),
        (TransparentScope::Refund, key.derive_ephemeral_ivk().unwrap().derive_ephemeral_address(index).unwrap()),
    ];
    for (scope, address) in theirs {
        assert_eq!(
            derive_address(NetworkType::Main, &account_key(), &id(scope, 7)),
            Ok(address.encode(&MAIN_NETWORK))
        );
    }
    assert_ne!(derive_address(NetworkType::Test, &account_key(), &id(TransparentScope::External, 7)), Ok(external(7)));
    let malformed = [0xff; 65];
    assert!(derive_address(NetworkType::Main, &malformed, &id(TransparentScope::External, 7)).is_err());
}

/// A search goes on behind the last address of the wallet, and keeps no address of the gap.
#[test]
fn search_goes_on_behind_known_addresses() {
    let mut wallet = Wallet::new(0);
    wallet.transparent_addresses.insert(id(TransparentScope::External, 4), external(4));
    let found = search(&wallet, TransparentScope::External, 1, &[Some(2), Some(0)]).unwrap();
    let (addresses, targets) = found.in_use(1);
    assert_eq!(addresses, vec![(id(TransparentScope::External, 5), external(5))]);
    assert_eq!(targets.len(), 2);
    wallet.transparent_addresses.insert(id(TransparentScope::External, 0x7fff_ffff), String::new());
    assert!(ScopeSearch::begin(&wallet.transparent_addresses, 0, TransparentScope::External).is_none());
}

/// Known addresses are asked for from a little below what the wallet has seen, and never below sapling.
#[test]
fn discovery_starts_within_the_chain() {
    let range = discovery_range(&parameters(), 199, 300);
    assert_eq!(range.end, 301);
    assert_eq!(discovery_range(&parameters(), 10, 300).start, 30);
}

/// Only addresses that payments reach move the gap on, and the payments become targets.
#[test]
fn the_gap_moves_behind_paid_addresses() {
    let keys = vec![AccountKey { account_id: 0, key: account_key() }];
    let mut gap = gap_of(0..3);
    let mut targets = ScanTargets::new();
    let recipients = vec![recipient(9, external(1)), recipient(10, external(3)), recipient(11, "elsewhere".to_string())];
    let used =
        satisfy_gap_limit(&recipients, &Addresses::new(), &mut gap, &keys, 3, NetworkType::Main, &mut targets)
            .unwrap();
    assert_eq!(gap_indices(&used), vec![0, 1, 2, 3]);
    assert_eq!(gap_indices(&gap), vec![4, 5, 6]);
    assert_eq!(*gap.get(&id(TransparentScope::External, 6)).unwrap(), external(6));
    assert_eq!(targets.len(), 2);
    assert_eq!(targets.entry(0).0.block_height, 9);
    assert_eq!(targets.entry(1).0.block_height, 10);

    let mut gap = gap_of(0..3);
    let mut in_use = Addresses::new();
    in_use.insert(id(TransparentScope::Internal, 0), "elsewhere".to_string());
    let mut targets = ScanTargets::new();
    let recipients = vec![recipient(11, "elsewhere".to_string())];
    let used =
        satisfy_gap_limit(&recipients, &in_use, &mut gap, &keys, 3, NetworkType::Main, &mut targets).unwrap();
    assert_eq!(used.len(), 0);
    assert_eq!(gap_indices(&gap), vec![0, 1, 2]);
    assert_eq!(targets.len(), 1);
}

/// The last address of the gap moves it by its whole width, and a payment behind it is not reached.
#[test]
fn the_gap_reaches_as_far_as_its_width() {
    let keys = vec![AccountKey { account_id: 0, key: account_key() }];
    let mut gap = gap_of(0..3);
    let mut targets = ScanTargets::new();
    let recipients = vec![recipient(9, external(2)), recipient(10, external(5)), recipient(11, external(9))];
    let used =
        satisfy_gap_limit(&recipients, &Addresses::new(), &mut gap, &keys, 3, NetworkType::Main, &mut targets)
            .unwrap();
    assert_eq!(gap_indices(&used), vec![0, 1, 2, 3, 4, 5]);
    assert_eq!(gap_indices(&gap), vec![6, 7, 8]);
    assert_eq!(targets.len(), 2);
}

/// A scan begins with the addresses behind those that the wallet uses.
#[test]
fn the_first_gap_lies_behind_known_addresses() {
    let keys = vec![AccountKey { account_id: 0, key: account_key() }];
    let mut known = Addresses::new();
    known.insert(id(TransparentScope::External, 1), external(1));
    known.insert(id(TransparentScope::External, 4), external(4));
    known.insert(id(TransparentScope::Refund, 0x7fff_ffff), String::new());
    let gap = first_gap(&known, &keys, 2, NetworkType::Main).unwrap();
    assert_eq!(gap.len(), 4);
    assert_eq!(*gap.get(&id(TransparentScope::External, 5)).unwrap(), external(5));
    assert_eq!(*gap.get(&id(TransparentScope::External, 6)).unwrap(), external(6));
    assert!(gap.get(&id(TransparentScope::Internal, 0)).is_some());
    assert!(gap.get(&id(TransparentScope::Internal, 1)).is_some());
    assert_eq!(first_gap(&known, &keys, 0, NetworkType::Main).unwrap().len(), 0);
    assert_eq!(first_gap(&known, &Vec::new(), 2, NetworkType::Main).unwrap().len(), 0);
    let unusable = vec![AccountKey { account_id: 0, key: [0xff; 65] }];
    assert!(first_gap(&known, &unusable, 2, NetworkType::Main).is_err());
}

/// An address in use is kept although those before it are not in use.
#[test]
fn unused_addresses_below_one_in_use_are_kept() {
    let wallet = Wallet::new(0);
    let found = search(&wallet, TransparentScope::External, 2, &[Some(0), Some(1), Some(0), Some(0)]).unwrap();
    assert_eq!(found.found, vec![false, true, false, false]);
    let (addresses, targets) = found.in_use(2);
    let indices: Vec<u32> = addresses.iter().map(|address| address.0.address_index).collect();
    assert_eq!(indices, vec![0, 1]);
    assert_eq!(targets.len(), 1);
}

/// Without gap addresses there is no gap to satisfy, whatever its limit.
#[test]
fn no_gap_needs_no_limit() {
    let mut in_use = Addresses::new();
    in_use.insert(id(TransparentScope::External, 0), external(0));
    let mut gap = Addresses::new();
    let mut targets = ScanTargets::new();
    let recipients = vec![recipient(9, external(0)), recipient(10, external(1))];
    let used =
        satisfy_gap_limit(&recipients, &in_use, &mut gap, &Vec::new(), 0, NetworkType::Main, &mut targets).unwrap();
    assert_eq!(used.len(), 0);
    assert_eq!(gap.len(), 0);
    assert_eq!(targets.len(), 1);
}

/// A key that cannot be used ends the search with its reason.
#[test]
fn unusable_keys_end_the_search() {
    let keys = vec![AccountKey { account_id: 0, key: [0xff; 65] }];
    let mut gap = gap_of(0..1);
    let mut targets = ScanTargets::new();
    let recipients = vec![recipient(9, external(0))];
    let failure =
        satisfy_gap_limit(&recipients, &Addresses::new(), &mut gap, &keys, 1, NetworkType::Main, &mut targets);
    assert!(matches!(failure, Err(ScanError::TransparentAddressDerivationError(_))));
}

fn paying_block(value: u64) -> CompactBlock {
    let index = NonHardenedChildIndex::from_index(0).unwrap();
    let address = account_public_key().derive_external_ivk().unwrap().derive_address(index).unwrap();
    let hash = match address {
        zcash_transparent::address::TransparentAddress::PublicKeyHash(hash) => hash,
        zcash_transparent::address::TransparentAddress::ScriptHash(_) => panic!("not a key"),
    };
    let mut script_pub_key = vec![0x76, 0xa9, 0x14];
    script_pub_key.extend(hash);
    script_pub_key.extend([0x88, 0xac]);
    let transaction = CompactTx {
        index: 0,
        txid: vec![9; 32],
        fee: 0,
        spends: vec![],
        outputs: vec![],
        actions: vec![],
        ironwood_actions: vec![],
        vin: vec![CompactTxIn { prevout_txid: vec![5; 32], prevout_index: 3 }],
        vout: vec![
            CompactTxOut { value, script_pub_key },
            CompactTxOut { value: 1, script_pub_key: vec![0x6a] },
        ],
    };
    CompactBlock {
        height: 9,
        hash: vec![1; 32],
        prev_hash: vec![0; 32],
        time: 0,
        header: vec![],
        vtx: vec![transaction],
        chain_metadata: None,
    }
}

/// The recipients of a block are the addresses that its scripts pay to.
#[test]
fn scripts_name_their_recipients() {
    let mut recipients = Vec::new();
    assert_eq!(add_block_recipients(&mut recipients, &paying_block(5), NetworkType::Main), Ok(()));
    assert_eq!(recipients, vec![recipient(9, external(0))]);
    let mut recipients = Vec::new();
    assert_eq!(
        add_block_recipients(&mut recipients, &paying_block(2_100_000_000_000_001), NetworkType::Main),
        Err(ScanError::TransparentOutputInvalidValue(2_100_000_000_000_001))
    );
}

/// A scan finds the payments of its blocks, and what their inputs spend.
#[test]
fn scans_find_transparent_payments() {
    let keys = vec![AccountKey { account_id: 0, key: account_key() }];
    let initial = InitialScanData {
        start_seam_block: None,
        end_seam_block: None,
        sapling_initial_tree_size: 0,
        orchard_initial_tree_size: 0,
        ironwood_initial_tree_size: 0,
    };
    let nothing =
        DecryptedOutputs { sapling: Decrypted::new(), orchard: Decrypted::new(), ironwood: Decrypted::new() };
    let scan = |value: u64| {
        scan_compact_blocks(
            &vec![paying_block(value)],
            &initial,
            &nothing,
            &Addresses::new(),
            gap_of(0..2),
            &keys,
            2,
            NetworkType::Main,
        )
    };
    let found = scan(5).unwrap();
    let expected = ScanTarget { block_height: 9, txid: TxId::from_bytes([9; 32]), narrow_scan_area: true };
    assert_eq!(found.shielded.decrypted_scan_targets.len(), 1);
    assert!(found.shielded.decrypted_scan_targets.contains_key(&expected));
    assert_eq!(gap_indices(&found.new_transparent_inuse_addresses), vec![0]);
    assert_eq!(gap_indices(&found.updated_transparent_gap_addresses), vec![1, 2]);
    assert!(found.outpoints.contains_key(&OutputId::new(TxId::from_bytes([5; 32]), 3)));
    assert!(matches!(
        scan(u64::MAX),
        Err(ScanFailure::Scan(ScanError::TransparentOutputInvalidValue(u64::MAX)))
    ));
}

/// Spent outpoints are noted with the transaction that spends them.
#[test]
fn spent_outpoints_are_collected() {
    let mut outpoints = OutPoints::new();
    let block = paying_block(5);
    let txid = TxId::from_bytes([9; 32]);
    collect_outpoints_compact(&mut outpoints, 9, txid, &block.vtx[0]);
    let spent = OutputId::new(TxId::from_bytes([5; 32]), 3);
    let expected = ScanTarget { block_height: 9, txid, narrow_scan_area: false };
    assert_eq!(outpoints.get(&spent), Some(&expected));
    assert_eq!(outpoints.len(), 1);
}
