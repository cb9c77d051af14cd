//! Scanning a load of compact blocks, its shielded and its transparent part.
use crate::chain::NetworkType;
use crate::error::ScanError;
use crate::primitives::{OutputId, TxId};
use crate::scan::compact::{get_compact_txid, CompactBlock};
use crate::scan::gap::{
    add_block_recipients, collect_outpoints_compact, gap_satisfied, is_gap_error, keys_cover, keys_unique,
    payments_added, recipient_views, satisfy_gap_limit, windowed, with_block_recipients, with_outpoints, AccountKey,
    Addresses, Recipient, RecipientView,
};
use crate::scan::scanning::{
    all_named, has_room_for_blocks, is_named, scan_shielded, scanned, txid_at, DecryptedOutputs, InitialScanData,
    ScanFailure, ShieldedScanData, ShieldedScanView,
};
use crate::sorted_map::SortedMap;
use crate::wallet::stores::OutPoints;
use crate::wallet::sync_state::ScanTarget;
use vstd::prelude::*;

verus! {

/// The recipients of the transparent outputs of the first `n` blocks, or the first error among them.
pub open spec fn recipients_of(blocks: Seq<CompactBlock>, network: NetworkType, n: int) -> Result<
    Seq<RecipientView>,
    ScanError,
>
    decreases n,
{
    if n <= 0 {
        Ok(Seq::empty())
    } else {
        match recipients_of(blocks, network, n - 1) {
            Err(error) => Err(error),
            Ok(so_far) => with_block_recipients(
                so_far,
                &blocks[n - 1],
                network,
                blocks[n - 1].vtx@.len() as int,
            ),
        }
    }
}

proof fn lemma_recipient_error_stays(blocks: Seq<CompactBlock>, network: NetworkType, n: int)
    requires
        0 <= n <= blocks.len(),
        recipients_of(blocks, network, n).is_err(),
    ensures
        recipients_of(blocks, network, blocks.len() as int) == recipients_of(blocks, network, n),
    decreases blocks.len() - n,
{
    if n < blocks.len() {
        lemma_recipient_error_stays(blocks, network, n + 1);
    }
}

/// The recipients of the transparent outputs of blocks.
fn collect_recipients(blocks: &Vec<CompactBlock>, network: NetworkType) -> (r: Result<Vec<Recipient>, ScanError>)
    requires
        all_named(blocks@),
    ensures
        match recipients_of(blocks@, network, blocks@.len() as int) {
            Ok(views) => r matches Ok(recipients) && recipient_views(recipients@) == views,
            Err(error) => r matches Err(e) && e == error,
        },
{
    let mut recipients: Vec<Recipient> = Vec::new();
    assert(recipient_views(recipients@) =~= Seq::<RecipientView>::empty());
    let count: usize = blocks.len();
    let mut i: usize = 0;
    while i < count
        invariant
            i <= count == blocks@.len(),
            all_named(blocks@),
            recipients_of(blocks@, network, i as int) == Ok::<Seq<RecipientView>, ScanError>(
                recipient_views(recipients@),
            ),
        decreases count - i,
    {
        assert(is_named(&blocks@[i as int]));
        if let Err(error) = add_block_recipients(&mut recipients, &blocks[i], network) {
            proof {
                lemma_recipient_error_stays(blocks@, network, i + 1);
            }
            return Err(error);
        }
        i = i + 1;
    }
    Ok(recipients)
}

/// The outpoints with those that the first `n` transactions of a block spend.
pub open spec fn with_block_outpoints(before: Map<OutputId, ScanTarget>, block: &CompactBlock, n: int) -> Map<
    OutputId,
    ScanTarget,
>
    decreases n,
{
    if n <= 0 {
        before
    } else {
        with_outpoints(
            with_block_outpoints(before, block, n - 1),
            &block.vtx@[n - 1],
            ScanTarget { block_height: block.height as u32, txid: txid_at(block, n - 1), narrow_scan_area: false },
            block.vtx@[n - 1].vin@.len() as int,
        )
    }
}

/// The outpoints that the first `n` blocks spend.
pub open spec fn outpoints_of(blocks: Seq<CompactBlock>, n: int) -> Map<OutputId, ScanTarget>
    decreases n,
{
    if n <= 0 {
        Map::empty()
    } else {
        with_block_outpoints(outpoints_of(blocks, n - 1), &blocks[n - 1], blocks[n - 1].vtx@.len() as int)
    }
}

/// The outpoints that blocks spend.
fn collect_outpoints(blocks: &Vec<CompactBlock>) -> (r: OutPoints)
    requires
        all_named(blocks@),
    ensures
        r.wf(),
        r@ == outpoints_of(blocks@, blocks@.len() as int),
{
    let mut outpoints: OutPoints = SortedMap::new();
    let count: usize = blocks.len();
    let mut i: usize = 0;
    while i < count
        invariant
            i <= count == blocks@.len(),
            all_named(blocks@),
            outpoints.wf(),
            outpoints@ == outpoints_of(blocks@, i as int),
        decreases count - i,
    {
        assert(is_named(&blocks@[i as int]));
        let block = &blocks[i];
        let ghost before = outpoints@;
        let txs: usize = block.vtx.len();
        let mut k: usize = 0;
        while k < txs
            invariant
                k <= txs == block.vtx@.len(),
                is_named(block),
                outpoints.wf(),
                outpoints@ == with_block_outpoints(before, block, k as int),
            decreases txs - k,
        {
            let txid: TxId = get_compact_txid(&block.vtx[k]).unwrap();
            collect_outpoints_compact(&mut outpoints, block.height as u32, txid, &block.vtx[k]);
            k = k + 1;
        }
        i = i + 1;
    }
    outpoints
}

/// What was found in a load of compact blocks.
#[derive(Debug)]
pub struct ScanData {
    /// What was found in the shielded pools. The targets are also those of payments to transparent addresses.
    pub shielded: ShieldedScanData,
    /// The transparent outputs that were spent.
    pub outpoints: OutPoints,
    /// The gap addresses that turned out to be in use.
    pub new_transparent_inuse_addresses: Addresses,
    /// The gap addresses behind them.
    pub updated_transparent_gap_addresses: Addresses,
}

/// What scanning a load gives, where its blocks have names.
pub open spec fn is_scan(
    blocks: Seq<CompactBlock>,
    initial: &InitialScanData,
    decrypted: &DecryptedOutputs,
    in_use: &Addresses,
    gap: &Addresses,
    keys: Seq<AccountKey>,
    gap_limit: u32,
    network: NetworkType,
    r: Result<ScanData, ScanFailure>,
) -> bool {
    match (scanned(blocks, initial, decrypted), recipients_of(blocks, network, blocks.len() as int)) {
        (Err(error), _) => r == Err::<ScanData, ScanFailure>(ScanFailure::Scan(error)),
        (_, Err(error)) => r == Err::<ScanData, ScanFailure>(ScanFailure::Scan(error)),
        (Ok(view), Ok(recipients)) => match r {
            Err(failure) => failure matches ScanFailure::Scan(error) && is_gap_error(
                error,
                recipients,
                keys,
                network,
                gap@,
                gap_limit as int,
            ),
            Ok(found) => {
                &&& found.shielded.wf()
                &&& found.outpoints.wf()
                &&& found.new_transparent_inuse_addresses.wf()
                &&& found.updated_transparent_gap_addresses.wf()
                &&& found.shielded@ == (ShieldedScanView {
                    decrypted_scan_targets: found.shielded.decrypted_scan_targets@,
                    ..view
                })
                &&& found.outpoints@ == outpoints_of(blocks, blocks.len() as int)
                &&& gap_satisfied(
                    recipients,
                    keys,
                    network,
                    gap_limit as int,
                    gap@,
                    found.updated_transparent_gap_addresses@,
                    found.new_transparent_inuse_addresses@,
                )
                &&& payments_added(
                    recipients,
                    in_use@,
                    found.new_transparent_inuse_addresses@,
                    view.decrypted_scan_targets,
                    found.shielded.decrypted_scan_targets@,
                )
            },
        },
    }
}

/// Scans a load of compact blocks.
///
/// The blocks must follow each other, and the blocks at the seams. The outputs that the wallet's keys decrypt are
/// given. Payments to transparent addresses are looked for among those in use and the gap addresses, until no gap
/// address is paid.
pub fn scan_compact_blocks(
    compact_blocks: &Vec<CompactBlock>,
    initial_scan_data: &InitialScanData,
    decrypted: &DecryptedOutputs,
    transparent_inuse_addresses: &Addresses,
    transparent_gap_addresses: Addresses,
    keys: &Vec<AccountKey>,
    transparent_gap_limit: u32,
    network: NetworkType,
) -> (r: Result<ScanData, ScanFailure>)
    requires
        compact_blocks@.len() > 0,
        decrypted.wf(),
        has_room_for_blocks(initial_scan_data.sizes(), compact_blocks@),
        transparent_inuse_addresses.wf(),
        transparent_gap_addresses.wf(),
        keys_unique(keys@),
        keys_cover(keys@, transparent_gap_addresses@),
        windowed(transparent_gap_addresses@, transparent_gap_limit as int),
    ensures
        !all_named(compact_blocks@) ==> r == Err::<ScanData, ScanFailure>(ScanFailure::UnnamedBlock),
        all_named(compact_blocks@) ==> is_scan(
            compact_blocks@,
            initial_scan_data,
            decrypted,
            transparent_inuse_addresses,
            &transparent_gap_addresses,
            keys@,
            transparent_gap_limit,
            network,
            r,
        ),
{
    let mut shielded = match scan_shielded(compact_blocks, initial_scan_data, decrypted) {
        Ok(shielded) => shielded,
        Err(failure) => {
            return Err(failure);
        },
    };
    let recipients = match collect_recipients(compact_blocks, network) {
        Ok(recipients) => recipients,
        Err(error) => {
            return Err(ScanFailure::Scan(error));
        },
    };
    let ghost view = shielded@;
    let outpoints = collect_outpoints(compact_blocks);
    let mut gap = transparent_gap_addresses;
    match satisfy_gap_limit(
        &recipients,
        transparent_inuse_addresses,
        &mut gap,
        keys,
        transparent_gap_limit,
        network,
        &mut shielded.decrypted_scan_targets,
    ) {
        Ok(used) => {
            assert(shielded@ == (ShieldedScanView {
                decrypted_scan_targets: shielded.decrypted_scan_targets@,
                ..view
            }));
            Ok(
                ScanData {
                    shielded,
                    outpoints,
                    new_transparent_inuse_addresses: used,
                    updated_transparent_gap_addresses: gap,
                },
            )
        },
        Err(error) => Err(ScanFailure::Scan(error)),
    }
}

} // verus!
