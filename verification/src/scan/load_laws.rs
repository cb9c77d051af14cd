//! What holds of every load of compact blocks that is scanned, of its transparent part and as a whole.
use crate::chain::NetworkType;
use crate::error::ScanError;
use crate::outside::{derived_address, script_address};
use crate::primitives::{BlockHeight, OutputId, ShieldedPool, TxId};
use crate::scan::compact::{CompactBlock, CompactTx, CompactTxOut};
use crate::scan::gap::{
    first_gap, gap_reached, has_key_of, id_at, is_among, is_derived, is_first_window, is_gap_error_at, is_paid,
    is_paying, is_reached, is_up_to, stays_unwatched, target_of, window_moved, window_moved_to, with_block_recipients,
    with_outpoints, with_output_recipients, AccountKey, Addresses, RecipientView,
};
use crate::scan::load::{is_scan, outpoints_of, recipients_of, with_block_outpoints, ScanData};
use crate::scan::scan_laws::{
    ids_are_ids, is_payment, is_tx, law_only_payments_are_gathered, law_payments_are_gathered, lemma_array_view,
};
use crate::scan::scanning::{scanned, txid_at, DecryptedOutputs, InitialScanData, ScanFailure};
use crate::sorted_map::has_key;
use crate::sync::address_laws::{
    law_an_unused_scope_is_searched_from_the_start, law_the_search_starts_behind_what_is_used,
};
use crate::wallet::serialization::lemma_array_of;
use crate::wallet::sync_state::ScanTarget;
use crate::wallet::transaction::{TransparentAddressId, TransparentScope};
use vstd::prelude::*;

verus! {

// --- outputs ---

/// Whether the output at `k` of the transaction at `t` of the block at `i` pays to the address, and the target is that
/// transaction.
pub open spec fn is_output_to(
    blocks: Seq<CompactBlock>,
    network: NetworkType,
    address: Seq<char>,
    target: ScanTarget,
    i: int,
    t: int,
    k: int,
) -> bool {
    &&& is_tx(blocks, i, t, target.txid)
    &&& target.block_height == blocks[i].height
    &&& target.narrow_scan_area
    &&& 0 <= k < blocks[i].vtx@[t].vout@.len()
    &&& script_address(blocks[i].vtx@[t].vout@[k].script_pub_key@, network) == Some(address)
}

/// Whether the output at `k` of the transaction at `t` of the block at `i` pays to the address of the key, and the target
/// is that transaction.
pub open spec fn is_payment_to(
    blocks: Seq<CompactBlock>,
    network: NetworkType,
    addresses: Map<TransparentAddressId, String>,
    target: ScanTarget,
    id: TransparentAddressId,
    i: int,
    t: int,
    k: int,
) -> bool {
    addresses.dom().contains(id) && is_output_to(blocks, network, addresses[id]@, target, i, t, k)
}

proof fn lemma_output_recipients(
    before: Seq<RecipientView>,
    height: BlockHeight,
    txid: TxId,
    outputs: Seq<CompactTxOut>,
    network: NetworkType,
)
    requires
        with_output_recipients(before, height, txid, outputs, network) is Ok,
    ensures
        ({
            let all = with_output_recipients(before, height, txid, outputs, network)->Ok_0;
            &&& forall|recipient: RecipientView| #[trigger]
                before.contains(recipient) ==> all.contains(recipient)
            &&& forall|k: int|
                0 <= k < outputs.len() ==> (#[trigger] outputs[k]).value <= 2_100_000_000_000_000
            &&& forall|k: int, recipient: RecipientView|
                0 <= k < outputs.len() && recipient.height == height && recipient.txid == txid && script_address(
                    (#[trigger] outputs[k]).script_pub_key@,
                    network,
                ) == Some(recipient.address) ==> #[trigger] all.contains(recipient)
            &&& forall|recipient: RecipientView| #[trigger]
                all.contains(recipient) ==> before.contains(recipient) || (recipient.height == height && recipient.txid
                    == txid && exists|k: int|
                    0 <= k < outputs.len() && script_address((#[trigger] outputs[k]).script_pub_key@, network) == Some(
                        recipient.address,
                    ))
        }),
    decreases outputs.len(),
{
    if outputs.len() > 0 {
        let rest = outputs.drop_last();
        lemma_output_recipients(before, height, txid, rest, network);
        let so_far = with_output_recipients(before, height, txid, rest, network)->Ok_0;
        let all = with_output_recipients(before, height, txid, outputs, network)->Ok_0;
        assert forall|recipient: RecipientView| #[trigger] so_far.contains(recipient) implies all.contains(recipient) by {
            let at = choose|at: int| 0 <= at < so_far.len() && so_far[at] == recipient;
            assert(all[at] == recipient);
        }
        assert forall|k: int| 0 <= k < outputs.len() implies (#[trigger] outputs[k]).value <= 2_100_000_000_000_000 by {
            if k < rest.len() {
                assert(rest[k] == outputs[k]);
            }
        }
        assert forall|k: int, recipient: RecipientView|
            0 <= k < outputs.len() && recipient.height == height && recipient.txid == txid && script_address(
                (#[trigger] outputs[k]).script_pub_key@,
                network,
            ) == Some(recipient.address) implies #[trigger] all.contains(recipient) by {
            if k < rest.len() {
                assert(rest[k] == outputs[k]);
                assert(so_far.contains(recipient));
            } else {
                assert(all[so_far.len() as int] == recipient);
            }
        }
        assert forall|recipient: RecipientView| #[trigger] all.contains(recipient) implies before.contains(recipient) || (
        recipient.height == height && recipient.txid == txid && exists|k: int|
            0 <= k < outputs.len() && script_address((#[trigger] outputs[k]).script_pub_key@, network) == Some(
                recipient.address,
            )) by {
            let at = choose|at: int| 0 <= at < all.len() && all[at] == recipient;
            if at < so_far.len() {
                assert(so_far[at] == recipient);
                assert(so_far.contains(recipient));
                if !before.contains(recipient) {
                    let k = choose|k: int|
                        0 <= k < rest.len() && script_address((#[trigger] rest[k]).script_pub_key@, network) == Some(
                            recipient.address,
                        );
                    assert(outputs[k] == rest[k]);
                }
            } else {
                assert(outputs[outputs.len() - 1] == outputs.last());
            }
        }
    }
}

/// Whether the recipient is that of an output of one of the blocks before the one at `n`, or of one of the first `m`
/// transactions of it.
spec fn is_from_output(
    blocks: Seq<CompactBlock>,
    network: NetworkType,
    recipient: RecipientView,
    i: int,
    t: int,
    k: int,
) -> bool {
    &&& 0 <= i < blocks.len()
    &&& 0 <= t < blocks[i].vtx@.len()
    &&& 0 <= k < blocks[i].vtx@[t].vout@.len()
    &&& recipient.height == blocks[i].height as u32
    &&& recipient.txid == txid_at(&blocks[i], t)
    &&& script_address(blocks[i].vtx@[t].vout@[k].script_pub_key@, network) == Some(recipient.address)
}

/// The recipients of the blocks before the one at `i`, and of the first `t` transactions of it.
spec fn recipients_at(blocks: Seq<CompactBlock>, network: NetworkType, i: int, t: int) -> Result<
    Seq<RecipientView>,
    ScanError,
> {
    match recipients_of(blocks, network, i) {
        Ok(before) => with_block_recipients(before, &blocks[i], network, t),
        Err(error) => Err(error),
    }
}

proof fn lemma_recipients(blocks: Seq<CompactBlock>, network: NetworkType, n: int, m: int)
    requires
        0 <= n <= blocks.len(),
        0 <= m,
        m > 0 ==> n < blocks.len() && m <= blocks[n].vtx@.len(),
        recipients_at(blocks, network, n, m) is Ok,
    ensures
        forall|recipient: RecipientView| #[trigger]
            recipients_at(blocks, network, n, m)->Ok_0.contains(recipient) ==> exists|i: int, t: int, k: int| #[trigger]
                is_from_output(blocks, network, recipient, i, t, k),
        forall|recipient: RecipientView, i: int, t: int, k: int| #[trigger]
            is_from_output(blocks, network, recipient, i, t, k) && (i < n || (i == n && t < m)) ==> recipients_at(
                blocks,
                network,
                n,
                m,
            )->Ok_0.contains(recipient),
        forall|i: int, t: int, k: int|
            0 <= i < blocks.len() && 0 <= t < blocks[i].vtx@.len() && (i < n || (i == n && t < m)) && 0 <= k
                < blocks[i].vtx@[t].vout@.len() ==> (#[trigger] blocks[i].vtx@[t].vout@[k]).value
                <= 2_100_000_000_000_000,
    decreases n, m,
{
    let all = recipients_at(blocks, network, n, m)->Ok_0;
    if m > 0 {
        let before = recipients_at(blocks, network, n, m - 1)->Ok_0;
        lemma_recipients(blocks, network, n, m - 1);
        let outputs = blocks[n].vtx@[m - 1].vout@;
        let height = blocks[n].height as u32;
        let txid = txid_at(&blocks[n], m - 1);
        lemma_output_recipients(before, height, txid, outputs, network);
        assert forall|recipient: RecipientView| #[trigger] all.contains(recipient) implies exists|
            i: int,
            t: int,
            k: int,
        | #[trigger] is_from_output(blocks, network, recipient, i, t, k) by {
            if !before.contains(recipient) {
                let k = choose|k: int|
                    0 <= k < outputs.len() && script_address((#[trigger] outputs[k]).script_pub_key@, network) == Some(
                        recipient.address,
                    );
                assert(is_from_output(blocks, network, recipient, n, m - 1, k));
            }
        }
        assert forall|recipient: RecipientView, i: int, t: int, k: int| #[trigger]
            is_from_output(blocks, network, recipient, i, t, k) && (i < n || (i == n && t < m)) implies all.contains(
            recipient,
        ) by {
            if i == n && t == m - 1 {
                assert(script_address(outputs[k].script_pub_key@, network) == Some(recipient.address));
                assert(recipient == RecipientView { height, txid, address: recipient.address });
            } else {
                assert(before.contains(recipient));
            }
        }
        assert forall|i: int, t: int, k: int|
            0 <= i < blocks.len() && 0 <= t < blocks[i].vtx@.len() && (i < n || (i == n && t < m)) && 0 <= k
                < blocks[i].vtx@[t].vout@.len() implies (#[trigger] blocks[i].vtx@[t].vout@[k]).value
            <= 2_100_000_000_000_000 by {
            if i == n && t == m - 1 {
                assert(outputs[k].value <= 2_100_000_000_000_000);
            }
        }
    } else if n > 0 {
        let last = blocks[n - 1].vtx@.len() as int;
        assert(recipients_at(blocks, network, n - 1, last) == recipients_of(blocks, network, n));
        lemma_recipients(blocks, network, n - 1, last);
    }
}

/// A transaction that pays to an address in use, known or found by this scan, is gathered.
pub proof fn law_transparent_payments_are_gathered(
    blocks: Seq<CompactBlock>,
    initial: &InitialScanData,
    decrypted: &DecryptedOutputs,
    in_use: &Addresses,
    gap: &Addresses,
    keys: Seq<AccountKey>,
    gap_limit: u32,
    network: NetworkType,
    found: ScanData,
    id: TransparentAddressId,
    address: Seq<char>,
    target: ScanTarget,
    i: int,
    t: int,
    k: int,
)
    requires
        is_scan(
            blocks,
            initial,
            decrypted,
            in_use,
            gap,
            keys,
            gap_limit,
            network,
            Ok::<ScanData, ScanFailure>(found),
        ),
        is_output_to(blocks, network, address, target, i, t, k),
        (in_use@.dom().contains(id) && in_use@[id]@ == address) || (
        found.new_transparent_inuse_addresses@.dom().contains(id) && found.new_transparent_inuse_addresses@[id]@
            == address),
    ensures
        found.shielded.decrypted_scan_targets@.dom().contains(target),
{
    let n = blocks.len() as int;
    let recipients = recipients_of(blocks, network, n)->Ok_0;
    assert(recipients_at(blocks, network, n, 0) == recipients_of(blocks, network, n));
    lemma_recipients(blocks, network, n, 0);
    lemma_array_of(target.txid.bytes);
    let recipient = RecipientView { height: target.block_height, txid: target.txid, address };
    assert(is_from_output(blocks, network, recipient, i, t, k));
    assert(recipients.contains(recipient));
    let at = choose|at: int| 0 <= at < recipients.len() && recipients[at] == recipient;
    assert(target_of(recipients[at]) == target);
    if in_use@.dom().contains(id) && in_use@[id]@ == address {
        assert(is_among(in_use@, address));
        assert(is_paying(recipients, in_use@, target));
    } else {
        assert(is_among(found.new_transparent_inuse_addresses@, address));
        assert(is_paying(recipients, found.new_transparent_inuse_addresses@, target));
    }
}

/// Every transaction with an output that the wallet's keys decrypt is gathered, and what else is gathered pays to a
/// transparent address in use.
pub proof fn law_scan_gathers_the_wallets_transactions(
    blocks: Seq<CompactBlock>,
    initial: &InitialScanData,
    decrypted: &DecryptedOutputs,
    in_use: &Addresses,
    gap: &Addresses,
    keys: Seq<AccountKey>,
    gap_limit: u32,
    network: NetworkType,
    found: ScanData,
    target: ScanTarget,
)
    requires
        is_scan(
            blocks,
            initial,
            decrypted,
            in_use,
            gap,
            keys,
            gap_limit,
            network,
            Ok::<ScanData, ScanFailure>(found),
        ),
        ids_are_ids(blocks),
    ensures
        (exists|pool: ShieldedPool, i: int, t: int, j: int| #[trigger]
            is_payment(blocks, decrypted, target, pool, i, t, j))
            ==> found.shielded.decrypted_scan_targets@.dom().contains(target),
        found.shielded.decrypted_scan_targets@.dom().contains(target) ==> (exists|
            pool: ShieldedPool,
            i: int,
            t: int,
            j: int,
        | #[trigger]
            is_payment(blocks, decrypted, target, pool, i, t, j)) || (exists|
            id: TransparentAddressId,
            i: int,
            t: int,
            k: int,
        | #[trigger]
            is_payment_to(blocks, network, in_use@, target, id, i, t, k)) || (exists|
            id: TransparentAddressId,
            i: int,
            t: int,
            k: int,
        | #[trigger]
            is_payment_to(blocks, network, found.new_transparent_inuse_addresses@, target, id, i, t, k)),
{
    let view = scanned(blocks, initial, decrypted)->Ok_0;
    let n = blocks.len() as int;
    let recipients = recipients_of(blocks, network, n)->Ok_0;
    if exists|pool: ShieldedPool, i: int, t: int, j: int| #[trigger]
        is_payment(blocks, decrypted, target, pool, i, t, j) {
        let (pool, i, t, j) = choose|pool: ShieldedPool, i: int, t: int, j: int| #[trigger]
            is_payment(blocks, decrypted, target, pool, i, t, j);
        law_payments_are_gathered(blocks, initial, decrypted, view, target, pool, i, t, j);
        assert(view.decrypted_scan_targets.dom().contains(target));
    }
    if found.shielded.decrypted_scan_targets@.dom().contains(target) {
        if view.decrypted_scan_targets.dom().contains(target) {
            law_only_payments_are_gathered(blocks, initial, decrypted, view, target);
        } else {
            assert(recipients_at(blocks, network, n, 0) == recipients_of(blocks, network, n));
            lemma_recipients(blocks, network, n, 0);
            let used = found.new_transparent_inuse_addresses@;
            let addresses = if is_paying(recipients, in_use@, target) {
                in_use@
            } else {
                used
            };
            assert(is_paying(recipients, addresses, target));
            let at = choose|at: int|
                0 <= at < recipients.len() && target_of(#[trigger] recipients[at]) == target && is_among(
                    addresses,
                    recipients[at].address,
                );
            let recipient = recipients[at];
            assert(recipients.contains(recipient));
            let (i, t, k) = choose|i: int, t: int, k: int| #[trigger]
                is_from_output(blocks, network, recipient, i, t, k);
            assert(blocks[i].vtx@[t].txid@.len() == 32);
            lemma_array_view(blocks[i].vtx@[t].txid@);
            assert(is_output_to(blocks, network, recipient.address, target, i, t, k));
            let id = choose|id: TransparentAddressId| #[trigger]
                addresses.dom().contains(id) && addresses[id]@ == recipient.address;
            assert(is_payment_to(blocks, network, addresses, target, id, i, t, k));
        }
    }
}

/// No block with an output of more money than there is, is scanned.
pub proof fn law_scanned_outputs_hold_money(
    blocks: Seq<CompactBlock>,
    initial: &InitialScanData,
    decrypted: &DecryptedOutputs,
    in_use: &Addresses,
    gap: &Addresses,
    keys: Seq<AccountKey>,
    gap_limit: u32,
    network: NetworkType,
    found: ScanData,
    i: int,
    t: int,
    k: int,
)
    requires
        is_scan(
            blocks,
            initial,
            decrypted,
            in_use,
            gap,
            keys,
            gap_limit,
            network,
            Ok::<ScanData, ScanFailure>(found),
        ),
        0 <= i < blocks.len(),
        0 <= t < blocks[i].vtx@.len(),
        0 <= k < blocks[i].vtx@[t].vout@.len(),
    ensures
        blocks[i].vtx@[t].vout@[k].value <= 2_100_000_000_000_000,
{
    let n = blocks.len() as int;
    assert(recipients_at(blocks, network, n, 0) == recipients_of(blocks, network, n));
    lemma_recipients(blocks, network, n, 0);
}

/// What is found in the shielded pools by the scan as a whole is what is found in them alone.
pub proof fn law_scan_finds_what_is_shielded(
    blocks: Seq<CompactBlock>,
    initial: &InitialScanData,
    decrypted: &DecryptedOutputs,
    in_use: &Addresses,
    gap: &Addresses,
    keys: Seq<AccountKey>,
    gap_limit: u32,
    network: NetworkType,
    found: ScanData,
)
    requires
        is_scan(
            blocks,
            initial,
            decrypted,
            in_use,
            gap,
            keys,
            gap_limit,
            network,
            Ok::<ScanData, ScanFailure>(found),
        ),
    ensures
        scanned(blocks, initial, decrypted) is Ok,
        found.shielded.nullifiers.sapling@ == scanned(blocks, initial, decrypted)->Ok_0.sapling_nullifiers,
        found.shielded.nullifiers.orchard@ == scanned(blocks, initial, decrypted)->Ok_0.orchard_nullifiers,
        found.shielded.nullifiers.ironwood@ == scanned(blocks, initial, decrypted)->Ok_0.ironwood_nullifiers,
        found.shielded.sapling_positions@ == scanned(blocks, initial, decrypted)->Ok_0.sapling_positions,
        found.shielded.orchard_positions@ == scanned(blocks, initial, decrypted)->Ok_0.orchard_positions,
        found.shielded.ironwood_positions@ == scanned(blocks, initial, decrypted)->Ok_0.ironwood_positions,
        found.shielded.sapling_leaves@ == scanned(blocks, initial, decrypted)->Ok_0.sapling_leaves,
        found.shielded.orchard_leaves@ == scanned(blocks, initial, decrypted)->Ok_0.orchard_leaves,
        found.shielded.ironwood_leaves@ == scanned(blocks, initial, decrypted)->Ok_0.ironwood_leaves,
        found.shielded.wallet_blocks@.dom() == scanned(blocks, initial, decrypted)->Ok_0.wallet_blocks.dom(),
        forall|height: BlockHeight| #[trigger]
            found.shielded.wallet_blocks@.dom().contains(height) ==> found.shielded.wallet_blocks@[height]@ == scanned(
                blocks,
                initial,
                decrypted,
            )->Ok_0.wallet_blocks[height],
{
    let view = found.shielded@;
    assert(view.wallet_blocks.dom() =~= found.shielded.wallet_blocks@.dom());
}

// --- inputs ---

/// Whether the input at `k` of the transaction at `t` of the block at `i` spends the output, and the target is that
/// transaction.
pub open spec fn is_input_of(
    blocks: Seq<CompactBlock>,
    spent: OutputId,
    target: ScanTarget,
    i: int,
    t: int,
    k: int,
) -> bool {
    &&& is_tx(blocks, i, t, target.txid)
    &&& target.block_height == blocks[i].height
    &&& !target.narrow_scan_area
    &&& 0 <= k < blocks[i].vtx@[t].vin@.len()
    &&& spent.txid.bytes@ == blocks[i].vtx@[t].vin@[k].prevout_txid@
    &&& spent.output_index == blocks[i].vtx@[t].vin@[k].prevout_index
}

proof fn lemma_outpoints_of_tx(before: Map<OutputId, ScanTarget>, tx: &CompactTx, target: ScanTarget, n: int)
    requires
        0 <= n <= tx.vin@.len(),
    ensures
        ({
            let all = with_outpoints(before, tx, target, n);
            &&& forall|spent: OutputId| #[trigger] before.dom().contains(spent) ==> all.dom().contains(spent)
            &&& forall|k: int, spent: OutputId|
                0 <= k < n && spent.txid.bytes@ == (#[trigger] tx.vin@[k]).prevout_txid@ && spent.output_index
                    == tx.vin@[k].prevout_index ==> #[trigger] all.dom().contains(spent)
            &&& forall|spent: OutputId| #[trigger]
                all.dom().contains(spent) ==> (before.dom().contains(spent) && all[spent] == before[spent]) || (
                all[spent] == target && exists|k: int|
                    0 <= k < n && spent.txid.bytes@ == (#[trigger] tx.vin@[k]).prevout_txid@ && spent.output_index
                        == tx.vin@[k].prevout_index)
        }),
    decreases n,
{
    if n > 0 {
        lemma_outpoints_of_tx(before, tx, target, n - 1);
        let rest = with_outpoints(before, tx, target, n - 1);
        let all = with_outpoints(before, tx, target, n);
        let input = tx.vin@[n - 1];
        if input.prevout_txid@.len() == 32 {
            lemma_array_view(input.prevout_txid@);
        }
        assert forall|k: int, spent: OutputId|
            0 <= k < n && spent.txid.bytes@ == (#[trigger] tx.vin@[k]).prevout_txid@ && spent.output_index
                == tx.vin@[k].prevout_index implies #[trigger] all.dom().contains(spent) by {
            lemma_array_of(spent.txid.bytes);
            if k < n - 1 {
                assert(rest.dom().contains(spent));
            }
        }
        assert forall|spent: OutputId| #[trigger] all.dom().contains(spent) implies (before.dom().contains(spent)
            && all[spent] == before[spent]) || (all[spent] == target && exists|k: int|
            0 <= k < n && spent.txid.bytes@ == (#[trigger] tx.vin@[k]).prevout_txid@ && spent.output_index
                == tx.vin@[k].prevout_index) by {
            if !(rest.dom().contains(spent) && all[spent] == rest[spent]) {
                assert(spent.txid.bytes@ == tx.vin@[n - 1].prevout_txid@);
            }
        }
    }
}

/// The outpoints of the blocks before the one at `i`, and of the first `t` transactions of it.
spec fn outpoints_at(blocks: Seq<CompactBlock>, i: int, t: int) -> Map<OutputId, ScanTarget> {
    with_block_outpoints(outpoints_of(blocks, i), &blocks[i], t)
}

proof fn lemma_outpoints(blocks: Seq<CompactBlock>, n: int, m: int)
    requires
        ids_are_ids(blocks),
        0 <= n <= blocks.len(),
        0 <= m,
        m > 0 ==> n < blocks.len() && m <= blocks[n].vtx@.len(),
    ensures
        forall|spent: OutputId| #[trigger]
            outpoints_at(blocks, n, m).dom().contains(spent) ==> exists|i: int, t: int, k: int| #[trigger]
                is_input_of(blocks, spent, outpoints_at(blocks, n, m)[spent], i, t, k),
        forall|spent: OutputId, target: ScanTarget, i: int, t: int, k: int| #[trigger]
            is_input_of(blocks, spent, target, i, t, k) && (i < n || (i == n && t < m)) ==> outpoints_at(
                blocks,
                n,
                m,
            ).dom().contains(spent),
    decreases n, m,
{
    let all = outpoints_at(blocks, n, m);
    if m > 0 {
        let before = outpoints_at(blocks, n, m - 1);
        lemma_outpoints(blocks, n, m - 1);
        let tx = &blocks[n].vtx@[m - 1];
        assert(blocks[n].vtx@[m - 1].txid@.len() == 32);
        lemma_array_view(tx.txid@);
        let own = ScanTarget {
            block_height: blocks[n].height as u32,
            txid: txid_at(&blocks[n], m - 1),
            narrow_scan_area: false,
        };
        lemma_outpoints_of_tx(before, tx, own, tx.vin@.len() as int);
        assert forall|spent: OutputId| #[trigger] all.dom().contains(spent) implies exists|
            i: int,
            t: int,
            k: int,
        | #[trigger] is_input_of(blocks, spent, all[spent], i, t, k) by {
            if !(before.dom().contains(spent) && all[spent] == before[spent]) {
                let k = choose|k: int|
                    0 <= k < tx.vin@.len() && spent.txid.bytes@ == (#[trigger] tx.vin@[k]).prevout_txid@
                        && spent.output_index == tx.vin@[k].prevout_index;
                assert(is_input_of(blocks, spent, all[spent], n, m - 1, k));
            }
        }
        assert forall|spent: OutputId, target: ScanTarget, i: int, t: int, k: int| #[trigger]
            is_input_of(blocks, spent, target, i, t, k) && (i < n || (i == n && t < m)) implies all.dom().contains(
            spent,
        ) by {
            if i == n && t == m - 1 {
                assert(spent.txid.bytes@ == tx.vin@[k].prevout_txid@);
            } else {
                assert(before.dom().contains(spent));
            }
        }
    } else if n > 0 {
        let last = blocks[n - 1].vtx@.len() as int;
        assert(outpoints_at(blocks, n - 1, last) == outpoints_of(blocks, n));
        lemma_outpoints(blocks, n - 1, last);
    }
}

/// Every transparent output that a transaction spends is mapped, and each is mapped to a transaction that spends it.
pub proof fn law_spent_outpoints_are_mapped(
    blocks: Seq<CompactBlock>,
    initial: &InitialScanData,
    decrypted: &DecryptedOutputs,
    in_use: &Addresses,
    gap: &Addresses,
    keys: Seq<AccountKey>,
    gap_limit: u32,
    network: NetworkType,
    found: ScanData,
    spent: OutputId,
)
    requires
        is_scan(
            blocks,
            initial,
            decrypted,
            in_use,
            gap,
            keys,
            gap_limit,
            network,
            Ok::<ScanData, ScanFailure>(found),
        ),
        ids_are_ids(blocks),
    ensures
        (exists|target: ScanTarget, i: int, t: int, k: int| #[trigger]
            is_input_of(blocks, spent, target, i, t, k)) ==> found.outpoints@.dom().contains(spent),
        found.outpoints@.dom().contains(spent) ==> exists|i: int, t: int, k: int| #[trigger]
            is_input_of(blocks, spent, found.outpoints@[spent], i, t, k),
{
    let n = blocks.len() as int;
    assert(outpoints_at(blocks, n, 0) == outpoints_of(blocks, n));
    lemma_outpoints(blocks, n, 0);
}

// --- gap addresses ---

/// A gap address that is paid comes into use, with those below it in its scope, and is no longer watched as a gap
/// address; as many are watched as before.
pub proof fn law_paid_gap_addresses_come_into_use(
    blocks: Seq<CompactBlock>,
    initial: &InitialScanData,
    decrypted: &DecryptedOutputs,
    in_use: &Addresses,
    gap: &Addresses,
    keys: Seq<AccountKey>,
    gap_limit: u32,
    network: NetworkType,
    found: ScanData,
    account_id: u32,
    scope: TransparentScope,
    index: u32,
    lower: u32,
    target: ScanTarget,
    i: int,
    t: int,
    k: int,
)
    requires
        is_scan(
            blocks,
            initial,
            decrypted,
            in_use,
            gap,
            keys,
            gap_limit,
            network,
            Ok::<ScanData, ScanFailure>(found),
        ),
        gap@.dom().contains(TransparentAddressId { account_id, scope, address_index: index }),
        gap@.dom().contains(TransparentAddressId { account_id, scope, address_index: lower }),
        lower <= index,
        is_output_to(
            blocks,
            network,
            gap@[TransparentAddressId { account_id, scope, address_index: index }]@,
            target,
            i,
            t,
            k,
        ),
    ensures
        found.new_transparent_inuse_addresses@.dom().contains(
            TransparentAddressId { account_id, scope, address_index: lower },
        ),
        found.new_transparent_inuse_addresses@[TransparentAddressId { account_id, scope, address_index: lower }]@
            == gap@[TransparentAddressId { account_id, scope, address_index: lower }]@,
        !found.updated_transparent_gap_addresses@.dom().contains(
            TransparentAddressId { account_id, scope, address_index: lower },
        ),
        forall|ahead: u32|
            index < ahead <= index + gap_limit && ahead < 0x8000_0000
                ==> found.updated_transparent_gap_addresses@.dom().contains(
                #[trigger] id_at(account_id, scope, ahead),
            ) || found.new_transparent_inuse_addresses@.dom().contains(id_at(account_id, scope, ahead)),
{
    let n = blocks.len() as int;
    let recipients = recipients_of(blocks, network, n)->Ok_0;
    let after = found.updated_transparent_gap_addresses@;
    let used = found.new_transparent_inuse_addresses@;
    let none = Map::<TransparentAddressId, String>::empty();
    let id = id_at(account_id, scope, index);
    let low_id = id_at(account_id, scope, lower);
    assert(recipients_at(blocks, network, n, 0) == recipients_of(blocks, network, n));
    lemma_recipients(blocks, network, n, 0);
    lemma_array_of(target.txid.bytes);
    let recipient = RecipientView { height: target.block_height, txid: target.txid, address: gap@[id]@ };
    assert(is_from_output(blocks, network, recipient, i, t, k));
    assert(recipients.contains(recipient));
    let at = choose|at: int| 0 <= at < recipients.len() && recipients[at] == recipient;
    assert(recipients[at].address == gap@[id]@);
    assert(window_moved(gap@, none, after, used, account_id, scope, gap_limit as int));
    assert(gap@.dom().contains(id_at(account_id, scope, index)));
    let (low0, low) = choose|low0: int, low: int| #[trigger]
        window_moved_to(gap@, none, after, used, account_id, scope, gap_limit as int, low0, low);
    assert(used.dom().contains(low_id) == (none.dom().contains(low_id) || low0 <= lower < low));
    assert(gap@.dom().contains(low_id) == (low0 <= lower < low0 + gap_limit));
    assert(gap@.dom().contains(id) == (low0 <= index < low0 + gap_limit));
    if index >= low {
        assert(after.dom().contains(id) == (low <= index < low + gap_limit));
        assert(after.dom().contains(id));
        assert(is_paid(recipients, after, id));
    }
    assert(after.dom().contains(low_id) == (low <= lower < low + gap_limit));
    assert forall|ahead: u32| index < ahead <= index + gap_limit && ahead < 0x8000_0000 implies after.dom().contains(
        #[trigger] id_at(account_id, scope, ahead),
    ) || used.dom().contains(id_at(account_id, scope, ahead)) by {
        assert(used.dom().contains(id_at(account_id, scope, ahead)) == (none.dom().contains(
            id_at(account_id, scope, ahead),
        ) || low0 <= ahead < low));
        assert(after.dom().contains(id_at(account_id, scope, ahead)) == (low <= ahead < low + gap_limit));
    }
}

/// Every address that comes into use lies at or below one that is paid, in its scope and closer than the gap limit.
pub proof fn law_addresses_in_use_lie_below_paid_ones(
    blocks: Seq<CompactBlock>,
    initial: &InitialScanData,
    decrypted: &DecryptedOutputs,
    in_use: &Addresses,
    gap: &Addresses,
    keys: Seq<AccountKey>,
    gap_limit: u32,
    network: NetworkType,
    found: ScanData,
    id: TransparentAddressId,
)
    requires
        is_scan(
            blocks,
            initial,
            decrypted,
            in_use,
            gap,
            keys,
            gap_limit,
            network,
            Ok::<ScanData, ScanFailure>(found),
        ),
        ids_are_ids(blocks),
        found.new_transparent_inuse_addresses@.dom().contains(id),
    ensures
        exists|paid: TransparentAddressId, target: ScanTarget, i: int, t: int, k: int| #[trigger]
            is_payment_to(blocks, network, found.new_transparent_inuse_addresses@, target, paid, i, t, k)
                && paid.account_id == id.account_id && paid.scope == id.scope && id.address_index <= paid.address_index
                < id.address_index + gap_limit,
{
    let n = blocks.len() as int;
    let recipients = recipients_of(blocks, network, n)->Ok_0;
    let used = found.new_transparent_inuse_addresses@;
    assert(recipients_at(blocks, network, n, 0) == recipients_of(blocks, network, n));
    lemma_recipients(blocks, network, n, 0);
    assert(is_reached(recipients, used, id, gap_limit as int));
    let paid = choose|p: TransparentAddressId| #[trigger]
        is_paid(recipients, used, p) && is_up_to(id, p, gap_limit as int);
    let at = choose|at: int| 0 <= at < recipients.len() && (#[trigger] recipients[at]).address == used[paid]@;
    let recipient = recipients[at];
    assert(recipients.contains(recipient));
    let (i, t, k) = choose|i: int, t: int, k: int| #[trigger] is_from_output(blocks, network, recipient, i, t, k);
    assert(blocks[i].vtx@[t].txid@.len() == 32);
    lemma_array_view(blocks[i].vtx@[t].txid@);
    let target = ScanTarget { block_height: recipient.height, txid: recipient.txid, narrow_scan_area: true };
    assert(is_payment_to(blocks, network, used, target, paid, i, t, k));
}

/// While no watched address is paid, the search gets nowhere.
proof fn lemma_unpaid_stays(
    recipients: Seq<RecipientView>,
    keys: Seq<AccountKey>,
    network: NetworkType,
    limit: int,
    gap0: Map<TransparentAddressId, String>,
    gap: Map<TransparentAddressId, String>,
    used: Map<TransparentAddressId, String>,
)
    requires
        gap_reached(recipients, keys, network, limit, gap0, gap, used),
        forall|id: TransparentAddressId| !#[trigger] is_paid(recipients, gap0, id),
    ensures
        forall|id: TransparentAddressId| !#[trigger] used.dom().contains(id),
        forall|id: TransparentAddressId| #[trigger] gap.dom().contains(id) <==> gap0.dom().contains(id),
        forall|id: TransparentAddressId| #[trigger] gap.dom().contains(id) ==> gap[id] == gap0[id],
{
    let none = Map::<TransparentAddressId, String>::empty();
    assert forall|id: TransparentAddressId|
        #![trigger used.dom().contains(id)]
        #![trigger gap.dom().contains(id)]
        !used.dom().contains(id) && (gap.dom().contains(id) <==> gap0.dom().contains(id)) by {
        let account_id = id.account_id;
        let scope = id.scope;
        assert(id == id_at(account_id, scope, id.address_index));
        assert(window_moved(gap0, none, gap, used, account_id, scope, limit));
        if stays_unwatched(gap0, none, gap, used, account_id, scope) {
            assert(gap0.dom().contains(id_at(account_id, scope, id.address_index)) == (0 <= id.address_index < 0));
            assert(gap.dom().contains(id_at(account_id, scope, id.address_index)) == (0 <= id.address_index < 0));
            assert(used.dom().contains(id_at(account_id, scope, id.address_index)) == none.dom().contains(id));
        } else {
            let (low0, low) = choose|low0: int, low: int| #[trigger]
                window_moved_to(gap0, none, gap, used, account_id, scope, limit, low0, low);
            if low0 < low {
                let lowest = id_at(account_id, scope, low0 as u32);
                assert(used.dom().contains(lowest) == (none.dom().contains(lowest) || low0 <= low0 < low));
                assert(is_reached(recipients, used, lowest, limit));
                let paid = choose|p: TransparentAddressId| #[trigger]
                    is_paid(recipients, used, p) && is_up_to(lowest, p, limit);
                assert(paid == id_at(account_id, scope, paid.address_index));
                assert(gap0.dom().contains(id_at(account_id, scope, paid.address_index)) == (low0 <= paid.address_index
                    < low0 + limit));
                assert(!gap.dom().contains(paid));
                assert(used[paid] == gap0[paid]);
                assert(is_paid(recipients, gap0, paid));
            }
            assert(gap0.dom().contains(id_at(account_id, scope, id.address_index)) == (low0 <= id.address_index < low0
                + limit));
            assert(gap.dom().contains(id_at(account_id, scope, id.address_index)) == (low <= id.address_index < low
                + limit));
            assert(used.dom().contains(id_at(account_id, scope, id.address_index)) == (none.dom().contains(id) || low0
                <= id.address_index < low));
        }
    }
    assert forall|id: TransparentAddressId| #[trigger] gap.dom().contains(id) implies gap[id] == gap0[id] by {
        assert(gap0.dom().contains(id));
        assert(!used.dom().contains(id));
    }
}

/// Whether some output of the blocks pays to one of the addresses.
pub open spec fn any_is_paid(
    blocks: Seq<CompactBlock>,
    network: NetworkType,
    addresses: Map<TransparentAddressId, String>,
) -> bool {
    exists|id: TransparentAddressId, i: int, t: int, k: int|
        0 <= i < blocks.len() && 0 <= t < blocks[i].vtx@.len() && 0 <= k < blocks[i].vtx@[t].vout@.len()
            && #[trigger] addresses.dom().contains(id) && script_address(
            (#[trigger] blocks[i].vtx@[t].vout@[k]).script_pub_key@,
            network,
        ) == Some(addresses[id]@)
}

proof fn lemma_none_is_paid(
    blocks: Seq<CompactBlock>,
    network: NetworkType,
    addresses: Map<TransparentAddressId, String>,
    id: TransparentAddressId,
)
    requires
        recipients_of(blocks, network, blocks.len() as int) is Ok,
        !any_is_paid(blocks, network, addresses),
    ensures
        !is_paid(recipients_of(blocks, network, blocks.len() as int)->Ok_0, addresses, id),
{
    let n = blocks.len() as int;
    let recipients = recipients_of(blocks, network, n)->Ok_0;
    assert(recipients_at(blocks, network, n, 0) == recipients_of(blocks, network, n));
    lemma_recipients(blocks, network, n, 0);
    if is_paid(recipients, addresses, id) {
        let at = choose|at: int| 0 <= at < recipients.len() && (#[trigger] recipients[at]).address == addresses[id]@;
        let recipient = recipients[at];
        assert(recipients.contains(recipient));
        let (i, t, k) = choose|i: int, t: int, k: int| #[trigger] is_from_output(blocks, network, recipient, i, t, k);
        assert(addresses.dom().contains(id));
        assert(script_address(blocks[i].vtx@[t].vout@[k].script_pub_key@, network) == Some(addresses[id]@));
    }
}

/// Where no gap address is paid, none comes into use, and the gap addresses stay as they are.
pub proof fn law_unpaid_gap_addresses_stay(
    blocks: Seq<CompactBlock>,
    initial: &InitialScanData,
    decrypted: &DecryptedOutputs,
    in_use: &Addresses,
    gap: &Addresses,
    keys: Seq<AccountKey>,
    gap_limit: u32,
    network: NetworkType,
    found: ScanData,
    id: TransparentAddressId,
)
    requires
        is_scan(
            blocks,
            initial,
            decrypted,
            in_use,
            gap,
            keys,
            gap_limit,
            network,
            Ok::<ScanData, ScanFailure>(found),
        ),
        !any_is_paid(blocks, network, gap@),
    ensures
        !found.new_transparent_inuse_addresses@.dom().contains(id),
        found.updated_transparent_gap_addresses@.dom().contains(id) <==> gap@.dom().contains(id),
        gap@.dom().contains(id) ==> found.updated_transparent_gap_addresses@[id]@ == gap@[id]@,
{
    let recipients = recipients_of(blocks, network, blocks.len() as int)->Ok_0;
    assert forall|other: TransparentAddressId| !#[trigger] is_paid(recipients, gap@, other) by {
        lemma_none_is_paid(blocks, network, gap@, other);
    }
    let after = found.updated_transparent_gap_addresses@;
    let used = found.new_transparent_inuse_addresses@;
    lemma_unpaid_stays(recipients, keys, network, gap_limit as int, gap@, after, used);
    assert(after.dom().contains(id) <==> gap@.dom().contains(id));
}

/// An address that is watched newly is that of the key of its account, with its scope and its index.
pub proof fn law_new_gap_addresses_are_derived(
    blocks: Seq<CompactBlock>,
    initial: &InitialScanData,
    decrypted: &DecryptedOutputs,
    in_use: &Addresses,
    gap: &Addresses,
    keys: Seq<AccountKey>,
    gap_limit: u32,
    network: NetworkType,
    found: ScanData,
    id: TransparentAddressId,
)
    requires
        is_scan(
            blocks,
            initial,
            decrypted,
            in_use,
            gap,
            keys,
            gap_limit,
            network,
            Ok::<ScanData, ScanFailure>(found),
        ),
        found.updated_transparent_gap_addresses@.dom().contains(id),
    ensures
        gap@.dom().contains(id) ==> found.updated_transparent_gap_addresses@[id]@ == gap@[id]@ || exists|i: int|
            0 <= i < keys.len() && (#[trigger] keys[i]).account_id == id.account_id && derived_address(
                keys[i].key@,
                id.scope,
                id.address_index,
                network,
            ) == Ok::<Seq<char>, Seq<char>>(found.updated_transparent_gap_addresses@[id]@),
        !gap@.dom().contains(id) ==> exists|i: int|
            0 <= i < keys.len() && (#[trigger] keys[i]).account_id == id.account_id && derived_address(
                keys[i].key@,
                id.scope,
                id.address_index,
                network,
            ) == Ok::<Seq<char>, Seq<char>>(found.updated_transparent_gap_addresses@[id]@),
{
    let after = found.updated_transparent_gap_addresses@;
    assert(after.dom().contains(id));
}

/// Whether every output of the blocks is of no more money than there is.
pub open spec fn outputs_hold_money(blocks: Seq<CompactBlock>) -> bool {
    forall|i: int, t: int, k: int|
        0 <= i < blocks.len() && 0 <= t < blocks[i].vtx@.len() && 0 <= k < blocks[i].vtx@[t].vout@.len() ==> (
        #[trigger] blocks[i].vtx@[t].vout@[k]).value <= 2_100_000_000_000_000
}

proof fn lemma_outputs_with_money(
    before: Seq<RecipientView>,
    height: BlockHeight,
    txid: TxId,
    outputs: Seq<CompactTxOut>,
    network: NetworkType,
)
    requires
        forall|k: int| 0 <= k < outputs.len() ==> (#[trigger] outputs[k]).value <= 2_100_000_000_000_000,
    ensures
        with_output_recipients(before, height, txid, outputs, network) is Ok,
    decreases outputs.len(),
{
    if outputs.len() > 0 {
        let rest = outputs.drop_last();
        assert forall|k: int| 0 <= k < rest.len() implies (#[trigger] rest[k]).value <= 2_100_000_000_000_000 by {
            assert(rest[k] == outputs[k]);
        }
        lemma_outputs_with_money(before, height, txid, rest, network);
        assert(outputs[outputs.len() - 1] == outputs.last());
    }
}

proof fn lemma_blocks_with_money(blocks: Seq<CompactBlock>, network: NetworkType, n: int, m: int)
    requires
        outputs_hold_money(blocks),
        0 <= n <= blocks.len(),
        0 <= m,
        m > 0 ==> n < blocks.len() && m <= blocks[n].vtx@.len(),
    ensures
        recipients_at(blocks, network, n, m) is Ok,
    decreases n, m,
{
    if m > 0 {
        lemma_blocks_with_money(blocks, network, n, m - 1);
        let outputs = blocks[n].vtx@[m - 1].vout@;
        assert forall|k: int| 0 <= k < outputs.len() implies (#[trigger] outputs[k]).value
            <= 2_100_000_000_000_000 by {
            assert(blocks[n].vtx@[m - 1].vout@[k].value <= 2_100_000_000_000_000);
        }
        lemma_outputs_with_money(
            recipients_at(blocks, network, n, m - 1)->Ok_0,
            blocks[n].height as u32,
            txid_at(&blocks[n], m - 1),
            outputs,
            network,
        );
    } else if n > 0 {
        let last = blocks[n - 1].vtx@.len() as int;
        lemma_blocks_with_money(blocks, network, n - 1, last);
        assert(recipients_at(blocks, network, n - 1, last) == recipients_of(blocks, network, n));
    }
}

/// A scan fails only where the shielded part of a block is at fault, an output is of more money than there is, or a gap
/// address is paid.
pub proof fn law_scan_succeeds_without_fault(
    blocks: Seq<CompactBlock>,
    initial: &InitialScanData,
    decrypted: &DecryptedOutputs,
    in_use: &Addresses,
    gap: &Addresses,
    keys: Seq<AccountKey>,
    gap_limit: u32,
    network: NetworkType,
    r: Result<ScanData, ScanFailure>,
)
    requires
        is_scan(blocks, initial, decrypted, in_use, gap, keys, gap_limit, network, r),
        scanned(blocks, initial, decrypted) is Ok,
        outputs_hold_money(blocks),
        !any_is_paid(blocks, network, gap@),
    ensures
        r is Ok,
{
    let n = blocks.len() as int;
    lemma_blocks_with_money(blocks, network, n, 0);
    assert(recipients_at(blocks, network, n, 0) == recipients_of(blocks, network, n));
    let recipients = recipients_of(blocks, network, n)->Ok_0;
    if let Err(ScanFailure::Scan(error)) = r {
        assert forall|other: TransparentAddressId| !#[trigger] is_paid(recipients, gap@, other) by {
            lemma_none_is_paid(blocks, network, gap@, other);
        }
        let limit = gap_limit as int;
        let (after, used, paid) = choose|
            after: Map<TransparentAddressId, String>,
            used: Map<TransparentAddressId, String>,
            paid: TransparentAddressId,
        | #[trigger]
            is_gap_error_at(error, recipients, keys, network, limit, gap@, after, used, paid);
        lemma_unpaid_stays(recipients, keys, network, limit, gap@, after, used);
        assert(after.dom().contains(paid));
        assert(is_paid(recipients, gap@, paid));
    }
}

// --- the addresses that a scan begins with ---

/// In every scope of an account that has a key, as many addresses as the limit says are watched right behind the last
/// that the wallet uses, or from the first on where it uses none; and none where there are not that many.
pub proof fn law_gap_addresses_lie_behind_those_in_use(
    wallet_addresses: &Addresses,
    keys: &Vec<AccountKey>,
    gap_limit: u32,
    network: NetworkType,
    gap: Addresses,
    at: int,
    scope: TransparentScope,
    last: u32,
    index: u32,
)
    requires
        wallet_addresses.wf(),
        call_ensures(first_gap, (wallet_addresses, keys, gap_limit, network), Ok::<Addresses, String>(gap)),
        0 <= at < keys@.len(),
        wallet_addresses@.dom().contains(
            TransparentAddressId { account_id: keys@[at].account_id, scope, address_index: last },
        ),
        forall|other: TransparentAddressId| #[trigger]
            wallet_addresses@.dom().contains(other) && other.account_id == keys@[at].account_id && other.scope == scope
                ==> other.address_index <= last,
    ensures
        gap@.dom().contains(TransparentAddressId { account_id: keys@[at].account_id, scope, address_index: index })
            <==> last < index <= last + gap_limit && last + gap_limit < 0x8000_0000,
{
    let account_id = keys@[at].account_id;
    let listed = wallet_addresses.listed();
    wallet_addresses.lemma_listed();
    let id = id_at(account_id, scope, last);
    assert(has_key(listed, id));
    let k = choose|k: int| 0 <= k < listed.len() && (#[trigger] listed[k]).0 == id;
    law_the_search_starts_behind_what_is_used(listed, account_id, scope, k);
    assert forall|i: int|
        0 <= i < listed.len() && (#[trigger] listed[i]).0.account_id == account_id && listed[i].0.scope
            == scope implies listed[i].0.address_index <= last by {
        assert(wallet_addresses@.dom().contains(listed[i].0));
    }
    assert(has_key_of(keys@, account_id));
    assert(is_first_window(listed, gap@, account_id, scope, gap_limit as int));
    let watched = TransparentAddressId { account_id, scope, address_index: index };
    assert(gap@.dom().contains(id_at(account_id, scope, index)) == gap@.dom().contains(watched));
}

/// In a scope of which the wallet uses no address, the first ones are watched, as many as the limit says.
pub proof fn law_gap_addresses_begin_with_the_first(
    wallet_addresses: &Addresses,
    keys: &Vec<AccountKey>,
    gap_limit: u32,
    network: NetworkType,
    gap: Addresses,
    at: int,
    scope: TransparentScope,
    index: u32,
)
    requires
        wallet_addresses.wf(),
        call_ensures(first_gap, (wallet_addresses, keys, gap_limit, network), Ok::<Addresses, String>(gap)),
        0 <= at < keys@.len(),
        forall|other: TransparentAddressId| #[trigger]
            wallet_addresses@.dom().contains(other) ==> !(other.account_id == keys@[at].account_id && other.scope
                == scope),
    ensures
        gap@.dom().contains(TransparentAddressId { account_id: keys@[at].account_id, scope, address_index: index })
            <==> index < gap_limit <= 0x8000_0000,
{
    let account_id = keys@[at].account_id;
    let listed = wallet_addresses.listed();
    wallet_addresses.lemma_listed();
    assert forall|i: int| 0 <= i < listed.len() implies !((#[trigger] listed[i]).0.account_id == account_id
        && listed[i].0.scope == scope) by {
        assert(wallet_addresses@.dom().contains(listed[i].0));
    }
    law_an_unused_scope_is_searched_from_the_start(listed, account_id, scope);
    assert(has_key_of(keys@, account_id));
    assert(is_first_window(listed, gap@, account_id, scope, gap_limit as int));
    let watched = TransparentAddressId { account_id, scope, address_index: index };
    assert(gap@.dom().contains(id_at(account_id, scope, index)) == gap@.dom().contains(watched));
}

/// Every address that a scan begins to watch is that of the key of its account, with its scope and its index.
pub proof fn law_first_gap_addresses_are_derived(
    wallet_addresses: &Addresses,
    keys: &Vec<AccountKey>,
    gap_limit: u32,
    network: NetworkType,
    gap: Addresses,
    id: TransparentAddressId,
)
    requires
        call_ensures(first_gap, (wallet_addresses, keys, gap_limit, network), Ok::<Addresses, String>(gap)),
        gap@.dom().contains(id),
    ensures
        exists|i: int|
            0 <= i < keys@.len() && (#[trigger] keys@[i]).account_id == id.account_id && derived_address(
                keys@[i].key@,
                id.scope,
                id.address_index,
                network,
            ) == Ok::<Seq<char>, Seq<char>>(gap@[id]@),
{
    assert(is_derived(keys@, network, id, gap@[id]@));
}

} // verus!
