//! What holds of a wallet once it is updated, said of its transactions, notes and maps.
use crate::chain::ChainParameters;
use crate::primitives::{BlockRange, Nullifier, OutputId, ShieldedPool, TxId};
use crate::scan_range::ScanRange;
use crate::sync::cleanup::expired_ids;
use crate::sync::spend::{not_confirmed, spent_coins, wallet_outpoints, with_failed};
use crate::sync::spend_laws::{
    is_own, lemma_gathered_is_own, lemma_own_coin, mapped_in, note_count, nullifier_at, spender_at,
};
use crate::sync::spend_update::{lemma_pool_gathered, with_spends};
use crate::sync::targets::lemma_push_contains;
use crate::sync::update::{
    awaiting, data_added, external_addresses, holds_nothing, mempool_transaction_noted, pending_coin_spends,
    pending_spends, refetch_ranges, spends_nothing, FoundAddress, FoundData, MempoolStep, Received,
};
use crate::trees::TreeError;
use crate::wallet::data::Wallet;
use crate::wallet::status::ConfirmationStatus;
use crate::wallet::stores::{tx_views, NullifierMap, WalletTransactions};
use crate::wallet::sync_state::ScanTarget;
use crate::wallet::transaction::{
    IronwoodNoteData, NoteView, OrchardNoteData, SaplingNoteData, Scope, TransactionView, WalletTransaction,
};
use vstd::prelude::*;

verus! {

// --- transactions that are not in a block yet ---

/// Whether a pending transaction was added to the wallet, or found to be of no interest to it.
pub open spec fn pending_taken(
    before: &Wallet,
    after: &Wallet,
    pending: WalletTransaction,
    nullifiers: &NullifierMap,
    outpoints: Map<OutputId, ScanTarget>,
    added: bool,
) -> bool {
    &&& added == !(holds_nothing(pending@) && spends_nothing(
        pending_spends(&before.wallet_transactions, nullifiers),
        pending_coin_spends(&before.wallet_transactions, outpoints),
    ))
    &&& !added ==> *after == *before
    &&& added ==> tx_views(after.wallet_transactions@) == with_spends(
        tx_views(before.wallet_transactions@).insert(pending.txid, pending@).map_values(
            |transaction: TransactionView|
                TransactionView {
                    transparent_coins: spent_coins(
                        transaction.transparent_coins,
                        pending_coin_spends(&before.wallet_transactions, outpoints),
                    ),
                    ..transaction
                },
        ),
        pending_spends(&before.wallet_transactions, nullifiers),
    )
}

/// A pending transaction that holds anything of the wallet's, in whichever list, is added to it, and the wallet holds
/// it under its id from then on.
pub proof fn law_what_holds_something_is_added(
    before: &Wallet,
    after: &Wallet,
    pending: WalletTransaction,
    nullifiers: &NullifierMap,
    outpoints: Map<OutputId, ScanTarget>,
    added: bool,
)
    requires
        pending_taken(before, after, pending, nullifiers, outpoints, added),
    ensures
        pending.transparent_coins@.len() > 0 ==> added,
        pending.sapling_notes@.len() > 0 ==> added,
        pending.orchard_notes@.len() > 0 ==> added,
        pending.ironwood_notes@.len() > 0 ==> added,
        pending.outgoing_sapling_notes@.len() > 0 ==> added,
        pending.outgoing_orchard_notes@.len() > 0 ==> added,
        pending.outgoing_ironwood_notes@.len() > 0 ==> added,
        added ==> after.wallet_transactions@.dom().contains(pending.txid) && after.wallet_transactions@[
            pending.txid
        ].status == pending.status && after.wallet_transactions@[pending.txid].sapling_notes@.len()
            == pending.sapling_notes@.len() && after.wallet_transactions@[pending.txid].orchard_notes@.len()
            == pending.orchard_notes@.len() && after.wallet_transactions@[pending.txid].ironwood_notes@.len()
            == pending.ironwood_notes@.len() && after.wallet_transactions@[pending.txid].transparent_coins@.len()
            == pending.transparent_coins@.len(),
{
    assert(pending@.transparent_coins.len() == pending.transparent_coins@.len());
    assert(pending@.sapling_notes.len() == pending.sapling_notes@.len());
    assert(pending@.orchard_notes.len() == pending.orchard_notes@.len());
    assert(pending@.ironwood_notes.len() == pending.ironwood_notes@.len());
    assert(pending@.outgoing_sapling_notes.len() == pending.outgoing_sapling_notes@.len());
    assert(pending@.outgoing_orchard_notes.len() == pending.outgoing_orchard_notes@.len());
    assert(pending@.outgoing_ironwood_notes.len() == pending.outgoing_ironwood_notes@.len());
    if added {
        assert(tx_views(after.wallet_transactions@).dom().contains(pending.txid));
        let kept = after.wallet_transactions@[pending.txid];
        assert(kept@ == tx_views(after.wallet_transactions@)[pending.txid]);
        assert(kept@.transparent_coins.len() == kept.transparent_coins@.len());
        assert(kept@.sapling_notes.len() == kept.sapling_notes@.len());
        assert(kept@.orchard_notes.len() == kept.orchard_notes@.len());
        assert(kept@.ironwood_notes.len() == kept.ironwood_notes@.len());
    }
}

proof fn lemma_pending_spend(
    transactions: &WalletTransactions,
    nullifiers: &NullifierMap,
    pool: ShieldedPool,
    nullifier: Nullifier,
)
    requires
        transactions.wf(),
    ensures
        ({
            let spends = pending_spends(transactions, nullifiers);
            let own = match pool {
                ShieldedPool::Sapling => spends.sapling,
                ShieldedPool::Orchard => spends.orchard,
                ShieldedPool::Ironwood => spends.ironwood,
            };
            &&& own.dom().contains(nullifier) == (mapped_in(nullifiers, pool).dom().contains(nullifier) && is_own(
                transactions,
                pool,
                nullifier,
            ))
            &&& own.dom().contains(nullifier) ==> own[nullifier] == mapped_in(nullifiers, pool)[nullifier]
        }),
{
    lemma_pool_gathered(transactions);
    lemma_gathered_is_own(transactions, pool, nullifier);
}

proof fn lemma_pending_coin_spend(
    transactions: &WalletTransactions,
    outpoints: Map<OutputId, ScanTarget>,
    id: OutputId,
)
    ensures
        pending_coin_spends(transactions, outpoints).dom().contains(id) == (outpoints.dom().contains(id)
            && wallet_outpoints(transactions).contains(id)),
        pending_coin_spends(transactions, outpoints).dom().contains(id) ==> pending_coin_spends(
            transactions,
            outpoints,
        )[id] == outpoints[id],
{
}

/// A pending transaction that spends a note of the wallet is added to it, and every such note is spent by it. No other
/// note is.
pub proof fn law_pending_transactions_spend_notes(
    before: &Wallet,
    after: &Wallet,
    pending: WalletTransaction,
    nullifiers: &NullifierMap,
    outpoints: Map<OutputId, ScanTarget>,
    added: bool,
    pool: ShieldedPool,
    txid: TxId,
    j: int,
)
    requires
        before.wf(),
        pending_taken(before, after, pending, nullifiers, outpoints, added),
        before.wallet_transactions@.dom().contains(txid),
        txid != pending.txid,
        0 <= j < note_count(before.wallet_transactions@[txid], pool),
    ensures
        after.wallet_transactions@.dom().contains(txid),
        ({
            let nullifier = nullifier_at(before.wallet_transactions@[txid], pool, j);
            let spent = nullifier.is_some() && mapped_in(nullifiers, pool).dom().contains(nullifier->0);
            &&& spent ==> added
            &&& note_count(after.wallet_transactions@[txid], pool) == note_count(
                before.wallet_transactions@[txid],
                pool,
            )
            &&& spender_at(after.wallet_transactions@[txid], pool, j) == if spent {
                Some(mapped_in(nullifiers, pool)[nullifier->0].txid)
            } else {
                spender_at(before.wallet_transactions@[txid], pool, j)
            }
        }),
{
    let transactions = &before.wallet_transactions;
    let nullifier = nullifier_at(transactions@[txid], pool, j);
    if nullifier.is_some() {
        assert(is_own(transactions, pool, nullifier->0));
        lemma_pending_spend(transactions, nullifiers, pool, nullifier->0);
    }
    if added {
        assert(tx_views(transactions@).dom().contains(txid));
        assert(tx_views(after.wallet_transactions@).dom().contains(txid));
        let before_tx = transactions@[txid];
        let after_tx = after.wallet_transactions@[txid];
        assert(after_tx@ == tx_views(after.wallet_transactions@)[txid]);
        match pool {
            ShieldedPool::Sapling => {
                assert(after_tx@.sapling_notes.len() == before_tx.sapling_notes@.len());
                assert(after_tx.sapling_notes@[j]@ == after_tx@.sapling_notes[j]);
                assert(before_tx.sapling_notes@[j]@ == before_tx@.sapling_notes[j]);
            },
            ShieldedPool::Orchard => {
                assert(after_tx@.orchard_notes.len() == before_tx.orchard_notes@.len());
                assert(after_tx.orchard_notes@[j]@ == after_tx@.orchard_notes[j]);
                assert(before_tx.orchard_notes@[j]@ == before_tx@.orchard_notes[j]);
            },
            ShieldedPool::Ironwood => {
                assert(after_tx@.ironwood_notes.len() == before_tx.ironwood_notes@.len());
                assert(after_tx.ironwood_notes@[j]@ == after_tx@.ironwood_notes[j]);
                assert(before_tx.ironwood_notes@[j]@ == before_tx@.ironwood_notes[j]);
            },
        }
    } else {
        if nullifier.is_some() && mapped_in(nullifiers, pool).dom().contains(nullifier->0) {
            let spends = pending_spends(transactions, nullifiers);
            match pool {
                ShieldedPool::Sapling => {
                    assert(spends.sapling.dom().contains(nullifier->0));
                },
                ShieldedPool::Orchard => {
                    assert(spends.orchard.dom().contains(nullifier->0));
                },
                ShieldedPool::Ironwood => {
                    assert(spends.ironwood.dom().contains(nullifier->0));
                },
            }
        }
    }
}

/// A pending transaction that spends a coin of the wallet is added to it, and every such coin is spent by it. No other
/// coin is.
pub proof fn law_pending_transactions_spend_coins(
    before: &Wallet,
    after: &Wallet,
    pending: WalletTransaction,
    nullifiers: &NullifierMap,
    outpoints: Map<OutputId, ScanTarget>,
    added: bool,
    txid: TxId,
    j: int,
)
    requires
        before.wf(),
        pending_taken(before, after, pending, nullifiers, outpoints, added),
        before.wallet_transactions@.dom().contains(txid),
        txid != pending.txid,
        0 <= j < before.wallet_transactions@[txid].transparent_coins@.len(),
    ensures
        after.wallet_transactions@.dom().contains(txid),
        ({
            let id = before.wallet_transactions@[txid].transparent_coins@[j].output_id;
            &&& outpoints.dom().contains(id) ==> added
            &&& after.wallet_transactions@[txid].transparent_coins@.len()
                == before.wallet_transactions@[txid].transparent_coins@.len()
            &&& after.wallet_transactions@[txid].transparent_coins@[j].spending_transaction
                == if outpoints.dom().contains(id) {
                Some(outpoints[id].txid)
            } else {
                before.wallet_transactions@[txid].transparent_coins@[j].spending_transaction
            }
        }),
{
    let transactions = &before.wallet_transactions;
    let before_tx = transactions@[txid];
    let id = before_tx.transparent_coins@[j].output_id;
    assert(transactions@[txid].transparent_coins@[j].output_id == id);
    lemma_own_coin(transactions, id);
    lemma_pending_coin_spend(transactions, outpoints, id);
    if added {
        assert(tx_views(transactions@).dom().contains(txid));
        assert(tx_views(after.wallet_transactions@).dom().contains(txid));
        let after_tx = after.wallet_transactions@[txid];
        assert(after_tx@ == tx_views(after.wallet_transactions@)[txid]);
        assert(after_tx@.transparent_coins.len() == before_tx.transparent_coins@.len());
        assert(after_tx.transparent_coins@[j]@ == after_tx@.transparent_coins[j]);
        assert(before_tx.transparent_coins@[j]@ == before_tx@.transparent_coins[j]);
    } else if outpoints.dom().contains(id) {
        assert(pending_coin_spends(transactions, outpoints).dom().contains(id));
    }
}

/// A pending transaction that holds nothing of the wallet's and spends nothing of it is not added.
pub proof fn law_what_is_foreign_is_not_added(
    before: &Wallet,
    after: &Wallet,
    pending: WalletTransaction,
    nullifiers: &NullifierMap,
    outpoints: Map<OutputId, ScanTarget>,
    added: bool,
)
    requires
        before.wf(),
        pending_taken(before, after, pending, nullifiers, outpoints, added),
        pending.transparent_coins@.len() == 0,
        pending.sapling_notes@.len() == 0,
        pending.orchard_notes@.len() == 0,
        pending.ironwood_notes@.len() == 0,
        pending.outgoing_sapling_notes@.len() == 0,
        pending.outgoing_orchard_notes@.len() == 0,
        pending.outgoing_ironwood_notes@.len() == 0,
        forall|pool: ShieldedPool, nullifier: Nullifier| #[trigger]
            mapped_in(nullifiers, pool).dom().contains(nullifier) ==> !is_own(
                &before.wallet_transactions,
                pool,
                nullifier,
            ),
        forall|txid: TxId, j: int|
            before.wallet_transactions@.dom().contains(txid) && 0 <= j
                < before.wallet_transactions@[txid].transparent_coins@.len() ==> !outpoints.dom().contains(
                (#[trigger] before.wallet_transactions@[txid].transparent_coins@[j]).output_id,
            ),
    ensures
        !added,
        *after == *before,
{
    let transactions = &before.wallet_transactions;
    let spends = pending_spends(transactions, nullifiers);
    let coins = pending_coin_spends(transactions, outpoints);
    assert forall|n: Nullifier| !spends.sapling.dom().contains(n) by {
        lemma_pending_spend(transactions, nullifiers, ShieldedPool::Sapling, n);
    }
    assert forall|n: Nullifier| !spends.orchard.dom().contains(n) by {
        lemma_pending_spend(transactions, nullifiers, ShieldedPool::Orchard, n);
    }
    assert forall|n: Nullifier| !spends.ironwood.dom().contains(n) by {
        lemma_pending_spend(transactions, nullifiers, ShieldedPool::Ironwood, n);
    }
    assert forall|id: OutputId| !coins.dom().contains(id) by {
        lemma_pending_coin_spend(transactions, outpoints, id);
        lemma_own_coin(transactions, id);
    }
    assert(spends.sapling =~= Map::empty());
    assert(spends.orchard =~= Map::empty());
    assert(spends.ironwood =~= Map::empty());
    assert(coins =~= Map::empty());
    assert(pending@.transparent_coins.len() == 0);
    assert(pending@.sapling_notes.len() == 0);
    assert(pending@.orchard_notes.len() == 0);
    assert(pending@.ironwood_notes.len() == 0);
    assert(pending@.outgoing_sapling_notes.len() == 0);
    assert(pending@.outgoing_orchard_notes.len() == 0);
    assert(pending@.outgoing_ironwood_notes.len() == 0);
}

/// A transaction that the wallet holds as built or sent moves on to the mempool when it is seen there, at the height
/// above the last that is known. One that is in a block stays there, and one that failed or is unknown is scanned.
pub proof fn law_seen_transactions_move_on(before: &Wallet, after: &Wallet, txid: TxId, now: u32, step: MempoolStep)
    requires
        before.sync_state.scan_ranges@.len() > 0,
        before.sync_state.scan_ranges@.last().block_range.end > 0,
        mempool_transaction_noted(before, after, txid, now, step),
    ensures
        ({
            let height = before.sync_state.scan_ranges@.last().block_range.end;
            let held = before.wallet_transactions@;
            if !held.dom().contains(txid) || held[txid].status is Failed {
                step == MempoolStep::Scan(height) && *after == *before
            } else {
                &&& step == MempoolStep::Updated
                &&& after.wallet_transactions@.dom().contains(txid)
                &&& after.wallet_transactions@[txid].status == if held[txid].status is Calculated
                    || held[txid].status is Transmitted {
                    ConfirmationStatus::Mempool(height)
                } else {
                    held[txid].status
                }
            }
        }),
        forall|other: TxId| #[trigger]
            before.wallet_transactions@.dom().contains(other) && other != txid
                ==> after.wallet_transactions@.dom().contains(other) && after.wallet_transactions@[other]@
                == before.wallet_transactions@[other]@,
{
    let held = before.wallet_transactions@;
    assert(tx_views(held).dom().contains(txid) == held.dom().contains(txid));
    if held.dom().contains(txid) {
        assert(tx_views(held)[txid] == held[txid]@);
        if !(held[txid].status is Failed) {
            assert(tx_views(after.wallet_transactions@).dom().contains(txid));
            assert(tx_views(after.wallet_transactions@)[txid] == after.wallet_transactions@[txid]@);
        }
    }
    assert forall|other: TxId| #[trigger] held.dom().contains(other) && other != txid implies
        after.wallet_transactions@.dom().contains(other) && after.wallet_transactions@[other]@ == held[other]@ by {
        assert(tx_views(held).dom().contains(other));
        assert(tx_views(after.wallet_transactions@).dom().contains(other));
        assert(tx_views(after.wallet_transactions@)[other] == tx_views(held)[other]);
    }
}

// --- what was found in a range ---

/// The ranges that a note waits for, before it is known to be unspent.
pub open spec fn waits_for(tx: WalletTransaction, pool: ShieldedPool, j: int) -> Seq<BlockRange> {
    match pool {
        ShieldedPool::Sapling => tx.sapling_notes@[j].refetch_nullifier_ranges@,
        ShieldedPool::Orchard => tx.orchard_notes@[j].refetch_nullifier_ranges@,
        ShieldedPool::Ironwood => tx.ironwood_notes@[j].refetch_nullifier_ranges@,
    }
}

/// Whether the range at `i` was scanned, its nullifiers are not mapped, and it lies above the given height.
pub open spec fn lacks_nullifiers(ranges: Seq<ScanRange>, i: int, end: u32) -> bool {
    &&& 0 <= i < ranges.len()
    &&& ranges[i].priority is ScannedWithoutMapping || ranges[i].priority is RefetchingNullifiers
    &&& ranges[i].block_range.start >= end
}

proof fn lemma_refetch_ranges(ranges: Seq<ScanRange>, end: u32, blocks: BlockRange)
    ensures
        refetch_ranges(ranges, end).contains(blocks) == exists|i: int| #[trigger]
            lacks_nullifiers(ranges, i, end) && ranges[i].block_range == blocks,
    decreases ranges.len(),
{
    if ranges.len() > 0 {
        let before = ranges.drop_last();
        let rest = refetch_ranges(before, end);
        let last = ranges.last();
        let n = ranges.len() - 1;
        lemma_refetch_ranges(before, end, blocks);
        lemma_push_contains(rest, last.block_range);
        if exists|i: int| #[trigger] lacks_nullifiers(before, i, end) && before[i].block_range == blocks {
            let i = choose|i: int| #[trigger] lacks_nullifiers(before, i, end) && before[i].block_range == blocks;
            assert(lacks_nullifiers(ranges, i, end));
        }
        if lacks_nullifiers(ranges, n, end) && last.block_range == blocks {
            assert(refetch_ranges(ranges, end) == rest.push(blocks));
        }
        if exists|i: int| #[trigger] lacks_nullifiers(ranges, i, end) && ranges[i].block_range == blocks {
            let i = choose|i: int| #[trigger] lacks_nullifiers(ranges, i, end) && ranges[i].block_range == blocks;
            if i < n {
                assert(lacks_nullifiers(before, i, end));
            }
        }
        if refetch_ranges(ranges, end).contains(blocks) && !rest.contains(blocks) {
            assert(lacks_nullifiers(ranges, n, end));
        }
    } else {
        assert(refetch_ranges(ranges, end) =~= Seq::empty());
    }
}

/// The transactions that were found are in the wallet, and each of their notes waits for exactly the ranges above the
/// scanned one whose nullifiers are not mapped. Transactions that were not found stay as they are.
pub proof fn law_found_transactions_are_kept(
    parameters: &ChainParameters,
    before: &Wallet,
    after: &Wallet,
    scan_range: &ScanRange,
    nullifiers: &NullifierMap,
    outpoints: Map<OutputId, ScanTarget>,
    found: &FoundData,
    r: Result<(), TreeError>,
    txid: TxId,
    pool: ShieldedPool,
    j: int,
    blocks: BlockRange,
)
    requires
        data_added(parameters, before, after, scan_range, nullifiers, outpoints, found, r),
        found.transactions@.dom().contains(txid) || before.wallet_transactions@.dom().contains(txid),
    ensures
        after.wallet_transactions@.dom().contains(txid),
        !found.transactions@.dom().contains(txid) ==> after.wallet_transactions@[txid]@
            == before.wallet_transactions@[txid]@,
        found.transactions@.dom().contains(txid) ==> after.wallet_transactions@[txid].status
            == found.transactions@[txid].status && note_count(after.wallet_transactions@[txid], pool) == note_count(
            found.transactions@[txid],
            pool,
        ),
        found.transactions@.dom().contains(txid) && 0 <= j < note_count(found.transactions@[txid], pool) ==> {
            let note = after.wallet_transactions@[txid];
            &&& nullifier_at(note, pool, j) == nullifier_at(found.transactions@[txid], pool, j)
            &&& spender_at(note, pool, j) == spender_at(found.transactions@[txid], pool, j)
            &&& waits_for(note, pool, j).contains(blocks) == exists|i: int| #[trigger]
                lacks_nullifiers(after.sync_state.scan_ranges@, i, scan_range.block_range.end)
                    && after.sync_state.scan_ranges@[i].block_range == blocks
        },
{
    let awaited = refetch_ranges(after.sync_state.scan_ranges@, scan_range.block_range.end);
    lemma_refetch_ranges(after.sync_state.scan_ranges@, scan_range.block_range.end, blocks);
    let after_tx = after.wallet_transactions@[txid];
    assert(tx_views(found.transactions@).dom().contains(txid) == found.transactions@.dom().contains(txid));
    assert(tx_views(before.wallet_transactions@).dom().contains(txid) == before.wallet_transactions@.dom().contains(
        txid,
    ));
    assert(tx_views(after.wallet_transactions@).dom().contains(txid));
    assert(after_tx@ == tx_views(after.wallet_transactions@)[txid]);
    if found.transactions@.dom().contains(txid) {
        let source = found.transactions@[txid];
        assert(after_tx@ == awaiting(source@, awaited));
        assert(after_tx@.sapling_notes.len() == source.sapling_notes@.len());
        assert(after_tx@.orchard_notes.len() == source.orchard_notes@.len());
        assert(after_tx@.ironwood_notes.len() == source.ironwood_notes@.len());
        if 0 <= j < note_count(source, pool) {
            match pool {
                ShieldedPool::Sapling => {
                    assert(after_tx.sapling_notes@[j]@ == after_tx@.sapling_notes[j]);
                    assert(source.sapling_notes@[j]@ == source@.sapling_notes[j]);
                },
                ShieldedPool::Orchard => {
                    assert(after_tx.orchard_notes@[j]@ == after_tx@.orchard_notes[j]);
                    assert(source.orchard_notes@[j]@ == source@.orchard_notes[j]);
                },
                ShieldedPool::Ironwood => {
                    assert(after_tx.ironwood_notes@[j]@ == after_tx@.ironwood_notes[j]);
                    assert(source.ironwood_notes@[j]@ == source@.ironwood_notes[j]);
                },
            }
        }
    }
}

/// What was revealed in a range is mapped, in the pool that it was revealed in, and nothing that was mapped is lost.
pub proof fn law_revealed_data_is_mapped(
    parameters: &ChainParameters,
    before: &Wallet,
    after: &Wallet,
    scan_range: &ScanRange,
    nullifiers: &NullifierMap,
    outpoints: Map<OutputId, ScanTarget>,
    found: &FoundData,
    r: Result<(), TreeError>,
    pool: ShieldedPool,
    nullifier: Nullifier,
    id: OutputId,
)
    requires
        data_added(parameters, before, after, scan_range, nullifiers, outpoints, found, r),
    ensures
        mapped_in(&after.nullifiers, pool).dom().contains(nullifier) == (mapped_in(nullifiers, pool).dom().contains(
            nullifier,
        ) || mapped_in(&before.nullifiers, pool).dom().contains(nullifier)),
        mapped_in(nullifiers, pool).dom().contains(nullifier) ==> mapped_in(&after.nullifiers, pool)[nullifier]
            == mapped_in(nullifiers, pool)[nullifier],
        mapped_in(&before.nullifiers, pool).dom().contains(nullifier) && !mapped_in(nullifiers, pool).dom().contains(
            nullifier,
        ) ==> mapped_in(&after.nullifiers, pool)[nullifier] == mapped_in(&before.nullifiers, pool)[nullifier],
        after.outpoints@.dom().contains(id) == (outpoints.dom().contains(id) || before.outpoints@.dom().contains(id)),
        outpoints.dom().contains(id) ==> after.outpoints@[id] == outpoints[id],
        before.outpoints@.dom().contains(id) && !outpoints.dom().contains(id) ==> after.outpoints@[id]
            == before.outpoints@[id],
{
}

/// At the end of a session no note waits for nullifiers any more.
pub proof fn law_no_note_waits_after_a_session(
    before: &Wallet,
    after: &WalletTransactions,
    now: u32,
    txid: TxId,
    pool: ShieldedPool,
    j: int,
)
    requires
        tx_views(after@) == with_failed(
            tx_views(before.wallet_transactions@),
            not_confirmed(
                tx_views(before.wallet_transactions@),
                expired_ids(before.wallet_transactions.listed(), before.sync_state.known_tip()->0),
            ),
            now,
        ).map_values(|transaction: TransactionView| awaiting(transaction, Seq::empty())),
        after@.dom().contains(txid),
        0 <= j < note_count(after@[txid], pool),
    ensures
        waits_for(after@[txid], pool, j).len() == 0,
{
    let after_tx = after@[txid];
    assert(tx_views(after@).dom().contains(txid));
    assert(after_tx@ == tx_views(after@)[txid]);
    assert(after_tx@.sapling_notes.len() == after_tx.sapling_notes@.len());
    assert(after_tx@.orchard_notes.len() == after_tx.orchard_notes@.len());
    assert(after_tx@.ironwood_notes.len() == after_tx.ironwood_notes@.len());
    match pool {
        ShieldedPool::Sapling => {
            assert(after_tx.sapling_notes@[j]@ == after_tx@.sapling_notes[j]);
        },
        ShieldedPool::Orchard => {
            assert(after_tx.orchard_notes@[j]@ == after_tx@.orchard_notes[j]);
        },
        ShieldedPool::Ironwood => {
            assert(after_tx.ironwood_notes@[j]@ == after_tx@.ironwood_notes[j]);
        },
    }
}

// --- addresses ---

proof fn lemma_external_addresses<N: Received>(notes: Seq<NoteView<N>>, sapling: bool, address: FoundAddress)
    ensures
        external_addresses(notes, sapling).contains(address) == exists|j: int|
            0 <= j < notes.len() && (#[trigger] notes[j]).key_id.scope == Scope::External && address == (FoundAddress {
                account_id: notes[j].key_id.account_id,
                recipient: notes[j].note.receiver(),
                sapling,
            }),
    decreases notes.len(),
{
    if notes.len() > 0 {
        let before = notes.drop_last();
        let rest = external_addresses(before, sapling);
        let last = notes.last();
        let own = FoundAddress {
            account_id: last.key_id.account_id,
            recipient: last.note.receiver(),
            sapling,
        };
        lemma_external_addresses(before, sapling, address);
        lemma_push_contains(rest, own);
        assert(notes[notes.len() - 1] == last);
        if rest.contains(address) {
            let j = choose|j: int|
                0 <= j < before.len() && (#[trigger] before[j]).key_id.scope == Scope::External && address == (
                FoundAddress {
                    account_id: before[j].key_id.account_id,
                    recipient: before[j].note.receiver(),
                    sapling,
                });
            assert(notes[j] == before[j]);
        }
        if exists|j: int|
            0 <= j < notes.len() && (#[trigger] notes[j]).key_id.scope == Scope::External && address == (FoundAddress {
                account_id: notes[j].key_id.account_id,
                recipient: notes[j].note.receiver(),
                sapling,
            }) {
            let j = choose|j: int|
                0 <= j < notes.len() && (#[trigger] notes[j]).key_id.scope == Scope::External && address == (
                FoundAddress {
                    account_id: notes[j].key_id.account_id,
                    recipient: notes[j].note.receiver(),
                    sapling,
                });
            if j < before.len() {
                assert(before[j] == notes[j]);
            }
        }
    } else {
        assert(external_addresses(notes, sapling) =~= Seq::empty());
    }
}

/// Every note that was received on an external address shows the address, of whichever pool it is, and a note on an
/// internal one shows none.
pub proof fn law_external_addresses_are_found(
    transaction: &WalletTransaction,
    addresses: Seq<FoundAddress>,
    j: int,
)
    requires
        addresses == external_addresses(transaction@.orchard_notes, false) + external_addresses(
            transaction@.ironwood_notes,
            false,
        ) + external_addresses(transaction@.sapling_notes, true),
    ensures
        0 <= j < transaction.sapling_notes@.len() && transaction.sapling_notes@[j].key_id.scope is External
            ==> addresses.contains(
            FoundAddress {
                account_id: transaction.sapling_notes@[j].key_id.account_id,
                recipient: transaction.sapling_notes@[j].note.recipient,
                sapling: true,
            },
        ),
        0 <= j < transaction.orchard_notes@.len() && transaction.orchard_notes@[j].key_id.scope is External
            ==> addresses.contains(
            FoundAddress {
                account_id: transaction.orchard_notes@[j].key_id.account_id,
                recipient: transaction.orchard_notes@[j].note.recipient,
                sapling: false,
            },
        ),
        0 <= j < transaction.ironwood_notes@.len() && transaction.ironwood_notes@[j].key_id.scope is External
            ==> addresses.contains(
            FoundAddress {
                account_id: transaction.ironwood_notes@[j].key_id.account_id,
                recipient: transaction.ironwood_notes@[j].note.recipient,
                sapling: false,
            },
        ),
        forall|address: FoundAddress| #[trigger]
            addresses.contains(address) && address.sapling ==> exists|k: int|
                0 <= k < transaction.sapling_notes@.len() && (
                #[trigger] transaction.sapling_notes@[k]).key_id.scope is External
                    && transaction.sapling_notes@[k].key_id.account_id == address.account_id
                    && transaction.sapling_notes@[k].note.recipient == address.recipient,
        forall|address: FoundAddress| #[trigger]
            addresses.contains(address) && !address.sapling ==> (exists|k: int|
                0 <= k < transaction.orchard_notes@.len() && (
                #[trigger] transaction.orchard_notes@[k]).key_id.scope is External
                    && transaction.orchard_notes@[k].key_id.account_id == address.account_id
                    && transaction.orchard_notes@[k].note.recipient == address.recipient) || (exists|k: int|
                0 <= k < transaction.ironwood_notes@.len() && (
                #[trigger] transaction.ironwood_notes@[k]).key_id.scope is External
                    && transaction.ironwood_notes@[k].key_id.account_id == address.account_id
                    && transaction.ironwood_notes@[k].note.recipient == address.recipient),
{
    let view = transaction@;
    let orchard = external_addresses(view.orchard_notes, false);
    let ironwood = external_addresses(view.ironwood_notes, false);
    let sapling = external_addresses(view.sapling_notes, true);
    assert forall|address: FoundAddress| #[trigger] addresses.contains(address) == (orchard.contains(address)
        || ironwood.contains(address) || sapling.contains(address)) by {
        if addresses.contains(address) {
            let i = choose|i: int| 0 <= i < addresses.len() && addresses[i] == address;
            if i < orchard.len() {
                assert(orchard[i] == address);
            } else if i < orchard.len() + ironwood.len() {
                assert(ironwood[i - orchard.len()] == address);
            } else {
                assert(sapling[i - orchard.len() - ironwood.len()] == address);
            }
        }
        if orchard.contains(address) {
            let i = choose|i: int| 0 <= i < orchard.len() && orchard[i] == address;
            assert(addresses[i] == address);
        }
        if ironwood.contains(address) {
            let i = choose|i: int| 0 <= i < ironwood.len() && ironwood[i] == address;
            assert(addresses[orchard.len() + i] == address);
        }
        if sapling.contains(address) {
            let i = choose|i: int| 0 <= i < sapling.len() && sapling[i] == address;
            assert(addresses[orchard.len() + ironwood.len() + i] == address);
        }
    }
    assert forall|k: int| 0 <= k < transaction.sapling_notes@.len() implies (
    #[trigger] transaction.sapling_notes@[k])@ == view.sapling_notes[k] by {}
    assert forall|k: int| 0 <= k < transaction.orchard_notes@.len() implies (
    #[trigger] transaction.orchard_notes@[k])@ == view.orchard_notes[k] by {}
    assert forall|k: int| 0 <= k < transaction.ironwood_notes@.len() implies (
    #[trigger] transaction.ironwood_notes@[k])@ == view.ironwood_notes[k] by {}
    if 0 <= j < transaction.sapling_notes@.len() && transaction.sapling_notes@[j].key_id.scope is External {
        let note = view.sapling_notes[j];
        lemma_external_addresses::<SaplingNoteData>(
            view.sapling_notes,
            true,
            FoundAddress { account_id: note.key_id.account_id, recipient: note.note.recipient, sapling: true },
        );
    }
    if 0 <= j < transaction.orchard_notes@.len() && transaction.orchard_notes@[j].key_id.scope is External {
        let note = view.orchard_notes[j];
        lemma_external_addresses::<OrchardNoteData>(
            view.orchard_notes,
            false,
            FoundAddress { account_id: note.key_id.account_id, recipient: note.note.recipient, sapling: false },
        );
    }
    if 0 <= j < transaction.ironwood_notes@.len() && transaction.ironwood_notes@[j].key_id.scope is External {
        let note = view.ironwood_notes[j];
        lemma_external_addresses::<IronwoodNoteData>(
            view.ironwood_notes,
            false,
            FoundAddress { account_id: note.key_id.account_id, recipient: note.note.recipient, sapling: false },
        );
    }
    assert forall|address: FoundAddress| #[trigger] addresses.contains(address) && address.sapling implies exists|k: int|
        0 <= k < transaction.sapling_notes@.len() && (#[trigger] transaction.sapling_notes@[k]).key_id.scope is External
            && transaction.sapling_notes@[k].key_id.account_id == address.account_id
            && transaction.sapling_notes@[k].note.recipient == address.recipient by {
        lemma_external_addresses::<SaplingNoteData>(view.sapling_notes, true, address);
        lemma_external_addresses::<OrchardNoteData>(view.orchard_notes, false, address);
        lemma_external_addresses::<IronwoodNoteData>(view.ironwood_notes, false, address);
        let k = choose|k: int|
            0 <= k < view.sapling_notes.len() && (#[trigger] view.sapling_notes[k]).key_id.scope == Scope::External
                && address == (FoundAddress {
                account_id: view.sapling_notes[k].key_id.account_id,
                recipient: view.sapling_notes[k].note.receiver(),
                sapling: true,
            });
        assert(transaction.sapling_notes@[k]@ == view.sapling_notes[k]);
    }
    assert forall|address: FoundAddress| #[trigger] addresses.contains(address) && !address.sapling implies (exists|
        k: int,
    |
        0 <= k < transaction.orchard_notes@.len() && (#[trigger] transaction.orchard_notes@[k]).key_id.scope is External
            && transaction.orchard_notes@[k].key_id.account_id == address.account_id
            && transaction.orchard_notes@[k].note.recipient == address.recipient) || (exists|k: int|
        0 <= k < transaction.ironwood_notes@.len() && (
        #[trigger] transaction.ironwood_notes@[k]).key_id.scope is External
            && transaction.ironwood_notes@[k].key_id.account_id == address.account_id
            && transaction.ironwood_notes@[k].note.recipient == address.recipient) by {
        lemma_external_addresses::<SaplingNoteData>(view.sapling_notes, true, address);
        lemma_external_addresses::<OrchardNoteData>(view.orchard_notes, false, address);
        lemma_external_addresses::<IronwoodNoteData>(view.ironwood_notes, false, address);
        if orchard.contains(address) {
            let k = choose|k: int|
                0 <= k < view.orchard_notes.len() && (#[trigger] view.orchard_notes[k]).key_id.scope
                    == Scope::External && address == (FoundAddress {
                    account_id: view.orchard_notes[k].key_id.account_id,
                    recipient: view.orchard_notes[k].note.receiver(),
                    sapling: false,
                });
            assert(transaction.orchard_notes@[k]@ == view.orchard_notes[k]);
        } else {
            let k = choose|k: int|
                0 <= k < view.ironwood_notes.len() && (#[trigger] view.ironwood_notes[k]).key_id.scope
                    == Scope::External && address == (FoundAddress {
                    account_id: view.ironwood_notes[k].key_id.account_id,
                    recipient: view.ironwood_notes[k].note.receiver(),
                    sapling: false,
                });
            assert(transaction.ironwood_notes@[k]@ == view.ironwood_notes[k]);
        }
    }
}

} // verus!
