//! What holds of the spends of a wallet's notes and coins, said of the notes and coins themselves.
use crate::chain::ChainParameters;
use crate::primitives::{Nullifier, OutputId, ShieldedPool, TxId};
use crate::sorted_map::has_key;
use crate::sync::spend::{
    coins_spent, confirmed_removals, gathered, not_confirmed, nullifiers_of, output_ids_of, removals_for,
    spent_positions, unmarked_positions, wallet_outpoints, with_failed, with_spends_reset, MarkRemoval, ShieldedSpends,
};
use crate::sync::spend_update::{
    has_note, is_target_of, lemma_gathered_has, lemma_gathered_notes, lemma_gathered_of, lemma_note_is_gathered,
    lemma_pool_gathered, note_nullifiers, spending_transactions_to_fetch, spends_finished, spends_marked,
};
use crate::wallet::data::Wallet;
use crate::wallet::status::ConfirmationStatus;
use crate::wallet::stores::{tx_views, txs_in_order, NullifierMap, WalletTransactions};
use crate::wallet::sync_state::{ScanTarget, ScanTargets};
use crate::wallet::transaction::{NoteView, TransactionView, WalletTransaction};
use vstd::prelude::*;

verus! {

// --- notes, pool by pool ---

/// The number of notes of a pool.
pub open spec fn note_count(tx: WalletTransaction, pool: ShieldedPool) -> int {
    match pool {
        ShieldedPool::Sapling => tx.sapling_notes@.len() as int,
        ShieldedPool::Orchard => tx.orchard_notes@.len() as int,
        ShieldedPool::Ironwood => tx.ironwood_notes@.len() as int,
    }
}

/// The nullifier of a note.
pub open spec fn nullifier_at(tx: WalletTransaction, pool: ShieldedPool, j: int) -> Option<Nullifier> {
    match pool {
        ShieldedPool::Sapling => tx.sapling_notes@[j].nullifier,
        ShieldedPool::Orchard => tx.orchard_notes@[j].nullifier,
        ShieldedPool::Ironwood => tx.ironwood_notes@[j].nullifier,
    }
}

/// The transaction that spends a note.
pub open spec fn spender_at(tx: WalletTransaction, pool: ShieldedPool, j: int) -> Option<TxId> {
    match pool {
        ShieldedPool::Sapling => tx.sapling_notes@[j].spending_transaction,
        ShieldedPool::Orchard => tx.orchard_notes@[j].spending_transaction,
        ShieldedPool::Ironwood => tx.ironwood_notes@[j].spending_transaction,
    }
}

/// The nullifiers of a pool that a map holds.
pub open spec fn mapped_in(map: &NullifierMap, pool: ShieldedPool) -> Map<Nullifier, ScanTarget> {
    match pool {
        ShieldedPool::Sapling => map.sapling@,
        ShieldedPool::Orchard => map.orchard@,
        ShieldedPool::Ironwood => map.ironwood@,
    }
}

/// The spends of a pool.
pub open spec fn spent_in(spends: &ShieldedSpends, pool: ShieldedPool) -> Map<Nullifier, ScanTarget> {
    match pool {
        ShieldedPool::Sapling => spends.sapling@,
        ShieldedPool::Orchard => spends.orchard@,
        ShieldedPool::Ironwood => spends.ironwood@,
    }
}

// --- spends that became invalid ---

/// Whether the spends of a transaction's notes and coins by the invalid transactions are undone, and all others stand.
pub open spec fn invalid_spends_undone(
    before: WalletTransaction,
    after: WalletTransaction,
    invalid_txids: Seq<TxId>,
) -> bool {
    &&& after.transparent_coins@.len() == before.transparent_coins@.len()
    &&& after.sapling_notes@.len() == before.sapling_notes@.len()
    &&& after.orchard_notes@.len() == before.orchard_notes@.len()
    &&& after.ironwood_notes@.len() == before.ironwood_notes@.len()
    &&& forall|j: int|
        0 <= j < before.transparent_coins@.len() ==> match before.transparent_coins@[j].spending_transaction {
            Some(txid) => (#[trigger] after.transparent_coins@[j]).spending_transaction == if invalid_txids.contains(
                txid,
            ) {
                None::<TxId>
            } else {
                Some(txid)
            },
            None => after.transparent_coins@[j].spending_transaction.is_none(),
        }
    &&& forall|j: int|
        0 <= j < before.sapling_notes@.len() ==> match before.sapling_notes@[j].spending_transaction {
            Some(txid) => (#[trigger] after.sapling_notes@[j]).spending_transaction == if invalid_txids.contains(txid) {
                None::<TxId>
            } else {
                Some(txid)
            },
            None => after.sapling_notes@[j].spending_transaction.is_none(),
        }
    &&& forall|j: int|
        0 <= j < before.orchard_notes@.len() ==> match before.orchard_notes@[j].spending_transaction {
            Some(txid) => (#[trigger] after.orchard_notes@[j]).spending_transaction == if invalid_txids.contains(txid) {
                None::<TxId>
            } else {
                Some(txid)
            },
            None => after.orchard_notes@[j].spending_transaction.is_none(),
        }
    &&& forall|j: int|
        0 <= j < before.ironwood_notes@.len() ==> match before.ironwood_notes@[j].spending_transaction {
            Some(txid) => (#[trigger] after.ironwood_notes@[j]).spending_transaction == if invalid_txids.contains(
                txid,
            ) {
                None::<TxId>
            } else {
                Some(txid)
            },
            None => after.ironwood_notes@[j].spending_transaction.is_none(),
        }
}

pub(crate) proof fn lemma_views_reset(
    before: WalletTransaction,
    after: WalletTransaction,
    marked: TransactionView,
    invalid_txids: Seq<TxId>,
)
    requires
        after@ == with_spends_reset(marked, invalid_txids),
        marked.transparent_coins == before@.transparent_coins,
        marked.sapling_notes == before@.sapling_notes,
        marked.orchard_notes == before@.orchard_notes,
        marked.ironwood_notes == before@.ironwood_notes,
    ensures
        invalid_spends_undone(before, after, invalid_txids),
{
    assert(after@.transparent_coins.len() == before.transparent_coins@.len());
    assert(after@.sapling_notes.len() == before.sapling_notes@.len());
    assert(after@.orchard_notes.len() == before.orchard_notes@.len());
    assert(after@.ironwood_notes.len() == before.ironwood_notes@.len());
    assert forall|j: int| 0 <= j < before.transparent_coins@.len() implies (#[trigger] after.transparent_coins@[j])@
        == after@.transparent_coins[j] && before.transparent_coins@[j]@ == before@.transparent_coins[j] by {}
    assert forall|j: int| 0 <= j < before.sapling_notes@.len() implies (#[trigger] after.sapling_notes@[j])@
        == after@.sapling_notes[j] && before.sapling_notes@[j]@ == before@.sapling_notes[j] by {}
    assert forall|j: int| 0 <= j < before.orchard_notes@.len() implies (#[trigger] after.orchard_notes@[j])@
        == after@.orchard_notes[j] && before.orchard_notes@[j]@ == before@.orchard_notes[j] by {}
    assert forall|j: int| 0 <= j < before.ironwood_notes@.len() implies (#[trigger] after.ironwood_notes@[j])@
        == after@.ironwood_notes[j] && before.ironwood_notes@[j]@ == before@.ironwood_notes[j] by {}
}

/// Where transactions become invalid, every note and every coin that they had spent can be spent again, whichever pool
/// it is of, and no other spend is undone.
pub proof fn law_invalid_spends_are_undone(
    before: &WalletTransactions,
    after: &WalletTransactions,
    invalid_txids: Seq<TxId>,
    txid: TxId,
)
    requires
        tx_views(after@) == tx_views(before@).map_values(
            |transaction: TransactionView| with_spends_reset(transaction, invalid_txids),
        ),
        before@.dom().contains(txid),
    ensures
        after@.dom().contains(txid),
        invalid_spends_undone(before@[txid], after@[txid], invalid_txids),
        after@[txid].status == before@[txid].status,
{
    assert(tx_views(before@).dom().contains(txid));
    assert(tx_views(after@).dom().contains(txid));
    assert(tx_views(after@)[txid] == with_spends_reset(before@[txid]@, invalid_txids));
    lemma_views_reset(before@[txid], after@[txid], before@[txid]@, invalid_txids);
}

/// The height of a transaction, whatever its status.
pub open spec fn height_at(status: ConfirmationStatus) -> u32 {
    match status {
        ConfirmationStatus::Calculated(height) => height,
        ConfirmationStatus::Transmitted(height) => height,
        ConfirmationStatus::Mempool(height) => height,
        ConfirmationStatus::Confirmed(height) => height,
        ConfirmationStatus::Failed(height) => height,
    }
}

/// Where transactions fail, their status says so, and what they had spent can be spent again. All else stays as it is.
pub proof fn law_failed_transactions_spend_nothing(
    before: &WalletTransactions,
    after: &WalletTransactions,
    failed_txids: Seq<TxId>,
    now: u32,
    txid: TxId,
)
    requires
        tx_views(after@) == with_failed(tx_views(before@), failed_txids, now),
        before@.dom().contains(txid),
    ensures
        after@.dom().contains(txid),
        invalid_spends_undone(before@[txid], after@[txid], failed_txids),
        failed_txids.contains(txid) ==> after@[txid].status == ConfirmationStatus::Failed(
            height_at(before@[txid].status),
        ) && after@[txid].datetime == now,
        !failed_txids.contains(txid) ==> after@[txid].status == before@[txid].status && after@[txid].datetime
            == before@[txid].datetime,
{
    assert(tx_views(before@).dom().contains(txid));
    assert(tx_views(after@).dom().contains(txid));
    let marked = crate::sync::spend::failed_if_listed(before@[txid]@, txid, failed_txids, now);
    assert(tx_views(after@)[txid] == with_spends_reset(marked, failed_txids));
    lemma_views_reset(before@[txid], after@[txid], marked, failed_txids);
}

pub(crate) proof fn lemma_not_confirmed(transactions: Map<TxId, TransactionView>, txids: Seq<TxId>, txid: TxId)
    ensures
        not_confirmed(transactions, txids).contains(txid) == (txids.contains(txid) && !(transactions.dom().contains(txid)
            && transactions[txid].status is Confirmed)),
{
    let open = |t: TxId| !(transactions.dom().contains(t) && transactions[t].status is Confirmed);
    let listed = not_confirmed(transactions, txids);
    if listed.contains(txid) {
        let i = choose|i: int| 0 <= i < listed.len() && listed[i] == txid;
        txids.lemma_filter_pred(open, i);
        txids.lemma_filter_contains_rev(open, txid);
    }
    if txids.contains(txid) && open(txid) {
        let i = choose|i: int| 0 <= i < txids.len() && txids[i] == txid;
        txids.lemma_filter_contains(open, i);
    }
}

/// Where transactions are said to have failed, those that are not in a block have: their status says so, and what they
/// had spent can be spent again. Those in a block have not, and what they spent stays spent.
pub proof fn law_pending_transactions_fail(
    before: &WalletTransactions,
    after: &WalletTransactions,
    failed_txids: Seq<TxId>,
    now: u32,
    failed: TxId,
    txid: TxId,
    pool: ShieldedPool,
    j: int,
)
    requires
        tx_views(after@) == with_failed(tx_views(before@), not_confirmed(tx_views(before@), failed_txids), now),
        failed_txids.contains(failed),
        before@.dom().contains(failed),
        before@.dom().contains(txid),
        0 <= j < note_count(before@[txid], pool),
        spender_at(before@[txid], pool, j) == Some(failed),
    ensures
        !(before@[failed].status is Confirmed) ==> after@[failed].status == ConfirmationStatus::Failed(
            height_at(before@[failed].status),
        ) && spender_at(after@[txid], pool, j).is_none(),
        before@[failed].status is Confirmed ==> after@[failed].status == before@[failed].status && spender_at(
            after@[txid],
            pool,
            j,
        ) == Some(failed),
{
    let listed = not_confirmed(tx_views(before@), failed_txids);
    assert(tx_views(before@).dom().contains(failed));
    lemma_not_confirmed(tx_views(before@), failed_txids, failed);
    law_failed_transactions_spend_nothing(before, after, listed, now, failed);
    law_failed_transactions_spend_nothing(before, after, listed, now, txid);
    match pool {
        ShieldedPool::Sapling => {
            assert(after@[txid].sapling_notes@[j].spending_transaction == spender_at(after@[txid], pool, j));
        },
        ShieldedPool::Orchard => {
            assert(after@[txid].orchard_notes@[j].spending_transaction == spender_at(after@[txid], pool, j));
        },
        ShieldedPool::Ironwood => {
            assert(after@[txid].ironwood_notes@[j].spending_transaction == spender_at(after@[txid], pool, j));
        },
    }
}

// --- spends that are detected ---

proof fn lemma_nullifiers_of<N>(notes: Seq<NoteView<N>>, nullifier: Nullifier)
    ensures
        nullifiers_of(notes).contains(nullifier) == exists|j: int|
            0 <= j < notes.len() && (#[trigger] notes[j]).nullifier == Some(nullifier),
    decreases notes.len(),
{
    if notes.len() > 0 {
        let before = notes.drop_last();
        lemma_nullifiers_of(before, nullifier);
        let all = nullifiers_of(notes);
        let rest = nullifiers_of(before);
        if all.contains(nullifier) {
            let k = choose|k: int| 0 <= k < all.len() && all[k] == nullifier;
            if k < rest.len() {
                assert(rest[k] == nullifier);
                let j = choose|j: int| 0 <= j < before.len() && (#[trigger] before[j]).nullifier == Some(nullifier);
                assert(notes[j] == before[j]);
            } else {
                assert(notes[notes.len() - 1].nullifier == Some(nullifier));
            }
        }
        if exists|j: int| 0 <= j < notes.len() && (#[trigger] notes[j]).nullifier == Some(nullifier) {
            let j = choose|j: int| 0 <= j < notes.len() && (#[trigger] notes[j]).nullifier == Some(nullifier);
            if j < before.len() {
                assert(before[j] == notes[j]);
                let k = choose|k: int| 0 <= k < rest.len() && rest[k] == nullifier;
                assert(all[k] == nullifier);
            } else {
                assert(all[rest.len() as int] == nullifier);
            }
        }
    }
}

/// Whether a note of the wallet has the nullifier.
pub open spec fn is_own(transactions: &WalletTransactions, pool: ShieldedPool, nullifier: Nullifier) -> bool {
    exists|txid: TxId, j: int|
        transactions@.dom().contains(txid) && 0 <= j < note_count(transactions@[txid], pool) && #[trigger] nullifier_at(
            transactions@[txid],
            pool,
            j,
        ) == Some(nullifier)
}

proof fn lemma_own(transactions: &WalletTransactions, pool: ShieldedPool, nullifier: Nullifier)
    ensures
        is_own(transactions, pool, nullifier) == has_note(tx_views(transactions@), pool, nullifier),
{
    let views = tx_views(transactions@);
    if is_own(transactions, pool, nullifier) {
        let (txid, j) = choose|txid: TxId, j: int|
            transactions@.dom().contains(txid) && 0 <= j < note_count(transactions@[txid], pool)
                && #[trigger] nullifier_at(transactions@[txid], pool, j) == Some(nullifier);
        let tx = transactions@[txid]@;
        assert(views.dom().contains(txid));
        lemma_nullifiers_of(tx.sapling_notes, nullifier);
        lemma_nullifiers_of(tx.orchard_notes, nullifier);
        lemma_nullifiers_of(tx.ironwood_notes, nullifier);
        match pool {
            ShieldedPool::Sapling => {
                assert(tx.sapling_notes[j].nullifier == Some(nullifier));
            },
            ShieldedPool::Orchard => {
                assert(tx.orchard_notes[j].nullifier == Some(nullifier));
            },
            ShieldedPool::Ironwood => {
                assert(tx.ironwood_notes[j].nullifier == Some(nullifier));
            },
        }
        assert(note_nullifiers(views[txid], pool).contains(nullifier));
    }
    if has_note(views, pool, nullifier) {
        let txid = choose|txid: TxId| #[trigger]
            views.dom().contains(txid) && note_nullifiers(views[txid], pool).contains(nullifier);
        let tx = transactions@[txid]@;
        lemma_nullifiers_of(tx.sapling_notes, nullifier);
        lemma_nullifiers_of(tx.orchard_notes, nullifier);
        lemma_nullifiers_of(tx.ironwood_notes, nullifier);
        match pool {
            ShieldedPool::Sapling => {
                let j = choose|j: int|
                    0 <= j < tx.sapling_notes.len() && (#[trigger] tx.sapling_notes[j]).nullifier == Some(nullifier);
                assert(nullifier_at(transactions@[txid], pool, j) == Some(nullifier));
            },
            ShieldedPool::Orchard => {
                let j = choose|j: int|
                    0 <= j < tx.orchard_notes.len() && (#[trigger] tx.orchard_notes[j]).nullifier == Some(nullifier);
                assert(nullifier_at(transactions@[txid], pool, j) == Some(nullifier));
            },
            ShieldedPool::Ironwood => {
                let j = choose|j: int|
                    0 <= j < tx.ironwood_notes.len() && (#[trigger] tx.ironwood_notes[j]).nullifier == Some(nullifier);
                assert(nullifier_at(transactions@[txid], pool, j) == Some(nullifier));
            },
        }
    }
}

pub(crate) proof fn lemma_gathered_is_own(transactions: &WalletTransactions, pool: ShieldedPool, nullifier: Nullifier)
    requires
        transactions.wf(),
    ensures
        is_own(transactions, pool, nullifier) == gathered(
            txs_in_order(transactions),
            |transaction: TransactionView| note_nullifiers(transaction, pool),
        ).contains(nullifier),
{
    lemma_own(transactions, pool, nullifier);
    let all = gathered(
        txs_in_order(transactions),
        |transaction: TransactionView| note_nullifiers(transaction, pool),
    );
    if all.contains(nullifier) {
        lemma_gathered_notes(transactions, pool, nullifier);
    }
    if has_note(tx_views(transactions@), pool, nullifier) {
        lemma_note_is_gathered(transactions, pool, nullifier);
    }
}

/// A note whose nullifier the wallet's map or the additional one holds is spent by the transaction that the map gives,
/// and the nullifier leaves the map. A note whose nullifier neither holds is spent as before. Nullifiers of others stay
/// in the map.
pub proof fn law_revealed_notes_are_spent(
    parameters: &ChainParameters,
    before: &Wallet,
    after: &Wallet,
    additional: &NullifierMap,
    spends: &ShieldedSpends,
    pool: ShieldedPool,
    txid: TxId,
    j: int,
)
    requires
        before.wf(),
        spends_marked(parameters, before, after, additional, spends),
        before.wallet_transactions@.dom().contains(txid),
        0 <= j < note_count(before.wallet_transactions@[txid], pool),
    ensures
        after.wallet_transactions@.dom().contains(txid),
        note_count(after.wallet_transactions@[txid], pool) == note_count(before.wallet_transactions@[txid], pool),
        nullifier_at(after.wallet_transactions@[txid], pool, j) == nullifier_at(
            before.wallet_transactions@[txid],
            pool,
            j,
        ),
        spender_at(after.wallet_transactions@[txid], pool, j) == match nullifier_at(
            before.wallet_transactions@[txid],
            pool,
            j,
        ) {
            Some(nullifier) => if mapped_in(additional, pool).dom().contains(nullifier) {
                Some(mapped_in(additional, pool)[nullifier].txid)
            } else if mapped_in(&before.nullifiers, pool).dom().contains(nullifier) {
                Some(mapped_in(&before.nullifiers, pool)[nullifier].txid)
            } else {
                spender_at(before.wallet_transactions@[txid], pool, j)
            },
            None => spender_at(before.wallet_transactions@[txid], pool, j),
        },
        nullifier_at(before.wallet_transactions@[txid], pool, j) matches Some(nullifier) ==> !mapped_in(
            &after.nullifiers,
            pool,
        ).dom().contains(nullifier),
        forall|other: Nullifier|
            !is_own(&before.wallet_transactions, pool, other) && #[trigger] mapped_in(
                &before.nullifiers,
                pool,
            ).dom().contains(other) ==> mapped_in(&after.nullifiers, pool).dom().contains(other) && mapped_in(
                &after.nullifiers,
                pool,
            )[other] == mapped_in(&before.nullifiers, pool)[other],
{
    let transactions = &before.wallet_transactions;
    lemma_pool_gathered(transactions);
    let all = gathered(
        txs_in_order(transactions),
        |transaction: TransactionView| note_nullifiers(transaction, pool),
    );
    assert(tx_views(transactions@).dom().contains(txid));
    assert(tx_views(after.wallet_transactions@).dom().contains(txid));
    let before_tx = transactions@[txid];
    let after_tx = after.wallet_transactions@[txid];
    assert(after_tx@ == tx_views(after.wallet_transactions@)[txid]);
    match pool {
        ShieldedPool::Sapling => {
            assert(after_tx@.sapling_notes.len() == before_tx.sapling_notes@.len());
            assert(after_tx.sapling_notes@[j]@ == after_tx@.sapling_notes[j]);
            assert(before_tx.sapling_notes@[j]@ == before_tx@.sapling_notes[j]);
        },
        ShieldedPool::Orchard => {
            assert(after_tx@.orchard_notes.len() == before_tx.orchard_notes@.len());
            assert(after_tx.orchard_notes@[j]@ == after_tx@.orchard_notes[j]);
            assert(before_tx.orchard_notes@[j]@ == before_tx@.orchard_notes[j]);
        },
        ShieldedPool::Ironwood => {
            assert(after_tx@.ironwood_notes.len() == before_tx.ironwood_notes@.len());
            assert(after_tx.ironwood_notes@[j]@ == after_tx@.ironwood_notes[j]);
            assert(before_tx.ironwood_notes@[j]@ == before_tx@.ironwood_notes[j]);
        },
    }
    if let Some(nullifier) = nullifier_at(before_tx, pool, j) {
        assert(is_own(transactions, pool, nullifier));
        lemma_gathered_is_own(transactions, pool, nullifier);
        assert(all.contains(nullifier));
        assert(all.to_set().contains(nullifier));
    }
    assert forall|other: Nullifier|
        !is_own(transactions, pool, other) && #[trigger] mapped_in(&before.nullifiers, pool).dom().contains(
            other,
        ) implies mapped_in(&after.nullifiers, pool).dom().contains(other) && mapped_in(&after.nullifiers, pool)[other]
        == mapped_in(&before.nullifiers, pool)[other] by {
        lemma_gathered_is_own(transactions, pool, other);
        assert(!all.to_set().contains(other));
    }
}

/// The spends that are detected are exactly those of the wallet's notes that the maps hold.
pub proof fn law_exactly_own_spends_are_detected(
    parameters: &ChainParameters,
    before: &Wallet,
    after: &Wallet,
    additional: &NullifierMap,
    spends: &ShieldedSpends,
    pool: ShieldedPool,
    nullifier: Nullifier,
)
    requires
        before.wf(),
        spends_marked(parameters, before, after, additional, spends),
    ensures
        spent_in(spends, pool).dom().contains(nullifier) == (is_own(&before.wallet_transactions, pool, nullifier) && (
        mapped_in(additional, pool).dom().contains(nullifier) || mapped_in(&before.nullifiers, pool).dom().contains(
            nullifier,
        ))),
{
    let transactions = &before.wallet_transactions;
    lemma_pool_gathered(transactions);
    lemma_gathered_is_own(transactions, pool, nullifier);
    let all = gathered(
        txs_in_order(transactions),
        |transaction: TransactionView| note_nullifiers(transaction, pool),
    );
    assert(all.to_set().contains(nullifier) == all.contains(nullifier));
}

/// Once the spending transactions are fetched, they are in the wallet, and every note among the spends is spent by the
/// transaction found for it.
pub proof fn law_fetched_spends_are_kept(
    before: &Wallet,
    after: &Wallet,
    spends: &ShieldedSpends,
    fetched: &WalletTransactions,
    txid: TxId,
    pool: ShieldedPool,
    j: int,
)
    requires
        spends_finished(before, after, spends, fetched),
        fetched@.dom().contains(txid) || before.wallet_transactions@.dom().contains(txid),
    ensures
        after.wallet_transactions@.dom().contains(txid),
        ({
            let source = if fetched@.dom().contains(txid) {
                fetched@[txid]
            } else {
                before.wallet_transactions@[txid]
            };
            &&& after.wallet_transactions@[txid].status == source.status
            &&& 0 <= j < note_count(source, pool) ==> note_count(after.wallet_transactions@[txid], pool) == note_count(
                source,
                pool,
            ) && spender_at(after.wallet_transactions@[txid], pool, j) == match nullifier_at(source, pool, j) {
                Some(nullifier) => if spent_in(spends, pool).dom().contains(nullifier) {
                    Some(spent_in(spends, pool)[nullifier].txid)
                } else {
                    spender_at(source, pool, j)
                },
                None => spender_at(source, pool, j),
            }
        }),
{
    let source = if fetched@.dom().contains(txid) {
        fetched@[txid]
    } else {
        before.wallet_transactions@[txid]
    };
    let union = tx_views(before.wallet_transactions@).union_prefer_right(tx_views(fetched@));
    assert(tx_views(fetched@).dom().contains(txid) || tx_views(before.wallet_transactions@).dom().contains(txid));
    assert(union.dom().contains(txid));
    assert(union[txid] == source@);
    assert(tx_views(after.wallet_transactions@).dom().contains(txid));
    let after_tx = after.wallet_transactions@[txid];
    assert(after_tx@ == tx_views(after.wallet_transactions@)[txid]);
    if 0 <= j < note_count(source, pool) {
        match pool {
            ShieldedPool::Sapling => {
                assert(after_tx@.sapling_notes.len() == source.sapling_notes@.len());
                assert(after_tx.sapling_notes@[j]@ == after_tx@.sapling_notes[j]);
                assert(source.sapling_notes@[j]@ == source@.sapling_notes[j]);
            },
            ShieldedPool::Orchard => {
                assert(after_tx@.orchard_notes.len() == source.orchard_notes@.len());
                assert(after_tx.orchard_notes@[j]@ == after_tx@.orchard_notes[j]);
                assert(source.orchard_notes@[j]@ == source@.orchard_notes[j]);
            },
            ShieldedPool::Ironwood => {
                assert(after_tx@.ironwood_notes.len() == source.ironwood_notes@.len());
                assert(after_tx.ironwood_notes@[j]@ == after_tx@.ironwood_notes[j]);
                assert(source.ironwood_notes@[j]@ == source@.ironwood_notes[j]);
            },
        }
    }
}

/// A spending transaction is fetched unless the wallet holds it as one that is in a block, and nothing else is fetched.
pub proof fn law_unknown_spenders_are_fetched(
    transactions: &WalletTransactions,
    spends: &ShieldedSpends,
    fetch: ScanTargets,
    pool: ShieldedPool,
    nullifier: Nullifier,
    target: ScanTarget,
)
    requires
        call_ensures(spending_transactions_to_fetch, (transactions, spends), fetch),
    ensures
        spent_in(spends, pool).dom().contains(nullifier) ==> fetch@.dom().contains(spent_in(spends, pool)[nullifier])
            == !(transactions@.dom().contains(spent_in(spends, pool)[nullifier].txid)
            && transactions@[spent_in(spends, pool)[nullifier].txid].status is Confirmed),
        fetch@.dom().contains(target) ==> exists|other: ShieldedPool, revealed: Nullifier| #[trigger]
            spent_in(spends, other).dom().contains(revealed) && spent_in(spends, other)[revealed] == target,
{
    assert(spent_in(spends, ShieldedPool::Sapling) == spends.sapling@);
    assert(spent_in(spends, ShieldedPool::Orchard) == spends.orchard@);
    assert(spent_in(spends, ShieldedPool::Ironwood) == spends.ironwood@);
    if spent_in(spends, pool).dom().contains(nullifier) {
        let own = spent_in(spends, pool)[nullifier];
        assert(is_target_of(spent_in(spends, pool), own));
        assert(fetch@.dom().contains(own) == fetch@.dom().contains(own));
        assert(tx_views(transactions@).dom().contains(own.txid) == transactions@.dom().contains(own.txid));
    }
    if fetch@.dom().contains(target) {
        let other = if is_target_of(spends.sapling@, target) {
            ShieldedPool::Sapling
        } else if is_target_of(spends.orchard@, target) {
            ShieldedPool::Orchard
        } else {
            ShieldedPool::Ironwood
        };
        assert(is_target_of(spent_in(spends, other), target));
        let revealed = choose|k: Nullifier| #[trigger]
            spent_in(spends, other).dom().contains(k) && spent_in(spends, other)[k] == target;
        assert(spent_in(spends, other).dom().contains(revealed));
    }
}

// --- coins ---

pub(crate) proof fn lemma_own_coin(transactions: &WalletTransactions, id: OutputId)
    requires
        transactions.wf(),
    ensures
        wallet_outpoints(transactions).contains(id) == exists|txid: TxId, j: int|
            transactions@.dom().contains(txid) && 0 <= j < transactions@[txid].transparent_coins@.len()
                && #[trigger] transactions@[txid].transparent_coins@[j].output_id == id,
{
    let of = |transaction: TransactionView| output_ids_of(transaction.transparent_coins);
    let listed = txs_in_order(transactions);
    let all = gathered(listed, of);
    transactions.lemma_listed();
    if all.contains(id) {
        let i = lemma_gathered_of(listed, of, id);
        let txid = transactions.listed()[i].0;
        assert(transactions@[txid] == transactions.listed()[i].1);
        let ids = output_ids_of(listed[i].transparent_coins);
        let j = choose|j: int| 0 <= j < ids.len() && ids[j] == id;
        assert(transactions@[txid].transparent_coins@[j].output_id == id);
    }
    if exists|txid: TxId, j: int|
        transactions@.dom().contains(txid) && 0 <= j < transactions@[txid].transparent_coins@.len()
            && #[trigger] transactions@[txid].transparent_coins@[j].output_id == id {
        let (txid, j) = choose|txid: TxId, j: int|
            transactions@.dom().contains(txid) && 0 <= j < transactions@[txid].transparent_coins@.len()
                && #[trigger] transactions@[txid].transparent_coins@[j].output_id == id;
        assert(has_key(transactions.listed(), txid));
        let i = choose|i: int| 0 <= i < transactions.listed().len() && (#[trigger] transactions.listed()[i]).0 == txid;
        assert(listed[i] == transactions@[txid]@);
        let ids = output_ids_of(listed[i].transparent_coins);
        assert(ids[j] == id);
        assert(of(listed[i]).contains(id));
        lemma_gathered_has(listed, of, i, id);
    }
}

/// A coin whose output is spent, as the wallet's map or the additional one says, is spent by the transaction that the
/// map gives, and is no longer waited for. All other coins, and all other outputs that are waited for, stay as they are.
pub proof fn law_spent_coins_are_marked(
    before: &WalletTransactions,
    after: &WalletTransactions,
    outpoints0: Map<OutputId, ScanTarget>,
    outpoints: Map<OutputId, ScanTarget>,
    additional: Map<OutputId, ScanTarget>,
    txid: TxId,
    j: int,
)
    requires
        before.wf(),
        coins_spent(before, after, outpoints0, outpoints, additional),
        before@.dom().contains(txid),
        0 <= j < before@[txid].transparent_coins@.len(),
    ensures
        after@.dom().contains(txid),
        after@[txid].transparent_coins@.len() == before@[txid].transparent_coins@.len(),
        ({
            let id = before@[txid].transparent_coins@[j].output_id;
            &&& after@[txid].transparent_coins@[j].output_id == id
            &&& !outpoints.dom().contains(id)
            &&& after@[txid].transparent_coins@[j].spending_transaction == if additional.dom().contains(id) {
                Some(additional[id].txid)
            } else if outpoints0.dom().contains(id) {
                Some(outpoints0[id].txid)
            } else {
                before@[txid].transparent_coins@[j].spending_transaction
            }
        }),
{
    let before_tx = before@[txid];
    let after_tx = after@[txid];
    let id = before_tx.transparent_coins@[j].output_id;
    lemma_own_coin(before, id);
    assert(before@[txid].transparent_coins@[j].output_id == id);
    assert(wallet_outpoints(before).contains(id));
    assert(tx_views(before@).dom().contains(txid));
    assert(tx_views(after@).dom().contains(txid));
    assert(after_tx@ == tx_views(after@)[txid]);
    assert(after_tx@.transparent_coins.len() == before_tx.transparent_coins@.len());
    assert(after_tx.transparent_coins@[j]@ == after_tx@.transparent_coins[j]);
    assert(before_tx.transparent_coins@[j]@ == before_tx@.transparent_coins[j]);
}

/// Outputs that are not coins of the wallet are still waited for.
pub proof fn law_foreign_outpoints_stay(
    before: &WalletTransactions,
    after: &WalletTransactions,
    outpoints0: Map<OutputId, ScanTarget>,
    outpoints: Map<OutputId, ScanTarget>,
    additional: Map<OutputId, ScanTarget>,
    id: OutputId,
)
    requires
        before.wf(),
        coins_spent(before, after, outpoints0, outpoints, additional),
        outpoints0.dom().contains(id),
        forall|txid: TxId, j: int|
            before@.dom().contains(txid) && 0 <= j < before@[txid].transparent_coins@.len()
                ==> #[trigger] before@[txid].transparent_coins@[j].output_id != id,
    ensures
        outpoints.dom().contains(id),
        outpoints[id] == outpoints0[id],
{
    lemma_own_coin(before, id);
}

// --- marks in the trees ---

proof fn lemma_spent_positions<N>(notes: Seq<NoteView<N>>, spends: Map<Nullifier, ScanTarget>, j: int)
    requires
        0 <= j < notes.len(),
        notes[j].nullifier matches Some(nullifier) && spends.dom().contains(nullifier),
        notes[j].position.is_some(),
    ensures
        spent_positions(notes, spends).contains((notes[j].position->0, spends[notes[j].nullifier->0].txid)),
    decreases notes.len(),
{
    let place = (notes[j].position->0, spends[notes[j].nullifier->0].txid);
    let before = notes.drop_last();
    let rest = spent_positions(before, spends);
    let all = spent_positions(notes, spends);
    if j < before.len() {
        assert(before[j] == notes[j]);
        lemma_spent_positions(before, spends, j);
        let k = choose|k: int| 0 <= k < rest.len() && rest[k] == place;
        assert(all[k] == place);
    } else {
        assert(all[rest.len() as int] == place);
    }
}

proof fn lemma_confirmed_removals(
    transactions: Map<TxId, TransactionView>,
    positions: Seq<(u64, TxId)>,
    position: u64,
    txid: TxId,
)
    requires
        positions.contains((position, txid)),
        transactions.dom().contains(txid),
        transactions[txid].status is Confirmed,
    ensures
        confirmed_removals(transactions, positions).contains(
            MarkRemoval { position, spending_height: height_at(transactions[txid].status) },
        ),
    decreases positions.len(),
{
    let removal = MarkRemoval { position, spending_height: height_at(transactions[txid].status) };
    let before = positions.drop_last();
    let rest = confirmed_removals(transactions, before);
    let all = confirmed_removals(transactions, positions);
    let k = choose|k: int| 0 <= k < positions.len() && positions[k] == (position, txid);
    if k < before.len() {
        assert(before[k] == (position, txid));
        lemma_confirmed_removals(transactions, before, position, txid);
        let m = choose|m: int| 0 <= m < rest.len() && rest[m] == removal;
        assert(all[m] == removal);
    } else {
        assert(all[rest.len() as int] == removal);
    }
}

/// Where a note and the transaction that spends it are both in a block, the mark of the note is removed, as of the
/// height of the spend.
pub proof fn law_marks_of_settled_spends_are_removed<N>(
    transactions: &WalletTransactions,
    notes: spec_fn(TransactionView) -> Seq<NoteView<N>>,
    spends: Map<Nullifier, ScanTarget>,
    remove_marks: bool,
    txid: TxId,
    j: int,
)
    requires
        remove_marks,
        transactions.wf(),
        transactions@.dom().contains(txid),
        transactions@[txid].status is Confirmed,
        0 <= j < notes(transactions@[txid]@).len(),
        notes(transactions@[txid]@)[j].position.is_some(),
        notes(transactions@[txid]@)[j].nullifier matches Some(nullifier) && spends.dom().contains(nullifier)
            && transactions@.dom().contains(spends[nullifier].txid) && transactions@[spends[nullifier].txid].status is Confirmed,
    ensures
        ({
            let note = notes(transactions@[txid]@)[j];
            removals_for(transactions, notes, spends, remove_marks).contains(
                MarkRemoval {
                    position: note.position->0,
                    spending_height: height_at(transactions@[spends[note.nullifier->0].txid].status),
                },
            )
        }),
{
    let of = |transaction: TransactionView|
        unmarked_positions(notes(transaction), remove_marks && transaction.status is Confirmed, spends);
    let listed = txs_in_order(transactions);
    let note = notes(transactions@[txid]@)[j];
    let spender = spends[note.nullifier->0].txid;
    transactions.lemma_listed();
    assert(has_key(transactions.listed(), txid));
    let i = choose|i: int| 0 <= i < transactions.listed().len() && (#[trigger] transactions.listed()[i]).0 == txid;
    assert(listed[i] == transactions@[txid]@);
    lemma_spent_positions(notes(listed[i]), spends, j);
    assert(of(listed[i]).contains((note.position->0, spender)));
    lemma_gathered_has(listed, of, i, (note.position->0, spender));
    assert(tx_views(transactions@).dom().contains(spender));
    lemma_confirmed_removals(tx_views(transactions@), gathered(listed, of), note.position->0, spender);
}

} // verus!
