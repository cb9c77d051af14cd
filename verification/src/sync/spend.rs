//! Reading and updating the data of a wallet that has to do with spending.
use crate::primitives::{BlockHeight, Nullifier, OutputId, TxId};
use crate::sorted_map::{OrderedKey, SortedMap};
use crate::wallet::status::ConfirmationStatus;
use crate::wallet::stores::{
    lemma_changed_in_place, tx_views, txs_in_order, NullifierMap, OutPoints, WalletTransactions,
};
use crate::wallet::sync_state::ScanTarget;
use crate::wallet::transaction::{
    coin_views, note_views, CoinView, NoteView, TransactionView, TransparentCoin, WalletNote,
    WalletTransaction,
};
use crate::sync::spend_laws::{
    invalid_spends_undone, law_failed_transactions_spend_nothing, law_invalid_spends_are_undone,
};
use vstd::prelude::*;

verus! {

/// Whether the list holds `txid`.
pub fn list_contains(list: &Vec<TxId>, txid: &TxId) -> (r: bool)
    ensures
        r == list@.contains(*txid),
{
    let mut i: usize = 0;
    while i < list.len()
        invariant
            i <= list@.len(),
            forall|k: int| 0 <= k < i ==> list@[k] != *txid,
        decreases list@.len() - i,
    {
        if list[i].same(txid) {
            assert(list@[i as int] == *txid);
            return true;
        }
        i = i + 1;
    }
    false
}

// --- outputs whose spending transaction became invalid ---

/// A spend that stands, or none where the spending transaction is invalid.
pub open spec fn standing_spend(spend: Option<TxId>, invalid_txids: Seq<TxId>) -> Option<TxId> {
    match spend {
        Some(txid) => if invalid_txids.contains(txid) {
            None
        } else {
            Some(txid)
        },
        None => None,
    }
}

/// The notes without the spends of invalid transactions.
pub open spec fn reset_notes<N>(
    notes: Seq<NoteView<N>>,
    invalid_txids: Seq<TxId>,
) -> Seq<NoteView<N>> {
    Seq::new(
        notes.len(),
        |i: int|
            NoteView {
                spending_transaction: standing_spend(
                    notes[i].spending_transaction,
                    invalid_txids,
                ),
                ..notes[i]
            },
    )
}

/// The coins without the spends of invalid transactions.
pub open spec fn reset_coins(coins: Seq<CoinView>, invalid_txids: Seq<TxId>) -> Seq<CoinView> {
    Seq::new(
        coins.len(),
        |i: int|
            CoinView {
                spending_transaction: standing_spend(
                    coins[i].spending_transaction,
                    invalid_txids,
                ),
                ..coins[i]
            },
    )
}

/// The transaction with every output that invalid transactions had spent unspent again.
pub open spec fn with_spends_reset(
    transaction: TransactionView,
    invalid_txids: Seq<TxId>,
) -> TransactionView {
    TransactionView {
        transparent_coins: reset_coins(transaction.transparent_coins, invalid_txids),
        sapling_notes: reset_notes(transaction.sapling_notes, invalid_txids),
        orchard_notes: reset_notes(transaction.orchard_notes, invalid_txids),
        ironwood_notes: reset_notes(transaction.ironwood_notes, invalid_txids),
        ..transaction
    }
}

fn reset_note_spends<N>(notes: &mut Vec<WalletNote<N>>, invalid_txids: &Vec<TxId>)
    ensures
        note_views(final(notes)@) == reset_notes(note_views(old(notes)@), invalid_txids@),
{
    let ghost before = notes@;
    let mut i: usize = 0;
    while i < notes.len()
        invariant
            i <= notes@.len(),
            notes@.len() == before.len(),
            forall|k: int|
                0 <= k < i ==> (#[trigger] notes@[k])@ == reset_notes(
                    note_views(before),
                    invalid_txids@,
                )[k],
            forall|k: int| i <= k < notes@.len() ==> #[trigger] notes@[k] == before[k],
        decreases notes@.len() - i,
    {
        if let Some(txid) = notes[i].spending_transaction {
            if list_contains(invalid_txids, &txid) {
                notes[i].spending_transaction = None;
            }
        }
        i = i + 1;
    }
    assert(note_views(notes@) =~= reset_notes(note_views(before), invalid_txids@));
}

fn reset_coin_spends(coins: &mut Vec<TransparentCoin>, invalid_txids: &Vec<TxId>)
    ensures
        coin_views(final(coins)@) == reset_coins(coin_views(old(coins)@), invalid_txids@),
{
    let ghost before = coins@;
    let mut i: usize = 0;
    while i < coins.len()
        invariant
            i <= coins@.len(),
            coins@.len() == before.len(),
            forall|k: int|
                0 <= k < i ==> (#[trigger] coins@[k])@ == reset_coins(
                    coin_views(before),
                    invalid_txids@,
                )[k],
            forall|k: int| i <= k < coins@.len() ==> #[trigger] coins@[k] == before[k],
        decreases coins@.len() - i,
    {
        if let Some(txid) = coins[i].spending_transaction {
            if list_contains(invalid_txids, &txid) {
                coins[i].spending_transaction = None;
            }
        }
        i = i + 1;
    }
    assert(coin_views(coins@) =~= reset_coins(coin_views(before), invalid_txids@));
}

fn reset_transaction_spends(transaction: &mut WalletTransaction, invalid_txids: &Vec<TxId>)
    ensures
        final(transaction)@ == with_spends_reset(old(transaction)@, invalid_txids@),
{
    reset_note_spends(&mut transaction.ironwood_notes, invalid_txids);
    reset_note_spends(&mut transaction.orchard_notes, invalid_txids);
    reset_note_spends(&mut transaction.sapling_notes, invalid_txids);
    reset_coin_spends(&mut transaction.transparent_coins, invalid_txids);
}

/// Resets the spending transaction of all outputs that were previously spent but became unspent due to spending
/// transactions becoming invalid.
///
/// `invalid_txids` are the ids of the invalidated spending transactions.
pub fn reset_spends(wallet_transactions: &mut WalletTransactions, invalid_txids: &Vec<TxId>)
    requires
        old(wallet_transactions).wf(),
    ensures
        final(wallet_transactions).wf(),
        final(wallet_transactions)@.dom() == old(wallet_transactions)@.dom(),
        tx_views(final(wallet_transactions)@) == tx_views(old(wallet_transactions)@).map_values(
            |transaction: TransactionView| with_spends_reset(transaction, invalid_txids@),
        ),
        forall|txid: TxId| #[trigger]
            old(wallet_transactions)@.dom().contains(txid) ==> invalid_spends_undone(
                old(wallet_transactions)@[txid],
                final(wallet_transactions)@[txid],
                invalid_txids@,
            ),
{
    let ghost change = |transaction: TransactionView|
        with_spends_reset(transaction, invalid_txids@);
    let mut i: usize = 0;
    while i < wallet_transactions.len()
        invariant
            i <= wallet_transactions.listed().len(),
            wallet_transactions.wf(),
            wallet_transactions.listed().len() == old(wallet_transactions).listed().len(),
            change == (|transaction: TransactionView|
                with_spends_reset(transaction, invalid_txids@)),
            forall|k: int|
                0 <= k < wallet_transactions.listed().len() ==> (
                #[trigger] wallet_transactions.listed()[k]).0
                    == old(wallet_transactions).listed()[k].0,
            forall|k: int|
                0 <= k < i ==> (#[trigger] wallet_transactions.listed()[k]).1@ == change(
                    old(wallet_transactions).listed()[k].1@,
                ),
            forall|k: int|
                i <= k < wallet_transactions.listed().len() ==> (
                #[trigger] wallet_transactions.listed()[k]).1
                    == old(wallet_transactions).listed()[k].1,
        decreases wallet_transactions.listed().len() - i,
    {
        let transaction = wallet_transactions.value_mut(i);
        reset_transaction_spends(transaction, invalid_txids);
        i = i + 1;
    }
    proof {
        lemma_changed_in_place(old(wallet_transactions), wallet_transactions, change);
        assert forall|txid: TxId| #[trigger]
            old(wallet_transactions)@.dom().contains(txid) implies invalid_spends_undone(
            old(wallet_transactions)@[txid],
            wallet_transactions@[txid],
            invalid_txids@,
        ) by {
            law_invalid_spends_are_undone(old(wallet_transactions), wallet_transactions, invalid_txids@, txid);
        }
    }
}

// --- transactions that failed ---

/// The transaction as failed at `now`, if it is one of `failed_txids`.
pub open spec fn failed_if_listed(
    transaction: TransactionView,
    txid: TxId,
    failed_txids: Seq<TxId>,
    now: u32,
) -> TransactionView {
    if failed_txids.contains(txid) {
        TransactionView {
            status: ConfirmationStatus::Failed(transaction.status.height()),
            datetime: now,
            ..transaction
        }
    } else {
        transaction
    }
}

/// The transactions once those of `failed_txids` have failed: their status says so, and the outputs that they had
/// spent are unspent.
pub open spec fn with_failed(
    transactions: Map<TxId, TransactionView>,
    failed_txids: Seq<TxId>,
    now: u32,
) -> Map<TxId, TransactionView> {
    Map::new(
        |k: TxId| transactions.dom().contains(k),
        |k: TxId|
            with_spends_reset(
                failed_if_listed(transactions[k], k, failed_txids, now),
                failed_txids,
            ),
    )
}

/// As [`set_transactions_failed`], without the guard against failing confirmed transactions.
///
/// Only truncation may take this path: it fails transactions in blocks that a re-org took away and reopens the
/// affected scan ranges, so scanning again detects any spends that are still on the best chain. `now` is the time
/// of the update.
pub fn set_transactions_failed_unchecked(
    wallet_transactions: &mut WalletTransactions,
    failed_txids: &Vec<TxId>,
    now: u32,
)
    requires
        old(wallet_transactions).wf(),
    ensures
        final(wallet_transactions).wf(),
        final(wallet_transactions)@.dom() == old(wallet_transactions)@.dom(),
        tx_views(final(wallet_transactions)@) == with_failed(
            tx_views(old(wallet_transactions)@),
            failed_txids@,
            now,
        ),
        forall|txid: TxId| #[trigger]
            old(wallet_transactions)@.dom().contains(txid) ==> invalid_spends_undone(
                old(wallet_transactions)@[txid],
                final(wallet_transactions)@[txid],
                failed_txids@,
            ),
{
    let ghost before = tx_views(wallet_transactions@);
    let mut i: usize = 0;
    while i < failed_txids.len()
        invariant
            i <= failed_txids@.len(),
            wallet_transactions.wf(),
            wallet_transactions@.dom() == old(wallet_transactions)@.dom(),
            before == tx_views(old(wallet_transactions)@),
            forall|k: TxId| #[trigger]
                wallet_transactions@.dom().contains(k) ==> wallet_transactions@[k]@
                    == failed_if_listed(before[k], k, failed_txids@.take(i as int), now),
        decreases failed_txids@.len() - i,
    {
        let failed_txid = failed_txids[i];
        let ghost so_far = wallet_transactions@;
        let ghost listed = failed_txids@.take(i as int);
        let ghost next = failed_txids@.take(i + 1);
        proof {
            assert(next =~= listed.push(failed_txid));
            assert forall|k: TxId| next.contains(k) <==> listed.contains(k) || k == failed_txid by {
                if next.contains(k) {
                    let j = choose|j: int| 0 <= j < next.len() && next[j] == k;
                    if j < listed.len() {
                        assert(listed[j] == k);
                    }
                }
                if listed.contains(k) {
                    let j = choose|j: int| 0 <= j < listed.len() && listed[j] == k;
                    assert(next[j] == k);
                }
                assert(next[listed.len() as int] == failed_txid);
            }
        }
        if let Some(place) = wallet_transactions.find(&failed_txid) {
            let transaction = wallet_transactions.value_mut(place);
            let height: u32 = transaction.status.get_height();
            transaction.update_status(ConfirmationStatus::Failed(height), now, true);
        }
        proof {
            assert(wallet_transactions@.dom() =~= so_far.dom());
            assert forall|k: TxId| #[trigger] wallet_transactions@.dom().contains(k) implies
                wallet_transactions@[k]@ == failed_if_listed(before[k], k, next, now) by {
                assert(so_far.dom().contains(k));
                assert(so_far[k]@ == failed_if_listed(before[k], k, listed, now));
            }
        }
        i = i + 1;
    }
    let ghost marked = tx_views(wallet_transactions@);
    reset_spends(wallet_transactions, failed_txids);
    proof {
        assert(failed_txids@.take(i as int) =~= failed_txids@);
        assert(tx_views(wallet_transactions@) =~= with_failed(before, failed_txids@, now));
        assert forall|txid: TxId| #[trigger]
            old(wallet_transactions)@.dom().contains(txid) implies invalid_spends_undone(
            old(wallet_transactions)@[txid],
            wallet_transactions@[txid],
            failed_txids@,
        ) by {
            law_failed_transactions_spend_nothing(
                old(wallet_transactions),
                wallet_transactions,
                failed_txids@,
                now,
                txid,
            );
        }
    }
}

/// The ids of `txids` whose transaction is not confirmed.
pub open spec fn not_confirmed(
    transactions: Map<TxId, TransactionView>,
    txids: Seq<TxId>,
) -> Seq<TxId> {
    txids.filter(
        |txid: TxId|
            !(transactions.dom().contains(txid) && transactions[txid].status is Confirmed),
    )
}

/// Sets the transactions of `failed_txids` to `Failed` status at the time `now`.
///
/// Outputs that these transactions had spent become unspent.
///
/// Confirmed transactions are skipped. A mined transaction cannot fail: only a re-org can take it out of the
/// chain, and that is handled by truncation, which reopens the affected scan ranges. The spending transaction of a
/// note is the wallet's only lasting record of a spend on chain, so resetting it here would leave a note that
/// seems unspent for good.
pub fn set_transactions_failed(
    wallet_transactions: &mut WalletTransactions,
    failed_txids: &Vec<TxId>,
    now: u32,
)
    requires
        old(wallet_transactions).wf(),
    ensures
        final(wallet_transactions).wf(),
        final(wallet_transactions)@.dom() == old(wallet_transactions)@.dom(),
        tx_views(final(wallet_transactions)@) == with_failed(
            tx_views(old(wallet_transactions)@),
            not_confirmed(tx_views(old(wallet_transactions)@), failed_txids@),
            now,
        ),
{
    let ghost views = tx_views(wallet_transactions@);
    let ghost open = |txid: TxId|
        !(views.dom().contains(txid) && views[txid].status is Confirmed);
    let mut failable: Vec<TxId> = Vec::new();
    let mut i: usize = 0;
    while i < failed_txids.len()
        invariant
            i <= failed_txids@.len(),
            wallet_transactions.wf(),
            *wallet_transactions == *old(wallet_transactions),
            views == tx_views(wallet_transactions@),
            open == (|txid: TxId|
                !(views.dom().contains(txid) && views[txid].status is Confirmed)),
            failable@ == failed_txids@.take(i as int).filter(open),
        decreases failed_txids@.len() - i,
    {
        let txid = failed_txids[i];
        let confirmed: bool = match wallet_transactions.get(&txid) {
            Some(transaction) => transaction.status.is_confirmed(),
            None => false,
        };
        proof {
            let next = failed_txids@.take(i + 1);
            assert(next.drop_last() =~= failed_txids@.take(i as int));
            assert(next.last() == txid);
            reveal(Seq::filter);
        }
        if !confirmed {
            failable.push(txid);
        }
        i = i + 1;
    }
    assert(failed_txids@.take(i as int) =~= failed_txids@);
    set_transactions_failed_unchecked(wallet_transactions, &failable, now);
}

/// A confirmed transaction never fails, and no spend by it is undone.
pub proof fn law_confirmed_transactions_do_not_fail(
    transactions: Map<TxId, TransactionView>,
    failed_txids: Seq<TxId>,
    now: u32,
    txid: TxId,
)
    requires
        transactions.dom().contains(txid),
        transactions[txid].status is Confirmed,
    ensures
        with_failed(transactions, not_confirmed(transactions, failed_txids), now)[txid].status
            == transactions[txid].status,
        standing_spend(Some(txid), not_confirmed(transactions, failed_txids)) == Some(txid),
{
    let open = |t: TxId| !(transactions.dom().contains(t) && transactions[t].status is Confirmed);
    let listed = not_confirmed(transactions, failed_txids);
    if listed.contains(txid) {
        let i = choose|i: int| 0 <= i < listed.len() && listed[i] == txid;
        failed_txids.lemma_filter_pred(open, i);
    }
}

// --- detecting spends ---

/// Takes the entries under `keys` out of `spends` and returns them.
fn take_listed<K: OrderedKey>(spends: &mut SortedMap<K, ScanTarget>, keys: &Vec<K>) -> (r:
    SortedMap<K, ScanTarget>)
    requires
        old(spends).wf(),
    ensures
        r.wf(),
        final(spends).wf(),
        r@ == old(spends)@.restrict(keys@.to_set()),
        final(spends)@ == old(spends)@.remove_keys(keys@.to_set()),
{
    let ghost before = spends@;
    let mut found: SortedMap<K, ScanTarget> = SortedMap::new();
    let mut i: usize = 0;
    assert(found@ =~= before.restrict(keys@.take(0).to_set()));
    assert(spends@ =~= before.remove_keys(keys@.take(0).to_set()));
    while i < keys.len()
        invariant
            i <= keys@.len(),
            spends.wf(),
            found.wf(),
            found@ == before.restrict(keys@.take(i as int).to_set()),
            spends@ == before.remove_keys(keys@.take(i as int).to_set()),
        decreases keys@.len() - i,
    {
        let key = keys[i];
        let ghost listed = keys@.take(i as int);
        let ghost next = keys@.take(i + 1);
        let ghost found0 = found@;
        let ghost spends0 = spends@;
        proof {
            assert(next =~= listed.push(key));
            assert forall|k: K| next.to_set().contains(k) <==> listed.to_set().contains(k) || k
                == key by {
                if next.contains(k) {
                    let j = choose|j: int| 0 <= j < next.len() && next[j] == k;
                    if j < listed.len() {
                        assert(listed[j] == k);
                    }
                }
                if listed.contains(k) {
                    let j = choose|j: int| 0 <= j < listed.len() && listed[j] == k;
                    assert(next[j] == k);
                }
                assert(next[listed.len() as int] == key);
            }
        }
        if let Some(target) = spends.remove(&key) {
            found.insert(key, target);
        }
        proof {
            assert(found@ =~= before.restrict(next.to_set()));
            assert(spends@ =~= before.remove_keys(next.to_set()));
        }
        i = i + 1;
    }
    assert(keys@.take(i as int) =~= keys@);
    found
}

/// The spends of each pool that were found on chain, with the transactions that they are in.
#[derive(Debug, PartialEq, Eq)]
pub struct ShieldedSpends {
    pub sapling: SortedMap<Nullifier, ScanTarget>,
    pub orchard: SortedMap<Nullifier, ScanTarget>,
    pub ironwood: SortedMap<Nullifier, ScanTarget>,
}

impl ShieldedSpends {
    pub open spec fn wf(&self) -> bool {
        self.sapling.wf() && self.orchard.wf() && self.ironwood.wf()
    }

    /// Moves every spend of `other` into this one.
    pub fn append(&mut self, other: &mut ShieldedSpends)
        requires
            old(self).wf(),
            old(other).wf(),
        ensures
            final(self).wf(),
            final(self).sapling@ == old(self).sapling@.union_prefer_right(old(other).sapling@),
            final(self).orchard@ == old(self).orchard@.union_prefer_right(old(other).orchard@),
            final(self).ironwood@ == old(self).ironwood@.union_prefer_right(old(other).ironwood@),
    {
        self.sapling.append(&mut other.sapling);
        self.orchard.append(&mut other.orchard);
        self.ironwood.append(&mut other.ironwood);
    }
}

/// The nullifiers of a wallet's notes.
#[derive(Debug, PartialEq, Eq)]
pub struct DerivedNullifiers {
    pub sapling: Vec<Nullifier>,
    pub orchard: Vec<Nullifier>,
    pub ironwood: Vec<Nullifier>,
}

/// Checks if any of the wallet's derived nullifiers match a nullifier in the `nullifier_map`.
///
/// The matching nullifiers leave the map and are returned.
pub fn detect_shielded_spends(nullifier_map: &mut NullifierMap, derived: &DerivedNullifiers) -> (r:
    ShieldedSpends)
    requires
        old(nullifier_map).wf(),
    ensures
        r.wf(),
        final(nullifier_map).wf(),
        r.sapling@ == old(nullifier_map).sapling@.restrict(derived.sapling@.to_set()),
        r.orchard@ == old(nullifier_map).orchard@.restrict(derived.orchard@.to_set()),
        r.ironwood@ == old(nullifier_map).ironwood@.restrict(derived.ironwood@.to_set()),
        final(nullifier_map).sapling@ == old(nullifier_map).sapling@.remove_keys(
            derived.sapling@.to_set(),
        ),
        final(nullifier_map).orchard@ == old(nullifier_map).orchard@.remove_keys(
            derived.orchard@.to_set(),
        ),
        final(nullifier_map).ironwood@ == old(nullifier_map).ironwood@.remove_keys(
            derived.ironwood@.to_set(),
        ),
{
    let sapling = take_listed(&mut nullifier_map.sapling, &derived.sapling);
    let orchard = take_listed(&mut nullifier_map.orchard, &derived.orchard);
    let ironwood = take_listed(&mut nullifier_map.ironwood, &derived.ironwood);
    ShieldedSpends { sapling, orchard, ironwood }
}

/// Checks if any of the wallet's output ids match an outpoint in the `outpoint_map`.
///
/// The matching outpoints leave the map and are returned.
pub fn detect_transparent_spends(
    outpoint_map: &mut OutPoints,
    transparent_output_ids: &Vec<OutputId>,
) -> (r: OutPoints)
    requires
        old(outpoint_map).wf(),
    ensures
        r.wf(),
        final(outpoint_map).wf(),
        r@ == old(outpoint_map)@.restrict(transparent_output_ids@.to_set()),
        final(outpoint_map)@ == old(outpoint_map)@.remove_keys(transparent_output_ids@.to_set()),
{
    take_listed(outpoint_map, transparent_output_ids)
}

/// Detection loses no spend: what was mapped is afterwards either found or still mapped, and never both.
pub proof fn law_detection_loses_nothing<K>(spends: Map<K, ScanTarget>, keys: Set<K>, key: K)
    ensures
        spends.dom().contains(key) <==> spends.restrict(keys).dom().contains(key)
            || spends.remove_keys(keys).dom().contains(key),
        !(spends.restrict(keys).dom().contains(key) && spends.remove_keys(keys).dom().contains(
            key,
        )),
        spends.restrict(keys).union_prefer_right(spends.remove_keys(keys)) == spends,
{
    assert(spends.restrict(keys).union_prefer_right(spends.remove_keys(keys)) =~= spends);
}

// --- collecting what a wallet can spend ---

/// What `of` gives of each of the transactions, one after the other.
pub open spec fn gathered<A>(
    transactions: Seq<TransactionView>,
    of: spec_fn(TransactionView) -> Seq<A>,
) -> Seq<A>
    decreases transactions.len(),
{
    if transactions.len() == 0 {
        Seq::empty()
    } else {
        gathered(transactions.drop_last(), of) + of(transactions.last())
    }
}

/// The nullifiers of those notes that have one.
pub open spec fn nullifiers_of<N>(notes: Seq<NoteView<N>>) -> Seq<Nullifier>
    decreases notes.len(),
{
    if notes.len() == 0 {
        Seq::empty()
    } else {
        let before = nullifiers_of(notes.drop_last());
        match notes.last().nullifier {
            Some(nullifier) => before.push(nullifier),
            None => before,
        }
    }
}

/// The ids of the outputs that the coins are.
pub open spec fn output_ids_of(coins: Seq<CoinView>) -> Seq<OutputId> {
    Seq::new(coins.len(), |i: int| coins[i].output_id)
}

fn push_nullifiers<N>(list: &mut Vec<Nullifier>, notes: &Vec<WalletNote<N>>)
    ensures
        final(list)@ == old(list)@ + nullifiers_of(note_views(notes@)),
{
    let ghost before = list@;
    let ghost views = note_views(notes@);
    let mut i: usize = 0;
    assert(list@ =~= before + nullifiers_of(views.take(0)));
    while i < notes.len()
        invariant
            i <= notes@.len(),
            views == note_views(notes@),
            list@ == before + nullifiers_of(views.take(i as int)),
        decreases notes@.len() - i,
    {
        assert(views.take(i + 1).drop_last() =~= views.take(i as int));
        assert(views.take(i + 1).last() == notes@[i as int]@);
        let ghost so_far = list@;
        if let Some(nullifier) = notes[i].nullifier {
            list.push(nullifier);
        }
        assert(list@ =~= before + nullifiers_of(views.take(i + 1)));
        i = i + 1;
    }
    assert(views.take(i as int) =~= views);
}

/// Collects the derived nullifiers from each note in the wallet.
pub fn collect_derived_nullifiers(wallet_transactions: &WalletTransactions) -> (r: DerivedNullifiers)
    ensures
        r.sapling@ == gathered(
            txs_in_order(wallet_transactions),
            |transaction: TransactionView| nullifiers_of(transaction.sapling_notes),
        ),
        r.orchard@ == gathered(
            txs_in_order(wallet_transactions),
            |transaction: TransactionView| nullifiers_of(transaction.orchard_notes),
        ),
        r.ironwood@ == gathered(
            txs_in_order(wallet_transactions),
            |transaction: TransactionView| nullifiers_of(transaction.ironwood_notes),
        ),
{
    let ghost all = txs_in_order(wallet_transactions);
    let ghost of_sapling = |transaction: TransactionView| nullifiers_of(transaction.sapling_notes);
    let ghost of_orchard = |transaction: TransactionView| nullifiers_of(transaction.orchard_notes);
    let ghost of_ironwood = |transaction: TransactionView|
        nullifiers_of(transaction.ironwood_notes);
    let mut sapling: Vec<Nullifier> = Vec::new();
    let mut orchard: Vec<Nullifier> = Vec::new();
    let mut ironwood: Vec<Nullifier> = Vec::new();
    let mut i: usize = 0;
    while i < wallet_transactions.len()
        invariant
            i <= wallet_transactions.listed().len(),
            all == txs_in_order(wallet_transactions),
            of_sapling == (|transaction: TransactionView|
                nullifiers_of(transaction.sapling_notes)),
            of_orchard == (|transaction: TransactionView|
                nullifiers_of(transaction.orchard_notes)),
            of_ironwood == (|transaction: TransactionView|
                nullifiers_of(transaction.ironwood_notes)),
            sapling@ == gathered(all.take(i as int), of_sapling),
            orchard@ == gathered(all.take(i as int), of_orchard),
            ironwood@ == gathered(all.take(i as int), of_ironwood),
        decreases wallet_transactions.listed().len() - i,
    {
        assert(all.take(i + 1).drop_last() =~= all.take(i as int));
        let transaction = &wallet_transactions.entry(i).1;
        assert(all.take(i + 1).last() == transaction@);
        push_nullifiers(&mut sapling, &transaction.sapling_notes);
        push_nullifiers(&mut orchard, &transaction.orchard_notes);
        push_nullifiers(&mut ironwood, &transaction.ironwood_notes);
        i = i + 1;
    }
    assert(all.take(i as int) =~= all);
    DerivedNullifiers { sapling, orchard, ironwood }
}

/// Collects the output ids from each coin in the wallet.
pub fn collect_transparent_output_ids(wallet_transactions: &WalletTransactions) -> (r: Vec<OutputId>)
    ensures
        r@ == gathered(
            txs_in_order(wallet_transactions),
            |transaction: TransactionView| output_ids_of(transaction.transparent_coins),
        ),
{
    let ghost all = txs_in_order(wallet_transactions);
    let ghost of = |transaction: TransactionView| output_ids_of(transaction.transparent_coins);
    let mut ids: Vec<OutputId> = Vec::new();
    let mut i: usize = 0;
    while i < wallet_transactions.len()
        invariant
            i <= wallet_transactions.listed().len(),
            all == txs_in_order(wallet_transactions),
            of == (|transaction: TransactionView| output_ids_of(transaction.transparent_coins)),
            ids@ == gathered(all.take(i as int), of),
        decreases wallet_transactions.listed().len() - i,
    {
        assert(all.take(i + 1).drop_last() =~= all.take(i as int));
        let transaction = &wallet_transactions.entry(i).1;
        assert(all.take(i + 1).last() == transaction@);
        let ghost before = ids@;
        let ghost own = output_ids_of(transaction@.transparent_coins);
        let mut c: usize = 0;
        assert(own.take(0) =~= Seq::empty());
        while c < transaction.transparent_coins.len()
            invariant
                c <= transaction.transparent_coins@.len(),
                own == output_ids_of(transaction@.transparent_coins),
                ids@ =~= before + own.take(c as int),
            decreases transaction.transparent_coins@.len() - c,
        {
            ids.push(transaction.transparent_coins[c].output_id);
            c = c + 1;
        }
        assert(own.take(c as int) =~= own);
        assert(ids@ =~= gathered(all.take(i as int), of) + of(transaction@));
        i = i + 1;
    }
    assert(all.take(i as int) =~= all);
    ids
}

// --- marking what was spent ---

/// The notes whose nullifier is among the spends, with the transaction that spends each.
pub open spec fn spent_notes<N>(
    notes: Seq<NoteView<N>>,
    spends: Map<Nullifier, ScanTarget>,
) -> Seq<NoteView<N>> {
    Seq::new(notes.len(), |i: int| spent_note(notes[i], spends))
}

/// Whether the spends include that of the note.
pub open spec fn is_spent<N>(note: NoteView<N>, spends: Map<Nullifier, ScanTarget>) -> bool {
    note.nullifier matches Some(nullifier) && spends.dom().contains(nullifier)
}

/// The note with the transaction that spends it, where the spends include its own.
pub open spec fn spent_note<N>(
    note: NoteView<N>,
    spends: Map<Nullifier, ScanTarget>,
) -> NoteView<N> {
    if is_spent(note, spends) {
        NoteView { spending_transaction: Some(spends[note.nullifier->0].txid), ..note }
    } else {
        note
    }
}

/// The transaction with its spent notes marked.
pub open spec fn with_spent_notes(
    transaction: TransactionView,
    sapling: Map<Nullifier, ScanTarget>,
    orchard: Map<Nullifier, ScanTarget>,
    ironwood: Map<Nullifier, ScanTarget>,
) -> TransactionView {
    TransactionView {
        sapling_notes: spent_notes(transaction.sapling_notes, sapling),
        orchard_notes: spent_notes(transaction.orchard_notes, orchard),
        ironwood_notes: spent_notes(transaction.ironwood_notes, ironwood),
        ..transaction
    }
}

/// The positions of the spent notes among `notes`, each with the transaction that spends it.
pub open spec fn spent_positions<N>(
    notes: Seq<NoteView<N>>,
    spends: Map<Nullifier, ScanTarget>,
) -> Seq<(u64, TxId)>
    decreases notes.len(),
{
    if notes.len() == 0 {
        Seq::empty()
    } else {
        let before = spent_positions(notes.drop_last(), spends);
        let note = notes.last();
        if is_spent(note, spends) && note.position is Some {
            before.push((note.position->0, spends[note.nullifier->0].txid))
        } else {
            before
        }
    }
}

/// As [`spent_positions`], for a confirmed transaction whose marks are to be removed.
pub open spec fn unmarked_positions<N>(
    notes: Seq<NoteView<N>>,
    confirmed: bool,
    spends: Map<Nullifier, ScanTarget>,
) -> Seq<(u64, TxId)> {
    if confirmed {
        spent_positions(notes, spends)
    } else {
        Seq::empty()
    }
}

fn mark_spent_notes<N>(
    notes: &mut Vec<WalletNote<N>>,
    spends: &SortedMap<Nullifier, ScanTarget>,
    collect_positions: bool,
    positions: &mut Vec<(u64, TxId)>,
)
    requires
        spends.wf(),
    ensures
        note_views(final(notes)@) == spent_notes(note_views(old(notes)@), spends@),
        final(positions)@ == old(positions)@ + unmarked_positions(
            note_views(old(notes)@),
            collect_positions,
            spends@,
        ),
{
    let ghost before = notes@;
    let ghost views = note_views(before);
    let ghost positions0 = positions@;
    let mut i: usize = 0;
    assert(positions@ =~= positions0 + unmarked_positions(
        views.take(0),
        collect_positions,
        spends@,
    ));
    while i < notes.len()
        invariant
            i <= notes@.len(),
            notes@.len() == before.len(),
            views == note_views(before),
            spends.wf(),
            forall|k: int|
                0 <= k < i ==> (#[trigger] notes@[k])@ == spent_note(views[k], spends@),
            forall|k: int| i <= k < notes@.len() ==> #[trigger] notes@[k] == before[k],
            positions@ == positions0 + unmarked_positions(
                views.take(i as int),
                collect_positions,
                spends@,
            ),
        decreases notes@.len() - i,
    {
        assert(views.take(i + 1).drop_last() =~= views.take(i as int));
        assert(views.take(i + 1).last() == before[i as int]@);
        assert(notes@[i as int] == before[i as int]);
        if let Some(nullifier) = notes[i].nullifier {
            if let Some(target) = spends.get(&nullifier) {
                let txid = target.txid;
                notes[i].spending_transaction = Some(txid);
                if collect_positions {
                    if let Some(position) = notes[i].position {
                        positions.push((position, txid));
                    }
                }
            }
        }
        assert(positions@ =~= positions0 + unmarked_positions(
            views.take(i + 1),
            collect_positions,
            spends@,
        ));
        i = i + 1;
    }
    assert(views.take(i as int) =~= views);
    assert(note_views(notes@) =~= spent_notes(views, spends@));
}

/// A mark that the commitment tree no longer needs: the position of a spent note, and the height of the block
/// that spends it.
#[derive(Clone, Copy, Debug, PartialEq, Eq, Structural)]
pub struct MarkRemoval {
    pub position: u64,
    pub spending_height: BlockHeight,
}

/// The marks to remove in the tree of each pool.
#[derive(Debug, PartialEq, Eq)]
pub struct MarkRemovals {
    pub sapling: Vec<MarkRemoval>,
    pub orchard: Vec<MarkRemoval>,
    pub ironwood: Vec<MarkRemoval>,
}

/// The removals for those positions whose spending transaction is confirmed.
pub open spec fn confirmed_removals(
    transactions: Map<TxId, TransactionView>,
    positions: Seq<(u64, TxId)>,
) -> Seq<MarkRemoval>
    decreases positions.len(),
{
    if positions.len() == 0 {
        Seq::empty()
    } else {
        let before = confirmed_removals(transactions, positions.drop_last());
        let (position, txid) = positions.last();
        if transactions.dom().contains(txid) && transactions[txid].status is Confirmed {
            before.push(
                MarkRemoval { position, spending_height: transactions[txid].status.height() },
            )
        } else {
            before
        }
    }
}

fn confirm_removals(transactions: &WalletTransactions, positions: &Vec<(u64, TxId)>) -> (r: Vec<
    MarkRemoval,
>)
    requires
        transactions.wf(),
    ensures
        r@ == confirmed_removals(tx_views(transactions@), positions@),
{
    let ghost views = tx_views(transactions@);
    let mut removals: Vec<MarkRemoval> = Vec::new();
    let mut i: usize = 0;
    while i < positions.len()
        invariant
            i <= positions@.len(),
            transactions.wf(),
            views == tx_views(transactions@),
            removals@ == confirmed_removals(views, positions@.take(i as int)),
        decreases positions@.len() - i,
    {
        assert(positions@.take(i + 1).drop_last() =~= positions@.take(i as int));
        let (position, txid) = positions[i];
        if let Some(transaction) = transactions.get(&txid) {
            if let Some(spending_height) = transaction.status.get_confirmed_height() {
                removals.push(MarkRemoval { position, spending_height });
            }
        }
        i = i + 1;
    }
    assert(positions@.take(i as int) =~= positions@);
    removals
}

/// The marks to remove in the tree of one pool, `notes` being the notes of that pool.
pub open spec fn removals_for<N>(
    transactions: &WalletTransactions,
    notes: spec_fn(TransactionView) -> Seq<NoteView<N>>,
    spends: Map<Nullifier, ScanTarget>,
    remove_marks: bool,
) -> Seq<MarkRemoval> {
    confirmed_removals(
        tx_views(transactions@),
        gathered(
            txs_in_order(transactions),
            |transaction: TransactionView|
                unmarked_positions(
                    notes(transaction),
                    remove_marks && transaction.status is Confirmed,
                    spends,
                ),
        ),
    )
}

/// Updates the spending transaction of all notes where the derived nullifier matches the nullifier of a spend.
///
/// With `remove_marks` also returns the marks that the commitment trees no longer need, because the note's
/// transaction and the one that spends it are both confirmed.
pub fn mark_notes_spent(
    wallet_transactions: &mut WalletTransactions,
    spends: &ShieldedSpends,
    remove_marks: bool,
) -> (r: MarkRemovals)
    requires
        old(wallet_transactions).wf(),
        spends.wf(),
    ensures
        final(wallet_transactions).wf(),
        final(wallet_transactions)@.dom() == old(wallet_transactions)@.dom(),
        tx_views(final(wallet_transactions)@) == tx_views(old(wallet_transactions)@).map_values(
            |transaction: TransactionView|
                with_spent_notes(
                    transaction,
                    spends.sapling@,
                    spends.orchard@,
                    spends.ironwood@,
                ),
        ),
        r.sapling@ == removals_for(
            old(wallet_transactions),
            |transaction: TransactionView| transaction.sapling_notes,
            spends.sapling@,
            remove_marks,
        ),
        r.orchard@ == removals_for(
            old(wallet_transactions),
            |transaction: TransactionView| transaction.orchard_notes,
            spends.orchard@,
            remove_marks,
        ),
        r.ironwood@ == removals_for(
            old(wallet_transactions),
            |transaction: TransactionView| transaction.ironwood_notes,
            spends.ironwood@,
            remove_marks,
        ),
{
    let ghost all = txs_in_order(wallet_transactions);
    let ghost change = |transaction: TransactionView|
        with_spent_notes(transaction, spends.sapling@, spends.orchard@, spends.ironwood@);
    let ghost of_sapling = |transaction: TransactionView|
        unmarked_positions(
            transaction.sapling_notes,
            remove_marks && transaction.status is Confirmed,
            spends.sapling@,
        );
    let ghost of_orchard = |transaction: TransactionView|
        unmarked_positions(
            transaction.orchard_notes,
            remove_marks && transaction.status is Confirmed,
            spends.orchard@,
        );
    let ghost of_ironwood = |transaction: TransactionView|
        unmarked_positions(
            transaction.ironwood_notes,
            remove_marks && transaction.status is Confirmed,
            spends.ironwood@,
        );
    let mut sapling: Vec<(u64, TxId)> = Vec::new();
    let mut orchard: Vec<(u64, TxId)> = Vec::new();
    let mut ironwood: Vec<(u64, TxId)> = Vec::new();
    let mut i: usize = 0;
    while i < wallet_transactions.len()
        invariant
            i <= wallet_transactions.listed().len(),
            wallet_transactions.wf(),
            spends.wf(),
            all == txs_in_order(old(wallet_transactions)),
            wallet_transactions.listed().len() == old(wallet_transactions).listed().len(),
            change == (|transaction: TransactionView|
                with_spent_notes(
                    transaction,
                    spends.sapling@,
                    spends.orchard@,
                    spends.ironwood@,
                )),
            of_sapling == (|transaction: TransactionView|
                unmarked_positions(
                    transaction.sapling_notes,
                    remove_marks && transaction.status is Confirmed,
                    spends.sapling@,
                )),
            of_orchard == (|transaction: TransactionView|
                unmarked_positions(
                    transaction.orchard_notes,
                    remove_marks && transaction.status is Confirmed,
                    spends.orchard@,
                )),
            of_ironwood == (|transaction: TransactionView|
                unmarked_positions(
                    transaction.ironwood_notes,
                    remove_marks && transaction.status is Confirmed,
                    spends.ironwood@,
                )),
            forall|k: int|
                0 <= k < wallet_transactions.listed().len() ==> (
                #[trigger] wallet_transactions.listed()[k]).0
                    == old(wallet_transactions).listed()[k].0,
            forall|k: int|
                0 <= k < i ==> (#[trigger] wallet_transactions.listed()[k]).1@ == change(
                    old(wallet_transactions).listed()[k].1@,
                ),
            forall|k: int|
                i <= k < wallet_transactions.listed().len() ==> (
                #[trigger] wallet_transactions.listed()[k]).1
                    == old(wallet_transactions).listed()[k].1,
            sapling@ == gathered(all.take(i as int), of_sapling),
            orchard@ == gathered(all.take(i as int), of_orchard),
            ironwood@ == gathered(all.take(i as int), of_ironwood),
        decreases wallet_transactions.listed().len() - i,
    {
        assert(all.take(i + 1).drop_last() =~= all.take(i as int));
        assert(all.take(i + 1).last() == old(wallet_transactions).listed()[i as int].1@);
        assert(wallet_transactions.listed()[i as int].1
            == old(wallet_transactions).listed()[i as int].1);
        let transaction = wallet_transactions.value_mut(i);
        let collect: bool = remove_marks && transaction.status.is_confirmed();
        mark_spent_notes(
            &mut transaction.sapling_notes,
            &spends.sapling,
            collect,
            &mut sapling,
        );
        mark_spent_notes(
            &mut transaction.orchard_notes,
            &spends.orchard,
            collect,
            &mut orchard,
        );
        mark_spent_notes(
            &mut transaction.ironwood_notes,
            &spends.ironwood,
            collect,
            &mut ironwood,
        );
        i = i + 1;
    }
    proof {
        assert(all.take(i as int) =~= all);
        lemma_changed_in_place(old(wallet_transactions), wallet_transactions, change);
        lemma_removals_by_status(
            tx_views(old(wallet_transactions)@),
            tx_views(wallet_transactions@),
            sapling@,
        );
        lemma_removals_by_status(
            tx_views(old(wallet_transactions)@),
            tx_views(wallet_transactions@),
            orchard@,
        );
        lemma_removals_by_status(
            tx_views(old(wallet_transactions)@),
            tx_views(wallet_transactions@),
            ironwood@,
        );
        let notes_of_sapling = |transaction: TransactionView| transaction.sapling_notes;
        let notes_of_orchard = |transaction: TransactionView| transaction.orchard_notes;
        let notes_of_ironwood = |transaction: TransactionView| transaction.ironwood_notes;
        assert(of_sapling =~= (|transaction: TransactionView|
            unmarked_positions(
                notes_of_sapling(transaction),
                remove_marks && transaction.status is Confirmed,
                spends.sapling@,
            )));
        assert(of_orchard =~= (|transaction: TransactionView|
            unmarked_positions(
                notes_of_orchard(transaction),
                remove_marks && transaction.status is Confirmed,
                spends.orchard@,
            )));
        assert(of_ironwood =~= (|transaction: TransactionView|
            unmarked_positions(
                notes_of_ironwood(transaction),
                remove_marks && transaction.status is Confirmed,
                spends.ironwood@,
            )));
    }
    MarkRemovals {
        sapling: confirm_removals(wallet_transactions, &sapling),
        orchard: confirm_removals(wallet_transactions, &orchard),
        ironwood: confirm_removals(wallet_transactions, &ironwood),
    }
}

proof fn lemma_removals_by_status(
    a: Map<TxId, TransactionView>,
    b: Map<TxId, TransactionView>,
    positions: Seq<(u64, TxId)>,
)
    requires
        a.dom() == b.dom(),
        forall|k: TxId| #[trigger] a.dom().contains(k) ==> a[k].status == b[k].status,
    ensures
        confirmed_removals(a, positions) == confirmed_removals(b, positions),
    decreases positions.len(),
{
    if positions.len() > 0 {
        lemma_removals_by_status(a, b, positions.drop_last());
        assert(a.dom().contains(positions.last().1) == b.dom().contains(positions.last().1));
    }
}

/// The coins whose output is among the spends, with the transaction that spends each.
pub open spec fn spent_coins(
    coins: Seq<CoinView>,
    spends: Map<OutputId, ScanTarget>,
) -> Seq<CoinView> {
    Seq::new(
        coins.len(),
        |i: int|
            if spends.dom().contains(coins[i].output_id) {
                CoinView {
                    spending_transaction: Some(spends[coins[i].output_id].txid),
                    ..coins[i]
                }
            } else {
                coins[i]
            },
    )
}

/// Updates the spending transaction for all coins where the output id matches that of a spend.
pub fn update_spent_coins(
    wallet_transactions: &mut WalletTransactions,
    transparent_spend_scan_targets: &OutPoints,
)
    requires
        old(wallet_transactions).wf(),
        transparent_spend_scan_targets.wf(),
    ensures
        final(wallet_transactions).wf(),
        final(wallet_transactions)@.dom() == old(wallet_transactions)@.dom(),
        tx_views(final(wallet_transactions)@) == tx_views(old(wallet_transactions)@).map_values(
            |transaction: TransactionView|
                TransactionView {
                    transparent_coins: spent_coins(
                        transaction.transparent_coins,
                        transparent_spend_scan_targets@,
                    ),
                    ..transaction
                },
        ),
{
    let ghost spends = transparent_spend_scan_targets@;
    let ghost change = |transaction: TransactionView|
        TransactionView {
            transparent_coins: spent_coins(transaction.transparent_coins, spends),
            ..transaction
        };
    let mut i: usize = 0;
    while i < wallet_transactions.len()
        invariant
            i <= wallet_transactions.listed().len(),
            wallet_transactions.wf(),
            transparent_spend_scan_targets.wf(),
            spends == transparent_spend_scan_targets@,
            wallet_transactions.listed().len() == old(wallet_transactions).listed().len(),
            change == (|transaction: TransactionView|
                TransactionView {
                    transparent_coins: spent_coins(transaction.transparent_coins, spends),
                    ..transaction
                }),
            forall|k: int|
                0 <= k < wallet_transactions.listed().len() ==> (
                #[trigger] wallet_transactions.listed()[k]).0
                    == old(wallet_transactions).listed()[k].0,
            forall|k: int|
                0 <= k < i ==> (#[trigger] wallet_transactions.listed()[k]).1@ == change(
                    old(wallet_transactions).listed()[k].1@,
                ),
            forall|k: int|
                i <= k < wallet_transactions.listed().len() ==> (
                #[trigger] wallet_transactions.listed()[k]).1
                    == old(wallet_transactions).listed()[k].1,
        decreases wallet_transactions.listed().len() - i,
    {
        let transaction = wallet_transactions.value_mut(i);
        mark_spent_coins(&mut transaction.transparent_coins, transparent_spend_scan_targets);
        i = i + 1;
    }
    proof {
        lemma_changed_in_place(old(wallet_transactions), wallet_transactions, change);
    }
}

fn mark_spent_coins(coins: &mut Vec<TransparentCoin>, spends: &OutPoints)
    requires
        spends.wf(),
    ensures
        coin_views(final(coins)@) == spent_coins(coin_views(old(coins)@), spends@),
{
    let ghost before = coins@;
    let mut i: usize = 0;
    while i < coins.len()
        invariant
            i <= coins@.len(),
            coins@.len() == before.len(),
            spends.wf(),
            forall|k: int|
                0 <= k < i ==> (#[trigger] coins@[k])@ == spent_coins(
                    coin_views(before),
                    spends@,
                )[k],
            forall|k: int| i <= k < coins@.len() ==> #[trigger] coins@[k] == before[k],
        decreases coins@.len() - i,
    {
        let id = coins[i].output_id;
        if let Some(target) = spends.get(&id) {
            let txid = target.txid;
            coins[i].spending_transaction = Some(txid);
        }
        i = i + 1;
    }
    assert(coin_views(coins@) =~= spent_coins(coin_views(before), spends@));
}

/// The outpoints of all coins.
pub open spec fn wallet_outpoints(transactions: &WalletTransactions) -> Set<OutputId> {
    gathered(
        txs_in_order(transactions),
        |transaction: TransactionView| output_ids_of(transaction.transparent_coins),
    ).to_set()
}

/// Whether the coins that the outpoints of the wallet or the additional ones spend are spent, and their outpoints are no
/// longer waited for.
pub open spec fn coins_spent(
    before: &WalletTransactions,
    after: &WalletTransactions,
    outpoints0: Map<OutputId, ScanTarget>,
    outpoints: Map<OutputId, ScanTarget>,
    additional: Map<OutputId, ScanTarget>,
) -> bool {
    let ids = wallet_outpoints(before);
    let spends = outpoints0.restrict(ids).union_prefer_right(additional.restrict(ids));
    &&& outpoints == outpoints0.remove_keys(ids)
    &&& tx_views(after@) == tx_views(before@).map_values(
        |transaction: TransactionView|
            TransactionView {
                transparent_coins: spent_coins(transaction.transparent_coins, spends),
                ..transaction
            },
    )
}

/// Handles spend detection and the spend status of coins.
///
/// Locates any output ids of coins in the wallet's transactions which match an output id in the wallet's outpoint
/// map or in `additional_outpoint_map`. The matches leave the maps, and the coins are updated with the located
/// spending transaction.
pub fn update_transparent_spends(
    wallet_transactions: &mut WalletTransactions,
    outpoints: &mut OutPoints,
    additional_outpoint_map: &mut OutPoints,
)
    requires
        old(wallet_transactions).wf(),
        old(outpoints).wf(),
        old(additional_outpoint_map).wf(),
    ensures
        final(wallet_transactions).wf(),
        final(outpoints).wf(),
        final(additional_outpoint_map).wf(),
        final(wallet_transactions)@.dom() == old(wallet_transactions)@.dom(),
        coins_spent(
            old(wallet_transactions),
            final(wallet_transactions),
            old(outpoints)@,
            final(outpoints)@,
            old(additional_outpoint_map)@,
        ),
        final(additional_outpoint_map)@ == old(additional_outpoint_map)@.remove_keys(
            wallet_outpoints(old(wallet_transactions)),
        ),
{
    let ids = collect_transparent_output_ids(wallet_transactions);
    let mut spends = detect_transparent_spends(outpoints, &ids);
    let mut additional = detect_transparent_spends(additional_outpoint_map, &ids);
    spends.append(&mut additional);
    update_spent_coins(wallet_transactions, &spends);
}

} // verus!
