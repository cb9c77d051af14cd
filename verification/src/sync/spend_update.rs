//! Updating the wallet with the spends that were found on chain.
use crate::chain::ChainParameters;
use crate::primitives::{BlockHeight, Nullifier, ShieldedPool, TxId};
use crate::scan::task::{block_at, find_block, seam_view};
use crate::scan_range::contiguous;
use crate::sorted_map::{has_key, OrderedKey, SortedMap};
use crate::sync::shards::{
    found_note_ranges, has_block_range, lemma_range_around_depends_on_ends, set_found_note_scan_ranges, target_pool,
};
use crate::sync::spend::{
    collect_derived_nullifiers, detect_shielded_spends, gathered, mark_notes_spent, nullifiers_of, removals_for,
    unmarked_positions, with_spent_notes, MarkRemoval, ShieldedSpends,
};
use crate::trees::{can_be_indexed, is_indexable, tree_unmarked, NoteTree, TreeView};
use crate::wallet::data::Wallet;
use crate::wallet::shard_trees::ShardTreesView;
use crate::wallet::stores::{
    filed_by_id, tx_views, txs_in_order, NullifierMap, WalletBlock, WalletBlocks, WalletTransactions,
};
use crate::wallet::sync_state::{ScanTarget, ScanTargets, SyncState};
use crate::wallet::transaction::{NoteView, TransactionView};
use vstd::prelude::*;

verus! {

// --- marks in the trees ---

/// The tree with the marks removed one after the other. A leaf that cannot be looked for on this machine has none.
pub open spec fn unmarked(tree: TreeView, removals: Seq<MarkRemoval>) -> TreeView
    decreases removals.len(),
{
    if removals.len() == 0 {
        tree
    } else if !is_indexable(removals.last().position) {
        unmarked(tree, removals.drop_last())
    } else {
        tree_unmarked(
            unmarked(tree, removals.drop_last()),
            removals.last().position,
            removals.last().spending_height,
        ).0
    }
}

/// Removes the marks of spent notes: no witness of them is needed any more.
pub fn remove_marks(tree: &mut NoteTree, removals: &Vec<MarkRemoval>)
    ensures
        final(tree)@ == unmarked(old(tree)@, removals@),
        final(tree)@.orchard == old(tree)@.orchard,
{
    let ghost before = tree@;
    let count: usize = removals.len();
    let mut i: usize = 0;
    assert(removals@.take(0) =~= Seq::empty());
    while i < count
        invariant
            i <= count == removals@.len(),
            before == old(tree)@,
            tree@ == unmarked(before, removals@.take(i as int)),
            tree@.orchard == before.orchard,
        decreases count - i,
    {
        proof {
            let next = removals@.take(i + 1);
            assert(next.drop_last() =~= removals@.take(i as int));
            assert(next.last() == removals@[i as int]);
        }
        let removal = removals[i];
        if can_be_indexed(removal.position) {
            let _marked = tree.remove_mark(removal.position, removal.spending_height);
        }
        i = i + 1;
    }
    assert(removals@.take(count as int) =~= removals@);
}

/// The values of spends, for contracts.
pub struct SpendsView {
    pub sapling: Map<Nullifier, ScanTarget>,
    pub orchard: Map<Nullifier, ScanTarget>,
    pub ironwood: Map<Nullifier, ScanTarget>,
}

impl View for ShieldedSpends {
    type V = SpendsView;

    open spec fn view(&self) -> SpendsView {
        SpendsView { sapling: self.sapling@, orchard: self.orchard@, ironwood: self.ironwood@ }
    }
}

/// The transactions with every note that is among the spends marked as spent.
pub open spec fn with_spends(transactions: Map<TxId, TransactionView>, spends: SpendsView) -> Map<
    TxId,
    TransactionView,
> {
    transactions.map_values(
        |transaction: TransactionView|
            with_spent_notes(transaction, spends.sapling, spends.orchard, spends.ironwood),
    )
}

/// The trees with the marks of the notes among the spends removed.
pub open spec fn trees_with_spends(
    trees: ShardTreesView,
    transactions: &WalletTransactions,
    spends: SpendsView,
    remove_marks: bool,
) -> ShardTreesView {
    ShardTreesView {
        sapling: unmarked(
            trees.sapling,
            removals_for(
                transactions,
                |transaction: TransactionView| transaction.sapling_notes,
                spends.sapling,
                remove_marks,
            ),
        ),
        orchard: unmarked(
            trees.orchard,
            removals_for(
                transactions,
                |transaction: TransactionView| transaction.orchard_notes,
                spends.orchard,
                remove_marks,
            ),
        ),
        ironwood: unmarked(
            trees.ironwood,
            removals_for(
                transactions,
                |transaction: TransactionView| transaction.ironwood_notes,
                spends.ironwood,
                remove_marks,
            ),
        ),
    }
}

pub(crate) proof fn lemma_nothing_gathered<A>(transactions: Seq<TransactionView>, of: spec_fn(TransactionView) -> Seq<A>)
    requires
        forall|t: TransactionView| #[trigger] of(t) == Seq::<A>::empty(),
    ensures
        gathered(transactions, of) == Seq::<A>::empty(),
    decreases transactions.len(),
{
    if transactions.len() > 0 {
        lemma_nothing_gathered(transactions.drop_last(), of);
    }
    assert(gathered(transactions, of) =~= Seq::<A>::empty());
}

/// Where no marks are to be removed, the trees stay as they are.
pub proof fn lemma_no_marks_removed(trees: ShardTreesView, transactions: &WalletTransactions, spends: SpendsView)
    ensures
        trees_with_spends(trees, transactions, spends, false) == trees,
{
    let notes_a = |transaction: TransactionView| transaction.sapling_notes;
    let notes_b = |transaction: TransactionView| transaction.orchard_notes;
    let notes_c = |transaction: TransactionView| transaction.ironwood_notes;
    lemma_no_removals(transactions, notes_a, spends.sapling, false);
    lemma_no_removals(transactions, notes_b, spends.orchard, false);
    lemma_no_removals(transactions, notes_c, spends.ironwood, false);
}

proof fn lemma_no_removals<N>(
    transactions: &WalletTransactions,
    notes: spec_fn(TransactionView) -> Seq<NoteView<N>>,
    spends: Map<Nullifier, ScanTarget>,
    remove_marks: bool,
)
    requires
        !remove_marks,
    ensures
        removals_for(transactions, notes, spends, remove_marks) == Seq::<MarkRemoval>::empty(),
{
    let of = |transaction: TransactionView|
        unmarked_positions(notes(transaction), remove_marks && transaction.status is Confirmed, spends);
    lemma_nothing_gathered(txs_in_order(transactions), of);
}

/// Updates the spending transaction of all notes where the derived nullifier matches the nullifier of a spend.
///
/// With `remove_marks` set, also removes retention marks from the trees when a note is spent, as the wallet no longer
/// needs to be able to construct a witness for its commitment.
pub fn update_spent_notes(wallet: &mut Wallet, spends: &ShieldedSpends, with_marks: bool)
    requires
        old(wallet).wf(),
        spends.wf(),
    ensures
        final(wallet).wf(),
        tx_views(final(wallet).wallet_transactions@) == with_spends(
            tx_views(old(wallet).wallet_transactions@),
            spends@,
        ),
        final(wallet).shard_trees@ == trees_with_spends(
            old(wallet).shard_trees@,
            &old(wallet).wallet_transactions,
            spends@,
            with_marks,
        ),
        *final(wallet) == (Wallet {
            wallet_transactions: final(wallet).wallet_transactions,
            shard_trees: final(wallet).shard_trees,
            ..*old(wallet)
        }),
{
    let removals = mark_notes_spent(&mut wallet.wallet_transactions, spends, with_marks);
    proof {
        crate::wallet::data::lemma_still_filed(&old(wallet).wallet_transactions, &wallet.wallet_transactions);
    }
    remove_marks(&mut wallet.shard_trees.sapling, &removals.sapling);
    remove_marks(&mut wallet.shard_trees.orchard, &removals.orchard);
    remove_marks(&mut wallet.shard_trees.ironwood, &removals.ironwood);
}

// --- detecting ---

/// The targets of a map in the order of its keys.
pub open spec fn targets_listed<K: OrderedKey>(spends: &SortedMap<K, ScanTarget>) -> Seq<ScanTarget> {
    Seq::new(spends.listed().len(), |i: int| spends.listed()[i].1)
}

/// The targets of a map in the order of its keys.
pub fn list_spend_targets<K: OrderedKey>(spends: &SortedMap<K, ScanTarget>) -> (r: Vec<ScanTarget>)
    ensures
        r@ == targets_listed(spends),
{
    let mut out: Vec<ScanTarget> = Vec::new();
    let count: usize = spends.len();
    let mut i: usize = 0;
    while i < count
        invariant
            i <= count == spends.listed().len(),
            out@ == targets_listed(spends).take(i as int),
        decreases count - i,
    {
        out.push(spends.entry(i).1);
        assert(out@ =~= targets_listed(spends).take(i + 1));
        i = i + 1;
    }
    assert(targets_listed(spends).take(count as int) =~= targets_listed(spends));
    out
}

/// Whether there are blocks to scan around every target of the map.
pub open spec fn all_placed<K>(
    parameters: &ChainParameters,
    state: &SyncState,
    pool: ShieldedPool,
    targets: Map<K, ScanTarget>,
) -> bool {
    forall|k: K| #[trigger]
        targets.dom().contains(k) ==> has_block_range(
            parameters,
            state,
            targets[k].block_height,
            target_pool(targets[k], pool),
        )
}

/// The nullifiers of a pool.
pub open spec fn pool_map(map: &NullifierMap, pool: ShieldedPool) -> Map<Nullifier, ScanTarget> {
    match pool {
        ShieldedPool::Sapling => map.sapling@,
        ShieldedPool::Orchard => map.orchard@,
        ShieldedPool::Ironwood => map.ironwood@,
    }
}

/// The nullifiers of the notes of a transaction in a pool.
pub open spec fn note_nullifiers(transaction: TransactionView, pool: ShieldedPool) -> Seq<Nullifier> {
    match pool {
        ShieldedPool::Sapling => nullifiers_of(transaction.sapling_notes),
        ShieldedPool::Orchard => nullifiers_of(transaction.orchard_notes),
        ShieldedPool::Ironwood => nullifiers_of(transaction.ironwood_notes),
    }
}

/// Whether a note of the pool has the nullifier.
pub open spec fn has_note(
    transactions: Map<TxId, TransactionView>,
    pool: ShieldedPool,
    nullifier: Nullifier,
) -> bool {
    exists|txid: TxId| #[trigger]
        transactions.dom().contains(txid) && note_nullifiers(transactions[txid], pool).contains(nullifier)
}

/// Whether there are blocks to scan around every spend of a note of the transactions that the map holds.
pub open spec fn spends_placed(
    parameters: &ChainParameters,
    state: &SyncState,
    transactions: Map<TxId, TransactionView>,
    map: &NullifierMap,
) -> bool {
    forall|pool: ShieldedPool, nullifier: Nullifier|
        pool_map(map, pool).dom().contains(nullifier) && #[trigger] has_note(transactions, pool, nullifier)
            ==> has_block_range(
            parameters,
            state,
            #[trigger] pool_map(map, pool)[nullifier].block_height,
            target_pool(pool_map(map, pool)[nullifier], pool),
        )
}

pub(crate) proof fn lemma_gathered_of<A>(
    transactions: Seq<TransactionView>,
    of: spec_fn(TransactionView) -> Seq<A>,
    a: A,
) -> (i: int)
    requires
        gathered(transactions, of).contains(a),
    ensures
        0 <= i < transactions.len(),
        of(transactions[i]).contains(a),
    decreases transactions.len(),
{
    let before = gathered(transactions.drop_last(), of);
    let last = of(transactions.last());
    let k = choose|k: int| 0 <= k < (before + last).len() && (before + last)[k] == a;
    if k < before.len() {
        assert(before[k] == a);
        lemma_gathered_of(transactions.drop_last(), of, a)
    } else {
        assert(last[k - before.len()] == a);
        transactions.len() - 1
    }
}

/// The nullifiers that are gathered are those of notes.
pub(crate) proof fn lemma_gathered_notes(transactions: &WalletTransactions, pool: ShieldedPool, nullifier: Nullifier)
    requires
        transactions.wf(),
        gathered(
            txs_in_order(transactions),
            |transaction: TransactionView| note_nullifiers(transaction, pool),
        ).contains(nullifier),
    ensures
        has_note(tx_views(transactions@), pool, nullifier),
{
    let i = lemma_gathered_of(
        txs_in_order(transactions),
        |transaction: TransactionView| note_nullifiers(transaction, pool),
        nullifier,
    );
    transactions.lemma_listed();
    let txid = transactions.listed()[i].0;
    assert(tx_views(transactions@).dom().contains(txid));
    assert(tx_views(transactions@)[txid] == txs_in_order(transactions)[i]);
}

proof fn lemma_gathered_same<A>(
    transactions: Seq<TransactionView>,
    f: spec_fn(TransactionView) -> Seq<A>,
    g: spec_fn(TransactionView) -> Seq<A>,
)
    requires
        forall|t: TransactionView| #[trigger] f(t) == g(t),
    ensures
        gathered(transactions, f) == gathered(transactions, g),
    decreases transactions.len(),
{
    if transactions.len() > 0 {
        lemma_gathered_same(transactions.drop_last(), f, g);
        assert(f(transactions.last()) == g(transactions.last()));
    }
}

pub(crate) proof fn lemma_gathered_has<A>(transactions: Seq<TransactionView>, of: spec_fn(TransactionView) -> Seq<A>, i: int, a: A)
    requires
        0 <= i < transactions.len(),
        of(transactions[i]).contains(a),
    ensures
        gathered(transactions, of).contains(a),
    decreases transactions.len(),
{
    let before = gathered(transactions.drop_last(), of);
    let last = of(transactions.last());
    if i < transactions.len() - 1 {
        lemma_gathered_has(transactions.drop_last(), of, i, a);
        let k = choose|k: int| 0 <= k < before.len() && before[k] == a;
        assert((before + last)[k] == a);
    } else {
        let k = choose|k: int| 0 <= k < last.len() && last[k] == a;
        assert((before + last)[before.len() + k] == a);
    }
}

/// The nullifiers of notes are gathered.
pub(crate) proof fn lemma_note_is_gathered(transactions: &WalletTransactions, pool: ShieldedPool, nullifier: Nullifier)
    requires
        transactions.wf(),
        has_note(tx_views(transactions@), pool, nullifier),
    ensures
        gathered(
            txs_in_order(transactions),
            |transaction: TransactionView| note_nullifiers(transaction, pool),
        ).contains(nullifier),
{
    let views = tx_views(transactions@);
    let txid = choose|txid: TxId| #[trigger]
        views.dom().contains(txid) && note_nullifiers(views[txid], pool).contains(nullifier);
    transactions.lemma_listed();
    assert(transactions@.dom().contains(txid));
    assert(has_key(transactions.listed(), txid));
    let i = choose|i: int| 0 <= i < transactions.listed().len() && (#[trigger] transactions.listed()[i]).0 == txid;
    assert(txs_in_order(transactions)[i] == views[txid]);
    lemma_gathered_has(
        txs_in_order(transactions),
        |transaction: TransactionView| note_nullifiers(transaction, pool),
        i,
        nullifier,
    );
}

/// The nullifiers of the notes of each pool are gathered alike.
pub(crate) proof fn lemma_pool_gathered(transactions: &WalletTransactions)
    ensures
        gathered(txs_in_order(transactions), |t: TransactionView| nullifiers_of(t.sapling_notes)) == gathered(
            txs_in_order(transactions),
            |t: TransactionView| note_nullifiers(t, ShieldedPool::Sapling),
        ),
        gathered(txs_in_order(transactions), |t: TransactionView| nullifiers_of(t.orchard_notes)) == gathered(
            txs_in_order(transactions),
            |t: TransactionView| note_nullifiers(t, ShieldedPool::Orchard),
        ),
        gathered(txs_in_order(transactions), |t: TransactionView| nullifiers_of(t.ironwood_notes)) == gathered(
            txs_in_order(transactions),
            |t: TransactionView| note_nullifiers(t, ShieldedPool::Ironwood),
        ),
{
    let txs = txs_in_order(transactions);
    lemma_gathered_same(
        txs,
        |t: TransactionView| nullifiers_of(t.sapling_notes),
        |t: TransactionView| note_nullifiers(t, ShieldedPool::Sapling),
    );
    lemma_gathered_same(
        txs,
        |t: TransactionView| nullifiers_of(t.orchard_notes),
        |t: TransactionView| note_nullifiers(t, ShieldedPool::Orchard),
    );
    lemma_gathered_same(
        txs,
        |t: TransactionView| nullifiers_of(t.ironwood_notes),
        |t: TransactionView| note_nullifiers(t, ShieldedPool::Ironwood),
    );
}

/// The spends that two maps hold are around blocks if those of each map are.
proof fn lemma_detected_placed(
    parameters: &ChainParameters,
    state: &SyncState,
    transactions: &WalletTransactions,
    map: &NullifierMap,
    additional: &NullifierMap,
)
    requires
        transactions.wf(),
        spends_placed(parameters, state, tx_views(transactions@), map),
        spends_placed(parameters, state, tx_views(transactions@), additional),
    ensures
        all_placed(parameters, state, ShieldedPool::Sapling, spends_in(transactions, map, additional).sapling),
        all_placed(parameters, state, ShieldedPool::Orchard, spends_in(transactions, map, additional).orchard),
        all_placed(parameters, state, ShieldedPool::Ironwood, spends_in(transactions, map, additional).ironwood),
{
    lemma_pool_gathered(transactions);
    lemma_pool_placed(
        parameters,
        state,
        transactions,
        map,
        additional,
        ShieldedPool::Sapling,
        sapling_nullifiers(transactions),
    );
    lemma_pool_placed(
        parameters,
        state,
        transactions,
        map,
        additional,
        ShieldedPool::Orchard,
        orchard_nullifiers(transactions),
    );
    lemma_pool_placed(
        parameters,
        state,
        transactions,
        map,
        additional,
        ShieldedPool::Ironwood,
        ironwood_nullifiers(transactions),
    );
}

proof fn lemma_pool_placed(
    parameters: &ChainParameters,
    state: &SyncState,
    transactions: &WalletTransactions,
    map: &NullifierMap,
    additional: &NullifierMap,
    pool: ShieldedPool,
    nullifiers: Set<Nullifier>,
)
    requires
        transactions.wf(),
        spends_placed(parameters, state, tx_views(transactions@), map),
        spends_placed(parameters, state, tx_views(transactions@), additional),
        nullifiers == gathered(
            txs_in_order(transactions),
            |transaction: TransactionView| note_nullifiers(transaction, pool),
        ).to_set(),
    ensures
        all_placed(
            parameters,
            state,
            pool,
            pool_map(map, pool).restrict(nullifiers).union_prefer_right(pool_map(additional, pool).restrict(nullifiers)),
        ),
{
    let spends = pool_map(map, pool).restrict(nullifiers).union_prefer_right(
        pool_map(additional, pool).restrict(nullifiers),
    );
    assert forall|k: Nullifier| #[trigger] spends.dom().contains(k) implies has_block_range(
        parameters,
        state,
        spends[k].block_height,
        target_pool(spends[k], pool),
    ) by {
        lemma_gathered_notes(transactions, pool, k);
        assert(has_note(tx_views(transactions@), pool, k));
        if pool_map(additional, pool).dom().contains(k) {
            assert(spends[k] == pool_map(additional, pool)[k]);
        } else {
            assert(spends[k] == pool_map(map, pool)[k]);
        }
    }
}

/// Whether `after` is `before` with the blocks around the spends set to be scanned.
pub open spec fn prioritized_for_spends(
    parameters: &ChainParameters,
    before: &SyncState,
    after: &SyncState,
    spends: &ShieldedSpends,
) -> bool {
    exists|first: SyncState, second: SyncState| #[trigger]
        prioritized_through(parameters, before, &first, &second, after, spends)
}

/// As [`prioritized_for_spends`], with the states after the first and the second pool.
pub open spec fn prioritized_through(
    parameters: &ChainParameters,
    before: &SyncState,
    first: &SyncState,
    second: &SyncState,
    after: &SyncState,
    spends: &ShieldedSpends,
) -> bool {
    &&& prioritized_for(parameters, before, first, ShieldedPool::Sapling, targets_listed(&spends.sapling))
    &&& prioritized_for(parameters, first, second, ShieldedPool::Orchard, targets_listed(&spends.orchard))
    &&& prioritized_for(parameters, second, after, ShieldedPool::Ironwood, targets_listed(&spends.ironwood))
}

/// Whether `after` is `before` with the blocks around the targets of one pool set to be scanned.
pub open spec fn prioritized_for(
    parameters: &ChainParameters,
    before: &SyncState,
    after: &SyncState,
    pool: ShieldedPool,
    targets: Seq<ScanTarget>,
) -> bool {
    &&& after.scan_ranges@ == found_note_ranges(parameters, before, pool, targets, targets.len() as int)
    &&& after.same_but_scan_ranges(before)
}

/// The nullifiers of the notes of one pool.
pub open spec fn sapling_nullifiers(transactions: &WalletTransactions) -> Set<Nullifier> {
    gathered(
        txs_in_order(transactions),
        |transaction: TransactionView| nullifiers_of(transaction.sapling_notes),
    ).to_set()
}

/// The nullifiers of the notes of one pool.
pub open spec fn orchard_nullifiers(transactions: &WalletTransactions) -> Set<Nullifier> {
    gathered(
        txs_in_order(transactions),
        |transaction: TransactionView| nullifiers_of(transaction.orchard_notes),
    ).to_set()
}

/// The nullifiers of the notes of one pool.
pub open spec fn ironwood_nullifiers(transactions: &WalletTransactions) -> Set<Nullifier> {
    gathered(
        txs_in_order(transactions),
        |transaction: TransactionView| nullifiers_of(transaction.ironwood_notes),
    ).to_set()
}

/// The spends of the wallet's notes that the two maps hold.
pub open spec fn spends_in(transactions: &WalletTransactions, map: &NullifierMap, additional: &NullifierMap) -> SpendsView {
    let sapling = sapling_nullifiers(transactions);
    let orchard = orchard_nullifiers(transactions);
    let ironwood = ironwood_nullifiers(transactions);
    SpendsView {
        sapling: map.sapling@.restrict(sapling).union_prefer_right(additional.sapling@.restrict(sapling)),
        orchard: map.orchard@.restrict(orchard).union_prefer_right(additional.orchard@.restrict(orchard)),
        ironwood: map.ironwood@.restrict(ironwood).union_prefer_right(additional.ironwood@.restrict(ironwood)),
    }
}

/// Whether `after` is `before` without the nullifiers of the wallet's notes.
pub open spec fn spends_taken(transactions: &WalletTransactions, before: &NullifierMap, after: &NullifierMap) -> bool {
    &&& after.sapling@ == before.sapling@.remove_keys(sapling_nullifiers(transactions))
    &&& after.orchard@ == before.orchard@.remove_keys(orchard_nullifiers(transactions))
    &&& after.ironwood@ == before.ironwood@.remove_keys(ironwood_nullifiers(transactions))
}

proof fn lemma_listed_targets_placed<K: OrderedKey>(
    parameters: &ChainParameters,
    before: &SyncState,
    state: &SyncState,
    pool: ShieldedPool,
    spends: &SortedMap<K, ScanTarget>,
)
    requires
        spends.wf(),
        all_placed(parameters, before, pool, spends@),
        state.same_but_scan_ranges(before),
        state.birthday() == before.birthday(),
        state.known_tip() == before.known_tip(),
    ensures
        forall|i: int|
            0 <= i < targets_listed(spends).len() ==> has_block_range(
                parameters,
                state,
                (#[trigger] targets_listed(spends)[i]).block_height,
                target_pool(targets_listed(spends)[i], pool),
            ),
{
    spends.lemma_listed();
    assert forall|i: int| 0 <= i < targets_listed(spends).len() implies has_block_range(
        parameters,
        state,
        (#[trigger] targets_listed(spends)[i]).block_height,
        target_pool(targets_listed(spends)[i], pool),
    ) by {
        let k = spends.listed()[i].0;
        assert(spends@.dom().contains(k));
        assert(spends@[k] == spends.listed()[i].1);
        lemma_range_around_depends_on_ends(
            parameters,
            state,
            before,
            spends@[k].block_height,
            target_pool(spends@[k], pool),
        );
    }
}

/// Whether `spends` are the spends of the wallet's notes that its own map or the additional one holds, their notes are
/// marked as spent, and the blocks around them are set to be scanned. The marks in the trees stay.
pub open spec fn spends_marked(
    parameters: &ChainParameters,
    before: &Wallet,
    after: &Wallet,
    additional: &NullifierMap,
    spends: &ShieldedSpends,
) -> bool {
    &&& spends@ == spends_in(&before.wallet_transactions, &before.nullifiers, additional)
    &&& spends_taken(&before.wallet_transactions, &before.nullifiers, &after.nullifiers)
    &&& prioritized_for_spends(parameters, &before.sync_state, &after.sync_state, spends)
    &&& after.sync_state.birthday() == before.sync_state.birthday()
    &&& after.sync_state.known_tip() == before.sync_state.known_tip()
    &&& tx_views(after.wallet_transactions@) == with_spends(tx_views(before.wallet_transactions@), spends@)
    &&& after.shard_trees@ == before.shard_trees@
    &&& *after == (Wallet {
        sync_state: after.sync_state,
        wallet_transactions: after.wallet_transactions,
        nullifiers: after.nullifiers,
        shard_trees: after.shard_trees,
        ..*before
    })
}

/// Detects which of the wallet's notes are spent by a nullifier of the wallet's map or of `additional_nullifier_map`.
///
/// The nullifiers of the spends leave the maps, the blocks around the spends are set to be scanned, and the notes are
/// marked as spent by the transactions that the maps gave. No spend is lost if a spending transaction cannot be
/// fetched afterwards: its note is marked by then.
pub fn detect_and_mark_spends(
    parameters: &ChainParameters,
    wallet: &mut Wallet,
    additional_nullifier_map: &mut NullifierMap,
) -> (r: ShieldedSpends)
    requires
        old(wallet).wf(),
        contiguous(old(wallet).sync_state.scan_ranges@),
        old(additional_nullifier_map).wf(),
        spends_placed(
            parameters,
            &old(wallet).sync_state,
            tx_views(old(wallet).wallet_transactions@),
            &old(wallet).nullifiers,
        ),
        spends_placed(
            parameters,
            &old(wallet).sync_state,
            tx_views(old(wallet).wallet_transactions@),
            old(additional_nullifier_map),
        ),
    ensures
        r.wf(),
        final(wallet).wf(),
        final(additional_nullifier_map).wf(),
        spends_marked(parameters, old(wallet), final(wallet), old(additional_nullifier_map), &r),
        spends_taken(&old(wallet).wallet_transactions, old(additional_nullifier_map), final(additional_nullifier_map)),
        contiguous(final(wallet).sync_state.scan_ranges@),
{
    let ghost before = wallet.sync_state;
    let derived = collect_derived_nullifiers(&wallet.wallet_transactions);
    let mut spends = detect_shielded_spends(&mut wallet.nullifiers, &derived);
    let mut additional = detect_shielded_spends(additional_nullifier_map, &derived);
    spends.append(&mut additional);
    let sapling = list_spend_targets(&spends.sapling);
    let orchard = list_spend_targets(&spends.orchard);
    let ironwood = list_spend_targets(&spends.ironwood);
    proof {
        assert(spends@.sapling == spends_in(
            &old(wallet).wallet_transactions,
            &old(wallet).nullifiers,
            old(additional_nullifier_map),
        ).sapling);
        lemma_detected_placed(
            parameters,
            &before,
            &old(wallet).wallet_transactions,
            &old(wallet).nullifiers,
            old(additional_nullifier_map),
        );
        lemma_listed_targets_placed(parameters, &before, &before, ShieldedPool::Sapling, &spends.sapling);
    }
    set_found_note_scan_ranges(parameters, &mut wallet.sync_state, ShieldedPool::Sapling, &sapling);
    let ghost first = wallet.sync_state;
    proof {
        lemma_listed_targets_placed(parameters, &before, &first, ShieldedPool::Orchard, &spends.orchard);
    }
    set_found_note_scan_ranges(parameters, &mut wallet.sync_state, ShieldedPool::Orchard, &orchard);
    let ghost second = wallet.sync_state;
    proof {
        lemma_listed_targets_placed(parameters, &before, &second, ShieldedPool::Ironwood, &spends.ironwood);
    }
    set_found_note_scan_ranges(parameters, &mut wallet.sync_state, ShieldedPool::Ironwood, &ironwood);
    assert(prioritized_through(parameters, &before, &first, &second, &wallet.sync_state, &spends));
    proof {
        lemma_no_marks_removed(wallet.shard_trees@, &wallet.wallet_transactions, spends@);
    }
    update_spent_notes(wallet, &spends, false);
    spends
}

// --- the spending transactions ---

/// Whether the wallet holds the transaction, in a block.
pub open spec fn holds_confirmed(transactions: Map<TxId, TransactionView>, txid: TxId) -> bool {
    transactions.dom().contains(txid) && transactions[txid].status is Confirmed
}

/// Whether the target is one of the map.
pub open spec fn is_target_of<K>(spends: Map<K, ScanTarget>, target: ScanTarget) -> bool {
    exists|k: K| #[trigger] spends.dom().contains(k) && spends[k] == target
}

fn add_targets_to_fetch<K: OrderedKey>(
    transactions: &WalletTransactions,
    spends: &SortedMap<K, ScanTarget>,
    fetch: &mut ScanTargets,
)
    requires
        transactions.wf(),
        spends.wf(),
        old(fetch).wf(),
    ensures
        final(fetch).wf(),
        forall|t: ScanTarget| #[trigger]
            final(fetch)@.dom().contains(t) == (old(fetch)@.dom().contains(t) || (is_target_of(spends@, t)
                && !holds_confirmed(tx_views(transactions@), t.txid))),
{
    let ghost before = fetch@;
    let ghost listed = spends.listed();
    let ghost views = tx_views(transactions@);
    let count: usize = spends.len();
    let mut i: usize = 0;
    while i < count
        invariant
            i <= count == listed.len(),
            listed == spends.listed(),
            views == tx_views(transactions@),
            transactions.wf(),
            fetch.wf(),
            forall|t: ScanTarget| #[trigger]
                fetch@.dom().contains(t) == (before.dom().contains(t) || ((exists|k: int|
                    0 <= k < i && (#[trigger] listed[k]).1 == t) && !holds_confirmed(views, t.txid))),
        decreases count - i,
    {
        let target = spends.entry(i).1;
        let ghost so_far = fetch@;
        let confirmed: bool = match transactions.get(&target.txid) {
            Some(transaction) => transaction.status.is_confirmed(),
            None => false,
        };
        assert(confirmed == holds_confirmed(views, target.txid));
        if !confirmed {
            fetch.insert(target, ());
        }
        proof {
            assert forall|t: ScanTarget| #[trigger] fetch@.dom().contains(t) == (before.dom().contains(t) || ((exists|
                k: int,
            | 0 <= k < i + 1 && (#[trigger] listed[k]).1 == t) && !holds_confirmed(views, t.txid))) by {
                assert(so_far.dom().contains(t) == (before.dom().contains(t) || ((exists|k: int|
                    0 <= k < i && (#[trigger] listed[k]).1 == t) && !holds_confirmed(views, t.txid))));
                assert(listed[i as int].1 == target);
            }
        }
        i = i + 1;
    }
    proof {
        spends.lemma_listed();
        assert forall|t: ScanTarget| is_target_of(spends@, t) == exists|k: int|
            0 <= k < count && (#[trigger] listed[k]).1 == t by {
            if is_target_of(spends@, t) {
                let key = choose|k: K| #[trigger] spends@.dom().contains(k) && spends@[k] == t;
                assert(has_key(listed, key));
                let k = choose|k: int| 0 <= k < listed.len() && (#[trigger] listed[k]).0 == key;
                assert(spends@[listed[k].0] == listed[k].1);
            }
            if exists|k: int| 0 <= k < count && (#[trigger] listed[k]).1 == t {
                let k = choose|k: int| 0 <= k < count && (#[trigger] listed[k]).1 == t;
                assert(spends@.dom().contains(listed[k].0));
            }
        }
    }
}

/// The targets of the spends whose transaction the wallet does not hold yet, because it evaded trial decryption.
pub fn spending_transactions_to_fetch(transactions: &WalletTransactions, spends: &ShieldedSpends) -> (r: ScanTargets)
    requires
        transactions.wf(),
        spends.wf(),
    ensures
        r.wf(),
        forall|t: ScanTarget| #[trigger]
            r@.dom().contains(t) == (!holds_confirmed(tx_views(transactions@), t.txid) && (is_target_of(
                spends.sapling@,
                t,
            ) || is_target_of(spends.orchard@, t) || is_target_of(spends.ironwood@, t))),
{
    let mut fetch: ScanTargets = SortedMap::new();
    add_targets_to_fetch(transactions, &spends.sapling, &mut fetch);
    add_targets_to_fetch(transactions, &spends.orchard, &mut fetch);
    add_targets_to_fetch(transactions, &spends.ironwood, &mut fetch);
    fetch
}

/// The block of a spending transaction, which tells its time: that of the wallet, or else the one that was just scanned.
/// If it is neither held nor scanned, it has to be fetched.
pub fn known_block(wallet_blocks: &WalletBlocks, scanned_blocks: &WalletBlocks, height: BlockHeight) -> (r: Option<
    WalletBlock,
>)
    requires
        wallet_blocks.wf(),
        scanned_blocks.wf(),
    ensures
        seam_view(r) == match block_at(wallet_blocks@, height) {
            Some(block) => Some(block),
            None => block_at(scanned_blocks@, height),
        },
{
    match find_block(wallet_blocks, height) {
        Some(block) => Some(block),
        None => find_block(scanned_blocks, height),
    }
}

/// Whether the spending transactions are in the wallet, the notes are marked as spent and the trees keep no witness of
/// them.
pub open spec fn spends_finished(
    before: &Wallet,
    after: &Wallet,
    spends: &ShieldedSpends,
    spending_transactions: &WalletTransactions,
) -> bool {
    &&& tx_views(after.wallet_transactions@) == with_spends(
        tx_views(before.wallet_transactions@).union_prefer_right(tx_views(spending_transactions@)),
        spends@,
    )
    &&& exists|all: WalletTransactions| #[trigger]
        all.wf() && all@ == before.wallet_transactions@.union_prefer_right(spending_transactions@)
            && after.shard_trees@ == trees_with_spends(before.shard_trees@, &all, spends@, true)
    &&& *after == (Wallet {
        wallet_transactions: after.wallet_transactions,
        shard_trees: after.shard_trees,
        ..*before
    })
}

/// Takes in the spending transactions that were fetched and scanned, and finishes the update of the spent notes: the
/// marks of notes whose spend is in a block are removed.
pub fn finish_shielded_spends(
    wallet: &mut Wallet,
    spends: &ShieldedSpends,
    spending_transactions: &mut WalletTransactions,
)
    requires
        old(wallet).wf(),
        spends.wf(),
        old(spending_transactions).wf(),
        filed_by_id(old(spending_transactions)),
    ensures
        final(wallet).wf(),
        spends_finished(old(wallet), final(wallet), spends, old(spending_transactions)),
{
    extend_wallet_transactions(wallet, spending_transactions);
    let ghost all = wallet.wallet_transactions;
    assert(all.wf());
    update_spent_notes(wallet, spends, true);
}

/// Adds transactions to the wallet, each in place of the one with its id.
pub fn extend_wallet_transactions(wallet: &mut Wallet, transactions: &mut WalletTransactions)
    requires
        old(wallet).wf(),
        old(transactions).wf(),
        filed_by_id(old(transactions)),
    ensures
        final(wallet).wf(),
        final(wallet).wallet_transactions@ == old(wallet).wallet_transactions@.union_prefer_right(
            old(transactions)@,
        ),
        tx_views(final(wallet).wallet_transactions@) == tx_views(
            old(wallet).wallet_transactions@,
        ).union_prefer_right(tx_views(old(transactions)@)),
        *final(wallet) == (Wallet { wallet_transactions: final(wallet).wallet_transactions, ..*old(wallet) }),
{
    wallet.wallet_transactions.append(transactions);
    proof {
        let left = tx_views(wallet.wallet_transactions@);
        let right = tx_views(old(wallet).wallet_transactions@).union_prefer_right(tx_views(old(transactions)@));
        assert(left =~= right);
        assert forall|k: TxId| #[trigger] wallet.wallet_transactions@.dom().contains(k) implies
            wallet.wallet_transactions@[k].txid == k by {
            if old(transactions)@.dom().contains(k) {
            } else {
                assert(old(wallet).wallet_transactions@.dom().contains(k));
            }
        }
    }
}

/// The nullifiers and the spending transactions of the notes of a transaction in a pool.
pub open spec fn note_spends(transaction: TransactionView, pool: ShieldedPool) -> Seq<(
    Option<Nullifier>,
    Option<TxId>,
)> {
    match pool {
        ShieldedPool::Sapling => spends_of(transaction.sapling_notes),
        ShieldedPool::Orchard => spends_of(transaction.orchard_notes),
        ShieldedPool::Ironwood => spends_of(transaction.ironwood_notes),
    }
}

/// The nullifiers and the spending transactions of notes.
pub open spec fn spends_of<N>(notes: Seq<NoteView<N>>) -> Seq<(Option<Nullifier>, Option<TxId>)> {
    Seq::new(notes.len(), |i: int| (notes[i].nullifier, notes[i].spending_transaction))
}

impl SpendsView {
    /// The spends of a pool.
    pub open spec fn of(self, pool: ShieldedPool) -> Map<Nullifier, ScanTarget> {
        match pool {
            ShieldedPool::Sapling => self.sapling,
            ShieldedPool::Orchard => self.orchard,
            ShieldedPool::Ironwood => self.ironwood,
        }
    }
}

/// A detected spend is never lost: the note is marked with the transaction that the maps gave for it, before any
/// transaction is fetched.
pub proof fn law_detected_spend_is_marked(
    before: &Wallet,
    after: &Wallet,
    additional: &NullifierMap,
    spends: SpendsView,
    pool: ShieldedPool,
    txid: TxId,
    i: int,
    nullifier: Nullifier,
)
    requires
        spends == spends_in(&before.wallet_transactions, &before.nullifiers, additional),
        tx_views(after.wallet_transactions@) == with_spends(tx_views(before.wallet_transactions@), spends),
        before.wallet_transactions@.dom().contains(txid),
        0 <= i < note_spends(before.wallet_transactions@[txid]@, pool).len(),
        note_spends(before.wallet_transactions@[txid]@, pool)[i].0 == Some(nullifier),
        spends.of(pool).dom().contains(nullifier),
    ensures
        after.wallet_transactions@.dom().contains(txid),
        note_spends(after.wallet_transactions@[txid]@, pool)[i] == (
            Some(nullifier),
            Some(spends.of(pool)[nullifier].txid),
        ),
{
    assert(tx_views(before.wallet_transactions@).dom().contains(txid));
    assert(tx_views(after.wallet_transactions@).dom().contains(txid));
    let after_view = after.wallet_transactions@[txid]@;
    assert(after_view == tx_views(after.wallet_transactions@)[txid]);
    match pool {
        ShieldedPool::Sapling => {
            assert(after_view.sapling_notes[i].spending_transaction == Some(spends.sapling[nullifier].txid));
        },
        ShieldedPool::Orchard => {
            assert(after_view.orchard_notes[i].spending_transaction == Some(spends.orchard[nullifier].txid));
        },
        ShieldedPool::Ironwood => {
            assert(after_view.ironwood_notes[i].spending_transaction == Some(spends.ironwood[nullifier].txid));
        },
    }
}

} // verus!
