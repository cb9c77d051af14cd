//! Updating the wallet with what was found.
use crate::chain::ChainParameters;
use crate::primitives::{BlockHeight, BlockRange, OutputId, ShieldedPool, TxId};
use crate::scan_range::{contiguous, ScanPriority, ScanRange};
use crate::sorted_map::SortedMap;
use crate::sync::cleanup::{expire_transactions, expired_ids};
use crate::sync::shards::{
    block_range_around, has_block_range, lemma_range_around_depends_on_ends, set_found_note_scan_range,
};
use crate::sync::spend::{
    collect_derived_nullifiers, collect_transparent_output_ids, detect_shielded_spends, detect_transparent_spends,
    gathered, not_confirmed, output_ids_of, spent_coins, update_spent_coins, with_failed,
};
use crate::sync::spend_update::{
    extend_wallet_transactions, ironwood_nullifiers, lemma_no_marks_removed, orchard_nullifiers, sapling_nullifiers,
    update_spent_notes, with_spends, SpendsView,
};
use crate::sync::state::punched;
use crate::sync::update_laws::pending_taken;
use crate::trees::{
    leaf_checkpoints, pruned, tree_with_leaves, CheckpointView, LocatedLeaves, LocatedTreeData, NoteTree, TreeError,
    TreeView,
};
use crate::wallet::shard_trees::ShardTreesView;
use crate::wallet::data::Wallet;
use crate::wallet::status::ConfirmationStatus;
use crate::wallet::stores::{filed_by_id, tx_views, txs_in_order, NullifierMap, OutPoints, WalletTransactions};
use crate::wallet::sync_state::{above, ScanTarget, SyncState};
use crate::wallet::transaction::{
    note_views, IronwoodNoteData, NoteView, OrchardNoteData, SaplingNoteData, Scope, TransactionView, WalletNote,
    WalletTransaction,
};
use crate::witness::{all_of_protocol, located_of};
use vstd::prelude::*;

verus! {

// --- priorities ---

/// Whether the transaction holds a note of `pool`.
pub open spec fn found_note(transaction: TransactionView, pool: ShieldedPool) -> bool {
    match pool {
        ShieldedPool::Sapling => transaction.sapling_notes.len() > 0,
        ShieldedPool::Orchard => transaction.orchard_notes.len() > 0,
        ShieldedPool::Ironwood => transaction.ironwood_notes.len() > 0,
    }
}

/// The ranges with the blocks of the shard around the transaction set to `FoundNote`, if it holds a note of `pool`.
pub open spec fn with_found_note(
    parameters: &ChainParameters,
    state: &SyncState,
    ranges: Seq<ScanRange>,
    transaction: TransactionView,
    pool: ShieldedPool,
) -> Seq<ScanRange> {
    if found_note(transaction, pool) {
        punched(
            ranges,
            block_range_around(parameters, state, transaction.status.height(), Some(pool)),
            ScanPriority::FoundNote,
        )
    } else {
        ranges
    }
}

/// Whether there are blocks to scan around the notes of the transaction.
pub open spec fn notes_placed(parameters: &ChainParameters, state: &SyncState, transaction: TransactionView) -> bool {
    forall|pool: ShieldedPool| #[trigger]
        found_note(transaction, pool) ==> has_block_range(
            parameters,
            state,
            transaction.status.height(),
            Some(pool),
        )
}

/// Prioritises the shard around a transaction that holds a note of the pool, so that the note can be spent.
pub fn update_found_note_shard_priority(
    parameters: &ChainParameters,
    sync_state: &mut SyncState,
    shielded_protocol: ShieldedPool,
    wallet_transaction: &WalletTransaction,
)
    requires
        contiguous(old(sync_state).scan_ranges@),
        notes_placed(parameters, old(sync_state), wallet_transaction@),
    ensures
        final(sync_state).scan_ranges@ == with_found_note(
            parameters,
            old(sync_state),
            old(sync_state).scan_ranges@,
            wallet_transaction@,
            shielded_protocol,
        ),
        final(sync_state).same_but_scan_ranges(old(sync_state)),
        contiguous(final(sync_state).scan_ranges@),
        final(sync_state).birthday() == old(sync_state).birthday(),
        final(sync_state).known_tip() == old(sync_state).known_tip(),
{
    if wallet_transaction.has_note(shielded_protocol) {
        assert(found_note(wallet_transaction@, shielded_protocol));
        set_found_note_scan_range(
            parameters,
            sync_state,
            Some(shielded_protocol),
            wallet_transaction.status.get_height(),
        );
    }
}

/// The ranges with the shards around the first `n` transactions prioritised.
pub open spec fn with_found_notes(
    parameters: &ChainParameters,
    state: &SyncState,
    transactions: Seq<TransactionView>,
    n: int,
) -> Seq<ScanRange>
    decreases n,
{
    if n <= 0 {
        state.scan_ranges@
    } else {
        let before = with_found_notes(parameters, state, transactions, n - 1);
        let tx = transactions[n - 1];
        let sapling = with_found_note(parameters, state, before, tx, ShieldedPool::Sapling);
        let orchard = with_found_note(parameters, state, sapling, tx, ShieldedPool::Orchard);
        with_found_note(parameters, state, orchard, tx, ShieldedPool::Ironwood)
    }
}

proof fn lemma_placed_by_ends(
    parameters: &ChainParameters,
    a: &SyncState,
    b: &SyncState,
    transaction: TransactionView,
    ranges: Seq<ScanRange>,
    pool: ShieldedPool,
)
    requires
        a.same_but_scan_ranges(b),
        a.birthday() == b.birthday(),
        a.known_tip() == b.known_tip(),
        notes_placed(parameters, b, transaction),
    ensures
        notes_placed(parameters, a, transaction),
        with_found_note(parameters, a, ranges, transaction, pool) == with_found_note(
            parameters,
            b,
            ranges,
            transaction,
            pool,
        ),
{
    assert forall|p: ShieldedPool| #[trigger] found_note(transaction, p) implies has_block_range(
        parameters,
        a,
        transaction.status.height(),
        Some(p),
    ) by {
        lemma_range_around_depends_on_ends(parameters, a, b, transaction.status.height(), Some(p));
    }
    lemma_range_around_depends_on_ends(parameters, a, b, transaction.status.height(), Some(pool));
}

fn prioritise_found_notes(
    parameters: &ChainParameters,
    sync_state: &mut SyncState,
    transactions: &WalletTransactions,
)
    requires
        contiguous(old(sync_state).scan_ranges@),
        forall|i: int|
            0 <= i < txs_in_order(transactions).len() ==> notes_placed(
                parameters,
                old(sync_state),
                #[trigger] txs_in_order(transactions)[i],
            ),
    ensures
        final(sync_state).scan_ranges@ == with_found_notes(
            parameters,
            old(sync_state),
            txs_in_order(transactions),
            txs_in_order(transactions).len() as int,
        ),
        final(sync_state).same_but_scan_ranges(old(sync_state)),
        contiguous(final(sync_state).scan_ranges@),
        final(sync_state).birthday() == old(sync_state).birthday(),
        final(sync_state).known_tip() == old(sync_state).known_tip(),
{
    let ghost txs = txs_in_order(transactions);
    let ghost before = *sync_state;
    let count: usize = transactions.len();
    let mut i: usize = 0;
    while i < count
        invariant
            i <= count == transactions.listed().len(),
            txs == txs_in_order(transactions),
            before == *old(sync_state),
            contiguous(sync_state.scan_ranges@),
            sync_state.same_but_scan_ranges(&before),
            sync_state.birthday() == before.birthday(),
            sync_state.known_tip() == before.known_tip(),
            sync_state.scan_ranges@ == with_found_notes(parameters, &before, txs, i as int),
            forall|k: int|
                0 <= k < txs.len() ==> notes_placed(parameters, &before, #[trigger] txs[k]),
        decreases count - i,
    {
        let transaction = &transactions.entry(i).1;
        let ghost tx = txs[i as int];
        assert(transaction@ == tx);
        proof {
            lemma_placed_by_ends(
                parameters,
                sync_state,
                &before,
                tx,
                sync_state.scan_ranges@,
                ShieldedPool::Sapling,
            );
        }
        update_found_note_shard_priority(parameters, sync_state, ShieldedPool::Sapling, transaction);
        proof {
            lemma_placed_by_ends(
                parameters,
                sync_state,
                &before,
                tx,
                sync_state.scan_ranges@,
                ShieldedPool::Orchard,
            );
        }
        update_found_note_shard_priority(parameters, sync_state, ShieldedPool::Orchard, transaction);
        proof {
            lemma_placed_by_ends(
                parameters,
                sync_state,
                &before,
                tx,
                sync_state.scan_ranges@,
                ShieldedPool::Ironwood,
            );
        }
        update_found_note_shard_priority(parameters, sync_state, ShieldedPool::Ironwood, transaction);
        i = i + 1;
    }
}

// --- ranges whose nullifiers must be fetched again ---

/// The blocks of the ranges from `end` on that were scanned and whose nullifiers were discarded.
pub open spec fn refetch_ranges(ranges: Seq<ScanRange>, end: BlockHeight) -> Seq<BlockRange>
    decreases ranges.len(),
{
    if ranges.len() == 0 {
        Seq::empty()
    } else {
        let before = refetch_ranges(ranges.drop_last(), end);
        let last = ranges.last();
        if (last.priority == ScanPriority::ScannedWithoutMapping || last.priority
            == ScanPriority::RefetchingNullifiers) && last.block_range.start >= end {
            before.push(last.block_range)
        } else {
            before
        }
    }
}

/// The blocks of the ranges above the scanned one whose nullifiers must be fetched again before a note found in it is
/// known to be unspent.
///
/// Ranges whose nullifiers are discarded after the note was added do not count: they were checked against it.
pub fn refetch_nullifier_ranges(sync_state: &SyncState, scan_range: &ScanRange) -> (r: Vec<BlockRange>)
    ensures
        r@ == refetch_ranges(sync_state.scan_ranges@, scan_range.block_range.end),
{
    let ghost all = sync_state.scan_ranges@;
    let mut out: Vec<BlockRange> = Vec::new();
    let count: usize = sync_state.scan_ranges.len();
    let mut i: usize = 0;
    assert(all.take(0) =~= Seq::empty());
    while i < count
        invariant
            i <= count == all.len(),
            all == sync_state.scan_ranges@,
            out@ == refetch_ranges(all.take(i as int), scan_range.block_range.end),
        decreases count - i,
    {
        let range = sync_state.scan_ranges[i];
        proof {
            assert(all.take(i + 1).drop_last() =~= all.take(i as int));
            assert(all.take(i + 1).last() == range);
        }
        if range.priority.awaits_nullifier_retrieval() && range.block_range.start >= scan_range.block_range.end {
            out.push(range.block_range);
        }
        i = i + 1;
    }
    assert(all.take(count as int) =~= all);
    out
}

/// The notes, each with the ranges whose nullifiers must be fetched again.
pub open spec fn notes_awaiting<N>(notes: Seq<NoteView<N>>, ranges: Seq<BlockRange>) -> Seq<NoteView<N>> {
    Seq::new(notes.len(), |i: int| NoteView { refetch_nullifier_ranges: ranges, ..notes[i] })
}

/// The transaction with the ranges whose nullifiers must be fetched again noted at each of its notes.
pub open spec fn awaiting(transaction: TransactionView, ranges: Seq<BlockRange>) -> TransactionView {
    TransactionView {
        sapling_notes: notes_awaiting(transaction.sapling_notes, ranges),
        orchard_notes: notes_awaiting(transaction.orchard_notes, ranges),
        ironwood_notes: notes_awaiting(transaction.ironwood_notes, ranges),
        ..transaction
    }
}

fn copy_ranges(ranges: &Vec<BlockRange>) -> (r: Vec<BlockRange>)
    ensures
        r@ == ranges@,
{
    let mut out: Vec<BlockRange> = Vec::new();
    let count: usize = ranges.len();
    let mut i: usize = 0;
    while i < count
        invariant
            i <= count == ranges@.len(),
            out@ == ranges@.take(i as int),
        decreases count - i,
    {
        out.push(ranges[i]);
        assert(out@ =~= ranges@.take(i + 1));
        i = i + 1;
    }
    assert(ranges@.take(count as int) =~= ranges@);
    out
}

fn set_awaiting<N>(notes: &mut Vec<WalletNote<N>>, ranges: &Vec<BlockRange>)
    ensures
        note_views(final(notes)@) == notes_awaiting(note_views(old(notes)@), ranges@),
{
    let ghost before = notes@;
    let mut i: usize = 0;
    while i < notes.len()
        invariant
            i <= notes@.len(),
            notes@.len() == before.len(),
            forall|k: int|
                0 <= k < i ==> (#[trigger] notes@[k])@ == notes_awaiting(note_views(before), ranges@)[k],
            forall|k: int| i <= k < notes@.len() ==> #[trigger] notes@[k] == before[k],
        decreases notes@.len() - i,
    {
        notes[i].refetch_nullifier_ranges = copy_ranges(ranges);
        i = i + 1;
    }
    assert(note_views(notes@) =~= notes_awaiting(note_views(before), ranges@));
}

fn set_all_awaiting(transactions: &mut WalletTransactions, ranges: &Vec<BlockRange>)
    requires
        old(transactions).wf(),
    ensures
        final(transactions).wf(),
        final(transactions)@.dom() == old(transactions)@.dom(),
        tx_views(final(transactions)@) == tx_views(old(transactions)@).map_values(
            |transaction: TransactionView| awaiting(transaction, ranges@),
        ),
{
    let ghost change = |transaction: TransactionView| awaiting(transaction, ranges@);
    let mut i: usize = 0;
    while i < transactions.len()
        invariant
            i <= transactions.listed().len(),
            transactions.wf(),
            transactions.listed().len() == old(transactions).listed().len(),
            change == (|transaction: TransactionView| awaiting(transaction, ranges@)),
            forall|k: int|
                0 <= k < transactions.listed().len() ==> (#[trigger] transactions.listed()[k]).0
                    == old(transactions).listed()[k].0,
            forall|k: int|
                0 <= k < i ==> (#[trigger] transactions.listed()[k]).1@ == change(old(transactions).listed()[k].1@),
            forall|k: int|
                i <= k < transactions.listed().len() ==> (#[trigger] transactions.listed()[k]).1
                    == old(transactions).listed()[k].1,
        decreases transactions.listed().len() - i,
    {
        let transaction = transactions.value_mut(i);
        set_awaiting(&mut transaction.sapling_notes, ranges);
        set_awaiting(&mut transaction.orchard_notes, ranges);
        set_awaiting(&mut transaction.ironwood_notes, ranges);
        i = i + 1;
    }
    proof {
        crate::wallet::stores::lemma_changed_in_place(old(transactions), transactions, change);
    }
}

// --- trees ---

/// The tree with subtrees inserted one after the other, or the first error.
pub open spec fn with_located(tree: TreeView, located: Seq<LocatedLeaves>) -> Result<TreeView, TreeError>
    decreases located.len(),
{
    if located.len() == 0 {
        Ok(tree)
    } else {
        match with_located(tree, located.drop_last()) {
            Err(error) => Err(error),
            Ok(before) => tree_with_leaves(before, located.last()),
        }
    }
}

proof fn lemma_with_located_error(tree: TreeView, located: Seq<LocatedLeaves>, n: int)
    requires
        0 <= n <= located.len(),
        with_located(tree, located.take(n)) is Err,
    ensures
        with_located(tree, located) == with_located(tree, located.take(n)),
    decreases located.len() - n,
{
    if n == located.len() {
        assert(located.take(n) =~= located);
    } else {
        assert(located.take(n + 1).drop_last() =~= located.take(n));
        lemma_with_located_error(tree, located, n + 1);
    }
}

/// The checkpoints of a tree with subtrees inserted one after the other: the last leaf of each state that the leaves
/// name has become a checkpoint, and the oldest go where there are too many, apart from those retained.
pub open spec fn located_checkpoints(tree: TreeView, located: Seq<LocatedLeaves>) -> Map<BlockHeight, CheckpointView>
    decreases located.len(),
{
    if located.len() == 0 {
        tree.checkpoints
    } else {
        pruned(
            located_checkpoints(tree, located.drop_last()).union_prefer_right(
                leaf_checkpoints(located.last().start, located.last().leaves),
            ),
            tree.retained,
        )
    }
}

/// Whether the subtrees before the one at `n` were inserted, and that one was refused.
pub open spec fn is_refused_at(tree: TreeView, located: Seq<LocatedLeaves>, n: int) -> bool {
    &&& 0 <= n < located.len()
    &&& with_located(tree, located.take(n)) is Ok
    &&& with_located(tree, located.take(n + 1)) is Err
}

/// Whether subtrees were inserted one after the other, up to the first that is refused. That one adds no checkpoint,
/// though some of its leaves may be in the tree.
pub open spec fn located_inserted(before: TreeView, after: TreeView, located: Seq<LocatedLeaves>) -> bool {
    &&& after.orchard == before.orchard
    &&& after.retained == before.retained
    &&& after.cap == before.cap
    &&& after.shards.len() >= before.shards.len()
    &&& match with_located(before, located) {
        Ok(view) => after == view && after.checkpoints == located_checkpoints(before, located),
        Err(_) => exists|n: int| #[trigger]
            is_refused_at(before, located, n) && after.checkpoints == located_checkpoints(before, located.take(n)),
    }
}

/// Inserts subtrees into a tree.
pub fn insert_located_trees(tree: &mut NoteTree, located_trees: Vec<LocatedTreeData>) -> (r: Result<(), TreeError>)
    requires
        all_of_protocol(located_trees@, old(tree)@.orchard),
    ensures
        match with_located(old(tree)@, located_of(located_trees@)) {
            Ok(_) => r.is_ok(),
            Err(error) => r == Err::<(), TreeError>(error),
        },
        located_inserted(old(tree)@, final(tree)@, located_of(located_trees@)),
{
    let ghost before = tree@;
    let ghost all = located_trees@;
    assert(located_of(all).take(0) =~= Seq::empty());
    for located in it: located_trees
        invariant
            it.seq() == all,
            before == old(tree)@,
            all_of_protocol(all, before.orchard),
            tree@.orchard == before.orchard,
            tree@.retained == before.retained,
            tree@.cap == before.cap,
            tree@.shards.len() >= before.shards.len(),
            tree@.checkpoints == located_checkpoints(before, located_of(all).take(it.index() as int)),
            with_located(before, located_of(all).take(it.index() as int)) == Ok::<TreeView, TreeError>(tree@),
    {
        let ghost i = it.index() as int;
        proof {
            let next = located_of(all).take(i + 1);
            assert(next.drop_last() =~= located_of(all).take(i));
            assert(next.last() == all[i]@);
            assert(located == all[i]);
        }
        if let Err(error) = tree.insert_tree(&located) {
            proof {
                assert(with_located(before, located_of(all).take(i + 1)) == Err::<TreeView, TreeError>(error));
                lemma_with_located_error(before, located_of(all), i + 1);
                assert(is_refused_at(before, located_of(all), i));
            }
            return Err(error);
        }
    }
    assert(located_of(all).take(all.len() as int) =~= located_of(all));
    Ok(())
}

// --- the wallet ---

/// What is found in a range of blocks, but for the maps.
pub struct FoundData {
    pub transactions: WalletTransactions,
    pub sapling_located_trees: Vec<LocatedTreeData>,
    pub orchard_located_trees: Vec<LocatedTreeData>,
    pub ironwood_located_trees: Vec<LocatedTreeData>,
}

/// The first error in inserting subtrees, in the order of the pools.
pub open spec fn insertion_error(
    sapling: Result<TreeView, TreeError>,
    orchard: Result<TreeView, TreeError>,
    ironwood: Result<TreeView, TreeError>,
) -> Option<TreeError> {
    match (sapling, orchard, ironwood) {
        (Err(error), _, _) => Some(error),
        (Ok(_), Err(error), _) => Some(error),
        (Ok(_), Ok(_), Err(error)) => Some(error),
        (Ok(_), Ok(_), Ok(_)) => None,
    }
}

/// Whether the subtrees of all pools were inserted, in the order of the pools, up to the first that is refused.
pub open spec fn trees_inserted(before: ShardTreesView, after: ShardTreesView, found: &FoundData) -> bool {
    let sapling = located_of(found.sapling_located_trees@);
    let orchard = located_of(found.orchard_located_trees@);
    let ironwood = located_of(found.ironwood_located_trees@);
    &&& located_inserted(before.sapling, after.sapling, sapling)
    &&& if with_located(before.sapling, sapling) is Ok {
        located_inserted(before.orchard, after.orchard, orchard)
    } else {
        after.orchard == before.orchard
    }
    &&& if with_located(before.sapling, sapling) is Ok && with_located(before.orchard, orchard) is Ok {
        located_inserted(before.ironwood, after.ironwood, ironwood)
    } else {
        after.ironwood == before.ironwood
    }
}

/// Whether the results of scanning a range were added to the wallet. Where a tree refuses its leaves, it may hold some of
/// them.
pub open spec fn data_added(
    parameters: &ChainParameters,
    before: &Wallet,
    after: &Wallet,
    scan_range: &ScanRange,
    nullifiers: &NullifierMap,
    outpoints: Map<OutputId, ScanTarget>,
    found: &FoundData,
    r: Result<(), TreeError>,
) -> bool {
    &&& after.sync_state.scan_ranges@ == with_found_notes(
        parameters,
        &before.sync_state,
        txs_in_order(&found.transactions),
        txs_in_order(&found.transactions).len() as int,
    )
    &&& after.sync_state.same_but_scan_ranges(&before.sync_state)
    &&& contiguous(after.sync_state.scan_ranges@)
    &&& after.sync_state.birthday() == before.sync_state.birthday()
    &&& after.sync_state.known_tip() == before.sync_state.known_tip()
    &&& tx_views(after.wallet_transactions@) == tx_views(
        before.wallet_transactions@,
    ).union_prefer_right(
        tx_views(found.transactions@).map_values(
            |transaction: TransactionView|
                awaiting(
                    transaction,
                    refetch_ranges(after.sync_state.scan_ranges@, scan_range.block_range.end),
                ),
        ),
    )
    &&& after.nullifiers.sapling@ == before.nullifiers.sapling@.union_prefer_right(
        nullifiers.sapling@,
    )
    &&& after.nullifiers.orchard@ == before.nullifiers.orchard@.union_prefer_right(
        nullifiers.orchard@,
    )
    &&& after.nullifiers.ironwood@ == before.nullifiers.ironwood@.union_prefer_right(
        nullifiers.ironwood@,
    )
    &&& after.outpoints@ == before.outpoints@.union_prefer_right(outpoints)
    &&& ({
        let sapling = with_located(before.shard_trees@.sapling, located_of(found.sapling_located_trees@));
        let orchard = with_located(before.shard_trees@.orchard, located_of(found.orchard_located_trees@));
        let ironwood = with_located(before.shard_trees@.ironwood, located_of(found.ironwood_located_trees@));
        match insertion_error(sapling, orchard, ironwood) {
            Some(error) => r == Err::<(), TreeError>(error),
            None => r.is_ok(),
        }
    })
    &&& trees_inserted(before.shard_trees@, after.shard_trees@, found)
    &&& after.wallet_blocks == before.wallet_blocks
    &&& after.birthday == before.birthday
    &&& after.transparent_addresses == before.transparent_addresses
    &&& after.save_required == before.save_required
}

/// Updates the wallet with what was found in a range of blocks.
///
/// The shards around found notes are prioritised, the transactions are added with the ranges whose nullifiers must be
/// fetched again noted at their notes, the given nullifiers and outpoints are mapped, and the subtrees are inserted.
/// Where a subtree is refused, everything but the trees has been updated.
pub fn update_wallet_data(
    parameters: &ChainParameters,
    wallet: &mut Wallet,
    scan_range: &ScanRange,
    nullifiers: &mut NullifierMap,
    outpoints: &mut OutPoints,
    found: FoundData,
) -> (r: Result<(), TreeError>)
    requires
        old(wallet).wf(),
        contiguous(old(wallet).sync_state.scan_ranges@),
        old(nullifiers).wf(),
        old(outpoints).wf(),
        found.transactions.wf(),
        filed_by_id(&found.transactions),
        all_of_protocol(found.sapling_located_trees@, false),
        all_of_protocol(found.orchard_located_trees@, true),
        all_of_protocol(found.ironwood_located_trees@, true),
        forall|i: int|
            0 <= i < txs_in_order(&found.transactions).len() ==> notes_placed(
                parameters,
                &old(wallet).sync_state,
                #[trigger] txs_in_order(&found.transactions)[i],
            ),
    ensures
        final(wallet).wf(),
        final(nullifiers).wf(),
        final(nullifiers).blank(),
        final(outpoints).wf(),
        final(outpoints)@ == Map::<OutputId, ScanTarget>::empty(),
        contiguous(final(wallet).sync_state.scan_ranges@),
        data_added(
            parameters,
            old(wallet),
            final(wallet),
            scan_range,
            old(nullifiers),
            old(outpoints)@,
            &found,
            r,
        ),
{
    let mut transactions = found.transactions;
    prioritise_found_notes(parameters, &mut wallet.sync_state, &transactions);
    let ranges = refetch_nullifier_ranges(&wallet.sync_state, scan_range);
    let ghost scanned = transactions;
    set_all_awaiting(&mut transactions, &ranges);
    proof {
        crate::wallet::data::lemma_still_filed(&scanned, &transactions);
    }
    extend_wallet_transactions(wallet, &mut transactions);
    wallet.nullifiers.append(nullifiers);
    wallet.outpoints.append(outpoints);
    if let Err(error) = insert_located_trees(&mut wallet.shard_trees.sapling, found.sapling_located_trees) {
        return Err(error);
    }
    if let Err(error) = insert_located_trees(&mut wallet.shard_trees.orchard, found.orchard_located_trees) {
        return Err(error);
    }
    insert_located_trees(&mut wallet.shard_trees.ironwood, found.ironwood_located_trees)
}

// --- the end of a session ---

/// Ends a session in which everything was scanned: transactions that have expired by now are set to `Failed`, and the
/// ranges whose nullifiers had to be fetched again are forgotten, since all have been.
pub fn finish_session(wallet: &mut Wallet, now: u32)
    requires
        old(wallet).wf(),
        old(wallet).sync_state.scan_ranges@.len() > 0,
    ensures
        final(wallet).wf(),
        final(wallet).save_required,
        tx_views(final(wallet).wallet_transactions@) == with_failed(
            tx_views(old(wallet).wallet_transactions@),
            not_confirmed(
                tx_views(old(wallet).wallet_transactions@),
                expired_ids(
                    old(wallet).wallet_transactions.listed(),
                    old(wallet).sync_state.known_tip()->0,
                ),
            ),
            now,
        ).map_values(|transaction: TransactionView| awaiting(transaction, Seq::empty())),
        *final(wallet) == (Wallet {
            wallet_transactions: final(wallet).wallet_transactions,
            save_required: true,
            ..*old(wallet)
        }),
{
    expire_transactions(wallet, now);
    let none: Vec<BlockRange> = Vec::new();
    let ghost expired = wallet.wallet_transactions;
    set_all_awaiting(&mut wallet.wallet_transactions, &none);
    proof {
        crate::wallet::data::lemma_still_filed(&expired, &wallet.wallet_transactions);
        assert(none@ =~= Seq::<BlockRange>::empty());
    }
    wallet.save_required = true;
}

// --- transactions that are not in a block yet ---

/// The spends of the wallet's notes among the nullifiers of a pending transaction.
pub open spec fn pending_spends(transactions: &WalletTransactions, nullifiers: &NullifierMap) -> SpendsView {
    SpendsView {
        sapling: nullifiers.sapling@.restrict(sapling_nullifiers(transactions)),
        orchard: nullifiers.orchard@.restrict(orchard_nullifiers(transactions)),
        ironwood: nullifiers.ironwood@.restrict(ironwood_nullifiers(transactions)),
    }
}

/// The spends of the wallet's coins among the outpoints of a pending transaction.
pub open spec fn pending_coin_spends(transactions: &WalletTransactions, outpoints: Map<OutputId, ScanTarget>) -> Map<
    OutputId,
    ScanTarget,
> {
    outpoints.restrict(
        gathered(
            txs_in_order(transactions),
            |transaction: TransactionView| output_ids_of(transaction.transparent_coins),
        ).to_set(),
    )
}

/// Whether a transaction holds nothing of the wallet's.
pub open spec fn holds_nothing(transaction: TransactionView) -> bool {
    &&& transaction.transparent_coins.len() == 0
    &&& transaction.sapling_notes.len() == 0
    &&& transaction.orchard_notes.len() == 0
    &&& transaction.ironwood_notes.len() == 0
    &&& transaction.outgoing_sapling_notes.len() == 0
    &&& transaction.outgoing_orchard_notes.len() == 0
    &&& transaction.outgoing_ironwood_notes.len() == 0
}

/// Whether nothing is spent.
pub open spec fn spends_nothing(spends: SpendsView, coins: Map<OutputId, ScanTarget>) -> bool {
    &&& spends.sapling == Map::<crate::primitives::Nullifier, ScanTarget>::empty()
    &&& spends.orchard == Map::<crate::primitives::Nullifier, ScanTarget>::empty()
    &&& spends.ironwood == Map::<crate::primitives::Nullifier, ScanTarget>::empty()
    &&& coins == Map::<OutputId, ScanTarget>::empty()
}

proof fn lemma_listed_empty<K: crate::sorted_map::OrderedKey, V>(map: &SortedMap<K, V>)
    requires
        map.wf(),
    ensures
        (map.listed().len() == 0) == (map@ == Map::<K, V>::empty()),
{
    map.lemma_listed();
    if map.listed().len() == 0 {
        assert(map@ =~= Map::<K, V>::empty()) by {
            assert forall|k: K| !map@.dom().contains(k) by {
                if map@.dom().contains(k) {
                    assert(crate::sorted_map::has_key(map.listed(), k));
                }
            }
        }
    } else {
        assert(map@.dom().contains(map.listed()[0].0));
    }
}

/// Adds a pending transaction that was scanned to the wallet, if it is relevant to it, and marks what it spends.
///
/// `nullifiers` and `outpoints` are those of the transaction. Returns whether it is relevant: it holds something of
/// the wallet's, or spends something of it.
pub fn add_pending_transaction(
    wallet: &mut Wallet,
    pending_transaction: WalletTransaction,
    nullifiers: &mut NullifierMap,
    outpoints: &mut OutPoints,
) -> (r: bool)
    requires
        old(wallet).wf(),
        old(nullifiers).wf(),
        old(outpoints).wf(),
        !(pending_transaction.status is Confirmed),
    ensures
        final(wallet).wf(),
        r == !(holds_nothing(pending_transaction@) && spends_nothing(
            pending_spends(&old(wallet).wallet_transactions, old(nullifiers)),
            pending_coin_spends(&old(wallet).wallet_transactions, old(outpoints)@),
        )),
        pending_taken(old(wallet), final(wallet), pending_transaction, old(nullifiers), old(outpoints)@, r),
        pending_transaction.transparent_coins@.len() > 0 ==> r,
        pending_transaction.sapling_notes@.len() > 0 ==> r,
        pending_transaction.orchard_notes@.len() > 0 ==> r,
        pending_transaction.ironwood_notes@.len() > 0 ==> r,
        pending_transaction.outgoing_sapling_notes@.len() > 0 ==> r,
        pending_transaction.outgoing_orchard_notes@.len() > 0 ==> r,
        pending_transaction.outgoing_ironwood_notes@.len() > 0 ==> r,
        final(wallet).wallet_transactions@.dom() == if r {
            old(wallet).wallet_transactions@.dom().insert(pending_transaction.txid)
        } else {
            old(wallet).wallet_transactions@.dom()
        },
        !r ==> *final(wallet) == *old(wallet),
        r ==> tx_views(final(wallet).wallet_transactions@) == with_spends(
            tx_views(old(wallet).wallet_transactions@).insert(
                pending_transaction.txid,
                pending_transaction@,
            ).map_values(
                |transaction: TransactionView|
                    TransactionView {
                        transparent_coins: spent_coins(
                            transaction.transparent_coins,
                            pending_coin_spends(&old(wallet).wallet_transactions, old(outpoints)@),
                        ),
                        ..transaction
                    },
            ),
            pending_spends(&old(wallet).wallet_transactions, old(nullifiers)),
        ),
        final(wallet).shard_trees@ == old(wallet).shard_trees@,
        *final(wallet) == (Wallet {
            wallet_transactions: final(wallet).wallet_transactions,
            shard_trees: final(wallet).shard_trees,
            ..*old(wallet)
        }),
{
    let output_ids = collect_transparent_output_ids(&wallet.wallet_transactions);
    let coin_spends = detect_transparent_spends(outpoints, &output_ids);
    let derived = collect_derived_nullifiers(&wallet.wallet_transactions);
    let spends = detect_shielded_spends(nullifiers, &derived);
    proof {
        lemma_listed_empty(&coin_spends);
        lemma_listed_empty(&spends.sapling);
        lemma_listed_empty(&spends.orchard);
        lemma_listed_empty(&spends.ironwood);
    }
    let tx = &pending_transaction;
    if tx.transparent_coins.len() == 0 && tx.sapling_notes.len() == 0 && tx.orchard_notes.len() == 0
        && tx.ironwood_notes.len() == 0 && tx.outgoing_sapling_notes.len() == 0 && tx.outgoing_orchard_notes.len()
        == 0 && tx.outgoing_ironwood_notes.len() == 0 && coin_spends.len() == 0 && spends.sapling.len() == 0
        && spends.orchard.len() == 0 && spends.ironwood.len() == 0 {
        return false;
    }
    let ghost pending = pending_transaction@;
    let txid = pending_transaction.txid;
    let ghost before = wallet.wallet_transactions@;
    wallet.wallet_transactions.insert(txid, pending_transaction);
    let ghost added = wallet.wallet_transactions;
    proof {
        assert(tx_views(added@) =~= tx_views(before).insert(txid, pending));
        assert(filed_by_id(&added)) by {
            assert forall|k: TxId| #[trigger] added@.dom().contains(k) implies added@[k].txid == k by {
                if k != txid {
                    assert(before.dom().contains(k));
                }
            }
        }
    }
    update_spent_coins(&mut wallet.wallet_transactions, &coin_spends);
    proof {
        crate::wallet::data::lemma_still_filed(&added, &wallet.wallet_transactions);
    }
    proof {
        lemma_no_marks_removed(wallet.shard_trees@, &wallet.wallet_transactions, spends@);
    }
    update_spent_notes(wallet, &spends, false);
    proof {
        let kept = tx_views(wallet.wallet_transactions@);
        assert forall|k: TxId| wallet.wallet_transactions@.dom().contains(k) == before.insert(
            txid,
            pending_transaction,
        ).dom().contains(k) by {
            assert(kept.dom().contains(k) == tx_views(added@).dom().contains(k));
        }
        assert(wallet.wallet_transactions@.dom() =~= before.dom().insert(txid));
    }
    true
}

/// What is done with a transaction from the mempool.
#[derive(Clone, Copy, Debug, PartialEq, Eq, Structural)]
pub enum MempoolStep {
    /// The wallet holds it already, and its status was updated.
    Updated,
    /// It is to be scanned, as one that is in the mempool at the height.
    Scan(BlockHeight),
}

/// Whether a transaction that was seen in the mempool is noted: one that the wallet holds is updated, unless it failed;
/// any other is to be scanned.
pub open spec fn mempool_transaction_noted(
    before: &Wallet,
    after: &Wallet,
    txid: TxId,
    now: u32,
    step: MempoolStep,
) -> bool {
    let height = above(before.sync_state.known_tip()->0);
    let views = tx_views(before.wallet_transactions@);
    let status = ConfirmationStatus::Mempool(height);
    if views.dom().contains(txid) && !(views[txid].status is Failed) {
        &&& step == MempoolStep::Updated
        &&& tx_views(after.wallet_transactions@) == if status.supersedes(views[txid].status, false) {
            views.insert(txid, TransactionView { status, datetime: now, ..views[txid] })
        } else {
            views
        }
        &&& *after == (Wallet { wallet_transactions: after.wallet_transactions, ..*before })
    } else {
        step == MempoolStep::Scan(height) && *after == *before
    }
}

/// Takes note of a transaction in the mempool.
///
/// One that the wallet holds has its status updated, unless it had failed: a failed transaction that is observed in the
/// mempool has not failed, and is scanned again, which marks its spends anew.
pub fn note_mempool_transaction(wallet: &mut Wallet, txid: &TxId, now: u32) -> (r: MempoolStep)
    requires
        old(wallet).wf(),
        old(wallet).sync_state.scan_ranges@.len() > 0,
    ensures
        final(wallet).wf(),
        mempool_transaction_noted(old(wallet), final(wallet), *txid, now, r),
{
    let tip: u32 = wallet.sync_state.last_known_chain_height().unwrap();
    let height: u32 = tip.saturating_add(1);
    let ghost before = wallet.wallet_transactions@;
    if let Some(place) = wallet.wallet_transactions.find(txid) {
        if !wallet.wallet_transactions.entry(place).1.status.is_failed() {
            let transaction = wallet.wallet_transactions.value_mut(place);
            transaction.update_status(ConfirmationStatus::Mempool(height), now, false);
            proof {
                let views = tx_views(before);
                let status = ConfirmationStatus::Mempool(height);
                let after = if status.supersedes(views[*txid].status, false) {
                    views.insert(*txid, TransactionView { status, datetime: now, ..views[*txid] })
                } else {
                    views
                };
                assert(tx_views(wallet.wallet_transactions@) =~= after);
                crate::wallet::data::lemma_still_filed(&old(wallet).wallet_transactions, &wallet.wallet_transactions);
            }
            return MempoolStep::Updated;
        }
    }
    MempoolStep::Scan(height)
}

// --- addresses ---

/// An address of the wallet that received a note: the account, the bytes of the receiver, and whether it is one of
/// sapling.
#[derive(Clone, Copy, Debug, PartialEq, Eq)]
pub struct FoundAddress {
    pub account_id: u32,
    pub recipient: [u8; 43],
    pub sapling: bool,
}

/// A note that names the address it was sent to.
pub trait Received {
    spec fn receiver(&self) -> [u8; 43];

    fn to_receiver(&self) -> (r: [u8; 43])
        ensures
            r == self.receiver(),
    ;
}

impl Received for SaplingNoteData {
    open spec fn receiver(&self) -> [u8; 43] {
        self.recipient
    }

    fn to_receiver(&self) -> [u8; 43] {
        self.recipient
    }
}

impl Received for OrchardNoteData {
    open spec fn receiver(&self) -> [u8; 43] {
        self.recipient
    }

    fn to_receiver(&self) -> [u8; 43] {
        self.recipient
    }
}

impl Received for IronwoodNoteData {
    open spec fn receiver(&self) -> [u8; 43] {
        self.recipient
    }

    fn to_receiver(&self) -> [u8; 43] {
        self.recipient
    }
}

/// The addresses of the notes that were received on external addresses.
pub open spec fn external_addresses<N: Received>(notes: Seq<NoteView<N>>, sapling: bool) -> Seq<FoundAddress>
    decreases notes.len(),
{
    if notes.len() == 0 {
        Seq::empty()
    } else {
        let before = external_addresses(notes.drop_last(), sapling);
        let note = notes.last();
        if note.key_id.scope == Scope::External {
            before.push(
                FoundAddress { account_id: note.key_id.account_id, recipient: note.note.receiver(), sapling },
            )
        } else {
            before
        }
    }
}

fn push_external_addresses<N: Received>(notes: &Vec<WalletNote<N>>, sapling: bool, out: &mut Vec<FoundAddress>)
    ensures
        final(out)@ == old(out)@ + external_addresses(note_views(notes@), sapling),
{
    let ghost before = out@;
    let ghost views = note_views(notes@);
    let count: usize = notes.len();
    let mut i: usize = 0;
    assert(views.take(0) =~= Seq::empty());
    assert(out@ =~= before + external_addresses(views.take(0), sapling));
    while i < count
        invariant
            i <= count == notes@.len(),
            views == note_views(notes@),
            out@ == before + external_addresses(views.take(i as int), sapling),
        decreases count - i,
    {
        proof {
            assert(views.take(i + 1).drop_last() =~= views.take(i as int));
            assert(views.take(i + 1).last() == notes@[i as int]@);
        }
        let note = &notes[i];
        if note.key_id.scope == Scope::External {
            out.push(
                FoundAddress {
                    account_id: note.key_id.account_id,
                    recipient: note.note.to_receiver(),
                    sapling,
                },
            );
        }
        assert(out@ =~= before + external_addresses(views.take(i + 1), sapling));
        i = i + 1;
    }
    assert(views.take(count as int) =~= views);
}

/// The addresses that the notes of a transaction show to be in use, for the wallet to add: those of its orchard
/// notes, of its ironwood notes, which are orchard receivers, and of its sapling notes.
pub fn discover_unified_addresses(transaction: &WalletTransaction) -> (r: Vec<FoundAddress>)
    ensures
        r@ == external_addresses(transaction@.orchard_notes, false) + external_addresses(
            transaction@.ironwood_notes,
            false,
        ) + external_addresses(transaction@.sapling_notes, true),
{
    let mut out: Vec<FoundAddress> = Vec::new();
    push_external_addresses(&transaction.orchard_notes, false, &mut out);
    assert(out@ =~= external_addresses(transaction@.orchard_notes, false));
    push_external_addresses(&transaction.ironwood_notes, false, &mut out);
    push_external_addresses(&transaction.sapling_notes, true, &mut out);
    out
}

} // verus!
