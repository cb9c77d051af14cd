//! What detected spends do to the scan ranges and to the trees.
use crate::chain::ChainParameters;
use crate::primitives::{Nullifier, ShieldedPool};
use crate::scan_range::{contiguous, covers, priority_at, ScanPriority};
use crate::sorted_map::has_key;
use crate::sync::shard_laws::{is_around_target, lemma_found_note_ranges, raised_to};
use crate::sync::shards::{
    block_range_around, found_note_ranges, has_block_range, lemma_range_around_depends_on_ends, target_pool,
};
use crate::sync::spend::{gathered, removals_for, spent_positions, unmarked_positions, MarkRemoval, ShieldedSpends};
use crate::sync::spend_laws::spent_in;
use crate::sync::spend_update::{
    lemma_nothing_gathered, prioritized_through, targets_listed, trees_with_spends, unmarked, SpendsView,
};
use crate::trees::{tree_unmarked, TreeView};
use crate::wallet::shard_trees::ShardTreesView;
use crate::wallet::stores::{txs_in_order, WalletTransactions};
use crate::wallet::sync_state::{ScanTarget, SyncState};
use crate::wallet::transaction::{NoteView, TransactionView};
use vstd::prelude::*;

verus! {

// --- the blocks around spends ---

/// Whether the block lies around the spend.
pub open spec fn is_around_spend(
    parameters: &ChainParameters,
    state: &SyncState,
    spends: &ShieldedSpends,
    pool: ShieldedPool,
    nullifier: Nullifier,
    height: int,
) -> bool {
    let target = spent_in(spends, pool)[nullifier];
    let around = block_range_around(
        parameters,
        state,
        target.block_height,
        if target.narrow_scan_area {
            None
        } else {
            Some(pool)
        },
    );
    spent_in(spends, pool).dom().contains(nullifier) && around.start <= height < around.end
}

/// The targets of the spends of a pool.
pub open spec fn targets_in(spends: &ShieldedSpends, pool: ShieldedPool) -> Seq<ScanTarget> {
    match pool {
        ShieldedPool::Sapling => targets_listed(&spends.sapling),
        ShieldedPool::Orchard => targets_listed(&spends.orchard),
        ShieldedPool::Ironwood => targets_listed(&spends.ironwood),
    }
}

proof fn lemma_targets_are_spends(
    parameters: &ChainParameters,
    state: &SyncState,
    spends: &ShieldedSpends,
    pool: ShieldedPool,
    height: int,
)
    requires
        spends.wf(),
    ensures
        (exists|i: int|
            0 <= i < targets_in(spends, pool).len() && #[trigger] is_around_target(
                parameters,
                state,
                pool,
                targets_in(spends, pool),
                i,
                height,
            )) == (exists|nullifier: Nullifier| #[trigger]
            is_around_spend(parameters, state, spends, pool, nullifier, height)),
{
    let targets = targets_in(spends, pool);
    spends.sapling.lemma_listed();
    spends.orchard.lemma_listed();
    spends.ironwood.lemma_listed();
    let listed = match pool {
        ShieldedPool::Sapling => spends.sapling.listed(),
        ShieldedPool::Orchard => spends.orchard.listed(),
        ShieldedPool::Ironwood => spends.ironwood.listed(),
    };
    let map = spent_in(spends, pool);
    if exists|i: int| 0 <= i < targets.len() && #[trigger] is_around_target(parameters, state, pool, targets, i, height) {
        let i = choose|i: int|
            0 <= i < targets.len() && #[trigger] is_around_target(parameters, state, pool, targets, i, height);
        assert(map.dom().contains(listed[i].0) && map[listed[i].0] == listed[i].1);
        assert(is_around_spend(parameters, state, spends, pool, listed[i].0, height));
    }
    if exists|nullifier: Nullifier| #[trigger] is_around_spend(parameters, state, spends, pool, nullifier, height) {
        let nullifier = choose|nullifier: Nullifier| #[trigger]
            is_around_spend(parameters, state, spends, pool, nullifier, height);
        assert(has_key(listed, nullifier));
        let i = choose|i: int| 0 <= i < listed.len() && (#[trigger] listed[i]).0 == nullifier;
        assert(map[listed[i].0] == listed[i].1);
        assert(is_around_target(parameters, state, pool, targets, i, height));
    }
}

/// Whether there are blocks to scan around every spend.
pub open spec fn spends_have_places(parameters: &ChainParameters, state: &SyncState, spends: &ShieldedSpends) -> bool {
    forall|pool: ShieldedPool, i: int|
        0 <= i < targets_in(spends, pool).len() ==> has_block_range(
            parameters,
            state,
            (#[trigger] targets_in(spends, pool)[i]).block_height,
            target_pool(targets_in(spends, pool)[i], pool),
        )
}

proof fn lemma_one_pool(
    parameters: &ChainParameters,
    start: &SyncState,
    before: &SyncState,
    after: &SyncState,
    spends: &ShieldedSpends,
    pool: ShieldedPool,
    height: int,
)
    requires
        spends.wf(),
        spends_have_places(parameters, start, spends),
        before.same_but_scan_ranges(start),
        before.birthday() == start.birthday(),
        before.known_tip() == start.known_tip(),
        contiguous(before.scan_ranges@),
        before.scan_ranges@.len() > 0,
        covers(before.scan_ranges@, height),
        after.scan_ranges@ == found_note_ranges(
            parameters,
            before,
            pool,
            targets_in(spends, pool),
            targets_in(spends, pool).len() as int,
        ),
        after.same_but_scan_ranges(before),
    ensures
        after.same_but_scan_ranges(start),
        after.birthday() == start.birthday(),
        after.known_tip() == start.known_tip(),
        contiguous(after.scan_ranges@),
        after.scan_ranges@.len() > 0,
        covers(after.scan_ranges@, height),
        raised_to(
            priority_at(before.scan_ranges@, height)->0,
            priority_at(after.scan_ranges@, height)->0,
            ScanPriority::FoundNote,
            exists|nullifier: Nullifier| #[trigger]
                is_around_spend(parameters, start, spends, pool, nullifier, height),
        ),
{
    let targets = targets_in(spends, pool);
    assert forall|i: int| 0 <= i < targets.len() implies has_block_range(
        parameters,
        before,
        (#[trigger] targets[i]).block_height,
        target_pool(targets[i], pool),
    ) by {
        assert(targets_in(spends, pool)[i] == targets[i]);
        lemma_range_around_depends_on_ends(
            parameters,
            before,
            start,
            targets[i].block_height,
            target_pool(targets[i], pool),
        );
    }
    lemma_found_note_ranges(parameters, before, pool, targets, targets.len() as int, height);
    lemma_targets_are_spends(parameters, before, spends, pool, height);
    assert((exists|nullifier: Nullifier| #[trigger]
        is_around_spend(parameters, before, spends, pool, nullifier, height)) == (exists|nullifier: Nullifier| #[trigger]
        is_around_spend(parameters, start, spends, pool, nullifier, height))) by {
        assert forall|nullifier: Nullifier| #[trigger]
            is_around_spend(parameters, before, spends, pool, nullifier, height) == is_around_spend(
                parameters,
                start,
                spends,
                pool,
                nullifier,
                height,
            ) by {
            let target = spent_in(spends, pool)[nullifier];
            lemma_range_around_depends_on_ends(
                parameters,
                before,
                start,
                target.block_height,
                target_pool(target, pool),
            );
        }
        if exists|nullifier: Nullifier| #[trigger]
            is_around_spend(parameters, before, spends, pool, nullifier, height) {
            let n = choose|nullifier: Nullifier| #[trigger]
                is_around_spend(parameters, before, spends, pool, nullifier, height);
            assert(is_around_spend(parameters, start, spends, pool, n, height));
        }
        if exists|nullifier: Nullifier| #[trigger] is_around_spend(parameters, start, spends, pool, nullifier, height) {
            let n = choose|nullifier: Nullifier| #[trigger]
                is_around_spend(parameters, start, spends, pool, nullifier, height);
            assert(is_around_spend(parameters, before, spends, pool, n, height));
        }
    }
}

/// The blocks around every spend that is detected, in whichever pool, are raised to the priority of a found note, so that
/// what the wallet gets back of the spend is found. No other block changes.
pub proof fn law_blocks_around_spends_are_raised(
    parameters: &ChainParameters,
    before: &SyncState,
    first: &SyncState,
    second: &SyncState,
    after: &SyncState,
    spends: &ShieldedSpends,
    height: int,
)
    requires
        spends.wf(),
        spends_have_places(parameters, before, spends),
        prioritized_through(parameters, before, first, second, after, spends),
        contiguous(before.scan_ranges@),
        before.scan_ranges@.len() > 0,
        covers(before.scan_ranges@, height),
    ensures
        covers(after.scan_ranges@, height),
        raised_to(
            priority_at(before.scan_ranges@, height)->0,
            priority_at(after.scan_ranges@, height)->0,
            ScanPriority::FoundNote,
            exists|pool: ShieldedPool, nullifier: Nullifier| #[trigger]
                is_around_spend(parameters, before, spends, pool, nullifier, height),
        ),
{
    lemma_one_pool(parameters, before, before, first, spends, ShieldedPool::Sapling, height);
    lemma_one_pool(parameters, before, first, second, spends, ShieldedPool::Orchard, height);
    lemma_one_pool(parameters, before, second, after, spends, ShieldedPool::Ironwood, height);
    if exists|pool: ShieldedPool, nullifier: Nullifier| #[trigger]
        is_around_spend(parameters, before, spends, pool, nullifier, height) {
        let (pool, nullifier) = choose|pool: ShieldedPool, nullifier: Nullifier| #[trigger]
            is_around_spend(parameters, before, spends, pool, nullifier, height);
        match pool {
            ShieldedPool::Sapling => {
                assert(is_around_spend(parameters, before, spends, ShieldedPool::Sapling, nullifier, height));
            },
            ShieldedPool::Orchard => {
                assert(is_around_spend(parameters, before, spends, ShieldedPool::Orchard, nullifier, height));
            },
            ShieldedPool::Ironwood => {
                assert(is_around_spend(parameters, before, spends, ShieldedPool::Ironwood, nullifier, height));
            },
        }
    }
}

// --- the trees ---

proof fn lemma_nothing_spent<N>(notes: Seq<NoteView<N>>, spends: Map<Nullifier, ScanTarget>)
    requires
        forall|n: Nullifier| !#[trigger] spends.dom().contains(n),
    ensures
        spent_positions(notes, spends) == Seq::<(u64, crate::primitives::TxId)>::empty(),
    decreases notes.len(),
{
    if notes.len() > 0 {
        lemma_nothing_spent(notes.drop_last(), spends);
    }
}

proof fn lemma_no_removals<N>(
    transactions: &WalletTransactions,
    notes: spec_fn(TransactionView) -> Seq<NoteView<N>>,
    spends: Map<Nullifier, ScanTarget>,
    remove_marks: bool,
)
    requires
        forall|n: Nullifier| !#[trigger] spends.dom().contains(n),
    ensures
        removals_for(transactions, notes, spends, remove_marks).len() == 0,
{
    let of = |transaction: TransactionView|
        unmarked_positions(notes(transaction), remove_marks && transaction.status is Confirmed, spends);
    assert forall|t: TransactionView| #[trigger] of(t) == Seq::<(u64, crate::primitives::TxId)>::empty() by {
        lemma_nothing_spent(notes(t), spends);
    }
    lemma_nothing_gathered(txs_in_order(transactions), of);
    assert(gathered(txs_in_order(transactions), of) =~= Seq::empty());
}

/// The tree of a pool in which nothing is spent is left alone, whatever is spent in the others.
pub proof fn law_trees_without_spends_stay(
    trees: ShardTreesView,
    transactions: &WalletTransactions,
    spends: SpendsView,
    remove_marks: bool,
)
    ensures
        (forall|n: Nullifier| !#[trigger] spends.sapling.dom().contains(n)) ==> trees_with_spends(
            trees,
            transactions,
            spends,
            remove_marks,
        ).sapling == trees.sapling,
        (forall|n: Nullifier| !#[trigger] spends.orchard.dom().contains(n)) ==> trees_with_spends(
            trees,
            transactions,
            spends,
            remove_marks,
        ).orchard == trees.orchard,
        (forall|n: Nullifier| !#[trigger] spends.ironwood.dom().contains(n)) ==> trees_with_spends(
            trees,
            transactions,
            spends,
            remove_marks,
        ).ironwood == trees.ironwood,
{
    if forall|n: Nullifier| !#[trigger] spends.sapling.dom().contains(n) {
        lemma_no_removals(
            transactions,
            |transaction: TransactionView| transaction.sapling_notes,
            spends.sapling,
            remove_marks,
        );
    }
    if forall|n: Nullifier| !#[trigger] spends.orchard.dom().contains(n) {
        lemma_no_removals(
            transactions,
            |transaction: TransactionView| transaction.orchard_notes,
            spends.orchard,
            remove_marks,
        );
    }
    if forall|n: Nullifier| !#[trigger] spends.ironwood.dom().contains(n) {
        lemma_no_removals(
            transactions,
            |transaction: TransactionView| transaction.ironwood_notes,
            spends.ironwood,
            remove_marks,
        );
    }
}

/// Removing marks and then others is removing all of them. With none the tree stays, and each one that the tree can find is
/// removed at its position, as of the height of the spend.
pub proof fn law_marks_are_removed_in_turn(tree: TreeView, first: Seq<MarkRemoval>, second: Seq<MarkRemoval>)
    ensures
        second.len() == 0 ==> unmarked(tree, second) == tree,
        second.len() == 1 && second[0].position < 0x1_0000_0000_0000 ==> unmarked(tree, second) == tree_unmarked(
            tree,
            second[0].position,
            second[0].spending_height,
        ).0,
        unmarked(tree, first + second) == unmarked(unmarked(tree, first), second),
    decreases second.len(),
{
    reveal_with_fuel(unmarked, 2);
    let all = first + second;
    if second.len() == 0 {
        assert(all =~= first);
    } else {
        law_marks_are_removed_in_turn(tree, first, second.drop_last());
        assert(all.drop_last() =~= first + second.drop_last());
        assert(all.last() == second.last());
        if second.len() == 1 {
            assert(second.drop_last() =~= Seq::empty());
        }
    }
}

} // verus!
