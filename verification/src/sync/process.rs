//! The order in which the results of a scanned range enter the wallet.
//!
//! Once the spends of the wallet's notes are known, the transactions that spend them may have to be fetched. So the
//! results are taken in two steps, before and after that.
use crate::chain::ChainParameters;
use crate::config::PerformanceLevel;
use crate::primitives::{BlockRange, Nullifier, OutputId, ShieldedPool, TxId};
use crate::scan_range::{contiguous, spliced, ScanPriority, ScanRange};
use crate::sorted_map::SortedMap;
use crate::sync::results::{
    complete_refetch, complete_scan, decide_mapping, is_first_open, is_lowest, over_limit, refetch_is_usable,
    refetch_completed, scan_completed, ScanResults,
};
use crate::sync::shards::{has_block_range, lemma_range_around_depends_on_ends, target_pool};
use crate::sync::spend::{
    coins_spent, nullifiers_of, spent_coins, update_transparent_spends, wallet_outpoints, ShieldedSpends,
};
use crate::sync::spend_update::{
    detect_and_mark_spends, finish_shielded_spends, has_note, note_nullifiers, pool_map, spends_finished,
    spends_marked, spends_placed,
};
use crate::sync::state::{holder, holds, reset_refetching_nullifiers_scan_range, split_out};
use crate::sync::update::{
    awaiting, data_added, notes_awaiting, notes_placed, refetch_ranges, update_wallet_data, FoundData,
};
use crate::trees::TreeError;
use crate::wallet::data::{lemma_still_filed, Wallet};
use crate::wallet::stores::{
    filed_by_id, tx_views, txs_in_order, NullifierMap, OutPoints, WalletBlocks, WalletTransactions,
};
use crate::wallet::sync_state::{ScanTarget, SyncState};
use crate::wallet::transaction::{NoteView, TransactionView};
use crate::witness::all_of_protocol;
use vstd::prelude::*;

verus! {

/// What is left to be done of a scanned range once the spending transactions have been fetched.
#[derive(Debug)]
pub struct PendingScan {
    pub spends: ShieldedSpends,
    pub scanned_blocks: WalletBlocks,
    /// Whether the nullifiers of the range are in the wallet's map.
    pub nullifiers_mapped: bool,
    /// Whether the wallet's map of nullifiers has reached its limit.
    pub limit_exceeded: bool,
}

/// Whether the results may be taken in: what they hold is filed under its key, and there are blocks around all that was
/// found.
pub open spec fn results_placed(parameters: &ChainParameters, state: &SyncState, results: &ScanResults) -> bool {
    &&& results.nullifiers.wf()
    &&& results.outpoints.wf()
    &&& results.scanned_blocks.wf()
    &&& results.wallet_transactions.wf()
    &&& filed_by_id(&results.wallet_transactions)
    &&& all_of_protocol(results.sapling_located_trees@, false)
    &&& all_of_protocol(results.orchard_located_trees@, true)
    &&& all_of_protocol(results.ironwood_located_trees@, true)
    &&& forall|i: int|
        0 <= i < txs_in_order(&results.wallet_transactions).len() ==> notes_placed(
            parameters,
            state,
            #[trigger] txs_in_order(&results.wallet_transactions)[i],
        )
}

/// Whether there are blocks to scan around every spend of a note, of the wallet or of the results, that the maps of the
/// wallet and of the results hold.
pub open spec fn all_spends_placed(parameters: &ChainParameters, wallet: &Wallet, results: &ScanResults) -> bool {
    let held = tx_views(wallet.wallet_transactions@);
    let found = tx_views(results.wallet_transactions@);
    &&& spends_placed(parameters, &wallet.sync_state, held, &wallet.nullifiers)
    &&& spends_placed(parameters, &wallet.sync_state, held, &results.nullifiers)
    &&& spends_placed(parameters, &wallet.sync_state, found, &wallet.nullifiers)
    &&& spends_placed(parameters, &wallet.sync_state, found, &results.nullifiers)
}

/// Whether the wallet's map of nullifiers has reached its limit, earlier or with these results.
pub open spec fn exceeds_limit(
    wallet: &Wallet,
    results: &ScanResults,
    performance_level: PerformanceLevel,
    limit_exceeded: bool,
) -> bool {
    limit_exceeded || over_limit(performance_level, wallet.nullifiers.count(), results.nullifiers.count())
}

/// Whether the nullifiers of the results go to the wallet's map.
pub open spec fn maps_nullifiers(
    wallet: &Wallet,
    scan_range: &ScanRange,
    results: &ScanResults,
    performance_level: PerformanceLevel,
    limit_exceeded: bool,
) -> bool {
    !exceeds_limit(wallet, results, performance_level, limit_exceeded) || is_lowest(
        wallet.sync_state.scan_ranges@,
        scan_range.block_range,
    )
}

/// Whether the outpoints of the results go to the wallet's map.
pub open spec fn maps_outpoints(scan_range: &ScanRange) -> bool {
    scan_range.priority.level() >= ScanPriority::FoundNote.level()
}

/// The outpoints if they are taken, none if they are not.
pub open spec fn outpoints_if(taken: bool, results: &ScanResults) -> Map<OutputId, ScanTarget> {
    if taken {
        results.outpoints@
    } else {
        Map::empty()
    }
}

/// Whether `some` are the nullifiers if they are taken, and none if they are not.
pub open spec fn nullifiers_if(taken: bool, nullifiers: &NullifierMap, some: &NullifierMap) -> bool {
    if taken {
        *some == *nullifiers
    } else {
        some.blank()
    }
}

/// Whether the wallet has taken in the results as far as it can before the spending transactions are fetched: `added` is
/// the wallet with the new data, `spent` the one with the coins spent.
pub open spec fn results_begun(
    parameters: &ChainParameters,
    before: &Wallet,
    after: &Wallet,
    scan_range: &ScanRange,
    results: &ScanResults,
    pending: &PendingScan,
    added: &Wallet,
    spent: &Wallet,
    mapped: &NullifierMap,
    additional: &NullifierMap,
) -> bool {
    &&& nullifiers_if(pending.nullifiers_mapped, &results.nullifiers, mapped)
    &&& nullifiers_if(!pending.nullifiers_mapped, &results.nullifiers, additional)
    &&& data_added(
        parameters,
        before,
        added,
        scan_range,
        mapped,
        outpoints_if(maps_outpoints(scan_range), results),
        &found_of(results),
        Ok(()),
    )
    &&& coins_spent(
        &added.wallet_transactions,
        &spent.wallet_transactions,
        added.outpoints@,
        spent.outpoints@,
        outpoints_if(!maps_outpoints(scan_range), results),
    )
    &&& *spent == (Wallet {
        wallet_transactions: spent.wallet_transactions,
        outpoints: spent.outpoints,
        ..*added
    })
    &&& spends_marked(parameters, spent, after, additional, &pending.spends)
}

/// The transactions and leaves of the results.
pub open spec fn found_of(results: &ScanResults) -> FoundData {
    FoundData {
        transactions: results.wallet_transactions,
        sapling_located_trees: results.sapling_located_trees,
        orchard_located_trees: results.orchard_located_trees,
        ironwood_located_trees: results.ironwood_located_trees,
    }
}

/// Takes the results of a scanned range into the wallet, up to the spends of its notes.
///
/// The nullifiers are kept in the wallet's map unless it is full; those of the lowest range to be scanned always are.
/// The outpoints are kept if the range was scanned for what it may hold of the wallet's. Those that are not kept are
/// still looked through for spends.
pub fn begin_results(
    parameters: &ChainParameters,
    wallet: &mut Wallet,
    scan_range: &ScanRange,
    results: ScanResults,
    performance_level: PerformanceLevel,
    limit_exceeded: bool,
) -> (r: Result<PendingScan, TreeError>)
    requires
        old(wallet).wf(),
        contiguous(old(wallet).sync_state.scan_ranges@),
        scan_range.block_range.start < scan_range.block_range.end,
        results_placed(parameters, &old(wallet).sync_state, &results),
        all_spends_placed(parameters, old(wallet), &results),
    ensures
        final(wallet).wf(),
        contiguous(final(wallet).sync_state.scan_ranges@),
        match r {
            Ok(pending) => {
                &&& pending.spends.wf()
                &&& pending.scanned_blocks == results.scanned_blocks
                &&& pending.limit_exceeded == exceeds_limit(
                    old(wallet),
                    &results,
                    performance_level,
                    limit_exceeded,
                )
                &&& pending.nullifiers_mapped == maps_nullifiers(
                    old(wallet),
                    scan_range,
                    &results,
                    performance_level,
                    limit_exceeded,
                )
                &&& exists|added: Wallet, spent: Wallet, mapped: NullifierMap, additional: NullifierMap| #[trigger]
                    results_begun(
                        parameters,
                        old(wallet),
                        final(wallet),
                        scan_range,
                        &results,
                        &pending,
                        &added,
                        &spent,
                        &mapped,
                        &additional,
                    )
            },
            Err(error) => exists|mapped: NullifierMap| #[trigger]
                nullifiers_if(
                    maps_nullifiers(old(wallet), scan_range, &results, performance_level, limit_exceeded),
                    &results.nullifiers,
                    &mapped,
                ) && data_added(
                    parameters,
                    old(wallet),
                    final(wallet),
                    scan_range,
                    &mapped,
                    outpoints_if(maps_outpoints(scan_range), &results),
                    &found_of(&results),
                    Err(error),
                ),
        },
{
    let mapping = decide_mapping(wallet, scan_range, &results.nullifiers, performance_level, limit_exceeded);
    let (mut mapped, mut additional): (NullifierMap, NullifierMap) = if mapping.map_nullifiers {
        (results.nullifiers, NullifierMap::new())
    } else {
        (NullifierMap::new(), results.nullifiers)
    };
    let (mut outpoints, mut additional_outpoints): (OutPoints, OutPoints) = if mapping.map_outpoints {
        (results.outpoints, SortedMap::new())
    } else {
        (SortedMap::new(), results.outpoints)
    };
    let found = FoundData {
        transactions: results.wallet_transactions,
        sapling_located_trees: results.sapling_located_trees,
        orchard_located_trees: results.orchard_located_trees,
        ironwood_located_trees: results.ironwood_located_trees,
    };
    let ghost mapped0 = mapped;
    let ghost additional0 = additional;
    let ghost additional_outpoints0 = additional_outpoints@;
    assert(mapping.map_nullifiers == maps_nullifiers(wallet, scan_range, &results, performance_level, limit_exceeded));
    assert(outpoints@ == outpoints_if(maps_outpoints(scan_range), &results));
    assert(found == found_of(&results));
    if let Err(error) = update_wallet_data(parameters, wallet, scan_range, &mut mapped, &mut outpoints, found) {
        assert(nullifiers_if(mapping.map_nullifiers, &results.nullifiers, &mapped0));
        return Err(error);
    }
    let ghost added = *wallet;
    update_transparent_spends(
        &mut wallet.wallet_transactions,
        &mut wallet.outpoints,
        &mut additional_outpoints,
    );
    proof {
        lemma_still_filed(&added.wallet_transactions, &wallet.wallet_transactions);
        let held = tx_views(old(wallet).wallet_transactions@);
        let found = tx_views(results.wallet_transactions@);
        let all = tx_views(wallet.wallet_transactions@);
        let ids = wallet_outpoints(&added.wallet_transactions);
        lemma_notes_come_from(
            held,
            found,
            tx_views(added.wallet_transactions@),
            all,
            refetch_ranges(added.sync_state.scan_ranges@, scan_range.block_range.end),
            added.outpoints@.restrict(ids).union_prefer_right(additional_outpoints0.restrict(ids)),
        );
        let before = &old(wallet).sync_state;
        let first = &old(wallet).nullifiers;
        let second = &results.nullifiers;
        assert(entries_come_from(&added.nullifiers, first, second)) by {
            assert forall|pool: ShieldedPool, nullifier: Nullifier| #[trigger]
                pool_map(&added.nullifiers, pool).dom().contains(nullifier) implies (pool_map(
                second,
                pool,
            ).dom().contains(nullifier) && pool_map(&added.nullifiers, pool)[nullifier] == pool_map(second, pool)[nullifier])
                || (pool_map(first, pool).dom().contains(nullifier) && pool_map(&added.nullifiers, pool)[nullifier]
                == pool_map(first, pool)[nullifier]) by {
                if pool == ShieldedPool::Sapling {
                } else if pool == ShieldedPool::Orchard {
                } else {
                }
            }
        }
        lemma_spends_stay_placed(
            parameters,
            before,
            &wallet.sync_state,
            held,
            found,
            all,
            first,
            second,
            &added.nullifiers,
        );
        assert(entries_come_from(&additional0, first, second));
        lemma_spends_stay_placed(parameters, before, &wallet.sync_state, held, found, all, first, second, &additional0);
    }
    let ghost spent = *wallet;
    let spends = detect_and_mark_spends(parameters, wallet, &mut additional);
    let pending = PendingScan {
        spends,
        scanned_blocks: results.scanned_blocks,
        nullifiers_mapped: mapping.map_nullifiers,
        limit_exceeded: mapping.limit_exceeded,
    };
    assert(results_begun(
        parameters,
        old(wallet),
        wallet,
        scan_range,
        &results,
        &pending,
        &added,
        &spent,
        &mapped0,
        &additional0,
    ));
    Ok(pending)
}

/// Spends stay placed where transactions come in with their notes and maps are joined.
proof fn lemma_spends_stay_placed(
    parameters: &ChainParameters,
    before: &SyncState,
    after: &SyncState,
    held: Map<TxId, TransactionView>,
    found: Map<TxId, TransactionView>,
    all: Map<TxId, TransactionView>,
    first: &NullifierMap,
    second: &NullifierMap,
    joined: &NullifierMap,
)
    requires
        after.same_but_scan_ranges(before),
        after.birthday() == before.birthday(),
        after.known_tip() == before.known_tip(),
        spends_placed(parameters, before, held, first),
        spends_placed(parameters, before, held, second),
        spends_placed(parameters, before, found, first),
        spends_placed(parameters, before, found, second),
        notes_come_from(all, held, found),
        entries_come_from(joined, first, second),
    ensures
        spends_placed(parameters, after, all, joined),
{
    assert forall|pool: ShieldedPool, nullifier: Nullifier|
        pool_map(joined, pool).dom().contains(nullifier) && #[trigger] has_note(
            all,
            pool,
            nullifier,
        ) implies has_block_range(
        parameters,
        after,
        #[trigger] pool_map(joined, pool)[nullifier].block_height,
        target_pool(pool_map(joined, pool)[nullifier], pool),
    ) by {
        let target = pool_map(joined, pool)[nullifier];
        assert(has_note(held, pool, nullifier) || has_note(found, pool, nullifier));
        if pool_map(second, pool).dom().contains(nullifier) && target == pool_map(second, pool)[nullifier] {
            assert(target.block_height == pool_map(second, pool)[nullifier].block_height);
        } else {
            assert(target.block_height == pool_map(first, pool)[nullifier].block_height);
        }
        assert(has_block_range(parameters, before, target.block_height, target_pool(target, pool)));
        lemma_range_around_depends_on_ends(
            parameters,
            after,
            before,
            target.block_height,
            target_pool(target, pool),
        );
    }
}

/// Whether every nullifier of a note is that of a note of one of the others.
pub open spec fn notes_come_from(
    all: Map<TxId, TransactionView>,
    held: Map<TxId, TransactionView>,
    found: Map<TxId, TransactionView>,
) -> bool {
    forall|pool: ShieldedPool, nullifier: Nullifier| #[trigger]
        has_note(all, pool, nullifier) ==> has_note(held, pool, nullifier) || has_note(found, pool, nullifier)
}

/// Whether every entry is one of the two maps.
pub open spec fn entries_come_from(joined: &NullifierMap, first: &NullifierMap, second: &NullifierMap) -> bool {
    forall|pool: ShieldedPool, nullifier: Nullifier| #[trigger]
        pool_map(joined, pool).dom().contains(nullifier) ==> (pool_map(second, pool).dom().contains(nullifier)
            && pool_map(joined, pool)[nullifier] == pool_map(second, pool)[nullifier]) || (pool_map(
            first,
            pool,
        ).dom().contains(nullifier) && pool_map(joined, pool)[nullifier] == pool_map(first, pool)[nullifier])
}

proof fn lemma_nullifiers_awaiting<N>(notes: Seq<NoteView<N>>, ranges: Seq<BlockRange>)
    ensures
        nullifiers_of(notes_awaiting(notes, ranges)) == nullifiers_of(notes),
    decreases notes.len(),
{
    let after = notes_awaiting(notes, ranges);
    if notes.len() > 0 {
        lemma_nullifiers_awaiting(notes.drop_last(), ranges);
        assert(after.drop_last() =~= notes_awaiting(notes.drop_last(), ranges));
    }
}

/// The notes of the wallet, once results were added and coins were spent, are those of the wallet and of the results.
proof fn lemma_notes_come_from(
    held: Map<TxId, TransactionView>,
    found: Map<TxId, TransactionView>,
    added: Map<TxId, TransactionView>,
    spent: Map<TxId, TransactionView>,
    ranges: Seq<BlockRange>,
    spends: Map<OutputId, ScanTarget>,
)
    requires
        added == held.union_prefer_right(
            found.map_values(|transaction: TransactionView| awaiting(transaction, ranges)),
        ),
        spent == added.map_values(
            |transaction: TransactionView|
                TransactionView {
                    transparent_coins: spent_coins(transaction.transparent_coins, spends),
                    ..transaction
                },
        ),
    ensures
        notes_come_from(spent, held, found),
{
    assert forall|pool: ShieldedPool, nullifier: Nullifier| #[trigger] has_note(spent, pool, nullifier) implies has_note(
        held,
        pool,
        nullifier,
    ) || has_note(found, pool, nullifier) by {
        let txid = choose|txid: TxId| #[trigger]
            spent.dom().contains(txid) && note_nullifiers(spent[txid], pool).contains(nullifier);
        assert(added.dom().contains(txid));
        assert(note_nullifiers(added[txid], pool).contains(nullifier));
        if found.dom().contains(txid) {
            assert(added[txid] == awaiting(found[txid], ranges));
            lemma_nullifiers_awaiting(found[txid].sapling_notes, ranges);
            lemma_nullifiers_awaiting(found[txid].orchard_notes, ranges);
            lemma_nullifiers_awaiting(found[txid].ironwood_notes, ranges);
            assert(note_nullifiers(found[txid], pool).contains(nullifier));
        } else {
            assert(held.dom().contains(txid));
        }
    }
}

/// Takes the fetched transactions that spend the wallet's notes into the wallet, and marks the range as scanned.
pub fn finish_results(
    wallet: &mut Wallet,
    scan_range: &ScanRange,
    pending: PendingScan,
    spending_transactions: &mut WalletTransactions,
)
    requires
        old(wallet).wf(),
        pending.spends.wf(),
        pending.scanned_blocks.wf(),
        old(spending_transactions).wf(),
        filed_by_id(old(spending_transactions)),
        contiguous(old(wallet).sync_state.scan_ranges@),
        exists|i: int| #[trigger] holds(old(wallet).sync_state.scan_ranges@, i, scan_range.block_range),
    ensures
        final(wallet).wf(),
        contiguous(final(wallet).sync_state.scan_ranges@),
        exists|mid: Wallet| #[trigger]
            spends_finished(old(wallet), &mid, &pending.spends, old(spending_transactions)) && scan_completed(
                &mid,
                final(wallet),
                pending.scanned_blocks@,
                *scan_range,
                pending.nullifiers_mapped,
            ),
{
    let mut scanned_blocks = pending.scanned_blocks;
    finish_shielded_spends(wallet, &pending.spends, spending_transactions);
    let ghost mid = *wallet;
    complete_scan(wallet, &mut scanned_blocks, scan_range, pending.nullifiers_mapped);
    assert(spends_finished(old(wallet), &mid, &pending.spends, old(spending_transactions)));
}

/// Looks through nullifiers that were fetched again for spends of the wallet's notes.
///
/// They are only of use if their range is the first that is not scanned: otherwise notes of the ranges below may be
/// missing. Then the range is set back, to be fetched again.
pub fn begin_refetch(
    parameters: &ChainParameters,
    wallet: &mut Wallet,
    block_range: BlockRange,
    nullifiers: &mut NullifierMap,
) -> (r: Option<ShieldedSpends>)
    requires
        old(wallet).wf(),
        old(nullifiers).wf(),
        contiguous(old(wallet).sync_state.scan_ranges@),
        exists|i: int| #[trigger] holds(old(wallet).sync_state.scan_ranges@, i, block_range),
        exists|i: int|
            0 <= i < old(wallet).sync_state.scan_ranges@.len() && (#[trigger] old(wallet).sync_state.scan_ranges@[i]).priority != ScanPriority::Scanned,
        spends_placed(
            parameters,
            &old(wallet).sync_state,
            tx_views(old(wallet).wallet_transactions@),
            &old(wallet).nullifiers,
        ),
        spends_placed(
            parameters,
            &old(wallet).sync_state,
            tx_views(old(wallet).wallet_transactions@),
            old(nullifiers),
        ),
    ensures
        final(wallet).wf(),
        contiguous(final(wallet).sync_state.scan_ranges@),
        exists|i: int| #[trigger]
            is_first_open(old(wallet).sync_state.scan_ranges@, i) && r.is_some() == holds(
                old(wallet).sync_state.scan_ranges@,
                i,
                block_range,
            ),
        match r {
            Some(spends) => spends.wf() && spends_marked(
                parameters,
                old(wallet),
                final(wallet),
                old(nullifiers),
                &spends,
            ),
            None => {
                let ranges = old(wallet).sync_state.scan_ranges@;
                let at = holder(ranges, block_range);
                &&& final(wallet).sync_state.scan_ranges@ == spliced(
                    ranges,
                    at,
                    split_out(ranges[at], block_range, ScanPriority::ScannedWithoutMapping),
                )
                &&& final(wallet).sync_state.same_but_scan_ranges(&old(wallet).sync_state)
                &&& *final(wallet) == (Wallet { sync_state: final(wallet).sync_state, ..*old(wallet) })
            },
        },
{
    proof {
        let i = choose|i: int| #[trigger] holds(wallet.sync_state.scan_ranges@, i, block_range);
        assert(holds(wallet.sync_state.scan_ranges@, i, block_range));
    }
    if !refetch_is_usable(&wallet.sync_state, &block_range) {
        reset_refetching_nullifiers_scan_range(&mut wallet.sync_state, block_range);
        return None;
    }
    Some(detect_and_mark_spends(parameters, wallet, nullifiers))
}

/// Takes the fetched transactions that spend the wallet's notes into the wallet, and marks the range whose nullifiers
/// were fetched again as scanned.
pub fn finish_refetch(
    wallet: &mut Wallet,
    block_range: BlockRange,
    spends: &ShieldedSpends,
    spending_transactions: &mut WalletTransactions,
)
    requires
        old(wallet).wf(),
        spends.wf(),
        old(spending_transactions).wf(),
        filed_by_id(old(spending_transactions)),
        contiguous(old(wallet).sync_state.scan_ranges@),
        exists|i: int| #[trigger] holds(old(wallet).sync_state.scan_ranges@, i, block_range),
    ensures
        final(wallet).wf(),
        contiguous(final(wallet).sync_state.scan_ranges@),
        exists|mid: Wallet| #[trigger]
            spends_finished(old(wallet), &mid, spends, old(spending_transactions)) && refetch_completed(
                &mid,
                final(wallet),
                block_range,
            ),
{
    finish_shielded_spends(wallet, spends, spending_transactions);
    let ghost mid = *wallet;
    complete_refetch(wallet, block_range);
    assert(spends_finished(old(wallet), &mid, spends, old(spending_transactions)));
}

} // verus!
