//! What becomes of the results of a scan, said of the blocks, notes and coins that they are about.
use crate::chain::ChainParameters;
use crate::config::PerformanceLevel;
use crate::error::{ContinuityError, ScanError, ServerError, SyncError};
use crate::primitives::{BlockHeight, BlockRange, Nullifier, OutputId, ShieldedPool, TxId};
use crate::scan_range::{
    contiguous, covered_by, covers, lemma_contiguous_is_ordered, lemma_priority_at, priority_at, spliced,
    ScanPriority, ScanRange,
};
use crate::sync::cleanup_laws::is_in_block;
use crate::sync::process::{found_of, maps_nullifiers, maps_outpoints, outpoints_if, results_begun, PendingScan};
use crate::sync::range_laws::{law_scanned_blocks_are_marked, law_the_chosen_end_is_verified};
use crate::sync::results::{
    drain, is_lowest, is_missing_bound, is_under_way, missing_bounds, over_limit, refetch_completed, reorg_handled,
    result_step, scan_completed, with_scanned, ResultStep, ScanResults,
};
use crate::sync::session::{height_check, rescan_start, HeightCheck};
use crate::sync::spend_laws::{
    is_own, law_exactly_own_spends_are_detected, law_spent_coins_are_marked, mapped_in, spent_in,
};
use crate::sync::state::{blocks_to_verify, coverer, first_with_blocks, holds, law_merged, merged, split_out, VerifyEnd};
use crate::sync::truncate::wallet_cleared;
use crate::sync::update_laws::law_revealed_data_is_mapped;
use crate::wallet::data::Wallet;
use crate::wallet::status::ConfirmationStatus;
use crate::wallet::stores::{tx_views, NullifierMap, WalletBlock};
use crate::wallet::sync_state::{below, ScanTarget, SyncState};
use vstd::prelude::*;

verus! {

// --- what becomes of results ---

/// Results without an error complete a scan, or a refetch where the range lacked only its nullifiers.
pub proof fn law_good_results_complete(scan_range: ScanRange)
    ensures
        scan_range.priority is ScannedWithoutMapping ==> result_step(scan_range, None) is Refetched,
        !(scan_range.priority is ScannedWithoutMapping) ==> result_step(scan_range, None) is Scanned,
{
}

/// A first block that does not follow the block below it is a re-org exactly where the range is being verified. Any other
/// break in the chain ends the session, and tree sizes that disagree reopen the pool they are of.
pub proof fn law_breaks_are_told_apart(scan_range: ScanRange, error: &ScanError)
    ensures
        ({
            let step = result_step(scan_range, Some(error));
            &&& !(step is Scanned) && !(step is Refetched)
            &&& step is Reorg ==> scan_range.priority is Verify && step == ResultStep::Reorg {
                height: scan_range.block_range.start,
            }
            &&& *error matches ScanError::ContinuityError(ContinuityError::HashDiscontinuity { height, .. }) ==> (
            step is Reorg) == (height == scan_range.block_range.start && scan_range.priority is Verify)
            &&& *error matches ScanError::ContinuityError(ContinuityError::HeightDiscontinuity { .. }) ==> step is Fail
            &&& *error matches ScanError::IncorrectTreeSize {
                shielded_protocol,
                height,
                block_metadata_size,
                calculated_size,
            } ==> step == ResultStep::Reopen {
                pool: shielded_protocol,
                height,
                block_metadata_size,
                calculated_size,
            }
            &&& !(*error is ContinuityError) && !(*error is IncorrectTreeSize) ==> step is Fail
        }),
{
}

/// The session goes on while there are transactions to work on, waits for the mempool no longer than a second, and no
/// longer than it takes the stream to settle, and ends only without workers.
pub proof fn law_the_session_ends_in_time(
    scan_workers: usize,
    unprocessed: u32,
    connected_for: Option<u64>,
    elapsed: u64,
)
    ensures
        ({
            let verdict = drain(scan_workers, unprocessed, connected_for, elapsed);
            let settled = connected_for.is_some() && connected_for->0 >= 200;
            &&& unprocessed > 0 ==> verdict is Reenter
            &&& unprocessed == 0 && elapsed < 1_000 && !settled ==> verdict is KeepPolling
            &&& unprocessed == 0 && (elapsed >= 1_000 || settled) && scan_workers == 0 ==> verdict is Shutdown
            &&& unprocessed == 0 && (elapsed >= 1_000 || settled) && scan_workers > 0 ==> verdict is Reenter
        }),
{
}

/// The blocks that are asked for are exactly those on either side of the two ends of a part, within the range that it is
/// a part of, that the wallet does not hold.
pub proof fn law_missing_bounds(
    blocks: Map<BlockHeight, WalletBlock>,
    whole: BlockRange,
    part: BlockRange,
    height: BlockHeight,
)
    requires
        part.start > 0,
        part.end > 0,
    ensures
        missing_bounds(blocks, whole, part).contains(height) == (part != whole && (height + 1 == part.start || height
            == part.start || height + 1 == part.end || height == part.end) && whole.start <= height < whole.end
            && !blocks.dom().contains(height)),
{
    let bounds = crate::sync::results::bounds_of(part);
    let keep = |h: BlockHeight| is_missing_bound(blocks, whole, h);
    if part != whole {
        let kept = bounds.filter(keep);
        if kept.contains(height) {
            let i = choose|i: int| 0 <= i < kept.len() && kept[i] == height;
            bounds.lemma_filter_pred(keep, i);
            bounds.lemma_filter_contains_rev(keep, height);
            assert(bounds.contains(height));
        }
        if bounds.contains(height) && keep(height) {
            let i = choose|i: int| 0 <= i < bounds.len() && bounds[i] == height;
            bounds.lemma_filter_contains(keep, i);
        }
        assert(bounds[0] == below(part.start));
        assert(bounds[1] == part.start);
        assert(bounds[2] == below(part.end));
        assert(bounds[3] == part.end);
    }
}

// --- what is mapped ---

/// The most nullifiers that the wallet maps at a level, where there is a limit.
pub open spec fn most_nullifiers(level: PerformanceLevel) -> Option<int> {
    match level {
        PerformanceLevel::Low => Some(0),
        PerformanceLevel::Medium => Some(125_000),
        PerformanceLevel::High => Some(2_000_000),
        PerformanceLevel::Maximum => None,
    }
}

/// The nullifiers of all pools count towards the limit, those that are mapped and those that are new.
pub proof fn law_all_pools_count_towards_the_limit(
    level: PerformanceLevel,
    mapped: &NullifierMap,
    new: &NullifierMap,
)
    ensures
        over_limit(level, mapped.count(), new.count()) == (most_nullifiers(level).is_some()
            && mapped.sapling.listed().len() + mapped.orchard.listed().len() + mapped.ironwood.listed().len()
            + new.sapling.listed().len() + new.orchard.listed().len() + new.ironwood.listed().len() > most_nullifiers(
            level,
        )->0),
{
}

/// A range is the lowest to be scanned if it is being scanned and every range below it is scanned, with its nullifiers
/// mapped or about to be, or is being scanned.
pub proof fn law_the_lowest_range_has_none_below(ranges: Seq<ScanRange>, block_range: BlockRange, i: int)
    requires
        contiguous(ranges),
        holds(ranges, i, block_range),
    ensures
        is_lowest(ranges, block_range) == (ranges[i].priority is Scanning && forall|k: int|
            0 <= k < i ==> ((#[trigger] ranges[k]).priority is Scanned || ranges[k].priority is Scanning
                || ranges[k].priority is RefetchingNullifiers)),
{
    lemma_contiguous_is_ordered(ranges);
    if is_lowest(ranges, block_range) {
        let h = choose|h: int| #[trigger]
            holds(ranges, h, block_range) && ranges[h].priority == ScanPriority::Scanning && forall|k: int|
                0 <= k < h ==> is_under_way((#[trigger] ranges[k]).priority);
        assert(holds(ranges, h, block_range));
        if h < i {
            assert(ranges[h].block_range.end <= ranges[i].block_range.start);
        }
        if i < h {
            assert(ranges[i].block_range.end <= ranges[h].block_range.start);
        }
        assert(h == i);
        assert forall|k: int| 0 <= k < i implies ((#[trigger] ranges[k]).priority is Scanned
            || ranges[k].priority is Scanning || ranges[k].priority is RefetchingNullifiers) by {
            assert(is_under_way(ranges[k].priority));
        }
    }
    if ranges[i].priority is Scanning && forall|k: int|
        0 <= k < i ==> ((#[trigger] ranges[k]).priority is Scanned || ranges[k].priority is Scanning
            || ranges[k].priority is RefetchingNullifiers) {
        assert forall|k: int| 0 <= k < i implies is_under_way((#[trigger] ranges[k]).priority) by {}
        assert(holds(ranges, i, block_range));
    }
}

/// Outputs that are spent are mapped exactly where the range was scanned for what it may hold of the wallet's.
pub proof fn law_outpoints_of_target_ranges_are_mapped(scan_range: &ScanRange)
    ensures
        maps_outpoints(scan_range) == (scan_range.priority is FoundNote || scan_range.priority is ChainTip
            || scan_range.priority is Verify),
{
}

/// Whether or not the nullifiers of a scan are mapped, every spend of a note of the wallet's, old or newly found, that the
/// scan revealed or that was mapped before is detected, and no other.
pub proof fn law_spends_in_a_scan_are_detected(
    parameters: &ChainParameters,
    before: &Wallet,
    after: &Wallet,
    scan_range: &ScanRange,
    results: &ScanResults,
    pending: &PendingScan,
    added: &Wallet,
    spent: &Wallet,
    mapped: &NullifierMap,
    additional: &NullifierMap,
    pool: ShieldedPool,
    nullifier: Nullifier,
)
    requires
        results_begun(parameters, before, after, scan_range, results, pending, added, spent, mapped, additional),
        spent.wf(),
    ensures
        spent_in(&pending.spends, pool).dom().contains(nullifier) == (is_own(
            &spent.wallet_transactions,
            pool,
            nullifier,
        ) && (mapped_in(&results.nullifiers, pool).dom().contains(nullifier) || mapped_in(
            &before.nullifiers,
            pool,
        ).dom().contains(nullifier))),
{
    law_revealed_data_is_mapped(
        parameters,
        before,
        added,
        scan_range,
        mapped,
        outpoints_if(maps_outpoints(scan_range), results),
        &found_of(results),
        Ok(()),
        pool,
        nullifier,
        arbitrary(),
    );
    law_exactly_own_spends_are_detected(parameters, spent, after, additional, &pending.spends, pool, nullifier);
    match pool {
        ShieldedPool::Sapling => {},
        ShieldedPool::Orchard => {},
        ShieldedPool::Ironwood => {},
    }
}

/// Whether or not the spent outputs of a scan are mapped, every coin of the wallet's, old or newly found, that the scan saw
/// spent, or that was known to be, is marked, by the transaction that spends it.
pub proof fn law_coins_spent_in_a_scan_are_marked(
    parameters: &ChainParameters,
    before: &Wallet,
    after: &Wallet,
    scan_range: &ScanRange,
    results: &ScanResults,
    pending: &PendingScan,
    added: &Wallet,
    spent: &Wallet,
    mapped: &NullifierMap,
    additional: &NullifierMap,
    txid: TxId,
    j: int,
)
    requires
        results_begun(parameters, before, after, scan_range, results, pending, added, spent, mapped, additional),
        added.wf(),
        added.wallet_transactions@.dom().contains(txid),
        0 <= j < added.wallet_transactions@[txid].transparent_coins@.len(),
    ensures
        ({
            let id = added.wallet_transactions@[txid].transparent_coins@[j].output_id;
            &&& spent.wallet_transactions@.dom().contains(txid)
            &&& spent.wallet_transactions@[txid].transparent_coins@.len()
                == added.wallet_transactions@[txid].transparent_coins@.len()
            &&& spent.wallet_transactions@[txid].transparent_coins@[j].spending_transaction
                == if results.outpoints@.dom().contains(id) {
                Some(results.outpoints@[id].txid)
            } else if before.outpoints@.dom().contains(id) {
                Some(before.outpoints@[id].txid)
            } else {
                added.wallet_transactions@[txid].transparent_coins@[j].spending_transaction
            }
        }),
{
    let id = added.wallet_transactions@[txid].transparent_coins@[j].output_id;
    law_revealed_data_is_mapped(
        parameters,
        before,
        added,
        scan_range,
        mapped,
        outpoints_if(maps_outpoints(scan_range), results),
        &found_of(results),
        Ok(()),
        ShieldedPool::Sapling,
        arbitrary(),
        id,
    );
    law_spent_coins_are_marked(
        &added.wallet_transactions,
        &spent.wallet_transactions,
        added.outpoints@,
        spent.outpoints@,
        outpoints_if(!maps_outpoints(scan_range), results),
        txid,
        j,
    );
}

// --- what is completed ---

proof fn lemma_marked(ranges: Seq<ScanRange>, block_range: BlockRange, mapped: bool, i: int, height: int)
    requires
        contiguous(ranges),
        holds(ranges, i, block_range),
    ensures
        ({
            let after = with_scanned(ranges, block_range, mapped);
            &&& contiguous(after)
            &&& after.len() > 0
            &&& priority_at(after, height) == if block_range.start <= height < block_range.end {
                if mapped {
                    Some(ScanPriority::Scanned)
                } else {
                    Some(ScanPriority::ScannedWithoutMapping)
                }
            } else {
                priority_at(ranges, height)
            }
        }),
{
    let priority = if mapped {
        ScanPriority::Scanned
    } else {
        ScanPriority::ScannedWithoutMapping
    };
    let after = with_scanned(ranges, block_range, mapped);
    law_scanned_blocks_are_marked(ranges, after, block_range, priority, i, height);
    lemma_contiguous_is_ordered(ranges);
    crate::sync::state::lemma_holder(ranges, block_range, i);
    assert(ranges[i].covers_blocks());
    crate::sync::state::lemma_split_out(ranges[i], block_range, priority);
    crate::scan_range::lemma_spliced_contiguous(ranges, i, split_out(ranges[i], block_range, priority));
}

/// Once a scan is completed, the blocks of its range are scanned, with their nullifiers or without, and no other block
/// changes its priority.
pub proof fn law_a_completed_scan_is_scanned(
    before: &Wallet,
    after: &Wallet,
    scanned_blocks: Map<BlockHeight, WalletBlock>,
    scan_range: ScanRange,
    nullifiers_mapped: bool,
    i: int,
    height: int,
)
    requires
        contiguous(before.sync_state.scan_ranges@),
        holds(before.sync_state.scan_ranges@, i, scan_range.block_range),
        scan_completed(before, after, scanned_blocks, scan_range, nullifiers_mapped),
    ensures
        priority_at(after.sync_state.scan_ranges@, height) == if scan_range.block_range.start <= height
            < scan_range.block_range.end {
            if nullifiers_mapped {
                Some(ScanPriority::Scanned)
            } else {
                Some(ScanPriority::ScannedWithoutMapping)
            }
        } else {
            priority_at(before.sync_state.scan_ranges@, height)
        },
{
    let ranges = before.sync_state.scan_ranges@;
    lemma_marked(ranges, scan_range.block_range, nullifiers_mapped, i, height);
    let split = with_scanned(ranges, scan_range.block_range, nullifiers_mapped);
    law_merged(split, ScanPriority::ScannedWithoutMapping, height);
    law_merged(merged(split, ScanPriority::ScannedWithoutMapping), ScanPriority::Scanned, height);
}

/// Once a refetch is completed, the blocks of its range are scanned, and no other block changes its priority.
pub proof fn law_a_completed_refetch_is_scanned(
    before: &Wallet,
    after: &Wallet,
    block_range: BlockRange,
    i: int,
    height: int,
)
    requires
        contiguous(before.sync_state.scan_ranges@),
        holds(before.sync_state.scan_ranges@, i, block_range),
        refetch_completed(before, after, block_range),
    ensures
        priority_at(after.sync_state.scan_ranges@, height) == if block_range.start <= height < block_range.end {
            Some(ScanPriority::Scanned)
        } else {
            priority_at(before.sync_state.scan_ranges@, height)
        },
{
    let ranges = before.sync_state.scan_ranges@;
    lemma_marked(ranges, block_range, true, i, height);
    law_merged(with_scanned(ranges, block_range, true), ScanPriority::Scanned, height);
}

/// A completed scan keeps the scanned blocks of the wallet's transactions, and of what is mapped, in every pool, exactly
/// what lies above the height up to which all is scanned now. Transactions and trees are left alone.
pub proof fn law_a_completed_scan_settles(
    before: &Wallet,
    after: &Wallet,
    scanned_blocks: Map<BlockHeight, WalletBlock>,
    scan_range: ScanRange,
    nullifiers_mapped: bool,
    pool: ShieldedPool,
    nullifier: Nullifier,
    id: OutputId,
    target: ScanTarget,
    txid: TxId,
    height: BlockHeight,
)
    requires
        scan_completed(before, after, scanned_blocks, scan_range, nullifiers_mapped),
    ensures
        is_in_block(before, txid, height) && scanned_blocks.dom().contains(height)
            ==> after.wallet_blocks@.dom().contains(height) && after.wallet_blocks@[height] == scanned_blocks[height],
        mapped_in(&after.nullifiers, pool).dom().contains(nullifier) == (mapped_in(
            &before.nullifiers,
            pool,
        ).dom().contains(nullifier) && mapped_in(&before.nullifiers, pool)[nullifier].block_height
            > after.sync_state.scanned_to()->0),
        after.outpoints@.dom().contains(id) == (before.outpoints@.dom().contains(id)
            && before.outpoints@[id].block_height > after.sync_state.scanned_to()->0),
        after.sync_state.scan_targets@.dom().contains(target) == (before.sync_state.scan_targets@.dom().contains(target)
            && target.block_height > after.sync_state.scanned_to()->0),
        after.wallet_transactions == before.wallet_transactions,
        after.shard_trees == before.shard_trees,
{
    if is_in_block(before, txid, height) {
        let views = tx_views(before.wallet_transactions@);
        assert(views.dom().contains(txid));
        assert(views[txid].status.confirmed_height() == Some(height));
    }
}

// --- re-orgs ---

/// A re-org at the first block of a range that is being verified has that range verified again, and the blocks right below
/// it, ten at most. No other block changes its priority, and the wallet's data goes from the first of those blocks on, or
/// all of it where that is more than a hundred blocks below where the search began.
pub proof fn law_a_reorg_is_followed_down<E>(
    before: &Wallet,
    after: &Wallet,
    block_range: BlockRange,
    initial_start: BlockHeight,
    now: u32,
    r: Result<BlockHeight, SyncError<E>>,
    mid: &Wallet,
    start: BlockHeight,
    b: int,
    height: int,
)
    requires
        contiguous(before.sync_state.scan_ranges@),
        0 < b < before.sync_state.scan_ranges@.len(),
        before.sync_state.scan_ranges@[b].block_range == block_range,
        reorg_handled(before, after, block_range, block_range.start, initial_start, now, r, mid, start),
    ensures
        start < block_range.start,
        block_range.start - start <= 10,
        block_range.start - start == 10 || start == before.sync_state.scan_ranges@[b - 1].block_range.start,
        priority_at(mid.sync_state.scan_ranges@, height) == if start <= height < block_range.end {
            Some(ScanPriority::Verify)
        } else {
            priority_at(before.sync_state.scan_ranges@, height)
        },
        initial_start - start > 100 ==> r == Err::<BlockHeight, SyncError<E>>(
            SyncError::ServerError(ServerError::ChainVerificationError),
        ) && after.wallet_transactions@.dom() == Set::<TxId>::empty(),
        initial_start - start <= 100 ==> !(r matches Err(SyncError::ServerError(_))),
        initial_start - start <= 100 && r.is_ok() ==> r->Ok_0 + 1
            == before.sync_state.scan_ranges@.last().block_range.end,
{
    let ranges = before.sync_state.scan_ranges@;
    lemma_contiguous_is_ordered(ranges);
    let i = choose|i: int| #[trigger]
        first_with_blocks(ranges, i, block_range) && {
            let reset = ranges.update(i, ScanRange { block_range, priority: ScanPriority::Verify });
            let at = coverer(reset, below(block_range.start) as int);
            let verified = blocks_to_verify(reset[at].block_range, VerifyEnd::VerifyHighest);
            &&& start == verified.start
            &&& mid.sync_state.scan_ranges@ == merged(
                spliced(reset, at, split_out(reset[at], verified, ScanPriority::Verify)),
                ScanPriority::Verify,
            )
        };
    assert(first_with_blocks(ranges, i, block_range));
    assert(ranges[b].covers_blocks());
    if i < b {
        assert(ranges[i].block_range.end <= ranges[b].block_range.start);
    }
    if b < i {
        assert(ranges[b].block_range.end <= ranges[i].block_range.start);
    }
    assert(i == b);
    let reset = ranges.update(i, ScanRange { block_range, priority: ScanPriority::Verify });
    crate::sync::state::lemma_same_blocks_contiguous(ranges, reset);
    lemma_contiguous_is_ordered(reset);
    assert(crate::scan_range::meets_next(ranges, b - 1));
    assert(ranges[b - 1].covers_blocks());
    assert(covered_by(reset, b - 1, below(block_range.start) as int));
    let at = coverer(reset, below(block_range.start) as int);
    assert(covered_by(reset, at, below(block_range.start) as int));
    let verified = blocks_to_verify(reset[at].block_range, VerifyEnd::VerifyHighest);
    let split = spliced(reset, at, split_out(reset[at], verified, ScanPriority::Verify));
    law_the_chosen_end_is_verified(
        reset,
        split,
        below(block_range.start),
        VerifyEnd::VerifyHighest,
        ScanRange { block_range: verified, priority: ScanPriority::Verify },
        b - 1,
        height,
    );
    if at < b - 1 {
        assert(reset[at].block_range.end <= reset[b - 1].block_range.start);
    }
    if b - 1 < at {
        assert(reset[b - 1].block_range.end <= reset[at].block_range.start);
    }
    assert(at == b - 1);
    crate::sync::state::lemma_split_out(reset[at], verified, ScanPriority::Verify);
    crate::scan_range::lemma_spliced_contiguous(reset, at, split_out(reset[at], verified, ScanPriority::Verify));
    law_merged(split, ScanPriority::Verify, height);
    if covers(ranges, height) {
        let c = choose|c: int| #[trigger] covered_by(ranges, c, height);
        lemma_priority_at(ranges, c, height);
        assert(covered_by(reset, c, height));
        lemma_priority_at(reset, c, height);
        if c != b && block_range.start <= height < block_range.end {
            assert(covered_by(ranges, b, height));
            lemma_priority_at(ranges, b, height);
            if c < b {
                assert(ranges[c].block_range.end <= ranges[b].block_range.start);
            } else {
                assert(ranges[b].block_range.end <= ranges[c].block_range.start);
            }
        }
    } else {
        if covers(reset, height) {
            let c = choose|c: int| #[trigger] covered_by(reset, c, height);
            assert(covered_by(ranges, c, height));
        }
        if block_range.start <= height < block_range.end {
            assert(covered_by(ranges, b, height));
        }
    }
    assert(ranges[ranges.len() - 1].covers_blocks());
}

// --- beginning ---

/// A wallet that has synced and is a hundred blocks or more ahead of the chain is refused, with its height; one that is less
/// ahead is taken back to the chain; one that is not ahead stays where it is.
pub proof fn law_wallets_far_ahead_are_refused(
    state: &SyncState,
    birthday: BlockHeight,
    chain_height: BlockHeight,
    sapling_activation: BlockHeight,
)
    requires
        state.scan_ranges@.len() > 0,
        state.scan_ranges@.last().block_range.end > 0,
    ensures
        ({
            let known = state.scan_ranges@.last().block_range.end - 1;
            let check = height_check(state, birthday, chain_height, sapling_activation);
            &&& known <= chain_height ==> (check matches HeightCheck::At(height) && height == known)
            &&& chain_height < known < chain_height + 100 ==> check is Rewound
            &&& known >= chain_height + 100 ==> (check matches HeightCheck::Ahead(height) && height == known)
        }),
{
}

/// A wallet that has never synced starts below its birthday, which may be neither above the chain nor below the activation
/// of sapling.
pub proof fn law_new_wallets_start_below_their_birthday(
    state: &SyncState,
    birthday: BlockHeight,
    chain_height: BlockHeight,
    sapling_activation: BlockHeight,
)
    requires
        state.scan_ranges@.len() == 0,
    ensures
        ({
            let check = height_check(state, birthday, chain_height, sapling_activation);
            &&& birthday > chain_height ==> (check matches HeightCheck::Ahead(height) && height == birthday)
            &&& birthday <= chain_height && birthday < sapling_activation ==> check is BelowSapling
            &&& sapling_activation <= birthday <= chain_height && birthday > 0 ==> (check matches HeightCheck::At(height)
                && height + 1 == birthday)
        }),
{
}

/// The history of a pool is scanned again from no earlier than the pool or the wallet exists, and from no later than both
/// do.
pub proof fn law_a_rescan_starts_where_both_exist(activation: BlockHeight, birthday: BlockHeight)
    ensures
        rescan_start(activation, birthday) >= activation,
        rescan_start(activation, birthday) >= birthday,
        rescan_start(activation, birthday) == activation || rescan_start(activation, birthday) == birthday,
{
}

/// A wallet that is cleared remembers exactly its transactions that are in a block, as targets near which to scan.
pub proof fn law_cleared_wallets_remember_their_transactions(
    before: &Wallet,
    after: &Wallet,
    txid: TxId,
    height: BlockHeight,
    narrow_scan_area: bool,
)
    requires
        wallet_cleared(before, tx_views(before.wallet_transactions@), after),
    ensures
        after.sync_state.scan_targets@.dom().contains(ScanTarget { block_height: height, txid, narrow_scan_area }) == (
        narrow_scan_area && before.wallet_transactions@.dom().contains(txid) && before.wallet_transactions@[txid].status
            == ConfirmationStatus::Confirmed(height)),
        !after.wallet_transactions@.dom().contains(txid),
        after.wallet_blocks@.dom().contains(height) ==> height == 0,
        after.sync_state.scan_ranges@.len() == 0,
{
    let target = ScanTarget { block_height: height, txid, narrow_scan_area };
    assert(after.sync_state.scan_targets@.dom().contains(target) == after.sync_state.scan_targets@.dom().contains(
        target,
    ));
    assert(tx_views(before.wallet_transactions@).dom().contains(txid) == before.wallet_transactions@.dom().contains(
        txid,
    ));
}

// --- mapping ---

/// The nullifiers of the lowest range are mapped in any case. Those of another are mapped exactly where no more were found
/// before than may be held, and all there are, of all pools, held and found, are within the limit of the level.
pub proof fn law_nullifiers_are_mapped_within_the_limit(
    wallet: &Wallet,
    scan_range: &ScanRange,
    results: &ScanResults,
    performance_level: PerformanceLevel,
    limit_exceeded: bool,
)
    ensures
        ({
            let maps = maps_nullifiers(wallet, scan_range, results, performance_level, limit_exceeded);
            let all = wallet.nullifiers.sapling.listed().len() + wallet.nullifiers.orchard.listed().len()
                + wallet.nullifiers.ironwood.listed().len() + results.nullifiers.sapling.listed().len()
                + results.nullifiers.orchard.listed().len() + results.nullifiers.ironwood.listed().len();
            let within = match performance_level {
                PerformanceLevel::Low => all == 0,
                PerformanceLevel::Medium => all <= 125_000,
                PerformanceLevel::High => all <= 2_000_000,
                PerformanceLevel::Maximum => true,
            };
            &&& is_lowest(wallet.sync_state.scan_ranges@, scan_range.block_range) ==> maps
            &&& !is_lowest(wallet.sync_state.scan_ranges@, scan_range.block_range) ==> maps == (!limit_exceeded && within)
        }),
{
}

/// What is added to the wallet is what was found: the transactions, and the leaves of each pool.
pub proof fn law_what_was_found_is_added(results: &ScanResults)
    ensures
        found_of(results).transactions == results.wallet_transactions,
        found_of(results).sapling_located_trees == results.sapling_located_trees,
        found_of(results).orchard_located_trees == results.orchard_located_trees,
        found_of(results).ironwood_located_trees == results.ironwood_located_trees,
{
}

} // verus!
