//! What becomes of the results of scanning a range of blocks.
use crate::config::{max_nullifier_map_size, nullifier_map_limit, PerformanceLevel};
use crate::error::{ContinuityError, ScanError, ServerError, SyncError};
use crate::primitives::{BlockHeight, BlockRange, ShieldedPool, TxId};
use crate::scan_range::{contiguous, covers, lemma_contiguous_is_ordered, spliced, ScanPriority, ScanRange};
use crate::sync::cleanup::{add_scanned_blocks, is_kept_block, relevant_blocks, remove_irrelevant_data};
use crate::sync::session::MAX_REORG_ALLOWANCE;
use crate::sync::state::{
    blocks_to_verify, coverer, find_holder, first_with_blocks, holder, holds, merge_scan_ranges, merged,
    set_scan_priority, set_scanned_scan_range, set_verify_scan_range, split_out, VerifyEnd,
};
use crate::sync::truncate::{clear_wallet_data, data_truncated, truncate_data_for_verification, wallet_cleared};
use crate::trees::LocatedTreeData;
use crate::wallet::data::{beyond, Wallet};
use crate::wallet::stores::{tx_views, NullifierMap, OutPoints, WalletBlock, WalletBlocks, WalletTransactions};
use crate::wallet::sync_state::{below, SyncState};
use vstd::prelude::*;

verus! {

/// What scanning a range of blocks gave.
pub struct ScanResults {
    pub nullifiers: NullifierMap,
    pub outpoints: OutPoints,
    pub scanned_blocks: WalletBlocks,
    pub wallet_transactions: WalletTransactions,
    pub sapling_located_trees: Vec<LocatedTreeData>,
    pub orchard_located_trees: Vec<LocatedTreeData>,
    pub ironwood_located_trees: Vec<LocatedTreeData>,
}

/// What becomes of the results of a range.
#[derive(Clone, Copy, Debug, PartialEq, Eq, Structural)]
pub enum ResultStep {
    /// The range was scanned.
    Scanned,
    /// The nullifiers of the range were fetched again.
    Refetched,
    /// The range, which was being verified, does not follow the block below it: there was a re-org.
    Reorg { height: BlockHeight },
    /// The wallet's history of a pool cannot account for the chain: it is reopened.
    Reopen { pool: ShieldedPool, height: BlockHeight, block_metadata_size: u32, calculated_size: u32 },
    /// The session ends with the error.
    Fail,
}

/// What becomes of the results of a range, which are an error or not.
pub open spec fn result_step(scan_range: ScanRange, error: Option<&ScanError>) -> ResultStep {
    match error {
        None => if scan_range.priority == ScanPriority::ScannedWithoutMapping {
            ResultStep::Refetched
        } else {
            ResultStep::Scanned
        },
        Some(ScanError::ContinuityError(ContinuityError::HashDiscontinuity { height, .. })) => if *height
            == scan_range.block_range.start && scan_range.priority == ScanPriority::Verify {
            ResultStep::Reorg { height: *height }
        } else {
            ResultStep::Fail
        },
        Some(ScanError::IncorrectTreeSize { shielded_protocol, height, block_metadata_size, calculated_size }) => {
            ResultStep::Reopen {
                pool: *shielded_protocol,
                height: *height,
                block_metadata_size: *block_metadata_size,
                calculated_size: *calculated_size,
            }
        },
        Some(_) => ResultStep::Fail,
    }
}

/// Says what becomes of the results of a range.
pub fn step_for_results(scan_range: &ScanRange, error: Option<&ScanError>) -> (r: ResultStep)
    ensures
        r == result_step(*scan_range, error),
{
    match error {
        None => if scan_range.priority == ScanPriority::ScannedWithoutMapping {
            ResultStep::Refetched
        } else {
            ResultStep::Scanned
        },
        Some(ScanError::ContinuityError(ContinuityError::HashDiscontinuity { height, .. })) => if *height
            == scan_range.block_range.start && scan_range.priority == ScanPriority::Verify {
            ResultStep::Reorg { height: *height }
        } else {
            ResultStep::Fail
        },
        Some(ScanError::IncorrectTreeSize { shielded_protocol, height, block_metadata_size, calculated_size }) => {
            ResultStep::Reopen {
                pool: *shielded_protocol,
                height: *height,
                block_metadata_size: *block_metadata_size,
                calculated_size: *calculated_size,
            }
        },
        Some(_) => ResultStep::Fail,
    }
}

// --- shutting down ---

/// What the scanner does when nothing is left to scan.
#[derive(Clone, Copy, Debug, PartialEq, Eq, Structural)]
pub enum DrainVerdict {
    /// Drained, and the mempool stream has settled: end the session.
    Shutdown,
    /// Work appeared, or the workers keep running: go back to processing.
    Reenter,
    /// Undecided: wait a little and ask again.
    KeepPolling,
}

/// How long after it is connected the mempool stream counts as settled, in milliseconds.
pub const MEMPOOL_DRAIN_SETTLE: u64 = 200;

/// How long the session is held open for the mempool stream at most, in milliseconds.
pub const MEMPOOL_DRAIN_CEILING: u64 = 1_000;

/// What the scanner does when nothing is left to scan.
///
/// Unprocessed transactions are always worked on. A stream that has been connected long enough, or has not settled
/// within the time for it, ends the session unless workers are left: those are retired by processing, not by waiting.
pub open spec fn drain(scan_workers: usize, unprocessed: u32, connected_for: Option<u64>, elapsed: u64) -> DrainVerdict {
    let settled = connected_for matches Some(age) && age >= MEMPOOL_DRAIN_SETTLE;
    if unprocessed > 0 {
        DrainVerdict::Reenter
    } else if elapsed < MEMPOOL_DRAIN_CEILING && !settled {
        DrainVerdict::KeepPolling
    } else if scan_workers == 0 {
        DrainVerdict::Shutdown
    } else {
        DrainVerdict::Reenter
    }
}

/// The drain policy for scanner shutdown.
///
/// `connected_for` is the age of the mempool stream subscription in milliseconds, or none until it is established.
/// Being connected, and not the first delivery, is what counts: an empty mempool never delivers. The settle window
/// covers the time from subscribing to receiving what the mempool held before.
pub fn drain_verdict(
    scan_workers: usize,
    unprocessed_mempool_transactions: u32,
    connected_for: Option<u64>,
    poll_elapsed: u64,
) -> (r: DrainVerdict)
    ensures
        r == drain(scan_workers, unprocessed_mempool_transactions, connected_for, poll_elapsed),
{
    if unprocessed_mempool_transactions > 0 {
        return DrainVerdict::Reenter;
    }
    if poll_elapsed >= MEMPOOL_DRAIN_CEILING {
        return if scan_workers == 0 {
            DrainVerdict::Shutdown
        } else {
            DrainVerdict::Reenter
        };
    }
    match connected_for {
        Some(age) => if age >= MEMPOOL_DRAIN_SETTLE {
            if scan_workers == 0 {
                DrainVerdict::Shutdown
            } else {
                DrainVerdict::Reenter
            }
        } else {
            DrainVerdict::KeepPolling
        },
        None => DrainVerdict::KeepPolling,
    }
}

/// The session never ends with transactions unprocessed or workers left, and is never held open beyond the ceiling.
pub proof fn law_drain_ends_only_when_drained(
    scan_workers: usize,
    unprocessed: u32,
    connected_for: Option<u64>,
    elapsed: u64,
)
    ensures
        drain(scan_workers, unprocessed, connected_for, elapsed) is Shutdown ==> scan_workers == 0 && unprocessed == 0,
        elapsed >= MEMPOOL_DRAIN_CEILING ==> !(drain(scan_workers, unprocessed, connected_for, elapsed) is KeepPolling),
{
}

// --- nullifiers that were fetched again ---

/// Whether the block at `height` bounds the range `part` of a larger range and is missing.
pub open spec fn is_missing_bound(blocks: Map<BlockHeight, WalletBlock>, whole: BlockRange, height: BlockHeight) -> bool {
    whole.has(height as int) && !blocks.dom().contains(height)
}

/// The blocks on both sides of the two ends of a range.
pub open spec fn bounds_of(range: BlockRange) -> Seq<BlockHeight> {
    seq![below(range.start), range.start, below(range.end), range.end]
}

/// The bounds of `part` that are missing, where it is only a part of the range `whole`.
pub open spec fn missing_bounds(blocks: Map<BlockHeight, WalletBlock>, whole: BlockRange, part: BlockRange) -> Seq<
    BlockHeight,
> {
    if part == whole {
        Seq::empty()
    } else {
        bounds_of(part).filter(|h: BlockHeight| is_missing_bound(blocks, whole, h))
    }
}

fn push_missing(wallet: &Wallet, whole: &BlockRange, height: BlockHeight, out: &mut Vec<BlockHeight>)
    requires
        wallet.wf(),
    ensures
        final(out)@ == if is_missing_bound(wallet.wallet_blocks@, *whole, height) {
            old(out)@.push(height)
        } else {
            old(out)@
        },
{
    if height >= whole.start && height < whole.end && !wallet.wallet_blocks.contains_key(&height) {
        out.push(height);
    }
}

/// The blocks that bound a scanned part of a range and that the wallet does not hold yet.
///
/// A range whose nullifiers are fetched again is split where the budget of a load was reached, so that blocks within
/// it become the bounds of ranges.
pub fn missing_block_bounds(wallet: &Wallet, scan_range: &ScanRange) -> (r: Vec<BlockHeight>)
    requires
        wallet.wf(),
        contiguous(wallet.sync_state.scan_ranges@),
        exists|i: int| #[trigger] holds(wallet.sync_state.scan_ranges@, i, scan_range.block_range),
    ensures
        r@ == missing_bounds(
            wallet.wallet_blocks@,
            wallet.sync_state.scan_ranges@[holder(
                wallet.sync_state.scan_ranges@,
                scan_range.block_range,
            )].block_range,
            scan_range.block_range,
        ),
{
    proof {
        lemma_contiguous_is_ordered(wallet.sync_state.scan_ranges@);
    }
    let part = scan_range.block_range;
    let at: usize = find_holder(&wallet.sync_state.scan_ranges, part);
    let whole = wallet.sync_state.scan_ranges[at].block_range;
    let mut out: Vec<BlockHeight> = Vec::new();
    if part.start != whole.start || part.end != whole.end {
        let a: u32 = part.start.saturating_sub(1);
        let b: u32 = part.end.saturating_sub(1);
        push_missing(wallet, &whole, a, &mut out);
        push_missing(wallet, &whole, part.start, &mut out);
        push_missing(wallet, &whole, b, &mut out);
        push_missing(wallet, &whole, part.end, &mut out);
        proof {
            let keep = |h: BlockHeight| is_missing_bound(wallet.wallet_blocks@, whole, h);
            let all = bounds_of(part);
            reveal_with_fuel(Seq::filter, 5);
            assert(all.drop_last() =~= seq![a, part.start, b]);
            assert(all.drop_last().drop_last() =~= seq![a, part.start]);
            assert(all.drop_last().drop_last().drop_last() =~= seq![a]);
            assert(all.drop_last().drop_last().drop_last().drop_last() =~= Seq::<BlockHeight>::empty());
            assert(out@ =~= all.filter(keep));
        }
    }
    out
}

/// The first range that is not fully scanned.
pub open spec fn is_first_open(ranges: Seq<ScanRange>, i: int) -> bool {
    &&& 0 <= i < ranges.len()
    &&& ranges[i].priority != ScanPriority::Scanned
    &&& forall|k: int| 0 <= k < i ==> (#[trigger] ranges[k]).priority == ScanPriority::Scanned
}

/// Whether nullifiers that were fetched again are of use: the range is in the first one that is not fully scanned.
///
/// In the rare case that a range was fetched which is not, spends might be missed, so that its nullifiers are
/// discarded and fetched once more.
pub fn refetch_is_usable(sync_state: &SyncState, block_range: &BlockRange) -> (r: bool)
    requires
        block_range.start < block_range.end,
        exists|i: int|
            0 <= i < sync_state.scan_ranges@.len() && (#[trigger] sync_state.scan_ranges@[i]).priority
                != ScanPriority::Scanned,
    ensures
        exists|i: int| #[trigger]
            is_first_open(sync_state.scan_ranges@, i) && r == holds(sync_state.scan_ranges@, i, *block_range),
{
    let ranges = &sync_state.scan_ranges;
    let count: usize = ranges.len();
    let mut i: usize = 0;
    while i < count && ranges[i].priority == ScanPriority::Scanned
        invariant
            i <= count == ranges@.len(),
            ranges@ == sync_state.scan_ranges@,
            forall|k: int| 0 <= k < i ==> (#[trigger] ranges@[k]).priority == ScanPriority::Scanned,
        decreases count - i,
    {
        i = i + 1;
    }
    assert(i < count);
    assert(is_first_open(sync_state.scan_ranges@, i as int));
    let first = ranges[i].block_range;
    first.contains(block_range.start) && first.contains(block_range.end - 1)
}

// --- what is mapped ---

/// Whether mapping the new nullifiers would take the wallet's map beyond its limit.
pub open spec fn over_limit(performance_level: PerformanceLevel, mapped: nat, new: nat) -> bool {
    nullifier_map_limit(performance_level) matches Some(limit) && mapped + new > limit
}

/// Whether the range is the lowest to be scanned: all ranges before it are scanned or being scanned.
pub open spec fn is_lowest(ranges: Seq<ScanRange>, block_range: BlockRange) -> bool {
    exists|i: int| #[trigger]
        holds(ranges, i, block_range) && ranges[i].priority == ScanPriority::Scanning && forall|k: int|
            0 <= k < i ==> is_under_way((#[trigger] ranges[k]).priority)
}

/// Whether the blocks of a range are scanned or being scanned.
pub open spec fn is_under_way(priority: ScanPriority) -> bool {
    priority == ScanPriority::Scanned || priority == ScanPriority::Scanning || priority
        == ScanPriority::RefetchingNullifiers
}

/// What of the results is added to the maps of the wallet.
#[derive(Clone, Copy, Debug, PartialEq, Eq, Structural)]
pub struct Mapping {
    pub map_nullifiers: bool,
    pub map_outpoints: bool,
    /// Whether the wallet's map has reached its limit, in this session.
    pub limit_exceeded: bool,
}

fn scanning_is_lowest(ranges: &Vec<ScanRange>, block_range: &BlockRange) -> (r: bool)
    requires
        block_range.start < block_range.end,
    ensures
        r == is_lowest(ranges@, *block_range),
{
    let count: usize = ranges.len();
    let mut i: usize = 0;
    while i < count
        invariant
            i <= count == ranges@.len(),
            block_range.start < block_range.end,
            forall|k: int| 0 <= k < i ==> is_under_way((#[trigger] ranges@[k]).priority),
            forall|k: int|
                0 <= k < i ==> !(#[trigger] holds(ranges@, k, *block_range) && ranges@[k].priority
                    == ScanPriority::Scanning),
        decreases count - i,
    {
        let range = ranges[i];
        if range.priority != ScanPriority::Scanned && range.priority != ScanPriority::Scanning && range.priority
            != ScanPriority::RefetchingNullifiers {
            proof {
                assert(!is_under_way(ranges@[i as int].priority));
            }
            return false;
        }
        let held = range.block_range.contains(block_range.start) && range.block_range.contains(block_range.end - 1);
        assert(held == holds(ranges@, i as int, *block_range));
        if range.priority == ScanPriority::Scanning && held {
            return true;
        }
        i = i + 1;
    }
    false
}

/// Decides what of the results is added to the maps of the wallet.
///
/// Nullifiers are not mapped once the wallet's map would exceed its limit, except for the lowest range to be scanned:
/// no note can be found below it, so that its nullifiers are cleared at once and need not be fetched again. All
/// transparent spends are known before scanning, so that outpoints are mapped only for ranges that hold targets.
pub fn decide_mapping(
    wallet: &Wallet,
    scan_range: &ScanRange,
    nullifiers: &NullifierMap,
    performance_level: PerformanceLevel,
    limit_exceeded: bool,
) -> (r: Mapping)
    requires
        scan_range.block_range.start < scan_range.block_range.end,
    ensures
        r.limit_exceeded == (limit_exceeded || over_limit(
            performance_level,
            wallet.nullifiers.count(),
            nullifiers.count(),
        )),
        r.map_nullifiers == (!r.limit_exceeded || is_lowest(
            wallet.sync_state.scan_ranges@,
            scan_range.block_range,
        )),
        r.map_outpoints == (scan_range.priority.level() >= ScanPriority::FoundNote.level()),
{
    let exceeded: bool = limit_exceeded || match max_nullifier_map_size(performance_level) {
        Some(limit) => exceeds(&wallet.nullifiers, nullifiers, limit),
        None => false,
    };
    let lowest = scanning_is_lowest(&wallet.sync_state.scan_ranges, &scan_range.block_range);
    Mapping {
        map_nullifiers: !exceeded || lowest,
        map_outpoints: scan_range.priority.rank() >= ScanPriority::FoundNote.rank(),
        limit_exceeded: exceeded,
    }
}

/// Whether the two maps hold more than `limit` nullifiers together.
fn exceeds(a: &NullifierMap, b: &NullifierMap, limit: usize) -> (r: bool)
    ensures
        r == (a.count() + b.count() > limit),
{
    let mut room: usize = limit;
    let counts: [usize; 6] = [
        a.sapling.len(),
        a.orchard.len(),
        a.ironwood.len(),
        b.sapling.len(),
        b.orchard.len(),
        b.ironwood.len(),
    ];
    if counts[0] > room {
        return true;
    }
    room = room - counts[0];
    if counts[1] > room {
        return true;
    }
    room = room - counts[1];
    if counts[2] > room {
        return true;
    }
    room = room - counts[2];
    if counts[3] > room {
        return true;
    }
    room = room - counts[3];
    if counts[4] > room {
        return true;
    }
    room = room - counts[4];
    counts[5] > room
}

// --- finishing ---

/// The ranges once a part of them has been scanned.
pub open spec fn with_scanned(ranges: Seq<ScanRange>, scanned: BlockRange, nullifiers_mapped: bool) -> Seq<ScanRange> {
    let at = holder(ranges, scanned);
    spliced(
        ranges,
        at,
        split_out(
            ranges[at],
            scanned,
            if nullifiers_mapped {
                ScanPriority::Scanned
            } else {
                ScanPriority::ScannedWithoutMapping
            },
        ),
    )
}

/// Whether the wallet keeps only what it needs beyond what has been scanned, and nothing else changed but the scan
/// ranges and the blocks.
pub open spec fn settled(before: &Wallet, after: &Wallet) -> bool {
    let done = after.sync_state.scanned_to()->0;
    &&& after.outpoints@ == beyond(before.outpoints@, done)
    &&& after.nullifiers.sapling@ == beyond(before.nullifiers.sapling@, done)
    &&& after.nullifiers.orchard@ == beyond(before.nullifiers.orchard@, done)
    &&& after.nullifiers.ironwood@ == beyond(before.nullifiers.ironwood@, done)
    &&& forall|t: crate::wallet::sync_state::ScanTarget| #[trigger]
        after.sync_state.scan_targets@.dom().contains(t) == (before.sync_state.scan_targets@.dom().contains(t)
            && t.block_height > done)
    &&& after.wallet_transactions == before.wallet_transactions
    &&& after.shard_trees == before.shard_trees
    &&& after.birthday == before.birthday
    &&& after.transparent_addresses == before.transparent_addresses
    &&& after.save_required == before.save_required
}

proof fn lemma_merged_is_nonempty(ranges: Seq<ScanRange>, priority: ScanPriority)
    requires
        ranges.len() > 0,
    ensures
        merged(ranges, priority).len() > 0,
{
}

/// Whether the range whose nullifiers were fetched again is marked as scanned, and what is no longer needed is gone.
pub open spec fn refetch_completed(before: &Wallet, after: &Wallet, block_range: BlockRange) -> bool {
    &&& after.sync_state.scan_ranges@ == merged(
        with_scanned(before.sync_state.scan_ranges@, block_range, true),
        ScanPriority::Scanned,
    )
    &&& after.wallet_blocks@ == relevant_blocks(
        before.wallet_blocks@,
        &after.sync_state,
        tx_views(before.wallet_transactions@),
    )
    &&& settled(before, after)
}

/// Finishes the processing of a range whose nullifiers were fetched again.
pub fn complete_refetch(wallet: &mut Wallet, block_range: BlockRange)
    requires
        old(wallet).wf(),
        contiguous(old(wallet).sync_state.scan_ranges@),
        exists|i: int| #[trigger] holds(old(wallet).sync_state.scan_ranges@, i, block_range),
    ensures
        final(wallet).wf(),
        contiguous(final(wallet).sync_state.scan_ranges@),
        refetch_completed(old(wallet), final(wallet), block_range),
{
    set_scanned_scan_range(&mut wallet.sync_state, block_range, true);
    proof {
        lemma_scanned_nonempty(old(wallet).sync_state.scan_ranges@, block_range, true);
    }
    let ghost split = wallet.sync_state.scan_ranges@;
    merge_scan_ranges(&mut wallet.sync_state, ScanPriority::Scanned);
    proof {
        lemma_merged_is_nonempty(split, ScanPriority::Scanned);
    }
    let ghost mid = *wallet;
    remove_irrelevant_data(wallet);
    proof {
        lemma_same_relevance(
            mid.wallet_blocks@,
            &mid.sync_state,
            &wallet.sync_state,
            tx_views(mid.wallet_transactions@),
        );
    }
}

proof fn lemma_scanned_nonempty(ranges: Seq<ScanRange>, block_range: BlockRange, mapped: bool)
    requires
        contiguous(ranges),
        exists|i: int| #[trigger] holds(ranges, i, block_range),
    ensures
        with_scanned(ranges, block_range, mapped).len() > 0,
{
    let at = holder(ranges, block_range);
    assert(holds(ranges, at, block_range));
    assert(ranges[at].covers_blocks());
    let priority = if mapped {
        ScanPriority::Scanned
    } else {
        ScanPriority::ScannedWithoutMapping
    };
    crate::sync::state::lemma_split_out(ranges[at], block_range, priority);
}

proof fn lemma_same_relevance(
    blocks: Map<BlockHeight, WalletBlock>,
    a: &SyncState,
    b: &SyncState,
    transactions: Map<TxId, crate::wallet::transaction::TransactionView>,
)
    requires
        a.scan_ranges == b.scan_ranges,
    ensures
        relevant_blocks(blocks, a, transactions) == relevant_blocks(blocks, b, transactions),
{
    assert(relevant_blocks(blocks, a, transactions) =~= relevant_blocks(blocks, b, transactions));
}

/// Whether the range is marked as scanned, its blocks are kept as far as they are needed, and what is no longer needed is
/// gone.
pub open spec fn scan_completed(
    before: &Wallet,
    after: &Wallet,
    scanned_blocks: Map<BlockHeight, WalletBlock>,
    scan_range: ScanRange,
    nullifiers_mapped: bool,
) -> bool {
    &&& after.sync_state.scan_ranges@ == merged(
        merged(
            with_scanned(before.sync_state.scan_ranges@, scan_range.block_range, nullifiers_mapped),
            ScanPriority::ScannedWithoutMapping,
        ),
        ScanPriority::Scanned,
    )
    &&& after.wallet_blocks@ == relevant_blocks(
        before.wallet_blocks@.union_prefer_right(
            Map::new(
                |h: BlockHeight|
                    scanned_blocks.dom().contains(h) && is_kept_block(
                        &before.sync_state,
                        tx_views(before.wallet_transactions@),
                        scan_range,
                        h,
                    ),
                |h: BlockHeight| scanned_blocks[h],
            ),
        ),
        &after.sync_state,
        tx_views(before.wallet_transactions@),
    )
    &&& settled(before, after)
}

/// Finishes the processing of a range that was scanned: its blocks are added, and it is set to scanned.
pub fn complete_scan(
    wallet: &mut Wallet,
    scanned_blocks: &mut WalletBlocks,
    scan_range: &ScanRange,
    nullifiers_mapped: bool,
)
    requires
        old(wallet).wf(),
        old(scanned_blocks).wf(),
        contiguous(old(wallet).sync_state.scan_ranges@),
        exists|i: int| #[trigger] holds(old(wallet).sync_state.scan_ranges@, i, scan_range.block_range),
    ensures
        final(wallet).wf(),
        contiguous(final(wallet).sync_state.scan_ranges@),
        scan_completed(old(wallet), final(wallet), old(scanned_blocks)@, *scan_range, nullifiers_mapped),
{
    add_scanned_blocks(wallet, scanned_blocks, scan_range);
    set_scanned_scan_range(&mut wallet.sync_state, scan_range.block_range, nullifiers_mapped);
    proof {
        lemma_scanned_nonempty(old(wallet).sync_state.scan_ranges@, scan_range.block_range, nullifiers_mapped);
    }
    let ghost split = wallet.sync_state.scan_ranges@;
    merge_scan_ranges(&mut wallet.sync_state, ScanPriority::ScannedWithoutMapping);
    proof {
        lemma_merged_is_nonempty(split, ScanPriority::ScannedWithoutMapping);
    }
    let ghost once = wallet.sync_state.scan_ranges@;
    merge_scan_ranges(&mut wallet.sync_state, ScanPriority::Scanned);
    proof {
        lemma_merged_is_nonempty(once, ScanPriority::Scanned);
    }
    let ghost mid = *wallet;
    remove_irrelevant_data(wallet);
    proof {
        lemma_same_relevance(
            mid.wallet_blocks@,
            &mid.sync_state,
            &wallet.sync_state,
            tx_views(mid.wallet_transactions@),
        );
    }
}

// --- re-orgs ---

/// The ranges once the range that failed verification and the blocks below it are to be verified, and the first block
/// that is then verified.
pub open spec fn is_extended_verification(
    ranges: Seq<ScanRange>,
    block_range: BlockRange,
    height: BlockHeight,
    after: Seq<ScanRange>,
    start: BlockHeight,
) -> bool {
    exists|i: int| #[trigger]
        first_with_blocks(ranges, i, block_range) && {
            let reset = ranges.update(i, ScanRange { block_range, priority: ScanPriority::Verify });
            let at = coverer(reset, below(height) as int);
            let verified = blocks_to_verify(reset[at].block_range, VerifyEnd::VerifyHighest);
            &&& start == verified.start
            &&& after == merged(
                spliced(reset, at, split_out(reset[at], verified, ScanPriority::Verify)),
                ScanPriority::Verify,
            )
        }
}

/// How many blocks the verification has gone back.
pub open spec fn gone_back(initial_start: BlockHeight, start: BlockHeight) -> int {
    if initial_start > start {
        initial_start - start
    } else {
        0
    }
}

/// What becomes of a wallet whose range to verify does not follow the block below it.
pub open spec fn reorg_handled<E>(
    before: &Wallet,
    after: &Wallet,
    block_range: BlockRange,
    height: BlockHeight,
    initial_start: BlockHeight,
    now: u32,
    r: Result<BlockHeight, SyncError<E>>,
    mid: &Wallet,
    start: BlockHeight,
) -> bool {
    &&& is_extended_verification(
        before.sync_state.scan_ranges@,
        block_range,
        height,
        mid.sync_state.scan_ranges@,
        start,
    )
    &&& mid.sync_state.same_but_scan_ranges(&before.sync_state)
    &&& *mid == (Wallet { sync_state: mid.sync_state, ..*before })
    &&& if gone_back(initial_start, start) > MAX_REORG_ALLOWANCE {
        &&& r == Err::<BlockHeight, SyncError<E>>(SyncError::ServerError(ServerError::ChainVerificationError))
        &&& wallet_cleared(before, tx_views(before.wallet_transactions@), after)
    } else {
        match r {
            Ok(tip) => Some(tip) == before.sync_state.known_tip() && data_truncated::<E>(
                mid,
                after,
                below(start),
                now,
                Ok(()),
            ),
            Err(error) => data_truncated::<E>(mid, after, below(start), now, Err(error)),
        }
    }
}

/// Handles a re-org: a range that is being verified does not follow the block below it.
///
/// The verification is extended to the blocks below, and the wallet's data above them is truncated. Where it has
/// gone back further than a re-org may reach, the wallet is cleared. Returns the last known height of the chain.
pub fn handle_reorg<E>(
    wallet: &mut Wallet,
    block_range: &BlockRange,
    height: BlockHeight,
    initial_reorg_detection_start_height: BlockHeight,
    now: u32,
) -> (r: Result<BlockHeight, SyncError<E>>)
    requires
        old(wallet).wf(),
        contiguous(old(wallet).sync_state.scan_ranges@),
        exists|i: int|
            0 <= i < old(wallet).sync_state.scan_ranges@.len() && (
            #[trigger] old(wallet).sync_state.scan_ranges@[i]).block_range == *block_range,
        covers(old(wallet).sync_state.scan_ranges@, below(height) as int),
    ensures
        final(wallet).wf(),
        exists|mid: Wallet, start: BlockHeight| #[trigger]
            reorg_handled(
                old(wallet),
                final(wallet),
                *block_range,
                height,
                initial_reorg_detection_start_height,
                now,
                r,
                &mid,
                start,
            ),
{
    let ghost before = wallet.sync_state.scan_ranges@;
    let tip: u32 = wallet.sync_state.last_known_chain_height().unwrap();
    set_scan_priority(&mut wallet.sync_state, block_range, ScanPriority::Verify);
    let ghost at = choose|i: int| #[trigger]
        first_with_blocks(before, i, *block_range) && wallet.sync_state.scan_ranges@ == before.update(
            i,
            ScanRange { block_range: *block_range, priority: ScanPriority::Verify },
        );
    proof {
        let reset = wallet.sync_state.scan_ranges@;
        let h = below(height) as int;
        let k = choose|k: int| #[trigger] crate::scan_range::covered_by(before, k, h);
        assert(crate::scan_range::covered_by(reset, k, h));
        assert(covers(reset, h));
    }
    let verified = set_verify_scan_range(&mut wallet.sync_state, height.saturating_sub(1), VerifyEnd::VerifyHighest);
    let start: u32 = verified.block_range.start;
    let ghost split = wallet.sync_state.scan_ranges@;
    merge_scan_ranges(&mut wallet.sync_state, ScanPriority::Verify);
    let ghost mid = *wallet;
    proof {
        assert(first_with_blocks(before, at, *block_range));
        assert(is_extended_verification(before, *block_range, height, mid.sync_state.scan_ranges@, start));
    }
    if initial_reorg_detection_start_height.saturating_sub(start) > MAX_REORG_ALLOWANCE {
        clear_wallet_data(wallet, now);
        let r = Err(SyncError::ServerError(ServerError::ChainVerificationError));
        assert(reorg_handled::<E>(
            old(wallet),
            wallet,
            *block_range,
            height,
            initial_reorg_detection_start_height,
            now,
            r,
            &mid,
            start,
        ));
        return r;
    }
    proof {
        let reset = before.update(at, ScanRange { block_range: *block_range, priority: ScanPriority::Verify });
        let c = coverer(reset, below(height) as int);
        lemma_merged_is_nonempty(split, ScanPriority::Verify);
    }
    match truncate_data_for_verification::<E>(wallet, start.saturating_sub(1), now) {
        Ok(()) => {
            let r = Ok(tip);
            assert(reorg_handled::<E>(
                old(wallet),
                wallet,
                *block_range,
                height,
                initial_reorg_detection_start_height,
                now,
                r,
                &mid,
                start,
            ));
            r
        },
        Err(error) => {
            let r = Err(error);
            assert(reorg_handled::<E>(
                old(wallet),
                wallet,
                *block_range,
                height,
                initial_reorg_detection_start_height,
                now,
                r,
                &mid,
                start,
            ));
            r
        },
    }
}

} // verus!
