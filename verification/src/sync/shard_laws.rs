//! What holds of the blocks that are scanned around a height, said of the shards and of each block.
use crate::chain::{branch_of, ChainParameters, NetworkUpgrade};
use crate::primitives::{BlockHeight, BlockRange, ShieldedPool};
use crate::scan_range::{contiguous, covers, priority_at, ScanPriority, ScanRange};
use crate::sync::range_laws::{law_punching_only_raises, open_place};
use crate::sync::shards::{
    any_with_block, block_range_around, chain_tip_range, first_with_block, found_note_ranges, has_block_range,
    last_with_block, lemma_first_and_last_exist, lemma_range_around_has_height, narrow_range_around,
    newest_active_pool, prioritized_ranges, target_pool, targets_in_order, with_shards,
};
use crate::sync::state::{law_merged, law_punched, punched};
use crate::sync::update::{found_note, notes_placed, with_found_note, with_found_notes};
use crate::wallet::sync_state::{ScanTarget, SyncState};
use crate::wallet::transaction::TransactionView;
use vstd::prelude::*;

verus! {

// --- pools ---

/// The height from which a pool exists, by the upgrade that brought it.
pub open spec fn starts_at(parameters: &ChainParameters, pool: ShieldedPool) -> Option<BlockHeight> {
    match pool {
        ShieldedPool::Sapling => parameters.activations.sapling,
        ShieldedPool::Orchard => parameters.activations.nu5,
        ShieldedPool::Ironwood => parameters.activations.nu6_3,
    }
}

/// Whether a pool exists at a height.
pub open spec fn exists_at(parameters: &ChainParameters, pool: ShieldedPool, height: BlockHeight) -> bool {
    starts_at(parameters, pool) matches Some(start) && start <= height
}

/// The shards of a pool.
pub open spec fn shards_in(state: &SyncState, pool: ShieldedPool) -> Seq<BlockRange> {
    match pool {
        ShieldedPool::Sapling => state.sapling_shard_ranges@,
        ShieldedPool::Orchard => state.orchard_shard_ranges@,
        ShieldedPool::Ironwood => state.ironwood_shard_ranges@,
    }
}

/// Every pool comes with its upgrade.
pub proof fn law_pools_come_with_their_upgrade(parameters: &ChainParameters, pool: ShieldedPool)
    ensures
        parameters.activation_of(pool) == starts_at(parameters, pool),
{
}

/// The pool whose shards are used at a height exists there, is no newer than the one asked for, and no pool in between
/// exists there.
pub proof fn law_newest_active_pool(parameters: &ChainParameters, pool: ShieldedPool, height: BlockHeight)
    ensures
        newest_active_pool(parameters, pool, height) matches Some(active) ==> {
            &&& exists_at(parameters, active, height)
            &&& pool is Sapling ==> active is Sapling
            &&& pool is Orchard ==> !(active is Ironwood)
            &&& pool is Orchard && active is Sapling ==> !exists_at(parameters, ShieldedPool::Orchard, height)
            &&& pool is Ironwood && !(active is Ironwood) ==> !exists_at(parameters, ShieldedPool::Ironwood, height)
            &&& pool is Ironwood && active is Sapling ==> !exists_at(parameters, ShieldedPool::Orchard, height)
        },
        newest_active_pool(parameters, pool, height).is_none() ==> !exists_at(parameters, pool, height) && !exists_at(
            parameters,
            ShieldedPool::Sapling,
            height,
        ),
{
}

/// The place of an upgrade in the order in which the upgrades came.
pub open spec fn place_of(upgrade: NetworkUpgrade) -> int {
    match upgrade {
        NetworkUpgrade::Overwinter => 0,
        NetworkUpgrade::Sapling => 1,
        NetworkUpgrade::Blossom => 2,
        NetworkUpgrade::Heartwood => 3,
        NetworkUpgrade::Canopy => 4,
        NetworkUpgrade::Nu5 => 5,
        NetworkUpgrade::Nu6 => 6,
        NetworkUpgrade::Nu6_1 => 7,
        NetworkUpgrade::Nu6_2 => 8,
        NetworkUpgrade::Nu6_3 => 9,
    }
}

/// The rules at a height are those of an upgrade that has activated, and of none that an activated upgrade replaced.
pub proof fn law_the_newest_rules_are_in_force(
    parameters: &ChainParameters,
    height: BlockHeight,
    other: NetworkUpgrade,
)
    ensures
        parameters.newest_in_force(height) matches Some(upgrade) ==> parameters.activations.at(upgrade).is_some()
            && parameters.activations.at(upgrade)->0 <= height,
        parameters.activations.at(other).is_some() && parameters.activations.at(other)->0 <= height
            ==> parameters.newest_in_force(height).is_some() && place_of(other) <= place_of(
            parameters.newest_in_force(height)->0,
        ),
{
}

/// No two upgrades share a branch, nor does one share that of the rules before the first.
pub proof fn law_branches_differ(a: NetworkUpgrade, b: NetworkUpgrade)
    ensures
        branch_of(Some(a)) == branch_of(Some(b)) ==> a == b,
        branch_of(Some(a)) != branch_of(None),
{
}

// --- the blocks around a height ---

/// The narrow area around a height starts at a multiple of its size, and holds the height.
pub proof fn law_narrow_area_is_aligned(height: BlockHeight)
    ensures
        narrow_range_around(height).start % 10_000 == 0,
        narrow_range_around(height).start <= height,
        height < narrow_range_around(height).start + 10_000,
        narrow_range_around(height).end == if narrow_range_around(height).start + 10_000 > u32::MAX {
            u32::MAX as int
        } else {
            narrow_range_around(height).start + 10_000
        },
{
}

/// Where complete shards of the pool hold the height, the blocks around it are exactly theirs, from the start of the
/// lowest to the end of the highest.
pub proof fn law_complete_shards_are_spanned(
    parameters: &ChainParameters,
    state: &SyncState,
    height: BlockHeight,
    pool: ShieldedPool,
    active: ShieldedPool,
    k: int,
)
    requires
        newest_active_pool(parameters, pool, height) == Some(active),
        forall|i: int, j: int|
            0 <= i < j < shards_in(state, active).len() ==> (#[trigger] shards_in(state, active)[i]).start <= (
            #[trigger] shards_in(state, active)[j]).start && shards_in(state, active)[i].end <= shards_in(
                state,
                active,
            )[j].end,
        0 <= k < shards_in(state, active).len(),
        shards_in(state, active)[k].start <= height < shards_in(state, active)[k].end,
    ensures
        ({
            let blocks = block_range_around(parameters, state, height, Some(pool));
            let shards = shards_in(state, active);
            &&& blocks.start <= shards[k].start && shards[k].end <= blocks.end
            &&& exists|i: int|
                0 <= i < shards.len() && (#[trigger] shards[i]).start <= height < shards[i].end && shards[i].start
                    == blocks.start
            &&& exists|i: int|
                0 <= i < shards.len() && (#[trigger] shards[i]).start <= height < shards[i].end && shards[i].end
                    == blocks.end
        }),
{
    let shards = shards_in(state, active);
    assert(shards == state.shards_of(active));
    assert(shards[k].has(height as int));
    assert(any_with_block(shards, height as int));
    lemma_first_and_last_exist(shards, height as int);
    let first = choose|i: int| first_with_block(shards, i, height as int);
    let last = choose|i: int| last_with_block(shards, i, height as int);
    assert(first_with_block(shards, first, height as int));
    assert(last_with_block(shards, last, height as int));
    assert(first <= k <= last);
    assert(shards[first].start <= height < shards[first].end);
    assert(shards[last].start <= height < shards[last].end);
}

/// Where no complete shard of the pool holds the height, the blocks around it reach from the last block of the last
/// complete shard, or from the start of the pool or of the wallet, to the tip.
pub proof fn law_the_incomplete_shard_reaches_the_tip(
    parameters: &ChainParameters,
    state: &SyncState,
    height: BlockHeight,
    pool: ShieldedPool,
    active: ShieldedPool,
)
    requires
        newest_active_pool(parameters, pool, height) == Some(active),
        contiguous(state.scan_ranges@),
        state.scan_ranges@.len() > 0,
        forall|k: int|
            0 <= k < shards_in(state, active).len() ==> !((#[trigger] shards_in(state, active)[k]).start <= height
                < shards_in(state, active)[k].end),
    ensures
        ({
            let blocks = block_range_around(parameters, state, height, Some(pool));
            let shards = shards_in(state, active);
            let birthday = state.scan_ranges@[0].block_range.start;
            &&& blocks.end == state.scan_ranges@.last().block_range.end
            &&& shards.len() > 0 && shards.last().end > 0 ==> blocks.start + 1 == shards.last().end
            &&& shards.len() == 0 ==> blocks.start >= birthday && blocks.start >= starts_at(parameters, active)->0 && (
            blocks.start == birthday || blocks.start == starts_at(parameters, active)->0)
        }),
{
    let shards = shards_in(state, active);
    assert(shards == state.shards_of(active));
    assert(state.scan_ranges@[state.scan_ranges@.len() - 1].covers_blocks());
    if any_with_block(shards, height as int) {
        let k = choose|i: int| 0 <= i < shards.len() && (#[trigger] shards[i]).has(height as int);
        assert(shards[k].start <= height < shards[k].end);
    }
}

/// The tip is scanned from the lowest of the blocks that any pool needs around it.
pub proof fn law_the_tip_reaches_every_pool(
    parameters: &ChainParameters,
    state: &SyncState,
    chain_height: BlockHeight,
    pool: ShieldedPool,
)
    ensures
        chain_tip_range(parameters, state, chain_height).start <= block_range_around(
            parameters,
            state,
            chain_height,
            Some(pool),
        ).start,
        exists|p: ShieldedPool|
            chain_tip_range(parameters, state, chain_height) == #[trigger] block_range_around(
                parameters,
                state,
                chain_height,
                Some(p),
            ),
{
    let sapling = block_range_around(parameters, state, chain_height, Some(ShieldedPool::Sapling));
    let orchard = block_range_around(parameters, state, chain_height, Some(ShieldedPool::Orchard));
    let ironwood = block_range_around(parameters, state, chain_height, Some(ShieldedPool::Ironwood));
    let tip = chain_tip_range(parameters, state, chain_height);
    assert(tip == sapling || tip == orchard || tip == ironwood);
}

// --- priorities ---

/// Whether the block lies around one of the first `n` targets.
pub open spec fn is_around_target(
    parameters: &ChainParameters,
    state: &SyncState,
    pool: ShieldedPool,
    targets: Seq<ScanTarget>,
    i: int,
    height: int,
) -> bool {
    let around = block_range_around(
        parameters,
        state,
        targets[i].block_height,
        if targets[i].narrow_scan_area {
            None
        } else {
            Some(pool)
        },
    );
    0 <= i < targets.len() && around.start <= height < around.end
}

/// Whether `after` is `own`, raised to `priority` where it is open, lower, and `raised` holds.
pub open spec fn raised_to(
    own: ScanPriority,
    after: ScanPriority,
    priority: ScanPriority,
    raised: bool,
) -> bool {
    if open_place(own).is_none() {
        after == own
    } else if raised && open_place(own)->0 < open_place(priority)->0 {
        after == priority
    } else {
        after == own
    }
}

pub(crate) proof fn lemma_found_note_ranges(
    parameters: &ChainParameters,
    state: &SyncState,
    pool: ShieldedPool,
    targets: Seq<ScanTarget>,
    n: int,
    height: int,
)
    requires
        contiguous(state.scan_ranges@),
        state.scan_ranges@.len() > 0,
        covers(state.scan_ranges@, height),
        0 <= n <= targets.len(),
        forall|i: int|
            0 <= i < targets.len() ==> has_block_range(
                parameters,
                state,
                (#[trigger] targets[i]).block_height,
                target_pool(targets[i], pool),
            ),
    ensures
        ({
            let after = found_note_ranges(parameters, state, pool, targets, n);
            &&& contiguous(after)
            &&& after.len() > 0
            &&& after[0].block_range.start == state.scan_ranges@[0].block_range.start
            &&& after.last().block_range.end == state.scan_ranges@.last().block_range.end
            &&& covers(after, height)
            &&& raised_to(
                priority_at(state.scan_ranges@, height)->0,
                priority_at(after, height)->0,
                ScanPriority::FoundNote,
                exists|i: int| 0 <= i < n && #[trigger] is_around_target(parameters, state, pool, targets, i, height),
            )
        }),
    decreases n,
{
    let after = found_note_ranges(parameters, state, pool, targets, n);
    if n > 0 {
        lemma_found_note_ranges(parameters, state, pool, targets, n - 1, height);
        let before = found_note_ranges(parameters, state, pool, targets, n - 1);
        let target = targets[n - 1];
        let around = block_range_around(parameters, state, target.block_height, target_pool(target, pool));
        lemma_range_around_has_height(parameters, state, target.block_height, target_pool(target, pool));
        law_punched(before, around, ScanPriority::FoundNote, height);
        law_punching_only_raises(before, around, ScanPriority::FoundNote, height);
        lemma_covers_by_priority(before, after, height);
        let now = exists|i: int|
            0 <= i < n && #[trigger] is_around_target(parameters, state, pool, targets, i, height);
        let earlier = exists|i: int|
            0 <= i < n - 1 && #[trigger] is_around_target(parameters, state, pool, targets, i, height);
        assert(is_around_target(parameters, state, pool, targets, n - 1, height) == (around.start <= height
            < around.end));
        assert(now == (earlier || (around.start <= height < around.end))) by {
            if now {
                let i = choose|i: int|
                    0 <= i < n && #[trigger] is_around_target(parameters, state, pool, targets, i, height);
                if i < n - 1 {
                    assert(earlier);
                }
            }
            if earlier {
                let i = choose|i: int|
                    0 <= i < n - 1 && #[trigger] is_around_target(parameters, state, pool, targets, i, height);
                assert(is_around_target(parameters, state, pool, targets, i, height));
            }
        }
    }
}

/// Blocks that keep a priority stay covered.
proof fn lemma_covers_by_priority(before: Seq<ScanRange>, after: Seq<ScanRange>, height: int)
    requires
        covers(before, height),
        priority_at(after, height).is_some(),
    ensures
        covers(after, height),
{
}

/// Once a session's ranges are prioritised, every block that is still to be scanned has at least the priority of the
/// tip where it lies in the tip's range, and at least that of a found note where it lies around a target. No other block
/// changes: none is lowered, and none that has been scanned or is being scanned is touched.
#[verifier::rlimit(60)]
pub proof fn law_prioritised_blocks(
    parameters: &ChainParameters,
    state: &SyncState,
    chain_height: BlockHeight,
    height: int,
)
    requires
        contiguous(state.scan_ranges@),
        state.scan_ranges@.len() > 0,
        covers(state.scan_ranges@, height),
        forall|pool: ShieldedPool| #[trigger] has_block_range(parameters, state, chain_height, Some(pool)),
        forall|i: int|
            0 <= i < targets_in_order(state).len() ==> has_block_range(
                parameters,
                state,
                (#[trigger] targets_in_order(state)[i]).block_height,
                target_pool(targets_in_order(state)[i], ShieldedPool::Ironwood),
            ),
    ensures
        ({
            let own = priority_at(state.scan_ranges@, height)->0;
            let after = priority_at(prioritized_ranges(parameters, state, chain_height), height);
            let tip = chain_tip_range(parameters, state, chain_height);
            let at_tip = tip.start <= height < tip.end;
            let at_target = exists|i: int| #[trigger]
                is_around_target(parameters, state, ShieldedPool::Ironwood, targets_in_order(state), i, height);
            &&& after.is_some()
            &&& open_place(own).is_none() ==> after == Some(own)
            &&& open_place(own).is_some() && at_tip && !(own is Verify) ==> after == Some(ScanPriority::ChainTip)
            &&& open_place(own).is_some() && !at_tip && at_target && (own is Historic || own is OpenAdjacent)
                ==> after == Some(ScanPriority::FoundNote)
            &&& open_place(own).is_some() && !at_tip && !(at_target && (own is Historic || own is OpenAdjacent))
                ==> after == Some(own)
            &&& own is Verify ==> after == Some(own)
        }),
{
    let targets = targets_in_order(state);
    let n = targets.len() as int;
    let pool = ShieldedPool::Ironwood;
    let tip = chain_tip_range(parameters, state, chain_height);
    let found = found_note_ranges(parameters, state, pool, targets, n);
    let at_tip = punched(found, tip, ScanPriority::ChainTip);
    lemma_found_note_ranges(parameters, state, pool, targets, n, height);
    assert(has_block_range(parameters, state, chain_height, Some(ShieldedPool::Sapling)));
    assert(has_block_range(parameters, state, chain_height, Some(ShieldedPool::Orchard)));
    assert(has_block_range(parameters, state, chain_height, Some(ShieldedPool::Ironwood)));
    lemma_range_around_has_height(parameters, state, chain_height, Some(ShieldedPool::Sapling));
    lemma_range_around_has_height(parameters, state, chain_height, Some(ShieldedPool::Orchard));
    lemma_range_around_has_height(parameters, state, chain_height, Some(ShieldedPool::Ironwood));
    law_punched(found, tip, ScanPriority::ChainTip, height);
    law_punching_only_raises(found, tip, ScanPriority::ChainTip, height);
    law_merged(at_tip, ScanPriority::ChainTip, height);
    let near = exists|i: int| 0 <= i < n && #[trigger] is_around_target(parameters, state, pool, targets, i, height);
    if exists|i: int| #[trigger] is_around_target(parameters, state, pool, targets, i, height) {
        let i = choose|i: int| #[trigger] is_around_target(parameters, state, pool, targets, i, height);
        assert(0 <= i < n && is_around_target(parameters, state, pool, targets, i, height));
        assert(near);
    }
    if near {
        let i = choose|i: int|
            0 <= i < n && #[trigger] is_around_target(parameters, state, pool, targets, i, height);
        assert(is_around_target(parameters, state, pool, targets, i, height));
    }
}

/// Whether the block lies around a note of the transaction, in whichever pool.
pub open spec fn is_around_note(
    parameters: &ChainParameters,
    state: &SyncState,
    transaction: TransactionView,
    height: int,
) -> bool {
    let at = transaction.status.height();
    let sapling = block_range_around(parameters, state, at, Some(ShieldedPool::Sapling));
    let orchard = block_range_around(parameters, state, at, Some(ShieldedPool::Orchard));
    let ironwood = block_range_around(parameters, state, at, Some(ShieldedPool::Ironwood));
    ||| transaction.sapling_notes.len() > 0 && sapling.start <= height < sapling.end
    ||| transaction.orchard_notes.len() > 0 && orchard.start <= height < orchard.end
    ||| transaction.ironwood_notes.len() > 0 && ironwood.start <= height < ironwood.end
}

proof fn lemma_one_found_note(
    parameters: &ChainParameters,
    state: &SyncState,
    ranges: Seq<ScanRange>,
    transaction: TransactionView,
    pool: ShieldedPool,
    height: int,
)
    requires
        contiguous(ranges),
        ranges.len() > 0,
        covers(ranges, height),
        notes_placed(parameters, state, transaction),
    ensures
        ({
            let after = with_found_note(parameters, state, ranges, transaction, pool);
            let around = block_range_around(parameters, state, transaction.status.height(), Some(pool));
            let held = match pool {
                ShieldedPool::Sapling => transaction.sapling_notes.len() > 0,
                ShieldedPool::Orchard => transaction.orchard_notes.len() > 0,
                ShieldedPool::Ironwood => transaction.ironwood_notes.len() > 0,
            };
            &&& contiguous(after)
            &&& after.len() > 0
            &&& covers(after, height)
            &&& raised_to(
                priority_at(ranges, height)->0,
                priority_at(after, height)->0,
                ScanPriority::FoundNote,
                held && around.start <= height < around.end,
            )
        }),
{
    if found_note(transaction, pool) {
        let at = transaction.status.height();
        assert(has_block_range(parameters, state, at, Some(pool)));
        lemma_range_around_has_height(parameters, state, at, Some(pool));
        let around = block_range_around(parameters, state, at, Some(pool));
        law_punched(ranges, around, ScanPriority::FoundNote, height);
        law_punching_only_raises(ranges, around, ScanPriority::FoundNote, height);
        lemma_covers_by_priority(
            ranges,
            with_found_note(parameters, state, ranges, transaction, pool),
            height,
        );
    }
}

/// The blocks around every note that was found are raised to the priority of a found note, in whichever pool the note is,
/// and no other block changes.
pub proof fn law_blocks_around_found_notes_are_raised(
    parameters: &ChainParameters,
    state: &SyncState,
    transactions: Seq<TransactionView>,
    n: int,
    height: int,
)
    requires
        contiguous(state.scan_ranges@),
        state.scan_ranges@.len() > 0,
        covers(state.scan_ranges@, height),
        0 <= n <= transactions.len(),
        forall|i: int| 0 <= i < transactions.len() ==> notes_placed(parameters, state, #[trigger] transactions[i]),
    ensures
        ({
            let after = with_found_notes(parameters, state, transactions, n);
            &&& contiguous(after)
            &&& after.len() > 0
            &&& covers(after, height)
            &&& raised_to(
                priority_at(state.scan_ranges@, height)->0,
                priority_at(after, height)->0,
                ScanPriority::FoundNote,
                exists|i: int| 0 <= i < n && is_around_note(parameters, state, #[trigger] transactions[i], height),
            )
        }),
    decreases n,
{
    if n > 0 {
        law_blocks_around_found_notes_are_raised(parameters, state, transactions, n - 1, height);
        let tx = transactions[n - 1];
        let before = with_found_notes(parameters, state, transactions, n - 1);
        let sapling = with_found_note(parameters, state, before, tx, ShieldedPool::Sapling);
        let orchard = with_found_note(parameters, state, sapling, tx, ShieldedPool::Orchard);
        lemma_one_found_note(parameters, state, before, tx, ShieldedPool::Sapling, height);
        lemma_one_found_note(parameters, state, sapling, tx, ShieldedPool::Orchard, height);
        lemma_one_found_note(parameters, state, orchard, tx, ShieldedPool::Ironwood, height);
        let now = exists|i: int| 0 <= i < n && is_around_note(parameters, state, #[trigger] transactions[i], height);
        let earlier = exists|i: int|
            0 <= i < n - 1 && is_around_note(parameters, state, #[trigger] transactions[i], height);
        assert(now == (earlier || is_around_note(parameters, state, tx, height))) by {
            if now {
                let i = choose|i: int|
                    0 <= i < n && is_around_note(parameters, state, #[trigger] transactions[i], height);
                if i < n - 1 {
                    assert(is_around_note(parameters, state, transactions[i], height));
                    assert(earlier);
                }
            }
            if earlier {
                let i = choose|i: int|
                    0 <= i < n - 1 && is_around_note(parameters, state, #[trigger] transactions[i], height);
                assert(is_around_note(parameters, state, transactions[i], height));
            }
            assert(transactions[n - 1] == tx);
        }
    }
}

// --- the shards themselves ---

/// Every root that completes a shard adds one: it ends with the block that completed it, and begins with the one that
/// completed the shard before it, or with the pool. The shards that were there stay.
pub proof fn law_each_root_adds_its_shard(
    ranges: Seq<BlockRange>,
    activation: BlockHeight,
    heights: Seq<u64>,
    i: int,
)
    requires
        forall|k: int| 0 <= k < heights.len() ==> #[trigger] heights[k] < u32::MAX,
        forall|k: int| 0 <= k < ranges.len() ==> (#[trigger] ranges[k]).end > 0,
        0 <= i < ranges.len() + heights.len(),
    ensures
        ({
            let after = with_shards(ranges, activation, heights);
            &&& after.len() == ranges.len() + heights.len()
            &&& i < ranges.len() ==> after[i] == ranges[i]
            &&& i >= ranges.len() ==> after[i].end == heights[i - ranges.len()] + 1
            &&& i >= ranges.len() && i > 0 ==> after[i].start + 1 == after[i - 1].end
            &&& i >= ranges.len() && i == 0 ==> after[i].start == activation
        }),
{
    if i >= ranges.len() {
        assert(heights[i - ranges.len()] < u32::MAX);
        if i > ranges.len() {
            assert(heights[i - ranges.len() - 1] < u32::MAX);
        } else if i > 0 {
            assert(ranges[i - 1].end > 0);
        }
    }
}

} // verus!
