//! What the status of sync says, in terms of the blocks and outputs that it counts.
use crate::primitives::{BlockHeight, ShieldedPool};
use crate::scan_range::{contiguous, ScanRange};
use crate::sync::progress::{
    awaits_nullifiers, birthday_size_source, final_size_source, first_missing, outputs_in, scanned_outputs,
    session_start, status_of, SizeSource, SyncStatus,
};
use crate::sync::state::{lemma_scanned_block_count_bound, scanned_block_count};
use crate::wallet::data::Wallet;
use crate::wallet::stores::WalletBlock;
use crate::wallet::sync_state::InitialSyncState;
use vstd::prelude::*;

verus! {

// --- what is counted ---

/// Whether the blocks of a range have been scanned.
pub open spec fn is_scanned_range(range: ScanRange) -> bool {
    range.priority is Scanned || range.priority is ScannedWithoutMapping || range.priority is RefetchingNullifiers
}

/// Every range that has been scanned adds its blocks to the count, and no other range adds any.
pub proof fn law_each_scanned_range_counts(ranges: Seq<ScanRange>, k: int)
    requires
        0 <= k < ranges.len(),
    ensures
        scanned_block_count(ranges) == scanned_block_count(ranges.remove(k)) + if is_scanned_range(ranges[k]) {
            ranges[k].block_range.end - ranges[k].block_range.start
        } else {
            0
        },
    decreases ranges.len(),
{
    let without = ranges.remove(k);
    if k == ranges.len() - 1 {
        assert(without =~= ranges.drop_last());
    } else {
        law_each_scanned_range_counts(ranges.drop_last(), k);
        assert(ranges.drop_last().remove(k) =~= without.drop_last());
        assert(without.last() == ranges.last());
    }
}

/// No block of no range is counted.
pub proof fn law_nothing_counts_for_nothing(blocks: Map<BlockHeight, WalletBlock>, pool: ShieldedPool)
    ensures
        scanned_block_count(Seq::empty()) == 0,
        outputs_in(blocks, Seq::empty(), pool) == 0,
{
}

/// The size of the tree of a pool before a block.
pub open spec fn size_before_block(block: WalletBlock, pool: ShieldedPool) -> u32 {
    match pool {
        ShieldedPool::Sapling => block.tree_bounds.sapling_initial_tree_size,
        ShieldedPool::Orchard => block.tree_bounds.orchard_initial_tree_size,
        ShieldedPool::Ironwood => block.tree_bounds.ironwood_initial_tree_size,
    }
}

/// The size of the tree of a pool after a block.
pub open spec fn size_after_block(block: WalletBlock, pool: ShieldedPool) -> u32 {
    match pool {
        ShieldedPool::Sapling => block.tree_bounds.sapling_final_tree_size,
        ShieldedPool::Orchard => block.tree_bounds.orchard_final_tree_size,
        ShieldedPool::Ironwood => block.tree_bounds.ironwood_final_tree_size,
    }
}

/// Every range that has been scanned adds to the outputs of a pool what its tree grew by between the first block and the
/// last, and no other range adds any.
pub proof fn law_outputs_are_what_the_tree_grew_by(
    blocks: Map<BlockHeight, WalletBlock>,
    ranges: Seq<ScanRange>,
    pool: ShieldedPool,
    k: int,
)
    requires
        0 <= k < ranges.len(),
        ranges[k].block_range.start < ranges[k].block_range.end,
        is_scanned_range(ranges[k]) ==> blocks.dom().contains(ranges[k].block_range.start) && blocks.dom().contains(
            (ranges[k].block_range.end - 1) as u32,
        ),
    ensures
        outputs_in(blocks, ranges, pool) == outputs_in(blocks, ranges.remove(k), pool) + if is_scanned_range(
            ranges[k],
        ) {
            size_after_block(blocks[(ranges[k].block_range.end - 1) as u32], pool) - size_before_block(
                blocks[ranges[k].block_range.start],
                pool,
            )
        } else {
            0
        },
    decreases ranges.len(),
{
    let without = ranges.remove(k);
    if k == ranges.len() - 1 {
        assert(without =~= ranges.drop_last());
    } else {
        law_outputs_are_what_the_tree_grew_by(blocks, ranges.drop_last(), pool, k);
        assert(ranges.drop_last().remove(k) =~= without.drop_last());
        assert(without.last() == ranges.last());
    }
}

/// Whether a block is missing at a bound of the range at `k`.
pub open spec fn lacks_a_bound(blocks: Map<BlockHeight, WalletBlock>, ranges: Seq<ScanRange>, k: int) -> bool {
    &&& 0 <= k < ranges.len()
    &&& is_scanned_range(ranges[k])
    &&& !(blocks.dom().contains(ranges[k].block_range.start) && blocks.dom().contains(
        (ranges[k].block_range.end - 1) as u32,
    ))
}

/// A block is found to be missing exactly where one is: at the lowest range that has been scanned and that lacks a block
/// at a bound, the first block before the last.
pub proof fn law_missing_blocks_are_found(blocks: Map<BlockHeight, WalletBlock>, ranges: Seq<ScanRange>)
    requires
        contiguous(ranges),
    ensures
        first_missing(blocks, ranges).is_some() == exists|k: int| #[trigger] lacks_a_bound(blocks, ranges, k),
        first_missing(blocks, ranges) matches Some(missing) ==> exists|k: int| #[trigger]
            lacks_a_bound(blocks, ranges, k) && (forall|i: int| #[trigger] lacks_a_bound(blocks, ranges, i) ==> k <= i)
                && missing.height == if blocks.dom().contains(ranges[k].block_range.start) {
                (ranges[k].block_range.end - 1) as u32
            } else {
                ranges[k].block_range.start
            },
    decreases ranges.len(),
{
    if ranges.len() > 0 {
        let before = ranges.drop_last();
        let last = ranges.len() - 1;
        crate::sync::state::lemma_drop_last_contiguous(ranges);
        law_missing_blocks_are_found(blocks, before);
        assert(ranges[last].covers_blocks());
        assert forall|i: int| 0 <= i < last implies #[trigger] lacks_a_bound(blocks, ranges, i) == lacks_a_bound(
            blocks,
            before,
            i,
        ) by {}
        assert forall|i: int| #[trigger] lacks_a_bound(blocks, before, i) implies lacks_a_bound(blocks, ranges, i) by {}
        assert forall|i: int| #[trigger] lacks_a_bound(blocks, ranges, i) implies i == last || lacks_a_bound(
            blocks,
            before,
            i,
        ) by {}
        if first_missing(blocks, before).is_some() {
            let missing = first_missing(blocks, before)->0;
            let k = choose|k: int| #[trigger]
                lacks_a_bound(blocks, before, k) && (forall|i: int| #[trigger]
                    lacks_a_bound(blocks, before, i) ==> k <= i) && missing.height == if blocks.dom().contains(
                    before[k].block_range.start,
                ) {
                    (before[k].block_range.end - 1) as u32
                } else {
                    before[k].block_range.start
                };
            assert(lacks_a_bound(blocks, ranges, k));
        } else if first_missing(blocks, ranges).is_some() {
            assert(lacks_a_bound(blocks, ranges, last));
        } else {
            assert(!lacks_a_bound(blocks, ranges, last));
        }
    }
}

// --- what is reported ---

/// Whether the status is that of a wallet in which sync has started.
pub open spec fn status_reported(wallet: &Wallet, status: &SyncStatus) -> bool {
    &&& contiguous(wallet.sync_state.scan_ranges@)
    &&& wallet.sync_state.scan_ranges@.len() > 0
    &&& status@ == status_of(
        &wallet.sync_state,
        scanned_outputs(wallet.wallet_blocks@, wallet.sync_state.scan_ranges@),
    )
}

/// The blocks of the session and those of former sessions add up to the total, so that a session that has scanned
/// nothing shows none. The progress of the session counts the session's blocks, and is never more than there is to do.
pub proof fn law_session_blocks_and_former_blocks_add_up(wallet: &Wallet, status: &SyncStatus)
    requires
        status_reported(wallet, status),
    ensures
        ({
            let previous = wallet.sync_state.initial_sync_state.previously_scanned_blocks;
            let all = wallet.sync_state.scan_ranges@.last().block_range.end
                - wallet.sync_state.scan_ranges@[0].block_range.start;
            &&& status.total_blocks_scanned == scanned_block_count(wallet.sync_state.scan_ranges@)
            &&& status.total_blocks_scanned <= all
            &&& status.total_blocks_scanned >= previous ==> status.session_blocks_scanned + previous
                == status.total_blocks_scanned
            &&& status.total_blocks_scanned < previous ==> status.session_blocks_scanned == 0
            &&& status.total_blocks_progress.scanned == status.total_blocks_scanned
            &&& status.total_blocks_progress.total == all
            &&& all > previous ==> status.session_blocks_progress.scanned == status.session_blocks_scanned
                && status.session_blocks_progress.total == all - previous
            &&& all <= previous ==> status.session_blocks_progress == status.total_blocks_progress
            &&& status.session_blocks_progress.scanned <= status.session_blocks_progress.total
            &&& status.total_blocks_scanned == previous && all > previous ==> status.session_blocks_scanned == 0
                && status.session_blocks_progress.scanned == 0
        }),
{
    let ranges = wallet.sync_state.scan_ranges@;
    lemma_scanned_block_count_bound(ranges);
    crate::scan_range::lemma_contiguous_is_ordered(ranges);
    assert(ranges[0].covers_blocks());
    assert(ranges[ranges.len() - 1].covers_blocks());
    if ranges.len() > 1 {
        assert(ranges[0].block_range.end <= ranges[ranges.len() - 1].block_range.start);
    }
}

/// The outputs of a pool that former sessions scanned.
pub open spec fn former_outputs(initial: InitialSyncState, pool: ShieldedPool) -> u32 {
    match pool {
        ShieldedPool::Sapling => initial.previously_scanned_sapling_outputs,
        ShieldedPool::Orchard => initial.previously_scanned_orchard_outputs,
        ShieldedPool::Ironwood => initial.previously_scanned_ironwood_outputs,
    }
}

/// The outputs of a pool that the session scanned.
pub open spec fn session_outputs(status: &SyncStatus, pool: ShieldedPool) -> u32 {
    match pool {
        ShieldedPool::Sapling => status.session_outputs_scanned.sapling,
        ShieldedPool::Orchard => status.session_outputs_scanned.orchard,
        ShieldedPool::Ironwood => status.session_outputs_scanned.ironwood,
    }
}

/// The outputs of a pool that all sessions scanned.
pub open spec fn all_outputs(status: &SyncStatus, pool: ShieldedPool) -> u32 {
    match pool {
        ShieldedPool::Sapling => status.pool_outputs_scanned.sapling,
        ShieldedPool::Orchard => status.pool_outputs_scanned.orchard,
        ShieldedPool::Ironwood => status.pool_outputs_scanned.ironwood,
    }
}

/// In every pool, the outputs of the session and those of former sessions add up to the total.
pub proof fn law_session_outputs_and_former_outputs_add_up(wallet: &Wallet, status: &SyncStatus, pool: ShieldedPool)
    requires
        status_reported(wallet, status),
        0 <= outputs_in(wallet.wallet_blocks@, wallet.sync_state.scan_ranges@, pool) <= u32::MAX,
    ensures
        all_outputs(status, pool) == outputs_in(wallet.wallet_blocks@, wallet.sync_state.scan_ranges@, pool),
        all_outputs(status, pool) >= former_outputs(wallet.sync_state.initial_sync_state, pool) ==> session_outputs(
            status,
            pool,
        ) + former_outputs(wallet.sync_state.initial_sync_state, pool) == all_outputs(status, pool),
        all_outputs(status, pool) < former_outputs(wallet.sync_state.initial_sync_state, pool) ==> session_outputs(
            status,
            pool,
        ) == 0,
{
}

/// The totals count the outputs of all pools: those scanned, those between the wallet's birthday and the tip, and those
/// left to the session.
pub proof fn law_totals_count_all_pools(wallet: &Wallet, status: &SyncStatus)
    requires
        status_reported(wallet, status),
        wallet.sync_state.initial_sync_state.wallet_tree_bounds.sapling_initial_tree_size
            <= wallet.sync_state.initial_sync_state.wallet_tree_bounds.sapling_final_tree_size,
        wallet.sync_state.initial_sync_state.wallet_tree_bounds.orchard_initial_tree_size
            <= wallet.sync_state.initial_sync_state.wallet_tree_bounds.orchard_final_tree_size,
        wallet.sync_state.initial_sync_state.wallet_tree_bounds.ironwood_initial_tree_size
            <= wallet.sync_state.initial_sync_state.wallet_tree_bounds.ironwood_final_tree_size,
    ensures
        ({
            let initial = wallet.sync_state.initial_sync_state;
            let bounds = initial.wallet_tree_bounds;
            let session = status.session_outputs_scanned.sapling + status.session_outputs_scanned.orchard
                + status.session_outputs_scanned.ironwood;
            let former = initial.previously_scanned_sapling_outputs + initial.previously_scanned_orchard_outputs
                + initial.previously_scanned_ironwood_outputs;
            &&& status.total_outputs_scanned == status.pool_outputs_scanned.sapling
                + status.pool_outputs_scanned.orchard + status.pool_outputs_scanned.ironwood
            &&& status.total_outputs + bounds.sapling_initial_tree_size + bounds.orchard_initial_tree_size
                + bounds.ironwood_initial_tree_size == bounds.sapling_final_tree_size + bounds.orchard_final_tree_size
                + bounds.ironwood_final_tree_size
            &&& status.total_outputs > 0 ==> status.total_outputs_progress.scanned == status.total_outputs_scanned
                && status.total_outputs_progress.total == status.total_outputs
            &&& status.total_outputs == 0 ==> status.total_outputs_progress.scanned
                == status.total_outputs_progress.total
            &&& status.total_outputs > former ==> status.session_outputs_progress.scanned == session
                && status.session_outputs_progress.total == status.total_outputs - former
            &&& status.total_outputs <= former ==> status.session_outputs_progress == status.total_outputs_progress
        }),
{
}

/// Nullifiers are awaited exactly while a range waits for them, and the status shows the wallet's ranges.
pub proof fn law_status_shows_the_ranges(wallet: &Wallet, status: &SyncStatus)
    requires
        status_reported(wallet, status),
    ensures
        status.scan_ranges@ == wallet.sync_state.scan_ranges@,
        status.sync_start_height == wallet.sync_state.initial_sync_state.sync_start_height,
        status.awaits_nullifiers == exists|i: int|
            0 <= i < wallet.sync_state.scan_ranges@.len() && ((
            #[trigger] wallet.sync_state.scan_ranges@[i]).priority is ScannedWithoutMapping
                || wallet.sync_state.scan_ranges@[i].priority is RefetchingNullifiers),
{
    let ranges = wallet.sync_state.scan_ranges@;
    if awaits_nullifiers(ranges) {
        let i = choose|i: int|
            0 <= i < ranges.len() && ((#[trigger] ranges[i]).priority
                == crate::scan_range::ScanPriority::ScannedWithoutMapping || ranges[i].priority
                == crate::scan_range::ScanPriority::RefetchingNullifiers);
        assert(ranges[i].priority is ScannedWithoutMapping || ranges[i].priority is RefetchingNullifiers);
    }
    if exists|i: int|
        0 <= i < ranges.len() && ((#[trigger] ranges[i]).priority is ScannedWithoutMapping
            || ranges[i].priority is RefetchingNullifiers) {
        let i = choose|i: int|
            0 <= i < ranges.len() && ((#[trigger] ranges[i]).priority is ScannedWithoutMapping
                || ranges[i].priority is RefetchingNullifiers);
        assert(0 <= i < ranges.len());
    }
}

/// A session that has just begun has scanned nothing, whatever former sessions did, and starts above the height up to
/// which all is scanned, or at the tip where all is.
pub proof fn law_a_session_begins_with_nothing(
    before: &Wallet,
    after: &Wallet,
    chain_height: BlockHeight,
    status: &SyncStatus,
)
    requires
        contiguous(before.sync_state.scan_ranges@),
        after.sync_state.scan_ranges == before.sync_state.scan_ranges,
        after.wallet_blocks == before.wallet_blocks,
        ({
            let outputs = scanned_outputs(before.wallet_blocks@, before.sync_state.scan_ranges@);
            let initial = after.sync_state.initial_sync_state;
            &&& initial.sync_start_height == session_start(chain_height, before.sync_state.scanned_to()->0)
            &&& initial.previously_scanned_blocks == scanned_block_count(before.sync_state.scan_ranges@) as u32
            &&& initial.previously_scanned_sapling_outputs == outputs.sapling
            &&& initial.previously_scanned_orchard_outputs == outputs.orchard
            &&& initial.previously_scanned_ironwood_outputs == outputs.ironwood
        }),
        status_reported(after, status),
    ensures
        status.session_blocks_scanned == 0,
        status.session_outputs_scanned.sapling == 0,
        status.session_outputs_scanned.orchard == 0,
        status.session_outputs_scanned.ironwood == 0,
        status.sync_start_height <= chain_height,
        chain_height > before.sync_state.scanned_to()->0 ==> status.sync_start_height
            == before.sync_state.scanned_to()->0 + 1,
        chain_height <= before.sync_state.scanned_to()->0 ==> status.sync_start_height == chain_height,
{
    lemma_scanned_block_count_bound(before.sync_state.scan_ranges@);
}

// --- the sizes at the ends ---

/// The sizes of the trees before the wallet's birthday are those after the block below it, in every pool, wherever they
/// are taken from.
pub proof fn law_sizes_meet_at_the_birthday(
    blocks: Map<BlockHeight, WalletBlock>,
    sapling_activation: BlockHeight,
    birthday: BlockHeight,
)
    requires
        birthday > 0,
        sapling_activation > 0,
        blocks.dom().contains(birthday) && blocks.dom().contains((birthday - 1) as u32) ==> forall|pool: ShieldedPool|
            #[trigger] size_after_block(blocks[(birthday - 1) as u32], pool) == size_before_block(blocks[birthday], pool),
    ensures
        blocks.dom().contains((birthday - 1) as u32) ==> birthday_size_source(blocks, sapling_activation, birthday)
            == final_size_source(blocks, sapling_activation, (birthday - 1) as u32),
        birthday_size_source(blocks, sapling_activation, birthday) matches SizeSource::Frontiers(height) ==> height
            == birthday - 1 && !blocks.dom().contains(birthday) && !blocks.dom().contains((birthday - 1) as u32)
            && birthday != sapling_activation,
        birthday == sapling_activation && !blocks.dom().contains(birthday) && !blocks.dom().contains(
            (birthday - 1) as u32,
        ) ==> birthday_size_source(blocks, sapling_activation, birthday) == SizeSource::Known(
            crate::sync::progress::TreeSizes { sapling: 0, orchard: 0, ironwood: 0 },
        ),
{
    if blocks.dom().contains(birthday) && blocks.dom().contains((birthday - 1) as u32) {
        let lower = blocks[(birthday - 1) as u32];
        assert(size_after_block(lower, ShieldedPool::Sapling) == size_before_block(
            blocks[birthday],
            ShieldedPool::Sapling,
        ));
        assert(size_after_block(lower, ShieldedPool::Orchard) == size_before_block(
            blocks[birthday],
            ShieldedPool::Orchard,
        ));
        assert(size_after_block(lower, ShieldedPool::Ironwood) == size_before_block(
            blocks[birthday],
            ShieldedPool::Ironwood,
        ));
    }
}

/// Where the wallet holds a block, the sizes after it are those that the block records, pool by pool.
pub proof fn law_held_blocks_give_the_sizes(
    blocks: Map<BlockHeight, WalletBlock>,
    sapling_activation: BlockHeight,
    height: BlockHeight,
)
    requires
        blocks.dom().contains(height),
    ensures
        final_size_source(blocks, sapling_activation, height) matches SizeSource::Known(sizes) && sizes.sapling
            == size_after_block(blocks[height], ShieldedPool::Sapling) && sizes.orchard == size_after_block(
            blocks[height],
            ShieldedPool::Orchard,
        ) && sizes.ironwood == size_after_block(blocks[height], ShieldedPool::Ironwood),
        birthday_size_source(blocks, sapling_activation, height) matches SizeSource::Known(sizes) && sizes.sapling
            == size_before_block(blocks[height], ShieldedPool::Sapling) && sizes.orchard == size_before_block(
            blocks[height],
            ShieldedPool::Orchard,
        ) && sizes.ironwood == size_before_block(blocks[height], ShieldedPool::Ironwood),
{
}

} // verus!
