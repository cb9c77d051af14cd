//! The contract of the sync state: a pure validator over [`SyncState`].
//!
//! [`SyncState::validate`] checks every invariant that can be decided from the state alone and reports the
//! first violation, in field and then index order: scan ranges first (each range before its successor), then
//! the shard ranges of the sapling, orchard and ironwood pools, then the tree bounds in the same pool order.
use crate::primitives::{BlockHeight, BlockRange, ShieldedPool};
use crate::scan_range::{contiguous, meets_next, ScanRange};
use crate::wallet::sync_state::{SyncState, TreeBounds};
use vstd::prelude::*;

verus! {

/// A violation of the contract of the sync state, with the evidence that convicts it.
#[derive(Clone, Copy, Debug, PartialEq, Eq, Structural)]
pub enum SyncStateIntegrityError {
    /// A scan range covers no blocks.
    EmptyScanRange { index: usize, at: BlockHeight },
    /// Consecutive scan ranges leave blocks uncovered.
    ScanRangeGap { index: usize, end: BlockHeight, next_start: BlockHeight },
    /// Consecutive scan ranges cover blocks twice, as ranges out of height order do.
    ScanRangeOverlap { index: usize, end: BlockHeight, next_start: BlockHeight },
    /// A shard range covers no blocks.
    EmptyShardRange { pool: ShieldedPool, index: usize, at: BlockHeight },
    /// A shard range ends before it starts.
    InvertedShardRange { pool: ShieldedPool, index: usize, start: BlockHeight, end: BlockHeight },
    /// Consecutive shard ranges overlap or are out of height order.
    ShardRangeDisorder {
        pool: ShieldedPool,
        index: usize,
        end: BlockHeight,
        next_start: BlockHeight,
    },
    /// A pool's initial tree size exceeds its final tree size.
    InvertedTreeBounds { pool: ShieldedPool, initial_tree_size: u32, final_tree_size: u32 },
}

/// What is wrong with the scan range at `i`, or with how its successor follows it.
pub open spec fn scan_range_fault(ranges: Seq<ScanRange>, i: int) -> Option<
    SyncStateIntegrityError,
> {
    let range = ranges[i].block_range;
    if range.start >= range.end {
        Some(SyncStateIntegrityError::EmptyScanRange { index: i as usize, at: range.start })
    } else if i + 1 >= ranges.len() {
        None
    } else {
        let next_start = ranges[i + 1].block_range.start;
        if range.end < next_start {
            Some(
                SyncStateIntegrityError::ScanRangeGap {
                    index: i as usize,
                    end: range.end,
                    next_start,
                },
            )
        } else if range.end > next_start {
            Some(
                SyncStateIntegrityError::ScanRangeOverlap {
                    index: i as usize,
                    end: range.end,
                    next_start,
                },
            )
        } else {
            None
        }
    }
}

/// What is wrong with the shard range at `i`, or with how its successor follows it.
pub open spec fn shard_range_fault(
    pool: ShieldedPool,
    ranges: Seq<BlockRange>,
    i: int,
) -> Option<SyncStateIntegrityError> {
    let range = ranges[i];
    if range.start == range.end {
        Some(SyncStateIntegrityError::EmptyShardRange { pool, index: i as usize, at: range.start })
    } else if range.start > range.end {
        Some(
            SyncStateIntegrityError::InvertedShardRange {
                pool,
                index: i as usize,
                start: range.start,
                end: range.end,
            },
        )
    } else if i + 1 < ranges.len() && range.end > ranges[i + 1].start {
        Some(
            SyncStateIntegrityError::ShardRangeDisorder {
                pool,
                index: i as usize,
                end: range.end,
                next_start: ranges[i + 1].start,
            },
        )
    } else {
        None
    }
}

/// What is wrong with the tree bounds of `pool`.
pub open spec fn tree_bounds_fault(bounds: TreeBounds, pool: ShieldedPool) -> Option<
    SyncStateIntegrityError,
> {
    if bounds.initial_of(pool) > bounds.final_of(pool) {
        Some(
            SyncStateIntegrityError::InvertedTreeBounds {
                pool,
                initial_tree_size: bounds.initial_of(pool),
                final_tree_size: bounds.final_of(pool),
            },
        )
    } else {
        None
    }
}

/// The first fault among the scan ranges from `i` on.
pub open spec fn first_scan_range_fault(ranges: Seq<ScanRange>, i: int) -> Option<
    SyncStateIntegrityError,
>
    decreases ranges.len() - i,
{
    if i >= ranges.len() {
        None
    } else if scan_range_fault(ranges, i).is_some() {
        scan_range_fault(ranges, i)
    } else {
        first_scan_range_fault(ranges, i + 1)
    }
}

/// The first fault among the shard ranges from `i` on.
pub open spec fn first_shard_range_fault(
    pool: ShieldedPool,
    ranges: Seq<BlockRange>,
    i: int,
) -> Option<SyncStateIntegrityError>
    decreases ranges.len() - i,
{
    if i >= ranges.len() {
        None
    } else if shard_range_fault(pool, ranges, i).is_some() {
        shard_range_fault(pool, ranges, i)
    } else {
        first_shard_range_fault(pool, ranges, i + 1)
    }
}

/// The first of two faults.
pub open spec fn or_else(
    first: Option<SyncStateIntegrityError>,
    second: Option<SyncStateIntegrityError>,
) -> Option<SyncStateIntegrityError> {
    if first.is_some() {
        first
    } else {
        second
    }
}

/// The first fault of a state, in the documented order.
pub open spec fn first_fault(state: &SyncState) -> Option<SyncStateIntegrityError> {
    let bounds = state.initial_sync_state.wallet_tree_bounds;
    or_else(
        first_scan_range_fault(state.scan_ranges@, 0),
        or_else(
            first_shard_range_fault(ShieldedPool::Sapling, state.sapling_shard_ranges@, 0),
            or_else(
                first_shard_range_fault(ShieldedPool::Orchard, state.orchard_shard_ranges@, 0),
                or_else(
                    first_shard_range_fault(
                        ShieldedPool::Ironwood,
                        state.ironwood_shard_ranges@,
                        0,
                    ),
                    or_else(
                        tree_bounds_fault(bounds, ShieldedPool::Sapling),
                        or_else(
                            tree_bounds_fault(bounds, ShieldedPool::Orchard),
                            tree_bounds_fault(bounds, ShieldedPool::Ironwood),
                        ),
                    ),
                ),
            ),
        ),
    )
}

/// Whether shard ranges cover blocks, in block height order, with no overlaps. Gaps are legal.
pub open spec fn shards_ordered(ranges: Seq<BlockRange>) -> bool {
    &&& forall|i: int| 0 <= i < ranges.len() ==> (#[trigger] ranges[i]).start < ranges[i].end
    &&& forall|i: int, j: int|
        0 <= i < j < ranges.len() ==> (#[trigger] ranges[i]).end <= (#[trigger] ranges[j]).start
}

/// The contract of the sync state.
pub open spec fn upholds_contract(state: &SyncState) -> bool {
    &&& contiguous(state.scan_ranges@)
    &&& forall|pool: ShieldedPool| shards_ordered(#[trigger] state.shards_of(pool))
    &&& state.initial_sync_state.wallet_tree_bounds.ascending()
}

proof fn lemma_no_scan_range_fault(ranges: Seq<ScanRange>, i: int)
    requires
        0 <= i <= ranges.len(),
    ensures
        first_scan_range_fault(ranges, i).is_none() <==> (forall|k: int|
            i <= k < ranges.len() ==> #[trigger] scan_range_fault(ranges, k).is_none()),
    decreases ranges.len() - i,
{
    if i < ranges.len() {
        lemma_no_scan_range_fault(ranges, i + 1);
        assert forall|k: int|
            first_scan_range_fault(ranges, i).is_none() && i <= k
                < ranges.len() implies #[trigger] scan_range_fault(ranges, k).is_none() by {
            if k > i {
                assert(i + 1 <= k);
            }
        }
    }
}

proof fn lemma_no_shard_range_fault(pool: ShieldedPool, ranges: Seq<BlockRange>, i: int)
    requires
        0 <= i <= ranges.len(),
    ensures
        first_shard_range_fault(pool, ranges, i).is_none() <==> (forall|k: int|
            i <= k < ranges.len() ==> #[trigger] shard_range_fault(pool, ranges, k).is_none()),
    decreases ranges.len() - i,
{
    if i < ranges.len() {
        lemma_no_shard_range_fault(pool, ranges, i + 1);
        assert forall|k: int|
            first_shard_range_fault(pool, ranges, i).is_none() && i <= k
                < ranges.len() implies #[trigger] shard_range_fault(pool, ranges, k).is_none() by {
            if k > i {
                assert(i + 1 <= k);
            }
        }
    }
}

proof fn lemma_shards_ordered(pool: ShieldedPool, ranges: Seq<BlockRange>)
    ensures
        first_shard_range_fault(pool, ranges, 0).is_none() <==> shards_ordered(ranges),
{
    lemma_no_shard_range_fault(pool, ranges, 0);
    if first_shard_range_fault(pool, ranges, 0).is_none() {
        assert forall|i: int| 0 <= i < ranges.len() implies (#[trigger] ranges[i]).start
            < ranges[i].end by {
            assert(shard_range_fault(pool, ranges, i).is_none());
        }
        assert forall|i: int, j: int| 0 <= i < j < ranges.len() implies (#[trigger] ranges[i]).end
            <= (#[trigger] ranges[j]).start by {
            lemma_shard_ends_before(pool, ranges, i, j);
        }
    }
    if shards_ordered(ranges) {
        assert forall|k: int| 0 <= k < ranges.len() implies #[trigger] shard_range_fault(
            pool,
            ranges,
            k,
        ).is_none() by {
            if k + 1 < ranges.len() {
                assert(ranges[k].end <= ranges[k + 1].start);
            }
        }
    }
}

proof fn lemma_shard_ends_before(pool: ShieldedPool, ranges: Seq<BlockRange>, i: int, j: int)
    requires
        forall|k: int|
            0 <= k < ranges.len() ==> #[trigger] shard_range_fault(pool, ranges, k).is_none(),
        0 <= i < j < ranges.len(),
    ensures
        ranges[i].end <= ranges[j].start,
    decreases j - i,
{
    assert(shard_range_fault(pool, ranges, j - 1).is_none());
    if i < j - 1 {
        lemma_shard_ends_before(pool, ranges, i, j - 1);
    }
}

proof fn lemma_scan_range_fault_is_there(ranges: Seq<ScanRange>, i: int)
    requires
        0 <= i <= ranges.len() <= usize::MAX,
    ensures
        first_scan_range_fault(ranges, i) matches Some(fault) ==> is_scan_range_fault(ranges, fault),
    decreases ranges.len() - i,
{
    if i < ranges.len() && scan_range_fault(ranges, i).is_none() {
        lemma_scan_range_fault_is_there(ranges, i + 1);
    }
}

proof fn lemma_shard_range_fault_is_there(pool: ShieldedPool, ranges: Seq<BlockRange>, i: int)
    requires
        0 <= i <= ranges.len() <= usize::MAX,
    ensures
        first_shard_range_fault(pool, ranges, i) matches Some(fault) ==> is_shard_range_fault(pool, ranges, fault),
    decreases ranges.len() - i,
{
    if i < ranges.len() && shard_range_fault(pool, ranges, i).is_none() {
        lemma_shard_range_fault_is_there(pool, ranges, i + 1);
    }
}

/// Whether the fault names a scan range that is empty, or a gap or an overlap between two, as they are.
pub open spec fn is_scan_range_fault(ranges: Seq<ScanRange>, fault: SyncStateIntegrityError) -> bool {
    match fault {
        SyncStateIntegrityError::EmptyScanRange { index, at } => index < ranges.len()
            && ranges[index as int].block_range.start == at && ranges[index as int].block_range.end <= at,
        SyncStateIntegrityError::ScanRangeGap { index, end, next_start } => index + 1 < ranges.len()
            && ranges[index as int].block_range.end == end && ranges[index + 1].block_range.start == next_start && end
            < next_start,
        SyncStateIntegrityError::ScanRangeOverlap { index, end, next_start } => index + 1 < ranges.len()
            && ranges[index as int].block_range.end == end && ranges[index + 1].block_range.start == next_start && end
            > next_start,
        _ => false,
    }
}

/// Whether the fault names a shard range of the pool that is empty or inverted, or two that are out of order, as they are.
pub open spec fn is_shard_range_fault(
    of: ShieldedPool,
    ranges: Seq<BlockRange>,
    fault: SyncStateIntegrityError,
) -> bool {
    match fault {
        SyncStateIntegrityError::EmptyShardRange { pool, index, at } => pool == of && index < ranges.len()
            && ranges[index as int].start == at && ranges[index as int].end == at,
        SyncStateIntegrityError::InvertedShardRange { pool, index, start, end } => pool == of && index < ranges.len()
            && ranges[index as int].start == start && ranges[index as int].end == end && start > end,
        SyncStateIntegrityError::ShardRangeDisorder { pool, index, end, next_start } => pool == of && index + 1
            < ranges.len() && ranges[index as int].end == end && ranges[index + 1].start == next_start && end
            > next_start,
        _ => false,
    }
}

/// A fault that is told is there: in the scan ranges, in the shard ranges of the pool that it names, or in the bounds of
/// that pool's tree.
pub proof fn law_a_fault_that_is_told_is_there(state: &SyncState)
    requires
        state.scan_ranges@.len() <= usize::MAX,
        state.sapling_shard_ranges@.len() <= usize::MAX,
        state.orchard_shard_ranges@.len() <= usize::MAX,
        state.ironwood_shard_ranges@.len() <= usize::MAX,
    ensures
        first_fault(state) matches Some(fault) ==> {
            let bounds = state.initial_sync_state.wallet_tree_bounds;
            ||| is_scan_range_fault(state.scan_ranges@, fault)
            ||| is_shard_range_fault(ShieldedPool::Sapling, state.sapling_shard_ranges@, fault)
            ||| is_shard_range_fault(ShieldedPool::Orchard, state.orchard_shard_ranges@, fault)
            ||| is_shard_range_fault(ShieldedPool::Ironwood, state.ironwood_shard_ranges@, fault)
            ||| fault == (SyncStateIntegrityError::InvertedTreeBounds {
                pool: ShieldedPool::Sapling,
                initial_tree_size: bounds.sapling_initial_tree_size,
                final_tree_size: bounds.sapling_final_tree_size,
            }) && bounds.sapling_initial_tree_size > bounds.sapling_final_tree_size
            ||| fault == (SyncStateIntegrityError::InvertedTreeBounds {
                pool: ShieldedPool::Orchard,
                initial_tree_size: bounds.orchard_initial_tree_size,
                final_tree_size: bounds.orchard_final_tree_size,
            }) && bounds.orchard_initial_tree_size > bounds.orchard_final_tree_size
            ||| fault == (SyncStateIntegrityError::InvertedTreeBounds {
                pool: ShieldedPool::Ironwood,
                initial_tree_size: bounds.ironwood_initial_tree_size,
                final_tree_size: bounds.ironwood_final_tree_size,
            }) && bounds.ironwood_initial_tree_size > bounds.ironwood_final_tree_size
        },
{
    lemma_scan_range_fault_is_there(state.scan_ranges@, 0);
    lemma_shard_range_fault_is_there(ShieldedPool::Sapling, state.sapling_shard_ranges@, 0);
    lemma_shard_range_fault_is_there(ShieldedPool::Orchard, state.orchard_shard_ranges@, 0);
    lemma_shard_range_fault_is_there(ShieldedPool::Ironwood, state.ironwood_shard_ranges@, 0);
}

/// The validator passes exactly the states that uphold the contract.
pub proof fn law_no_fault_is_the_contract(state: &SyncState)
    ensures
        first_fault(state).is_none() <==> upholds_contract(state),
{
    let ranges = state.scan_ranges@;
    lemma_no_scan_range_fault(ranges, 0);
    if first_scan_range_fault(ranges, 0).is_none() {
        assert forall|i: int| 0 <= i < ranges.len() implies (
        #[trigger] ranges[i]).covers_blocks() by {
            assert(scan_range_fault(ranges, i).is_none());
        }
        assert forall|i: int| 0 <= i < ranges.len() - 1 implies #[trigger] meets_next(
            ranges,
            i,
        ) by {
            assert(scan_range_fault(ranges, i).is_none());
        }
    }
    if contiguous(ranges) {
        assert forall|k: int| 0 <= k < ranges.len() implies #[trigger] scan_range_fault(
            ranges,
            k,
        ).is_none() by {
            assert(ranges[k].covers_blocks());
            if k + 1 < ranges.len() {
                assert(meets_next(ranges, k));
            }
        }
    }
    lemma_shards_ordered(ShieldedPool::Sapling, state.sapling_shard_ranges@);
    lemma_shards_ordered(ShieldedPool::Orchard, state.orchard_shard_ranges@);
    lemma_shards_ordered(ShieldedPool::Ironwood, state.ironwood_shard_ranges@);
    let bounds = state.initial_sync_state.wallet_tree_bounds;
    if first_fault(state).is_none() {
        assert forall|pool: ShieldedPool| shards_ordered(#[trigger] state.shards_of(pool)) by {
            match pool {
                ShieldedPool::Sapling => {},
                ShieldedPool::Orchard => {},
                ShieldedPool::Ironwood => {},
            }
        }
        assert forall|pool: ShieldedPool| #[trigger]
            bounds.initial_of(pool) <= bounds.final_of(pool) by {
            match pool {
                ShieldedPool::Sapling => {},
                ShieldedPool::Orchard => {},
                ShieldedPool::Ironwood => {},
            }
        }
    }
    if upholds_contract(state) {
        assert(shards_ordered(state.shards_of(ShieldedPool::Sapling)));
        assert(shards_ordered(state.shards_of(ShieldedPool::Orchard)));
        assert(shards_ordered(state.shards_of(ShieldedPool::Ironwood)));
        assert(bounds.initial_of(ShieldedPool::Sapling) <= bounds.final_of(ShieldedPool::Sapling));
        assert(bounds.initial_of(ShieldedPool::Orchard) <= bounds.final_of(ShieldedPool::Orchard));
        assert(bounds.initial_of(ShieldedPool::Ironwood) <= bounds.final_of(
            ShieldedPool::Ironwood,
        ));
    }
}

/// The first fault among the scan ranges.
fn check_scan_ranges(ranges: &Vec<ScanRange>) -> (r: Option<SyncStateIntegrityError>)
    ensures
        r == first_scan_range_fault(ranges@, 0),
{
    let mut index: usize = 0;
    while index < ranges.len()
        invariant
            index <= ranges@.len(),
            first_scan_range_fault(ranges@, 0) == first_scan_range_fault(ranges@, index as int),
        decreases ranges@.len() - index,
    {
        let range = ranges[index].block_range;
        if range.start >= range.end {
            return Some(SyncStateIntegrityError::EmptyScanRange { index, at: range.start });
        }
        if index + 1 < ranges.len() {
            let next_start: u32 = ranges[index + 1].block_range.start;
            if range.end < next_start {
                return Some(
                    SyncStateIntegrityError::ScanRangeGap { index, end: range.end, next_start },
                );
            }
            if range.end > next_start {
                return Some(
                    SyncStateIntegrityError::ScanRangeOverlap { index, end: range.end, next_start },
                );
            }
        }
        index = index + 1;
    }
    None
}

/// The first fault among the shard ranges of `pool`.
fn check_shard_ranges(pool: ShieldedPool, ranges: &Vec<BlockRange>) -> (r: Option<
    SyncStateIntegrityError,
>)
    ensures
        r == first_shard_range_fault(pool, ranges@, 0),
{
    let mut index: usize = 0;
    while index < ranges.len()
        invariant
            index <= ranges@.len(),
            first_shard_range_fault(pool, ranges@, 0) == first_shard_range_fault(
                pool,
                ranges@,
                index as int,
            ),
        decreases ranges@.len() - index,
    {
        let range = ranges[index];
        if range.start == range.end {
            return Some(SyncStateIntegrityError::EmptyShardRange { pool, index, at: range.start });
        }
        if range.start > range.end {
            return Some(
                SyncStateIntegrityError::InvertedShardRange {
                    pool,
                    index,
                    start: range.start,
                    end: range.end,
                },
            );
        }
        if index + 1 < ranges.len() && range.end > ranges[index + 1].start {
            return Some(
                SyncStateIntegrityError::ShardRangeDisorder {
                    pool,
                    index,
                    end: range.end,
                    next_start: ranges[index + 1].start,
                },
            );
        }
        index = index + 1;
    }
    None
}

/// The fault of the tree bounds of `pool`.
fn check_tree_bounds(bounds: &TreeBounds, pool: ShieldedPool) -> (r: Option<
    SyncStateIntegrityError,
>)
    ensures
        r == tree_bounds_fault(*bounds, pool),
{
    let initial_tree_size: u32 = bounds.initial_tree_size(pool);
    let final_tree_size: u32 = bounds.final_tree_size(pool);
    if initial_tree_size > final_tree_size {
        Some(
            SyncStateIntegrityError::InvertedTreeBounds { pool, initial_tree_size, final_tree_size },
        )
    } else {
        None
    }
}

impl SyncState {
    /// Checks every self-contained invariant of the sync state, returning the first violation in field and then
    /// index order.
    pub fn validate(&self) -> (r: Result<(), SyncStateIntegrityError>)
        ensures
            r.is_ok() <==> upholds_contract(self),
            r == match first_fault(self) {
                Some(fault) => Err::<(), SyncStateIntegrityError>(fault),
                None => Ok(()),
            },
    {
        proof {
            law_no_fault_is_the_contract(self);
        }
        if let Some(fault) = check_scan_ranges(&self.scan_ranges) {
            return Err(fault);
        }
        if let Some(fault) = check_shard_ranges(
            ShieldedPool::Sapling,
            &self.sapling_shard_ranges,
        ) {
            return Err(fault);
        }
        if let Some(fault) = check_shard_ranges(
            ShieldedPool::Orchard,
            &self.orchard_shard_ranges,
        ) {
            return Err(fault);
        }
        if let Some(fault) = check_shard_ranges(
            ShieldedPool::Ironwood,
            &self.ironwood_shard_ranges,
        ) {
            return Err(fault);
        }
        let bounds = &self.initial_sync_state.wallet_tree_bounds;
        if let Some(fault) = check_tree_bounds(bounds, ShieldedPool::Sapling) {
            return Err(fault);
        }
        if let Some(fault) = check_tree_bounds(bounds, ShieldedPool::Orchard) {
            return Err(fault);
        }
        if let Some(fault) = check_tree_bounds(bounds, ShieldedPool::Ironwood) {
            return Err(fault);
        }
        Ok(())
    }
}

} // verus!
