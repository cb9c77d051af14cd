//! What holds of the prioritised ranges, said block by block.
use crate::primitives::{BlockHeight, BlockRange};
use crate::scan_range::{
    contiguous, covered_by, covers, lemma_contiguous_is_ordered, lemma_priority_at, priority_at, spliced, ScanPriority,
    ScanRange,
};
use crate::sync::state::{
    blocks_to_verify, coverer, holder, holds, law_punched, law_reopened, law_split_out_of_holder, lemma_holder,
    priority_after_interruption, punched, punched_one, reopened, reopened_one, split_out, with_priorities, VerifyEnd,
};
use crate::wallet::status::ConfirmationStatus;
use crate::wallet::sync_state::{last_scanned, SyncState};
use vstd::prelude::*;

verus! {

/// The place of a priority among those of blocks that are still to be scanned, from the lowest, or nothing for blocks
/// that have been scanned or are being scanned.
pub open spec fn open_place(priority: ScanPriority) -> Option<int> {
    match priority {
        ScanPriority::Historic => Some(1),
        ScanPriority::OpenAdjacent => Some(2),
        ScanPriority::FoundNote => Some(3),
        ScanPriority::ChainTip => Some(4),
        ScanPriority::Verify => Some(5),
        ScanPriority::RefetchingNullifiers => None,
        ScanPriority::Scanning => None,
        ScanPriority::Scanned => None,
        ScanPriority::ScannedWithoutMapping => None,
    }
}

/// Punching a priority in raises the blocks of the range that are still to be scanned to it, where theirs is lower. No
/// block is lowered, and none that has been scanned or is being scanned changes.
pub proof fn law_punching_only_raises(
    ranges: Seq<ScanRange>,
    block_range: BlockRange,
    priority: ScanPriority,
    height: int,
)
    requires
        contiguous(ranges),
        ranges.len() > 0,
        block_range.start < block_range.end,
        open_place(priority).is_some(),
        covers(ranges, height),
    ensures
        ({
            let own = priority_at(ranges, height)->0;
            let after = priority_at(punched(ranges, block_range, priority), height);
            &&& open_place(own).is_none() ==> after == Some(own)
            &&& !(block_range.start <= height < block_range.end) ==> after == Some(own)
            &&& block_range.start <= height < block_range.end && open_place(own).is_some() ==> after == if open_place(
                own,
            )->0 < open_place(priority)->0 {
                Some(priority)
            } else {
                Some(own)
            }
        }),
{
    law_punched(ranges, block_range, priority, height);
    let c = choose|c: int| #[trigger] covered_by(ranges, c, height);
    lemma_contiguous_is_ordered(ranges);
    lemma_priority_at(ranges, c, height);
}

/// After an interruption no range is left in work: what was being scanned is to be scanned, before all but the tip and
/// what is verified, and what was refetching nullifiers lacks them. All other ranges, and all blocks, stay as they are.
pub proof fn law_no_range_is_left_in_work(before: Seq<ScanRange>, after: Seq<ScanRange>, i: int)
    requires
        after == with_priorities(before, |priority: ScanPriority| priority_after_interruption(priority)),
        0 <= i < before.len(),
    ensures
        after.len() == before.len(),
        after[i].block_range == before[i].block_range,
        !(after[i].priority is Scanning) && !(after[i].priority is RefetchingNullifiers),
        before[i].priority is Scanning ==> after[i].priority is FoundNote,
        before[i].priority is RefetchingNullifiers ==> after[i].priority is ScannedWithoutMapping,
        !(before[i].priority is Scanning) && !(before[i].priority is RefetchingNullifiers) ==> after[i].priority
            == before[i].priority,
{
}

/// The blocks to verify are the ten at the chosen end of the range around the height, or all of a shorter range. They
/// are set to be verified, and no other block changes.
pub proof fn law_the_chosen_end_is_verified(
    before: Seq<ScanRange>,
    after: Seq<ScanRange>,
    block_height: BlockHeight,
    verify_end: VerifyEnd,
    verified: ScanRange,
    c: int,
    height: int,
)
    requires
        contiguous(before),
        covered_by(before, c, block_height as int),
        ({
            let at = coverer(before, block_height as int);
            let blocks = blocks_to_verify(before[at].block_range, verify_end);
            &&& verified == ScanRange { block_range: blocks, priority: ScanPriority::Verify }
            &&& after == spliced(before, at, split_out(before[at], blocks, ScanPriority::Verify))
        }),
    ensures
        verified.priority is Verify,
        verified.block_range.start < verified.block_range.end,
        before[c].block_range.start <= verified.block_range.start && verified.block_range.end
            <= before[c].block_range.end,
        verify_end is VerifyHighest ==> verified.block_range.end == before[c].block_range.end && (
        verified.block_range.start == before[c].block_range.end - 10 || verified.block_range.start
            == before[c].block_range.start && before[c].block_range.end - before[c].block_range.start < 10),
        verify_end is VerifyLowest ==> verified.block_range.start == before[c].block_range.start && (
        verified.block_range.end == before[c].block_range.start + 10 || verified.block_range.end
            == before[c].block_range.end && before[c].block_range.end - before[c].block_range.start < 10),
        priority_at(after, height) == if verified.block_range.start <= height < verified.block_range.end {
            Some(ScanPriority::Verify)
        } else {
            priority_at(before, height)
        },
{
    lemma_contiguous_is_ordered(before);
    let at = coverer(before, block_height as int);
    assert(covered_by(before, at, block_height as int));
    if at < c {
        assert(before[at].block_range.end <= before[c].block_range.start);
    }
    if c < at {
        assert(before[c].block_range.end <= before[at].block_range.start);
    }
    assert(before[c].covers_blocks());
    let blocks = verified.block_range;
    assert(holds(before, c, blocks));
    lemma_holder(before, blocks, c);
    law_split_out_of_holder(before, blocks, ScanPriority::Verify, height);
}

/// The blocks of a scanned range are scanned from then on, with or without their nullifiers, and no other block changes.
pub proof fn law_scanned_blocks_are_marked(
    before: Seq<ScanRange>,
    after: Seq<ScanRange>,
    scanned_range: BlockRange,
    priority: ScanPriority,
    i: int,
    height: int,
)
    requires
        contiguous(before),
        holds(before, i, scanned_range),
        ({
            let at = holder(before, scanned_range);
            after == spliced(before, at, split_out(before[at], scanned_range, priority))
        }),
    ensures
        priority_at(after, height) == if scanned_range.start <= height < scanned_range.end {
            Some(priority)
        } else {
            priority_at(before, height)
        },
{
    law_split_out_of_holder(before, scanned_range, priority, height);
}

/// Reopening makes every block at or above the height that was scanned one that was not, however its nullifiers stand,
/// and changes no block below the height and none that is still to be scanned.
pub proof fn law_reopened_blocks_are_to_be_scanned(ranges: Seq<ScanRange>, from_height: BlockHeight, height: int)
    requires
        contiguous(ranges),
        ranges.len() > 0,
        covers(ranges, height),
    ensures
        ({
            let own = priority_at(ranges, height)->0;
            let after = priority_at(reopened(ranges, from_height), height);
            &&& height < from_height ==> after == Some(own)
            &&& height >= from_height && (own is Scanned || own is ScannedWithoutMapping || own is RefetchingNullifiers)
                ==> after == Some(ScanPriority::Historic)
            &&& height >= from_height && !(own is Scanned || own is ScannedWithoutMapping
                || own is RefetchingNullifiers) ==> after == Some(own)
        }),
{
    law_reopened(ranges, from_height, height);
    let c = choose|c: int| #[trigger] covered_by(ranges, c, height);
    lemma_contiguous_is_ordered(ranges);
    lemma_priority_at(ranges, c, height);
}

proof fn lemma_last_scanned(ranges: Seq<ScanRange>, n: int)
    requires
        0 <= n <= ranges.len(),
    ensures
        -1 <= last_scanned(ranges, n) < n,
        last_scanned(ranges, n) >= 0 ==> ranges[last_scanned(ranges, n)].priority.scanned(),
        forall|k: int| last_scanned(ranges, n) < k < n ==> !(#[trigger] ranges[k]).priority.scanned(),
    decreases n,
{
    if n > 0 && !ranges[n - 1].priority.scanned() {
        lemma_last_scanned(ranges, n - 1);
    }
}

/// No block above the highest scanned height has been scanned, and the block at that height has, unless none has.
pub proof fn law_highest_scanned_height(state: &SyncState, height: int)
    requires
        contiguous(state.scan_ranges@),
        state.scan_ranges@.len() > 0,
        state.scan_ranges@[0].block_range.start > 0,
    ensures
        state.scanned_top().is_some(),
        covers(state.scan_ranges@, height) && height > state.scanned_top()->0 ==> {
            let own = priority_at(state.scan_ranges@, height);
            own != Some(ScanPriority::Scanned) && own != Some(ScanPriority::ScannedWithoutMapping) && own != Some(
                ScanPriority::RefetchingNullifiers,
            )
        },
        covers(state.scan_ranges@, state.scanned_top()->0 as int) ==> {
            let own = priority_at(state.scan_ranges@, state.scanned_top()->0 as int);
            own == Some(ScanPriority::Scanned) || own == Some(ScanPriority::ScannedWithoutMapping) || own == Some(
                ScanPriority::RefetchingNullifiers,
            )
        },
        !covers(state.scan_ranges@, state.scanned_top()->0 as int) ==> state.scanned_top()->0 + 1
            == state.scan_ranges@[0].block_range.start,
{
    let ranges = state.scan_ranges@;
    lemma_contiguous_is_ordered(ranges);
    lemma_last_scanned(ranges, ranges.len() as int);
    let last = last_scanned(ranges, ranges.len() as int);
    let top = state.scanned_top()->0 as int;
    assert(ranges[0].covers_blocks());
    if covers(ranges, height) && height > top {
        let c = choose|c: int| #[trigger] covered_by(ranges, c, height);
        lemma_priority_at(ranges, c, height);
        if last >= 0 && c <= last {
            assert(ranges[last].covers_blocks());
            if c < last {
                assert(ranges[c].block_range.end <= ranges[last].block_range.start);
            }
        }
    }
    if last >= 0 {
        assert(ranges[last].covers_blocks());
        if last > 0 {
            assert(ranges[0].block_range.end <= ranges[last].block_range.start);
        }
        assert(covered_by(ranges, last, top));
        lemma_priority_at(ranges, last, top);
    } else if covers(ranges, top) {
        let c = choose|c: int| #[trigger] covered_by(ranges, c, top);
        if c > 0 {
            assert(ranges[0].block_range.end <= ranges[c].block_range.start);
        }
    }
}

/// The last known height is the highest that a range covers, and the birthday the lowest.
pub proof fn law_ends_of_the_ranges(state: &SyncState, height: int)
    requires
        contiguous(state.scan_ranges@),
        state.scan_ranges@.len() > 0,
    ensures
        state.birthday().is_some() && state.known_tip().is_some(),
        covers(state.scan_ranges@, height) == (state.birthday()->0 <= height <= state.known_tip()->0),
    decreases state.scan_ranges@.len(),
{
    let ranges = state.scan_ranges@;
    lemma_contiguous_is_ordered(ranges);
    assert(ranges[0].covers_blocks());
    assert(ranges[ranges.len() - 1].covers_blocks());
    if covers(ranges, height) {
        let c = choose|c: int| #[trigger] covered_by(ranges, c, height);
        if c > 0 {
            assert(ranges[0].block_range.end <= ranges[c].block_range.start);
        }
        if c < ranges.len() - 1 {
            assert(ranges[c].block_range.end <= ranges[ranges.len() - 1].block_range.start);
        }
    }
    if state.birthday()->0 <= height <= state.known_tip()->0 {
        lemma_covered_up_to(ranges, height, 0);
    }
}

proof fn lemma_covered_up_to(ranges: Seq<ScanRange>, height: int, i: int)
    requires
        contiguous(ranges),
        0 <= i < ranges.len(),
        ranges[i].block_range.start <= height < ranges.last().block_range.end,
    ensures
        covers(ranges, height),
    decreases ranges.len() - i,
{
    if height < ranges[i].block_range.end {
        assert(covered_by(ranges, i, height));
    } else {
        assert(crate::scan_range::meets_next(ranges, i));
        lemma_covered_up_to(ranges, height, i + 1);
    }
}

// --- the status of transactions ---

/// A status takes the place of another only on the way into the chain: from built to sent to the mempool to a block, or
/// from any of the first three to failed. One in a block, and one that failed, stays unless it is forced.
pub proof fn law_status_moves_towards_the_chain(status: ConfirmationStatus, current: ConfirmationStatus, force: bool)
    ensures
        force ==> status.supersedes(current, force),
        !force && (current is Confirmed || current is Failed) ==> !status.supersedes(current, force),
        !force && current is Mempool ==> status.supersedes(current, force) == (status is Confirmed || status is Failed),
        !force && current is Transmitted ==> status.supersedes(current, force) == (status is Mempool
            || status is Confirmed || status is Failed),
        !force && current is Calculated ==> status.supersedes(current, force) == !(status is Calculated),
        status.confirmed_height().is_some() == (status is Confirmed),
        status matches ConfirmationStatus::Confirmed(height) ==> status.confirmed_height() == Some(height),
        status.pending() == !(status is Confirmed || status is Failed),
{
}

/// A range whose priority is as high as the one punched in, or that has been scanned or is being scanned, is not divided.
pub proof fn law_high_ranges_stay_whole(
    ranges: Seq<ScanRange>,
    block_range: BlockRange,
    priority: ScanPriority,
    i: int,
)
    requires
        0 <= i < ranges.len(),
        open_place(priority).is_some(),
        open_place(ranges[i].priority) matches Some(place) ==> place >= open_place(priority)->0,
    ensures
        punched(ranges, block_range, priority).contains(ranges[i]),
    decreases ranges.len(),
{
    let rest = ranges.drop_last();
    let before = punched(rest, block_range, priority);
    let own = punched_one(ranges.last(), block_range, priority);
    if i < rest.len() {
        law_high_ranges_stay_whole(rest, block_range, priority, i);
        let at = choose|at: int| 0 <= at < before.len() && before[at] == ranges[i];
        assert((before + own)[at] == ranges[i]);
    } else {
        assert(own[0] == ranges[i]);
        assert((before + own)[before.len() as int] == ranges[i]);
    }
}

/// A range that is being scanned is not divided when blocks are reopened.
pub proof fn law_ranges_in_work_stay_whole(ranges: Seq<ScanRange>, from_height: BlockHeight, i: int)
    requires
        0 <= i < ranges.len(),
        ranges[i].priority is Scanning,
    ensures
        reopened(ranges, from_height).contains(ranges[i]),
    decreases ranges.len(),
{
    let rest = ranges.drop_last();
    let before = reopened(rest, from_height);
    let own = reopened_one(ranges.last(), from_height);
    if i < rest.len() {
        law_ranges_in_work_stay_whole(rest, from_height, i);
        let at = choose|at: int| 0 <= at < before.len() && before[at] == ranges[i];
        assert((before + own)[at] == ranges[i]);
    } else {
        assert(own[0] == ranges[i]);
        assert((before + own)[before.len() as int] == ranges[i]);
    }
}

} // verus!
