//! Reading and updating the scan ranges of a [`SyncState`].
use crate::primitives::{BlockHeight, BlockRange};
use crate::scan_range::{
    all_cover_blocks, contiguous, covered_by, covers, in_height_order, lemma_contiguous_is_ordered,
    lemma_parts_stay_inside, lemma_priority_at, lemma_spliced_contiguous, lemma_spliced_priority,
    meets_next, priority_at, range_of, splice, spliced, ScanPriority, ScanRange,
};
use crate::wallet::sync_state::{above, SyncState};
use vstd::prelude::*;

verus! {

/// The number of blocks prioritised around a target with a narrow scan area.
pub const NARROW_SCAN_AREA: u32 = 10_000;

/// The number of blocks that are scanned again to detect a re-org.
pub const VERIFY_BLOCK_RANGE_SIZE: u32 = 10;

/// Used to determine which end of the scan range is verified.
#[derive(Clone, Copy, Debug, PartialEq, Eq, Structural)]
pub enum VerifyEnd {
    VerifyHighest,
    VerifyLowest,
}

// --- splitting a range out of another ---

/// Whether the two ranges share a block.
pub open spec fn overlap(a: BlockRange, b: BlockRange) -> bool {
    a.start < a.end && b.start < b.end && a.start < b.end && b.start < a.end
}

/// The parts of `range` when the blocks it shares with `block_range` get `priority`.
pub open spec fn split_out(
    range: ScanRange,
    block_range: BlockRange,
    priority: ScanPriority,
) -> Seq<ScanRange> {
    let own = range.block_range;
    let lower = if own.start < block_range.start {
        seq![range_of(own.start as int, block_range.start as int, range.priority)]
    } else {
        Seq::empty()
    };
    let higher = if block_range.end < own.end {
        seq![range_of(block_range.end as int, own.end as int, range.priority)]
    } else {
        Seq::empty()
    };
    let start = if own.start < block_range.start {
        block_range.start
    } else {
        own.start
    };
    let end = if block_range.end < own.end {
        block_range.end
    } else {
        own.end
    };
    lower + seq![range_of(start as int, end as int, priority)] + higher
}

/// The parts of a split range are contiguous over the blocks of the range.
pub proof fn lemma_split_out(range: ScanRange, block_range: BlockRange, priority: ScanPriority)
    requires
        overlap(range.block_range, block_range),
    ensures
        contiguous(split_out(range, block_range, priority)),
        split_out(range, block_range, priority).len() > 0,
        split_out(range, block_range, priority)[0].block_range.start == range.block_range.start,
        split_out(range, block_range, priority).last().block_range.end == range.block_range.end,
{
    let parts = split_out(range, block_range, priority);
    assert forall|i: int| 0 <= i < parts.len() - 1 implies #[trigger] meets_next(parts, i) by {}
}

/// Splitting out sets the priority of the shared blocks and of no other.
pub proof fn lemma_split_out_priority(
    range: ScanRange,
    block_range: BlockRange,
    priority: ScanPriority,
    height: int,
)
    requires
        overlap(range.block_range, block_range),
    ensures
        priority_at(split_out(range, block_range, priority), height) == if !range.has(height) {
            None
        } else if block_range.has(height) {
            Some(priority)
        } else {
            Some(range.priority)
        },
{
    let parts = split_out(range, block_range, priority);
    lemma_split_out(range, block_range, priority);
    lemma_parts_stay_inside(parts, height);
    lemma_contiguous_is_ordered(parts);
    if range.has(height) {
        let at: int = if height < block_range.start {
            0
        } else if height < block_range.end {
            if range.block_range.start < block_range.start {
                1
            } else {
                0
            }
        } else {
            parts.len() - 1
        };
        assert(covered_by(parts, at, height));
        lemma_priority_at(parts, at, height);
    }
}

/// Takes a `scan_range` and splits it at `block_range.start` and `block_range.end`, returning the scan ranges
/// where the one contained within `block_range` has the given `scan_priority`.
///
/// If `block_range` goes beyond the bounds of the scan range no splitting occurs at that bound but the priority
/// is still updated.
pub fn split_out_scan_range(
    scan_range: ScanRange,
    block_range: BlockRange,
    scan_priority: ScanPriority,
) -> (r: Vec<ScanRange>)
    requires
        overlap(scan_range.block_range, block_range),
    ensures
        r@ == split_out(scan_range, block_range, scan_priority),
{
    let mut split_ranges: Vec<ScanRange> = Vec::new();
    if let Some((lower_range, higher_range)) = scan_range.split_at(block_range.start) {
        split_ranges.push(lower_range);
        if let Some((middle_range, higher_range)) = higher_range.split_at(block_range.end) {
            split_ranges.push(ScanRange::from_parts(middle_range.block_range, scan_priority));
            split_ranges.push(higher_range);
        } else {
            split_ranges.push(ScanRange::from_parts(higher_range.block_range, scan_priority));
        }
    } else if let Some((lower_range, higher_range)) = scan_range.split_at(block_range.end) {
        split_ranges.push(ScanRange::from_parts(lower_range.block_range, scan_priority));
        split_ranges.push(higher_range);
    } else {
        split_ranges.push(ScanRange::from_parts(scan_range.block_range, scan_priority));
    }
    assert(split_ranges@ =~= split_out(scan_range, block_range, scan_priority));
    split_ranges
}

// --- joining runs of ranges ---

/// Two contiguous runs that meet make one.
proof fn lemma_join(a: Seq<ScanRange>, b: Seq<ScanRange>)
    requires
        contiguous(a),
        contiguous(b),
        a.len() > 0,
        b.len() > 0,
        a.last().block_range.end == b[0].block_range.start,
    ensures
        contiguous(a + b),
{
    let both = a + b;
    assert forall|i: int| 0 <= i < both.len() implies (#[trigger] both[i]).covers_blocks() by {
        if i < a.len() {
            assert(both[i] == a[i]);
        } else {
            assert(both[i] == b[i - a.len()]);
        }
    }
    assert forall|i: int| 0 <= i < both.len() - 1 implies #[trigger] meets_next(both, i) by {
        if i + 1 < a.len() {
            assert(meets_next(a, i));
        } else if i + 1 > a.len() {
            assert(meets_next(b, i - a.len()));
        }
    }
}

/// The priority of a block in two runs that meet.
proof fn lemma_join_priority(a: Seq<ScanRange>, b: Seq<ScanRange>, height: int)
    requires
        contiguous(a),
        contiguous(b),
        a.len() > 0,
        b.len() > 0,
        a.last().block_range.end == b[0].block_range.start,
    ensures
        priority_at(a + b, height) == if covers(a, height) {
            priority_at(a, height)
        } else {
            priority_at(b, height)
        },
{
    let both = a + b;
    lemma_join(a, b);
    lemma_contiguous_is_ordered(both);
    lemma_contiguous_is_ordered(a);
    lemma_contiguous_is_ordered(b);
    if covers(a, height) {
        let c = choose|c: int| #[trigger] covered_by(a, c, height);
        assert(covered_by(a, c, height));
        assert(covered_by(both, c, height));
        lemma_priority_at(a, c, height);
        lemma_priority_at(both, c, height);
    } else if covers(b, height) {
        let c = choose|c: int| #[trigger] covered_by(b, c, height);
        assert(covered_by(b, c, height));
        assert(covered_by(both, a.len() + c, height));
        lemma_priority_at(b, c, height);
        lemma_priority_at(both, a.len() + c, height);
    } else if covers(both, height) {
        let c = choose|c: int| #[trigger] covered_by(both, c, height);
        assert(covered_by(both, c, height));
        if c < a.len() {
            assert(covered_by(a, c, height));
        } else {
            assert(covered_by(b, c - a.len(), height));
        }
    }
}

pub(crate) proof fn lemma_drop_last_contiguous(ranges: Seq<ScanRange>)
    requires
        contiguous(ranges),
        ranges.len() > 0,
    ensures
        contiguous(ranges.drop_last()),
        ranges.len() > 1 ==> ranges.drop_last().last().block_range.end
            == ranges.last().block_range.start,
{
    let shorter = ranges.drop_last();
    assert forall|i: int| 0 <= i < shorter.len() - 1 implies #[trigger] meets_next(shorter, i) by {
        assert(meets_next(ranges, i));
    }
    if ranges.len() > 1 {
        assert(meets_next(ranges, ranges.len() - 2));
    }
}

// --- punching a priority into the ranges ---

/// Whether a range with the priority `own` keeps it when `priority` is punched in.
pub open spec fn keeps_priority(own: ScanPriority, priority: ScanPriority) -> bool {
    ||| own.scanned()
    ||| own == ScanPriority::Scanning
    ||| own.level() >= priority.level()
}

/// What becomes of one range when `priority` is punched in over `block_range`.
pub open spec fn punched_one(
    range: ScanRange,
    block_range: BlockRange,
    priority: ScanPriority,
) -> Seq<ScanRange> {
    if keeps_priority(range.priority, priority) || !overlap(range.block_range, block_range) {
        seq![range]
    } else {
        split_out(range, block_range, priority)
    }
}

/// The ranges with `priority` punched in over `block_range`.
pub open spec fn punched(
    ranges: Seq<ScanRange>,
    block_range: BlockRange,
    priority: ScanPriority,
) -> Seq<ScanRange>
    decreases ranges.len(),
{
    if ranges.len() == 0 {
        Seq::empty()
    } else {
        punched(ranges.drop_last(), block_range, priority) + punched_one(
            ranges.last(),
            block_range,
            priority,
        )
    }
}

proof fn lemma_punched_one(range: ScanRange, block_range: BlockRange, priority: ScanPriority, height: int)
    requires
        range.covers_blocks(),
        block_range.start < block_range.end,
    ensures
        contiguous(punched_one(range, block_range, priority)),
        punched_one(range, block_range, priority).len() > 0,
        punched_one(range, block_range, priority)[0].block_range.start == range.block_range.start,
        punched_one(range, block_range, priority).last().block_range.end == range.block_range.end,
        priority_at(punched_one(range, block_range, priority), height) == if !range.has(height) {
            None
        } else if block_range.has(height) && !keeps_priority(range.priority, priority) {
            Some(priority)
        } else {
            Some(range.priority)
        },
{
    let parts = punched_one(range, block_range, priority);
    if keeps_priority(range.priority, priority) || !overlap(range.block_range, block_range) {
        lemma_parts_stay_inside(parts, height);
        lemma_contiguous_is_ordered(parts);
        if range.has(height) {
            assert(covered_by(parts, 0, height));
            lemma_priority_at(parts, 0, height);
        }
    } else {
        lemma_split_out(range, block_range, priority);
        lemma_split_out_priority(range, block_range, priority, height);
    }
}

/// Punching keeps the ranges contiguous over the same blocks, and changes the priority of exactly the blocks in
/// `block_range` whose priority is lower and neither scanned nor being scanned.
#[verifier::rlimit(40)]
pub proof fn law_punched(
    ranges: Seq<ScanRange>,
    block_range: BlockRange,
    priority: ScanPriority,
    height: int,
)
    requires
        contiguous(ranges),
        ranges.len() > 0,
        block_range.start < block_range.end,
    ensures
        contiguous(punched(ranges, block_range, priority)),
        punched(ranges, block_range, priority).len() > 0,
        punched(ranges, block_range, priority)[0].block_range.start == ranges[0].block_range.start,
        punched(ranges, block_range, priority).last().block_range.end
            == ranges.last().block_range.end,
        priority_at(punched(ranges, block_range, priority), height) == match priority_at(
            ranges,
            height,
        ) {
            None => None,
            Some(own) => if block_range.has(height) && !keeps_priority(own, priority) {
                Some(priority)
            } else {
                Some(own)
            },
        },
    decreases ranges.len(),
{
    let shorter = ranges.drop_last();
    let last = ranges.last();
    assert(ranges[ranges.len() - 1].covers_blocks());
    lemma_punched_one(last, block_range, priority, height);
    lemma_drop_last_contiguous(ranges);
    lemma_contiguous_is_ordered(ranges);
    let parts = punched_one(last, block_range, priority);
    let alone = seq![last];
    assert(contiguous(alone));
    lemma_contiguous_is_ordered(alone);
    lemma_parts_stay_inside(alone, height);
    if last.has(height) {
        assert(covered_by(alone, 0, height));
        lemma_priority_at(alone, 0, height);
    }
    if shorter.len() == 0 {
        assert(ranges =~= alone);
        assert(punched(shorter, block_range, priority) =~= Seq::empty());
        assert(punched(ranges, block_range, priority) =~= parts);
    } else {
        law_punched(shorter, block_range, priority, height);
        let before = punched(shorter, block_range, priority);
        lemma_join(before, parts);
        lemma_join_priority(before, parts, height);
        assert(ranges =~= shorter + alone);
        lemma_join_priority(shorter, alone, height);
        lemma_parts_stay_inside(before, height);
        lemma_parts_stay_inside(shorter, height);
    }
}

/// Punches in a `scan_priority` for a given `block_range`.
///
/// Every scan range within `block_range` gets `scan_priority`. Scan ranges that overlap with `block_range` are
/// split at the boundary, and the part within gets `scan_priority`. Scan ranges that are scanned, being scanned,
/// or of a priority that is not lower are left alone.
pub fn punch_scan_priority(
    sync_state: &mut SyncState,
    block_range: BlockRange,
    scan_priority: ScanPriority,
)
    requires
        all_cover_blocks(old(sync_state).scan_ranges@),
        block_range.start < block_range.end,
    ensures
        final(sync_state).scan_ranges@ == punched(
            old(sync_state).scan_ranges@,
            block_range,
            scan_priority,
        ),
        final(sync_state).same_but_scan_ranges(old(sync_state)),
        contiguous(old(sync_state).scan_ranges@) ==> contiguous(final(sync_state).scan_ranges@),
{
    let ghost before = sync_state.scan_ranges@;
    let mut after: Vec<ScanRange> = Vec::new();
    let mut i: usize = 0;
    while i < sync_state.scan_ranges.len()
        invariant
            i <= sync_state.scan_ranges@.len(),
            before == sync_state.scan_ranges@,
            *sync_state == *old(sync_state),
            all_cover_blocks(before),
            block_range.start < block_range.end,
            after@ == punched(before.take(i as int), block_range, scan_priority),
        decreases sync_state.scan_ranges@.len() - i,
    {
        let scan_range = sync_state.scan_ranges[i];
        let own = scan_range.priority;
        assert(before[i as int].covers_blocks());
        assert(before.take(i + 1).drop_last() =~= before.take(i as int));
        if own.is_scanned() || own == ScanPriority::Scanning || own.rank() >= scan_priority.rank()
            || block_range.start >= scan_range.block_range.end || scan_range.block_range.start
            >= block_range.end {
            after.push(scan_range);
            assert(after@ =~= punched(before.take(i as int), block_range, scan_priority)
                + seq![scan_range]);
        } else {
            let mut parts = split_out_scan_range(scan_range, block_range, scan_priority);
            after.append(&mut parts);
        }
        i = i + 1;
    }
    assert(before.take(i as int) =~= before);
    sync_state.scan_ranges = after;
    proof {
        if contiguous(before) && before.len() > 0 {
            law_punched(before, block_range, scan_priority, 0);
        }
    }
}

// --- merging ranges ---

/// The ranges `merged` so far, followed by `range`, which is joined to the last of them if both have `priority`
/// and meet.
pub open spec fn merged_onto(
    merged: Seq<ScanRange>,
    range: ScanRange,
    priority: ScanPriority,
) -> Seq<ScanRange> {
    if merged.len() > 0 && merged.last().priority == priority && range.priority == priority
        && merged.last().block_range.end == range.block_range.start {
        merged.drop_last().push(
            range_of(
                merged.last().block_range.start as int,
                range.block_range.end as int,
                priority,
            ),
        )
    } else {
        merged.push(range)
    }
}

/// The ranges with all adjacent ranges of `priority` joined.
pub open spec fn merged(ranges: Seq<ScanRange>, priority: ScanPriority) -> Seq<ScanRange>
    decreases ranges.len(),
{
    if ranges.len() == 0 {
        Seq::empty()
    } else {
        merged_onto(merged(ranges.drop_last(), priority), ranges.last(), priority)
    }
}

/// Merging keeps the ranges contiguous over the same blocks and the priority of every block, and leaves no two
/// neighbours of `priority`.
#[verifier::rlimit(40)]
pub proof fn law_merged(ranges: Seq<ScanRange>, priority: ScanPriority, height: int)
    requires
        contiguous(ranges),
        ranges.len() > 0,
    ensures
        contiguous(merged(ranges, priority)),
        merged(ranges, priority).len() > 0,
        merged(ranges, priority)[0].block_range.start == ranges[0].block_range.start,
        merged(ranges, priority).last().block_range.end == ranges.last().block_range.end,
        merged(ranges, priority).last().priority == ranges.last().priority,
        priority_at(merged(ranges, priority), height) == priority_at(ranges, height),
        forall|i: int, j: int|
            0 <= i && j == i + 1 && j < merged(ranges, priority).len() ==> !((
            #[trigger] merged(ranges, priority)[i]).priority == priority && (
            #[trigger] merged(ranges, priority)[j]).priority == priority),
    decreases ranges.len(),
{
    let shorter = ranges.drop_last();
    let last = ranges.last();
    assert(ranges[ranges.len() - 1].covers_blocks());
    lemma_drop_last_contiguous(ranges);
    let alone = seq![last];
    assert(contiguous(alone));
    lemma_contiguous_is_ordered(alone);
    lemma_parts_stay_inside(alone, height);
    if last.has(height) {
        assert(covered_by(alone, 0, height));
        lemma_priority_at(alone, 0, height);
    }
    if shorter.len() == 0 {
        assert(ranges =~= alone);
        assert(merged(shorter, priority) =~= Seq::empty());
        assert(merged(ranges, priority) =~= alone);
    } else {
        law_merged(shorter, priority, height);
        let before = merged(shorter, priority);
        assert(ranges =~= shorter + alone);
        lemma_join_priority(shorter, alone, height);
        lemma_parts_stay_inside(before, height);
        lemma_parts_stay_inside(shorter, height);
        if before.last().priority == priority && last.priority == priority {
            let wide = range_of(
                before.last().block_range.start as int,
                last.block_range.end as int,
                priority,
            );
            let after = merged(ranges, priority);
            assert(after =~= before.drop_last().push(wide));
            lemma_drop_last_contiguous(before);
            assert(before[before.len() - 1].covers_blocks());
            let wide_alone = seq![wide];
            assert(contiguous(wide_alone));
            lemma_contiguous_is_ordered(wide_alone);
            lemma_parts_stay_inside(wide_alone, height);
            if wide.has(height) {
                assert(covered_by(wide_alone, 0, height));
                lemma_priority_at(wide_alone, 0, height);
            }
            let before_last = seq![before.last()];
            assert(contiguous(before_last));
            lemma_contiguous_is_ordered(before_last);
            lemma_parts_stay_inside(before_last, height);
            if before.last().has(height) {
                assert(covered_by(before_last, 0, height));
                lemma_priority_at(before_last, 0, height);
            }
            if before.len() > 1 {
                assert(after =~= before.drop_last() + wide_alone);
                lemma_join(before.drop_last(), wide_alone);
                lemma_join_priority(before.drop_last(), wide_alone, height);
                assert(before =~= before.drop_last() + before_last);
                lemma_join_priority(before.drop_last(), before_last, height);
                lemma_parts_stay_inside(before.drop_last(), height);
            } else {
                assert(after =~= wide_alone);
                assert(before =~= before_last);
            }
            assert forall|i: int, j: int|
                0 <= i && j == i + 1 && j < after.len() implies !((
            #[trigger] after[i]).priority == priority && (#[trigger] after[j]).priority
                == priority) by {
                assert(!(before[i].priority == priority && before[j].priority == priority));
            }
        } else {
            assert(merged(ranges, priority) =~= before + alone);
            lemma_join(before, alone);
            lemma_join_priority(before, alone, height);
            let after = merged(ranges, priority);
            assert forall|i: int, j: int|
                0 <= i && j == i + 1 && j < after.len() implies !((
            #[trigger] after[i]).priority == priority && (#[trigger] after[j]).priority
                == priority) by {
                if j < before.len() {
                    assert(!(before[i].priority == priority && before[j].priority == priority));
                }
            }
        }
    }
}

/// Merges all adjacent ranges of a given `scan_priority`.
pub fn merge_scan_ranges(sync_state: &mut SyncState, scan_priority: ScanPriority)
    requires
        contiguous(old(sync_state).scan_ranges@),
    ensures
        final(sync_state).scan_ranges@ == merged(old(sync_state).scan_ranges@, scan_priority),
        final(sync_state).same_but_scan_ranges(old(sync_state)),
        contiguous(final(sync_state).scan_ranges@),
{
    let ghost before = sync_state.scan_ranges@;
    let mut after: Vec<ScanRange> = Vec::new();
    let mut i: usize = 0;
    while i < sync_state.scan_ranges.len()
        invariant
            i <= sync_state.scan_ranges@.len(),
            before == sync_state.scan_ranges@,
            *sync_state == *old(sync_state),
            contiguous(before),
            after@ == merged(before.take(i as int), scan_priority),
        decreases sync_state.scan_ranges@.len() - i,
    {
        let range = sync_state.scan_ranges[i];
        let count: usize = after.len();
        assert(before.take(i + 1).drop_last() =~= before.take(i as int));
        assert(before[i as int].covers_blocks());
        if count > 0 && after[count - 1].priority == scan_priority && range.priority
            == scan_priority && after[count - 1].block_range.end == range.block_range.start {
            proof {
                let taken = before.take(i as int);
                assert forall|k: int| 0 <= k < taken.len() - 1 implies #[trigger] meets_next(
                    taken,
                    k,
                ) by {
                    assert(meets_next(before, k));
                }
                assert(contiguous(taken));
                law_merged(taken, scan_priority, 0);
                assert(after@[count - 1].covers_blocks());
            }
            let ghost so_far = after@;
            let start: u32 = after[count - 1].block_range.start;
            after.pop();
            after.push(
                ScanRange::from_parts(
                    BlockRange { start, end: range.block_range.end },
                    scan_priority,
                ),
            );
            assert(after@ =~= merged_onto(so_far, range, scan_priority));
        } else {
            after.push(range);
        }
        i = i + 1;
    }
    assert(before.take(i as int) =~= before);
    sync_state.scan_ranges = after;
    proof {
        if before.len() > 0 {
            law_merged(before, scan_priority, 0);
        }
    }
}

// --- the range that holds a height or a run of blocks ---

/// Whether `inner` covers blocks and all of them lie in `outer`.
pub open spec fn within(inner: BlockRange, outer: BlockRange) -> bool {
    inner.start < inner.end && outer.start <= inner.start && inner.end <= outer.end
}

/// Whether the range at `i` holds all blocks of `block_range`.
pub open spec fn holds(ranges: Seq<ScanRange>, i: int, block_range: BlockRange) -> bool {
    0 <= i < ranges.len() && within(block_range, ranges[i].block_range)
}

/// The place of the range that holds all blocks of `block_range`.
pub open spec fn holder(ranges: Seq<ScanRange>, block_range: BlockRange) -> int {
    choose|i: int| #[trigger] holds(ranges, i, block_range)
}

/// The place of the range that covers the block at `height`.
pub open spec fn coverer(ranges: Seq<ScanRange>, height: int) -> int {
    choose|i: int| #[trigger] covered_by(ranges, i, height)
}

pub proof fn lemma_holder(ranges: Seq<ScanRange>, block_range: BlockRange, i: int)
    requires
        in_height_order(ranges),
        holds(ranges, i, block_range),
    ensures
        holder(ranges, block_range) == i,
{
    let h = holder(ranges, block_range);
    assert(holds(ranges, h, block_range));
    if h < i {
        assert(ranges[h].block_range.end <= ranges[i].block_range.start);
    }
    if i < h {
        assert(ranges[i].block_range.end <= ranges[h].block_range.start);
    }
}

proof fn lemma_coverer(ranges: Seq<ScanRange>, height: int, i: int)
    requires
        in_height_order(ranges),
        covered_by(ranges, i, height),
    ensures
        coverer(ranges, height) == i,
{
    let h = coverer(ranges, height);
    assert(covered_by(ranges, h, height));
    if h < i {
        assert(ranges[h].block_range.end <= ranges[i].block_range.start);
    }
    if i < h {
        assert(ranges[i].block_range.end <= ranges[h].block_range.start);
    }
}

/// Finds the range that holds all blocks of `block_range`.
pub(crate) fn find_holder(ranges: &Vec<ScanRange>, block_range: BlockRange) -> (r: usize)
    requires
        in_height_order(ranges@),
        exists|i: int| #[trigger] holds(ranges@, i, block_range),
    ensures
        holds(ranges@, r as int, block_range),
        r == holder(ranges@, block_range),
{
    let mut i: usize = 0;
    while i < ranges.len()
        invariant
            i <= ranges@.len(),
            in_height_order(ranges@),
            exists|i: int| #[trigger] holds(ranges@, i, block_range),
            forall|k: int| 0 <= k < i ==> !#[trigger] holds(ranges@, k, block_range),
        decreases ranges@.len() - i,
    {
        let own = ranges[i].block_range;
        if own.start <= block_range.start && block_range.end <= own.end && block_range.start
            < block_range.end {
            proof {
                assert(holds(ranges@, i as int, block_range));
                lemma_holder(ranges@, block_range, i as int);
            }
            return i;
        }
        assert(!holds(ranges@, i as int, block_range));
        i = i + 1;
    }
    assert(false);
    i
}

/// Finds the range that covers the block at `height`.
fn find_coverer(ranges: &Vec<ScanRange>, height: BlockHeight) -> (r: Option<usize>)
    requires
        in_height_order(ranges@),
    ensures
        r.is_some() == covers(ranges@, height as int),
        r matches Some(i) ==> covered_by(ranges@, i as int, height as int) && i == coverer(
            ranges@,
            height as int,
        ),
{
    let mut i: usize = 0;
    while i < ranges.len()
        invariant
            i <= ranges@.len(),
            in_height_order(ranges@),
            forall|k: int| 0 <= k < i ==> !#[trigger] covered_by(ranges@, k, height as int),
        decreases ranges@.len() - i,
    {
        if ranges[i].block_range.contains(height) {
            proof {
                assert(covered_by(ranges@, i as int, height as int));
                lemma_coverer(ranges@, height as int, i as int);
            }
            return Some(i);
        }
        assert(!covered_by(ranges@, i as int, height as int));
        i = i + 1;
    }
    None
}

// --- the life of the ranges ---

/// Creates the scan range between the wallet height and the chain height from the server.
pub fn create_scan_range(
    last_known_chain_height: BlockHeight,
    chain_height: BlockHeight,
    sync_state: &mut SyncState,
)
    ensures
        final(sync_state).same_but_scan_ranges(old(sync_state)),
        final(sync_state).scan_ranges@ == if last_known_chain_height >= chain_height {
            old(sync_state).scan_ranges@
        } else {
            old(sync_state).scan_ranges@.push(
                range_of(
                    last_known_chain_height + 1,
                    above(chain_height) as int,
                    ScanPriority::Historic,
                ),
            )
        },
        contiguous(old(sync_state).scan_ranges@) && chain_height < u32::MAX && (
        old(sync_state).scan_ranges@.len() == 0 || old(sync_state).scan_ranges@.last().block_range.end
            == last_known_chain_height + 1) ==> contiguous(final(sync_state).scan_ranges@),
{
    if last_known_chain_height >= chain_height {
        return;
    }
    let ghost before = sync_state.scan_ranges@;
    let new_scan_range = ScanRange::from_parts(
        BlockRange { start: last_known_chain_height + 1, end: chain_height.saturating_add(1) },
        ScanPriority::Historic,
    );
    sync_state.scan_ranges.push(new_scan_range);
    proof {
        if contiguous(before) && chain_height < u32::MAX && before.len() > 0
            && before.last().block_range.end == last_known_chain_height + 1 {
            let alone = seq![new_scan_range];
            assert(contiguous(alone));
            lemma_join(before, alone);
            assert(sync_state.scan_ranges@ =~= before + alone);
        }
    }
}

/// The ranges with every block above `height` cut away.
pub open spec fn truncated(ranges: Seq<ScanRange>, height: BlockHeight) -> Seq<ScanRange>
    decreases ranges.len(),
{
    if ranges.len() == 0 {
        Seq::empty()
    } else {
        let before = truncated(ranges.drop_last(), height);
        let own = ranges.last().block_range;
        if own.start > height {
            before
        } else if own.end > height + 1 {
            before.push(range_of(own.start as int, height + 1, ranges.last().priority))
        } else {
            before.push(ranges.last())
        }
    }
}

/// Truncation leaves exactly the blocks at or below the height, each with its priority.
#[verifier::rlimit(40)]
pub proof fn law_truncated(ranges: Seq<ScanRange>, height: BlockHeight, h: int)
    requires
        contiguous(ranges),
    ensures
        contiguous(truncated(ranges, height)),
        truncated(ranges, height).len() <= ranges.len(),
        truncated(ranges, height).len() > 0 ==> truncated(ranges, height)[0].block_range.start
            == ranges[0].block_range.start && truncated(ranges, height).last().block_range.end
            == if ranges.last().block_range.end > height + 1 {
            height + 1
        } else {
            ranges.last().block_range.end as int
        },
        truncated(ranges, height).len() == 0 <==> ranges.len() == 0 || ranges[0].block_range.start
            > height,
        priority_at(truncated(ranges, height), h) == if h <= height {
            priority_at(ranges, h)
        } else {
            None
        },
    decreases ranges.len(),
{
    if ranges.len() == 0 {
        assert(truncated(ranges, height) =~= ranges);
    } else {
        let shorter = ranges.drop_last();
        let last = ranges.last();
        lemma_drop_last_contiguous(ranges);
        lemma_contiguous_is_ordered(ranges);
        law_truncated(shorter, height, h);
        let before = truncated(shorter, height);
        let after = truncated(ranges, height);
        assert(ranges[ranges.len() - 1].covers_blocks());
        let alone = seq![last];
        assert(contiguous(alone));
        lemma_one(last, h);
        assert(ranges =~= shorter + alone);
        if shorter.len() > 0 {
            assert(ranges[0].covers_blocks());
            assert(ranges[0].block_range.end <= ranges[ranges.len() - 1].block_range.start);
            lemma_join_priority(shorter, alone, h);
            lemma_parts_stay_inside(shorter, h);
        } else {
            assert(shorter + alone =~= alone);
        }
        if last.block_range.start > height {
            assert(after =~= before);
        } else {
            let kept = if last.block_range.end > height + 1 {
                range_of(last.block_range.start as int, height + 1, last.priority)
            } else {
                last
            };
            assert(contiguous(seq![kept]));
            lemma_one(kept, h);
            assert(after =~= before + seq![kept]);
            if shorter.len() > 0 {
                assert(before.len() > 0);
                lemma_join(before, seq![kept]);
                lemma_join_priority(before, seq![kept], h);
                lemma_parts_stay_inside(before, h);
            } else {
                assert(before =~= Seq::empty());
                assert(after =~= seq![kept]);
            }
        }
    }
}

/// The priority of a block in a single range.
proof fn lemma_one(range: ScanRange, height: int)
    requires
        range.covers_blocks(),
    ensures
        contiguous(seq![range]),
        priority_at(seq![range], height) == if range.has(height) {
            Some(range.priority)
        } else {
            None
        },
{
    let alone = seq![range];
    lemma_contiguous_is_ordered(alone);
    lemma_parts_stay_inside(alone, height);
    if range.has(height) {
        assert(covered_by(alone, 0, height));
        lemma_priority_at(alone, 0, height);
    }
}

/// Splits the range containing `truncate_height + 1` and removes all ranges containing block heights above
/// `truncate_height`.
///
/// If `truncate_height` is zero, the sync state is cleared completely.
pub fn truncate_scan_ranges(truncate_height: BlockHeight, sync_state: &mut SyncState)
    ensures
        truncate_height == 0 ==> final(sync_state).blank(),
        truncate_height > 0 ==> final(sync_state).same_but_scan_ranges(old(sync_state))
            && final(sync_state).scan_ranges@ == truncated(
            old(sync_state).scan_ranges@,
            truncate_height,
        ),
        contiguous(old(sync_state).scan_ranges@) ==> contiguous(final(sync_state).scan_ranges@),
{
    let ghost before = sync_state.scan_ranges@;
    if truncate_height == 0 {
        *sync_state = SyncState::new();
        return;
    }
    let mut kept: Vec<ScanRange> = Vec::new();
    let mut i: usize = 0;
    while i < sync_state.scan_ranges.len()
        invariant
            i <= sync_state.scan_ranges@.len(),
            before == sync_state.scan_ranges@,
            *sync_state == *old(sync_state),
            kept@ == truncated(before.take(i as int), truncate_height),
        decreases sync_state.scan_ranges@.len() - i,
    {
        let range = sync_state.scan_ranges[i];
        assert(before.take(i + 1).drop_last() =~= before.take(i as int));
        if range.block_range.start <= truncate_height {
            match range.split_at(truncate_height.saturating_add(1)) {
                Some((lower, _)) => {
                    kept.push(lower);
                },
                None => {
                    kept.push(range);
                },
            }
        }
        i = i + 1;
    }
    assert(before.take(i as int) =~= before);
    sync_state.scan_ranges = kept;
    proof {
        if contiguous(before) {
            law_truncated(before, truncate_height, 0);
        }
    }
}

/// The priority that an interrupted range goes back to.
pub open spec fn priority_after_interruption(priority: ScanPriority) -> ScanPriority {
    if priority == ScanPriority::Scanning {
        ScanPriority::FoundNote
    } else if priority == ScanPriority::RefetchingNullifiers {
        ScanPriority::ScannedWithoutMapping
    } else {
        priority
    }
}

/// The ranges with each priority mapped by `becomes`.
pub open spec fn with_priorities(
    ranges: Seq<ScanRange>,
    becomes: spec_fn(ScanPriority) -> ScanPriority,
) -> Seq<ScanRange> {
    Seq::new(
        ranges.len(),
        |i: int|
            ScanRange { block_range: ranges[i].block_range, priority: becomes(ranges[i].priority) },
    )
}

pub proof fn lemma_same_blocks_contiguous(a: Seq<ScanRange>, b: Seq<ScanRange>)
    requires
        contiguous(a),
        a.len() == b.len(),
        forall|i: int| 0 <= i < a.len() ==> (#[trigger] a[i]).block_range == b[i].block_range,
    ensures
        contiguous(b),
{
    assert forall|i: int| 0 <= i < b.len() implies (#[trigger] b[i]).covers_blocks() by {
        assert(a[i].covers_blocks());
    }
    assert forall|i: int| 0 <= i < b.len() - 1 implies #[trigger] meets_next(b, i) by {
        assert(meets_next(a, i));
        assert(a[i].block_range == b[i].block_range);
        assert(a[i + 1].block_range == b[i + 1].block_range);
    }
}

/// Resets scan ranges to recover from previous sync interruptions.
///
/// A range that was previously scanning when sync was last interrupted is set to `FoundNote` to be prioritised
/// for scanning. A range that was previously refetching nullifiers when sync was last interrupted is set to
/// `ScannedWithoutMapping` so the nullifiers can be fetched again.
pub fn reset_scan_ranges(sync_state: &mut SyncState)
    ensures
        final(sync_state).same_but_scan_ranges(old(sync_state)),
        final(sync_state).scan_ranges@ == with_priorities(
            old(sync_state).scan_ranges@,
            |priority: ScanPriority| priority_after_interruption(priority),
        ),
        contiguous(old(sync_state).scan_ranges@) ==> contiguous(final(sync_state).scan_ranges@),
{
    let ghost before = sync_state.scan_ranges@;
    let mut reset: Vec<ScanRange> = Vec::new();
    let mut i: usize = 0;
    while i < sync_state.scan_ranges.len()
        invariant
            i <= sync_state.scan_ranges@.len(),
            before == sync_state.scan_ranges@,
            *sync_state == *old(sync_state),
            reset@.len() == i,
            forall|k: int|
                0 <= k < i ==> #[trigger] reset@[k] == (ScanRange {
                    block_range: before[k].block_range,
                    priority: priority_after_interruption(before[k].priority),
                }),
        decreases sync_state.scan_ranges@.len() - i,
    {
        let range = sync_state.scan_ranges[i];
        let priority = match range.priority {
            ScanPriority::Scanning => ScanPriority::FoundNote,
            ScanPriority::RefetchingNullifiers => ScanPriority::ScannedWithoutMapping,
            other => other,
        };
        reset.push(ScanRange { block_range: range.block_range, priority });
        i = i + 1;
    }
    sync_state.scan_ranges = reset;
    proof {
        if contiguous(before) {
            lemma_same_blocks_contiguous(before, sync_state.scan_ranges@);
        }
    }
}

/// The blocks of `range` at the given end that are scanned again.
pub open spec fn blocks_to_verify(range: BlockRange, verify_end: VerifyEnd) -> BlockRange {
    match verify_end {
        VerifyEnd::VerifyHighest => BlockRange {
            start: if range.end - range.start > VERIFY_BLOCK_RANGE_SIZE {
                (range.end - VERIFY_BLOCK_RANGE_SIZE) as u32
            } else {
                range.start
            },
            end: range.end,
        },
        VerifyEnd::VerifyLowest => BlockRange {
            start: range.start,
            end: if range.end - range.start > VERIFY_BLOCK_RANGE_SIZE {
                (range.start + VERIFY_BLOCK_RANGE_SIZE) as u32
            } else {
                range.end
            },
        },
    }
}

/// Splits out the highest or lowest [`VERIFY_BLOCK_RANGE_SIZE`] blocks from the scan range containing the given
/// block height and sets their priority to `Verify`.
///
/// Returns the scan range to be verified.
pub fn set_verify_scan_range(
    sync_state: &mut SyncState,
    block_height: BlockHeight,
    verify_end: VerifyEnd,
) -> (r: ScanRange)
    requires
        contiguous(old(sync_state).scan_ranges@),
        covers(old(sync_state).scan_ranges@, block_height as int),
    ensures
        ({
            let ranges = old(sync_state).scan_ranges@;
            let at = coverer(ranges, block_height as int);
            let verified = blocks_to_verify(ranges[at].block_range, verify_end);
            &&& r == ScanRange { block_range: verified, priority: ScanPriority::Verify }
            &&& final(sync_state).scan_ranges@ == spliced(
                ranges,
                at,
                split_out(ranges[at], verified, ScanPriority::Verify),
            )
        }),
        final(sync_state).same_but_scan_ranges(old(sync_state)),
        contiguous(final(sync_state).scan_ranges@),
{
    let ghost before = sync_state.scan_ranges@;
    proof {
        lemma_contiguous_is_ordered(before);
    }
    let index: usize = find_coverer(&sync_state.scan_ranges, block_height).unwrap();
    let scan_range = sync_state.scan_ranges[index];
    assert(before[index as int].covers_blocks());
    let block_range_to_verify = match verify_end {
        VerifyEnd::VerifyHighest => BlockRange {
            start: if scan_range.block_range.end - scan_range.block_range.start
                > VERIFY_BLOCK_RANGE_SIZE {
                scan_range.block_range.end - VERIFY_BLOCK_RANGE_SIZE
            } else {
                scan_range.block_range.start
            },
            end: scan_range.block_range.end,
        },
        VerifyEnd::VerifyLowest => BlockRange {
            start: scan_range.block_range.start,
            end: if scan_range.block_range.end - scan_range.block_range.start
                > VERIFY_BLOCK_RANGE_SIZE {
                scan_range.block_range.start + VERIFY_BLOCK_RANGE_SIZE
            } else {
                scan_range.block_range.end
            },
        },
    };
    let split_ranges = split_out_scan_range(
        scan_range,
        block_range_to_verify,
        ScanPriority::Verify,
    );
    let scan_range_to_verify = match verify_end {
        VerifyEnd::VerifyHighest => split_ranges[split_ranges.len() - 1],
        VerifyEnd::VerifyLowest => split_ranges[0],
    };
    proof {
        lemma_split_out(scan_range, block_range_to_verify, ScanPriority::Verify);
        lemma_spliced_contiguous(before, index as int, split_ranges@);
    }
    splice(&mut sync_state.scan_ranges, index, &split_ranges);
    scan_range_to_verify
}

/// Splits the blocks of `block_range` out of the range that holds them and gives them `priority`.
fn split_out_of_holder(
    sync_state: &mut SyncState,
    block_range: BlockRange,
    priority: ScanPriority,
)
    requires
        contiguous(old(sync_state).scan_ranges@),
        exists|i: int| #[trigger] holds(old(sync_state).scan_ranges@, i, block_range),
    ensures
        ({
            let ranges = old(sync_state).scan_ranges@;
            let at = holder(ranges, block_range);
            final(sync_state).scan_ranges@ == spliced(
                ranges,
                at,
                split_out(ranges[at], block_range, priority),
            )
        }),
        final(sync_state).same_but_scan_ranges(old(sync_state)),
        contiguous(final(sync_state).scan_ranges@),
{
    let ghost before = sync_state.scan_ranges@;
    proof {
        lemma_contiguous_is_ordered(before);
    }
    let index: usize = find_holder(&sync_state.scan_ranges, block_range);
    let scan_range = sync_state.scan_ranges[index];
    assert(before[index as int].covers_blocks());
    let split_ranges = split_out_scan_range(scan_range, block_range, priority);
    proof {
        lemma_split_out(scan_range, block_range, priority);
        lemma_spliced_contiguous(before, index as int, split_ranges@);
    }
    splice(&mut sync_state.scan_ranges, index, &split_ranges);
}

/// What splitting blocks out of their range does to the priority of each block.
pub proof fn law_split_out_of_holder(
    ranges: Seq<ScanRange>,
    block_range: BlockRange,
    priority: ScanPriority,
    height: int,
)
    requires
        contiguous(ranges),
        exists|i: int| #[trigger] holds(ranges, i, block_range),
    ensures
        ({
            let at = holder(ranges, block_range);
            let after = spliced(ranges, at, split_out(ranges[at], block_range, priority));
            priority_at(after, height) == if block_range.has(height) {
                Some(priority)
            } else {
                priority_at(ranges, height)
            }
        }),
{
    lemma_contiguous_is_ordered(ranges);
    let at = holder(ranges, block_range);
    assert(holds(ranges, at, block_range));
    assert(ranges[at].covers_blocks());
    lemma_split_out(ranges[at], block_range, priority);
    lemma_split_out_priority(ranges[at], block_range, priority, height);
    lemma_spliced_priority(
        ranges,
        at,
        split_out(ranges[at], block_range, priority),
        height,
    );
    if ranges[at].has(height) {
        assert(covered_by(ranges, at, height));
        lemma_priority_at(ranges, at, height);
    }
}

/// Sets the blocks of `scanned_range` to scanned, with or without their nullifiers in the wallet's map.
pub fn set_scanned_scan_range(
    sync_state: &mut SyncState,
    scanned_range: BlockRange,
    nullifiers_mapped: bool,
)
    requires
        contiguous(old(sync_state).scan_ranges@),
        exists|i: int| #[trigger] holds(old(sync_state).scan_ranges@, i, scanned_range),
    ensures
        ({
            let ranges = old(sync_state).scan_ranges@;
            let at = holder(ranges, scanned_range);
            final(sync_state).scan_ranges@ == spliced(
                ranges,
                at,
                split_out(
                    ranges[at],
                    scanned_range,
                    if nullifiers_mapped {
                        ScanPriority::Scanned
                    } else {
                        ScanPriority::ScannedWithoutMapping
                    },
                ),
            )
        }),
        final(sync_state).same_but_scan_ranges(old(sync_state)),
        contiguous(final(sync_state).scan_ranges@),
{
    split_out_of_holder(
        sync_state,
        scanned_range,
        if nullifiers_mapped {
            ScanPriority::Scanned
        } else {
            ScanPriority::ScannedWithoutMapping
        },
    )
}

/// Sets the blocks of `invalid_refetch_range` back to scanned without their nullifiers in the wallet's map.
pub fn reset_refetching_nullifiers_scan_range(
    sync_state: &mut SyncState,
    invalid_refetch_range: BlockRange,
)
    requires
        contiguous(old(sync_state).scan_ranges@),
        exists|i: int| #[trigger] holds(old(sync_state).scan_ranges@, i, invalid_refetch_range),
    ensures
        ({
            let ranges = old(sync_state).scan_ranges@;
            let at = holder(ranges, invalid_refetch_range);
            final(sync_state).scan_ranges@ == spliced(
                ranges,
                at,
                split_out(
                    ranges[at],
                    invalid_refetch_range,
                    ScanPriority::ScannedWithoutMapping,
                ),
            )
        }),
        final(sync_state).same_but_scan_ranges(old(sync_state)),
        contiguous(final(sync_state).scan_ranges@),
{
    split_out_of_holder(sync_state, invalid_refetch_range, ScanPriority::ScannedWithoutMapping)
}

/// Whether the range at `i` is the first with exactly the blocks of `block_range`.
pub open spec fn first_with_blocks(
    ranges: Seq<ScanRange>,
    i: int,
    block_range: BlockRange,
) -> bool {
    &&& 0 <= i < ranges.len()
    &&& ranges[i].block_range == block_range
    &&& forall|k: int| 0 <= k < i ==> (#[trigger] ranges[k]).block_range != block_range
}

/// Sets the scan range in `sync_state` with exactly the blocks of `block_range` to the given `scan_priority`.
pub fn set_scan_priority(
    sync_state: &mut SyncState,
    block_range: &BlockRange,
    scan_priority: ScanPriority,
)
    requires
        exists|i: int|
            0 <= i < old(sync_state).scan_ranges@.len() && (
            #[trigger] old(sync_state).scan_ranges@[i]).block_range == *block_range,
    ensures
        exists|i: int|
            #[trigger] first_with_blocks(old(sync_state).scan_ranges@, i, *block_range)
                && final(sync_state).scan_ranges@ == old(sync_state).scan_ranges@.update(
                i,
                ScanRange { block_range: *block_range, priority: scan_priority },
            ),
        final(sync_state).same_but_scan_ranges(old(sync_state)),
        contiguous(old(sync_state).scan_ranges@) ==> contiguous(final(sync_state).scan_ranges@),
{
    let ghost before = sync_state.scan_ranges@;
    let mut i: usize = 0;
    while i < sync_state.scan_ranges.len()
        invariant
            i <= sync_state.scan_ranges@.len(),
            before == sync_state.scan_ranges@,
            *sync_state == *old(sync_state),
            exists|i: int|
                0 <= i < before.len() && (#[trigger] before[i]).block_range == *block_range,
            forall|k: int| 0 <= k < i ==> (#[trigger] before[k]).block_range != *block_range,
        decreases sync_state.scan_ranges@.len() - i,
    {
        if sync_state.scan_ranges[i].block_range == *block_range {
            sync_state.scan_ranges.set(
                i,
                ScanRange { block_range: *block_range, priority: scan_priority },
            );
            proof {
                assert(first_with_blocks(before, i as int, *block_range));
                if contiguous(before) {
                    lemma_same_blocks_contiguous(before, sync_state.scan_ranges@);
                }
            }
            return;
        }
        i = i + 1;
    }
    assert(false);
}

// --- reopening ---

/// The priority that a range has once it is reopened.
pub open spec fn reopened_priority(priority: ScanPriority) -> ScanPriority {
    if priority.scanned() {
        ScanPriority::Historic
    } else {
        priority
    }
}

/// What becomes of one range when every scanned block at or above `from_height` is reopened.
///
/// A range that is being scanned keeps its bounds: its results are in flight against them.
pub open spec fn reopened_one(range: ScanRange, from_height: BlockHeight) -> Seq<ScanRange> {
    let own = range.block_range;
    if from_height <= own.start {
        seq![ScanRange { block_range: own, priority: reopened_priority(range.priority) }]
    } else if from_height < own.end && range.priority != ScanPriority::Scanning {
        seq![
            range_of(own.start as int, from_height as int, range.priority),
            range_of(from_height as int, own.end as int, reopened_priority(range.priority)),
        ]
    } else {
        seq![range]
    }
}

/// The ranges with every scanned block at or above `from_height` reopened.
pub open spec fn reopened(ranges: Seq<ScanRange>, from_height: BlockHeight) -> Seq<ScanRange>
    decreases ranges.len(),
{
    if ranges.len() == 0 {
        Seq::empty()
    } else {
        reopened(ranges.drop_last(), from_height) + reopened_one(ranges.last(), from_height)
    }
}

proof fn lemma_reopened_one(range: ScanRange, from_height: BlockHeight, height: int)
    requires
        range.covers_blocks(),
    ensures
        contiguous(reopened_one(range, from_height)),
        reopened_one(range, from_height).len() > 0,
        reopened_one(range, from_height)[0].block_range.start == range.block_range.start,
        reopened_one(range, from_height).last().block_range.end == range.block_range.end,
        priority_at(reopened_one(range, from_height), height) == if !range.has(height) {
            None
        } else if height >= from_height {
            Some(reopened_priority(range.priority))
        } else {
            Some(range.priority)
        },
{
    let parts = reopened_one(range, from_height);
    assert forall|i: int| 0 <= i < parts.len() - 1 implies #[trigger] meets_next(parts, i) by {}
    lemma_contiguous_is_ordered(parts);
    lemma_parts_stay_inside(parts, height);
    if range.has(height) {
        let at: int = if parts.len() == 2 && height >= from_height {
            1
        } else {
            0
        };
        assert(covered_by(parts, at, height));
        lemma_priority_at(parts, at, height);
    }
}

/// Reopening returns every scanned block at or above the height to `Historic`, changes no other block, and keeps
/// the ranges contiguous.
#[verifier::rlimit(40)]
pub proof fn law_reopened(ranges: Seq<ScanRange>, from_height: BlockHeight, height: int)
    requires
        contiguous(ranges),
        ranges.len() > 0,
    ensures
        contiguous(reopened(ranges, from_height)),
        reopened(ranges, from_height).len() > 0,
        reopened(ranges, from_height)[0].block_range.start == ranges[0].block_range.start,
        reopened(ranges, from_height).last().block_range.end == ranges.last().block_range.end,
        priority_at(reopened(ranges, from_height), height) == match priority_at(ranges, height) {
            None => None,
            Some(own) => if height >= from_height {
                Some(reopened_priority(own))
            } else {
                Some(own)
            },
        },
    decreases ranges.len(),
{
    let shorter = ranges.drop_last();
    let last = ranges.last();
    assert(ranges[ranges.len() - 1].covers_blocks());
    lemma_reopened_one(last, from_height, height);
    lemma_drop_last_contiguous(ranges);
    let parts = reopened_one(last, from_height);
    let alone = seq![last];
    lemma_one(last, height);
    if shorter.len() == 0 {
        assert(ranges =~= alone);
        assert(reopened(shorter, from_height) =~= Seq::empty());
        assert(reopened(ranges, from_height) =~= parts);
    } else {
        law_reopened(shorter, from_height, height);
        let before = reopened(shorter, from_height);
        lemma_join(before, parts);
        lemma_join_priority(before, parts, height);
        assert(ranges =~= shorter + alone);
        lemma_join_priority(shorter, alone, height);
        lemma_parts_stay_inside(before, height);
        lemma_parts_stay_inside(shorter, height);
    }
}

/// Reopens for scanning every scanned range at or above `from_height`, splitting the range that straddles it.
///
/// `Historic` is the priority of a range that has never been scanned, which is what a range whose recorded
/// history cannot be trusted has become. Ranges being scanned right now are left alone, since their results are
/// already in flight against the bounds they were dispatched with.
pub fn reopen_scan_ranges_inner(sync_state: &mut SyncState, from_height: BlockHeight)
    ensures
        final(sync_state).same_but_scan_ranges(old(sync_state)),
        final(sync_state).scan_ranges@ == reopened(old(sync_state).scan_ranges@, from_height),
        contiguous(old(sync_state).scan_ranges@) ==> contiguous(final(sync_state).scan_ranges@),
{
    let ghost before = sync_state.scan_ranges@;
    let mut after: Vec<ScanRange> = Vec::new();
    let mut i: usize = 0;
    while i < sync_state.scan_ranges.len()
        invariant
            i <= sync_state.scan_ranges@.len(),
            before == sync_state.scan_ranges@,
            *sync_state == *old(sync_state),
            after@ == reopened(before.take(i as int), from_height),
        decreases sync_state.scan_ranges@.len() - i,
    {
        let range = sync_state.scan_ranges[i];
        let ghost so_far = after@;
        assert(before.take(i + 1).drop_last() =~= before.take(i as int));
        let priority = if range.priority.is_scanned() {
            ScanPriority::Historic
        } else {
            range.priority
        };
        if from_height <= range.block_range.start {
            after.push(ScanRange { block_range: range.block_range, priority });
        } else if from_height < range.block_range.end && range.priority != ScanPriority::Scanning {
            after.push(
                ScanRange {
                    block_range: BlockRange { start: range.block_range.start, end: from_height },
                    priority: range.priority,
                },
            );
            after.push(
                ScanRange {
                    block_range: BlockRange { start: from_height, end: range.block_range.end },
                    priority,
                },
            );
        } else {
            after.push(range);
        }
        assert(after@ =~= so_far + reopened_one(range, from_height));
        i = i + 1;
    }
    assert(before.take(i as int) =~= before);
    sync_state.scan_ranges = after;
    proof {
        if contiguous(before) && before.len() > 0 {
            law_reopened(before, from_height, 0);
        }
    }
}

// --- counting ---

/// The number of blocks of the ranges that have been scanned.
pub open spec fn scanned_block_count(ranges: Seq<ScanRange>) -> int
    decreases ranges.len(),
{
    if ranges.len() == 0 {
        0
    } else {
        let last = ranges.last();
        scanned_block_count(ranges.drop_last()) + if last.priority.scanned() {
            last.block_range.end - last.block_range.start
        } else {
            0
        }
    }
}

pub(crate) proof fn lemma_scanned_block_count_bound(ranges: Seq<ScanRange>)
    requires
        contiguous(ranges),
    ensures
        0 <= scanned_block_count(ranges),
        ranges.len() > 0 ==> scanned_block_count(ranges) <= ranges.last().block_range.end
            - ranges[0].block_range.start,
        ranges.len() == 0 ==> scanned_block_count(ranges) == 0,
    decreases ranges.len(),
{
    if ranges.len() > 0 {
        lemma_drop_last_contiguous(ranges);
        lemma_scanned_block_count_bound(ranges.drop_last());
        assert(ranges[ranges.len() - 1].covers_blocks());
    }
}

/// The number of blocks that have been scanned.
pub fn calculate_scanned_blocks(sync_state: &SyncState) -> (r: u32)
    requires
        contiguous(sync_state.scan_ranges@),
    ensures
        r == scanned_block_count(sync_state.scan_ranges@),
{
    let ghost ranges = sync_state.scan_ranges@;
    let mut count: u32 = 0;
    let mut i: usize = 0;
    while i < sync_state.scan_ranges.len()
        invariant
            i <= ranges.len(),
            ranges == sync_state.scan_ranges@,
            contiguous(ranges),
            count == scanned_block_count(ranges.take(i as int)),
        decreases ranges.len() - i,
    {
        let range = sync_state.scan_ranges[i];
        proof {
            let taken = ranges.take(i + 1);
            assert forall|k: int| 0 <= k < taken.len() - 1 implies #[trigger] meets_next(
                taken,
                k,
            ) by {
                assert(meets_next(ranges, k));
            }
            assert(contiguous(taken));
            lemma_scanned_block_count_bound(taken);
            assert(taken.drop_last() =~= ranges.take(i as int));
            assert(ranges[i as int].covers_blocks());
        }
        if range.priority.is_scanned() {
            count = count + (range.block_range.end - range.block_range.start);
        }
        i = i + 1;
    }
    assert(ranges.take(i as int) =~= ranges);
    count
}

} // verus!
