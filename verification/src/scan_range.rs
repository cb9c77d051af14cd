//! Scan priorities and the prioritised block ranges that a wallet has yet to scan or has scanned.
use crate::primitives::{BlockHeight, BlockRange};
use vstd::prelude::*;

verus! {

/// Scanning range priority levels, from the lowest to the highest.
#[derive(Clone, Copy, Debug, PartialEq, Eq, PartialOrd, Ord, Structural)]
pub enum ScanPriority {
    /// Block ranges that are currently refetching nullifiers.
    RefetchingNullifiers,
    /// Block ranges that are currently being scanned.
    Scanning,
    /// Block ranges that have already been scanned will not be re-scanned.
    Scanned,
    /// Block ranges that have already been scanned but whose nullifiers were not mapped. The nullifiers are
    /// fetched again when this is the lowest unscanned range of the wallet.
    ScannedWithoutMapping,
    /// Block ranges to be scanned to advance the fully-scanned height.
    Historic,
    /// Block ranges adjacent to heights at which the user opened the wallet.
    OpenAdjacent,
    /// Blocks that must be scanned to complete note commitment tree shards adjacent to found notes.
    FoundNote,
    /// Blocks that must be scanned to complete the latest note commitment tree shard.
    ChainTip,
    /// A previously scanned range that must be verified to check it is still in the main chain.
    Verify,
}

impl ScanPriority {
    /// The place of the priority in the order, from the lowest.
    pub open spec fn level(self) -> int {
        match self {
            ScanPriority::RefetchingNullifiers => 0,
            ScanPriority::Scanning => 1,
            ScanPriority::Scanned => 2,
            ScanPriority::ScannedWithoutMapping => 3,
            ScanPriority::Historic => 4,
            ScanPriority::OpenAdjacent => 5,
            ScanPriority::FoundNote => 6,
            ScanPriority::ChainTip => 7,
            ScanPriority::Verify => 8,
        }
    }

    /// Whether the blocks of a range with this priority have been scanned.
    pub open spec fn scanned(self) -> bool {
        self == ScanPriority::Scanned || self == ScanPriority::ScannedWithoutMapping || self
            == ScanPriority::RefetchingNullifiers
    }

    /// The place of the priority in the order, from the lowest.
    pub fn rank(self) -> (r: u8)
        ensures
            r == self.level(),
    {
        match self {
            ScanPriority::RefetchingNullifiers => 0,
            ScanPriority::Scanning => 1,
            ScanPriority::Scanned => 2,
            ScanPriority::ScannedWithoutMapping => 3,
            ScanPriority::Historic => 4,
            ScanPriority::OpenAdjacent => 5,
            ScanPriority::FoundNote => 6,
            ScanPriority::ChainTip => 7,
            ScanPriority::Verify => 8,
        }
    }

    /// Whether this priority marks a range whose blocks have been scanned, including ranges whose nullifiers
    /// still await retrieval.
    pub fn is_scanned(self) -> (r: bool)
        ensures
            r == self.scanned(),
    {
        self == ScanPriority::Scanned || self == ScanPriority::ScannedWithoutMapping || self
            == ScanPriority::RefetchingNullifiers
    }

    /// Whether this priority marks a range whose blocks have been scanned but whose nullifiers still await
    /// mapping or refetching for final spend detection.
    pub fn awaits_nullifier_retrieval(self) -> (r: bool)
        ensures
            r == (self == ScanPriority::ScannedWithoutMapping || self
                == ScanPriority::RefetchingNullifiers),
            r == (self.scanned() && self != ScanPriority::Scanned),
    {
        self == ScanPriority::ScannedWithoutMapping || self == ScanPriority::RefetchingNullifiers
    }
}

/// A range of blocks to be scanned, along with its associated priority.
#[derive(Clone, Copy, Debug, PartialEq, Eq, Structural)]
pub struct ScanRange {
    pub block_range: BlockRange,
    pub priority: ScanPriority,
}

/// The scan range from `start` up to, and without, `end`.
pub open spec fn range_of(start: int, end: int, priority: ScanPriority) -> ScanRange {
    ScanRange { block_range: BlockRange { start: start as u32, end: end as u32 }, priority }
}

impl ScanRange {
    /// Whether the range covers any block.
    pub open spec fn covers_blocks(self) -> bool {
        self.block_range.start < self.block_range.end
    }

    /// Whether the block at `height` is in the range.
    pub open spec fn has(self, height: int) -> bool {
        self.block_range.has(height)
    }

    /// Constructs a scan range from its constituent parts.
    pub fn from_parts(block_range: BlockRange, priority: ScanPriority) -> (r: Self)
        requires
            block_range.start <= block_range.end,
        ensures
            r.block_range == block_range,
            r.priority == priority,
    {
        ScanRange { block_range, priority }
    }

    /// Returns the range of block heights to be scanned.
    pub fn block_range(&self) -> (r: &BlockRange)
        ensures
            *r == self.block_range,
    {
        &self.block_range
    }

    /// Returns the priority with which the scan range should be scanned.
    pub fn priority(&self) -> (r: ScanPriority)
        ensures
            r == self.priority,
    {
        self.priority
    }

    /// Returns whether or not the scan range is empty.
    pub fn is_empty(&self) -> (r: bool)
        ensures
            r == !self.covers_blocks(),
    {
        self.block_range.start >= self.block_range.end
    }

    /// Returns the number of blocks in the scan range.
    pub fn len(&self) -> (r: usize)
        requires
            self.block_range.start <= self.block_range.end,
        ensures
            r == self.block_range.end - self.block_range.start,
    {
        (self.block_range.end - self.block_range.start) as usize
    }

    /// Shifts the start of the block range to the right if `block_height > self.block_range().start`. Returns
    /// `None` if the resulting range would be empty (or the range was already empty).
    pub fn truncate_start(&self, block_height: BlockHeight) -> (r: Option<Self>)
        ensures
            r.is_some() == (block_height < self.block_range.end && self.covers_blocks()),
            r matches Some(range) ==> range.covers_blocks() && range.priority == self.priority
                && forall|h: int|
                #[trigger] range.has(h) <==> self.has(h) && block_height <= h,
    {
        if block_height >= self.block_range.end || self.is_empty() {
            None
        } else {
            let start: u32 = if self.block_range.start < block_height {
                block_height
            } else {
                self.block_range.start
            };
            Some(
                ScanRange {
                    block_range: BlockRange { start, end: self.block_range.end },
                    priority: self.priority,
                },
            )
        }
    }

    /// Shifts the end of the block range to the left if `block_height < self.block_range().end`. Returns `None`
    /// if the resulting range would be empty (or the range was already empty).
    pub fn truncate_end(&self, block_height: BlockHeight) -> (r: Option<Self>)
        ensures
            r.is_some() == (block_height > self.block_range.start && self.covers_blocks()),
            r matches Some(range) ==> range.covers_blocks() && range.priority == self.priority
                && forall|h: int|
                #[trigger] range.has(h) <==> self.has(h) && h < block_height,
    {
        if block_height <= self.block_range.start || self.is_empty() {
            None
        } else {
            let end: u32 = if block_height < self.block_range.end {
                block_height
            } else {
                self.block_range.end
            };
            Some(
                ScanRange {
                    block_range: BlockRange { start: self.block_range.start, end },
                    priority: self.priority,
                },
            )
        }
    }

    /// Splits this scan range at the specified height, such that the provided height becomes the end of the
    /// first range returned and the start of the second. Returns `None` if
    /// `p <= self.block_range().start || p >= self.block_range().end`.
    pub fn split_at(&self, p: BlockHeight) -> (r: Option<(Self, Self)>)
        ensures
            r == if self.block_range.start < p < self.block_range.end {
                Some(
                    (
                        range_of(self.block_range.start as int, p as int, self.priority),
                        range_of(p as int, self.block_range.end as int, self.priority),
                    ),
                )
            } else {
                None
            },
    {
        if p > self.block_range.start && p < self.block_range.end {
            Some(
                (
                    ScanRange {
                        block_range: BlockRange { start: self.block_range.start, end: p },
                        priority: self.priority,
                    },
                    ScanRange {
                        block_range: BlockRange { start: p, end: self.block_range.end },
                        priority: self.priority,
                    },
                ),
            )
        } else {
            None
        }
    }
}

/// Splitting a range loses no block and keeps the priority of each.
pub proof fn law_split_covers_the_range(range: ScanRange, p: BlockHeight, h: int)
    requires
        range.block_range.start < p < range.block_range.end,
    ensures
        ({
            let lower = range_of(range.block_range.start as int, p as int, range.priority);
            let higher = range_of(p as int, range.block_range.end as int, range.priority);
            &&& lower.covers_blocks() && higher.covers_blocks()
            &&& range.has(h) <==> lower.has(h) || higher.has(h)
            &&& !(lower.has(h) && higher.has(h))
            &&& lower.priority == range.priority && higher.priority == range.priority
        }),
{
}

/// Whether the range at `i` ends where its successor starts.
pub open spec fn meets_next(ranges: Seq<ScanRange>, i: int) -> bool {
    ranges[i].block_range.end == ranges[i + 1].block_range.start
}

/// Whether every range covers blocks.
pub open spec fn all_cover_blocks(ranges: Seq<ScanRange>) -> bool {
    forall|i: int| 0 <= i < ranges.len() ==> (#[trigger] ranges[i]).covers_blocks()
}

/// Whether the ranges stand in block height order and no two share a block.
pub open spec fn in_height_order(ranges: Seq<ScanRange>) -> bool {
    forall|i: int, j: int|
        0 <= i < j < ranges.len() ==> (#[trigger] ranges[i]).block_range.end <= (
        #[trigger] ranges[j]).block_range.start
}

/// Whether the ranges cover blocks, in block height order, with no overlaps or gaps.
pub open spec fn contiguous(ranges: Seq<ScanRange>) -> bool {
    &&& all_cover_blocks(ranges)
    &&& forall|i: int| 0 <= i < ranges.len() - 1 ==> #[trigger] meets_next(ranges, i)
}

/// Contiguous ranges stand in block height order.
pub proof fn lemma_contiguous_is_ordered(ranges: Seq<ScanRange>)
    requires
        contiguous(ranges),
    ensures
        in_height_order(ranges),
{
    assert forall|i: int, j: int| 0 <= i < j < ranges.len() implies (
    #[trigger] ranges[i]).block_range.end <= (#[trigger] ranges[j]).block_range.start by {
        lemma_ends_before(ranges, i, j);
    }
}

proof fn lemma_ends_before(ranges: Seq<ScanRange>, i: int, j: int)
    requires
        contiguous(ranges),
        0 <= i < j < ranges.len(),
    ensures
        ranges[i].block_range.end <= ranges[j].block_range.start,
    decreases j - i,
{
    assert(meets_next(ranges, j - 1));
    if i < j - 1 {
        lemma_ends_before(ranges, i, j - 1);
        assert(ranges[j - 1].covers_blocks());
    }
}

/// Whether the range at `i` is the one that covers the block at `height`.
pub open spec fn covered_by(ranges: Seq<ScanRange>, i: int, height: int) -> bool {
    0 <= i < ranges.len() && ranges[i].has(height)
}

/// Whether some range covers the block at `height`.
pub open spec fn covers(ranges: Seq<ScanRange>, height: int) -> bool {
    exists|i: int| #[trigger] covered_by(ranges, i, height)
}

/// The priority of the range that covers the block at `height`.
pub open spec fn priority_at(ranges: Seq<ScanRange>, height: int) -> Option<ScanPriority> {
    if covers(ranges, height) {
        Some(ranges[choose|i: int| #[trigger] covered_by(ranges, i, height)].priority)
    } else {
        None
    }
}

/// In ordered ranges one range at most covers a block.
pub proof fn lemma_priority_at(ranges: Seq<ScanRange>, i: int, height: int)
    requires
        in_height_order(ranges),
        covered_by(ranges, i, height),
    ensures
        priority_at(ranges, height) == Some(ranges[i].priority),
{
    let c = choose|c: int| #[trigger] covered_by(ranges, c, height);
    assert(covered_by(ranges, c, height));
    if c < i {
        assert(ranges[c].block_range.end <= ranges[i].block_range.start);
    }
    if i < c {
        assert(ranges[i].block_range.end <= ranges[c].block_range.start);
    }
}

/// The ranges with the one at `i` replaced by `parts`.
pub open spec fn spliced(ranges: Seq<ScanRange>, i: int, parts: Seq<ScanRange>) -> Seq<ScanRange> {
    ranges.take(i) + parts + ranges.skip(i + 1)
}

/// Replacing a range by contiguous ranges over the same blocks keeps the whole contiguous.
pub proof fn lemma_spliced_contiguous(ranges: Seq<ScanRange>, i: int, parts: Seq<ScanRange>)
    requires
        contiguous(ranges),
        contiguous(parts),
        0 <= i < ranges.len(),
        parts.len() > 0,
        parts[0].block_range.start == ranges[i].block_range.start,
        parts.last().block_range.end == ranges[i].block_range.end,
    ensures
        contiguous(spliced(ranges, i, parts)),
        spliced(ranges, i, parts)[0].block_range.start == ranges[0].block_range.start,
        spliced(ranges, i, parts).last().block_range.end == ranges.last().block_range.end,
{
    let after = spliced(ranges, i, parts);
    let n = parts.len();
    assert forall|k: int| 0 <= k < after.len() implies (#[trigger] after[k]).covers_blocks() by {
        if k < i {
            assert(after[k] == ranges[k]);
        } else if k < i + n {
            assert(after[k] == parts[k - i]);
        } else {
            assert(after[k] == ranges[k - n + 1]);
        }
    }
    assert forall|k: int| 0 <= k < after.len() - 1 implies #[trigger] meets_next(after, k) by {
        if k + 1 < i {
            assert(meets_next(ranges, k));
        } else if k + 1 == i {
            assert(meets_next(ranges, k));
            assert(after[k + 1] == parts[0]);
        } else if k + 1 < i + n {
            assert(meets_next(parts, k - i));
        } else if k + 1 == i + n {
            assert(after[k] == parts.last());
            assert(after[k + 1] == ranges[i + 1]);
            assert(meets_next(ranges, i));
        } else {
            assert(meets_next(ranges, k - n + 1));
        }
    }
}

/// What replacing a range by `parts` does to the priority of each block.
pub proof fn lemma_spliced_priority(
    ranges: Seq<ScanRange>,
    i: int,
    parts: Seq<ScanRange>,
    height: int,
)
    requires
        contiguous(ranges),
        contiguous(parts),
        0 <= i < ranges.len(),
        parts.len() > 0,
        parts[0].block_range.start == ranges[i].block_range.start,
        parts.last().block_range.end == ranges[i].block_range.end,
    ensures
        priority_at(spliced(ranges, i, parts), height) == if ranges[i].has(height) {
            priority_at(parts, height)
        } else {
            priority_at(ranges, height)
        },
        ranges[i].has(height) ==> covers(parts, height),
{
    let after = spliced(ranges, i, parts);
    lemma_spliced_contiguous(ranges, i, parts);
    lemma_contiguous_is_ordered(after);
    lemma_contiguous_is_ordered(ranges);
    lemma_contiguous_is_ordered(parts);
    let n = parts.len();
    lemma_parts_stay_inside(parts, height);
    if ranges[i].has(height) {
        let c = choose|c: int| #[trigger] covered_by(parts, c, height);
        assert(covered_by(parts, c, height));
        assert(after[i + c] == parts[c]);
        assert(covered_by(after, i + c, height));
        lemma_priority_at(after, i + c, height);
        lemma_priority_at(parts, c, height);
    } else if covers(ranges, height) {
        let c = choose|c: int| #[trigger] covered_by(ranges, c, height);
        assert(covered_by(ranges, c, height));
        let to = if c < i { c } else { c - 1 + n };
        assert(after[to] == ranges[c]);
        assert(covered_by(after, to, height));
        lemma_priority_at(after, to, height);
        lemma_priority_at(ranges, c, height);
    } else if covers(after, height) {
        let c = choose|c: int| #[trigger] covered_by(after, c, height);
        assert(covered_by(after, c, height));
        if c < i {
            assert(covered_by(ranges, c, height));
        } else if c < i + n {
            assert(covered_by(parts, c - i, height));
        } else {
            assert(covered_by(ranges, c - n + 1, height));
        }
    }
}

/// Contiguous ranges cover exactly the blocks from the first start to the last end.
pub proof fn lemma_parts_stay_inside(parts: Seq<ScanRange>, height: int)
    requires
        contiguous(parts),
        parts.len() > 0,
    ensures
        covers(parts, height) <==> parts[0].block_range.start <= height
            < parts.last().block_range.end,
    decreases parts.len(),
{
    lemma_contiguous_is_ordered(parts);
    if covers(parts, height) {
        let c = choose|c: int| #[trigger] covered_by(parts, c, height);
        assert(covered_by(parts, c, height));
        if c > 0 {
            assert(parts[0].covers_blocks());
            assert(parts[0].block_range.end <= parts[c].block_range.start);
        }
        if c < parts.len() - 1 {
            assert(parts.last().covers_blocks());
            assert(parts[c].block_range.end <= parts.last().block_range.start);
        }
    }
    if parts[0].block_range.start <= height < parts.last().block_range.end {
        if height >= parts.last().block_range.start {
            assert(covered_by(parts, parts.len() - 1, height));
        } else {
            let shorter = parts.drop_last();
            assert(shorter.len() > 0);
            assert forall|k: int| 0 <= k < shorter.len() - 1 implies #[trigger] meets_next(
                shorter,
                k,
            ) by {
                assert(meets_next(parts, k));
            }
            assert(contiguous(shorter));
            assert(meets_next(parts, parts.len() - 2));
            lemma_parts_stay_inside(shorter, height);
            let c = choose|c: int| #[trigger] covered_by(shorter, c, height);
            assert(covered_by(shorter, c, height));
            assert(covered_by(parts, c, height));
        }
    }
}

/// Replaces the range at `i` by `parts`.
pub fn splice(ranges: &mut Vec<ScanRange>, i: usize, parts: &Vec<ScanRange>)
    requires
        i < old(ranges)@.len(),
    ensures
        final(ranges)@ == spliced(old(ranges)@, i as int, parts@),
{
    let ghost before = ranges@;
    let mut after: Vec<ScanRange> = Vec::new();
    let mut k: usize = 0;
    while k < i
        invariant
            k <= i < ranges@.len(),
            after@ =~= ranges@.take(k as int),
        decreases i - k,
    {
        after.push(ranges[k]);
        k = k + 1;
    }
    let count: usize = ranges.len();
    let mut p: usize = 0;
    while p < parts.len()
        invariant
            p <= parts@.len(),
            i < count == ranges@.len(),
            after@ =~= ranges@.take(i as int) + parts@.take(p as int),
        decreases parts@.len() - p,
    {
        after.push(parts[p]);
        p = p + 1;
    }
    k = i + 1;
    while k < count
        invariant
            i < k <= count == ranges@.len(),
            after@ =~= ranges@.take(i as int) + parts@ + ranges@.subrange(i + 1, k as int),
        decreases ranges@.len() - k,
    {
        after.push(ranges[k]);
        k = k + 1;
    }
    *ranges = after;
    assert(ranges@ =~= spliced(before, i as int, parts@));
}

} // verus!
