//! Which blocks are scanned next.
use crate::chain::ChainParameters;
use crate::primitives::{BlockRange, ShieldedPool};
use crate::scan_range::{
    contiguous, lemma_contiguous_is_ordered, lemma_spliced_contiguous, lemma_spliced_priority, meets_next,
    priority_at, splice, spliced, ScanPriority, ScanRange,
};
use crate::sync::shards::{
    block_range_around, determine_block_range, has_block_range, lemma_range_around_has_height,
};
use crate::sync::state::{lemma_split_out, lemma_split_out_priority, split_out, split_out_scan_range};
use crate::wallet::sync_state::{ScanTarget, ScanTargets, SyncState};
use vstd::prelude::*;

verus! {

/// Whether the range is neither scanned with its nullifiers mapped nor about to have them mapped.
pub open spec fn is_open(range: ScanRange) -> bool {
    range.priority != ScanPriority::Scanned && range.priority
        != ScanPriority::RefetchingNullifiers
}

/// The first open range from `i` on.
pub open spec fn first_open(ranges: Seq<ScanRange>, i: int) -> int
    decreases ranges.len() - i,
{
    if i >= ranges.len() || is_open(ranges[i]) {
        i
    } else {
        first_open(ranges, i + 1)
    }
}

/// Whether the range at `i` has the highest priority, and is the lowest of those that do.
pub open spec fn lowest_of_highest_priority(ranges: Seq<ScanRange>, i: int) -> bool {
    &&& 0 <= i < ranges.len()
    &&& forall|k: int|
        0 <= k < ranges.len() ==> (#[trigger] ranges[k]).priority.level()
            <= ranges[i].priority.level()
    &&& forall|k: int|
        0 <= k < i ==> (#[trigger] ranges[k]).priority.level() < ranges[i].priority.level()
}

/// Whether the range at `i` has the highest priority, and is the highest of those that do.
pub open spec fn highest_of_highest_priority(ranges: Seq<ScanRange>, i: int) -> bool {
    &&& 0 <= i < ranges.len()
    &&& forall|k: int|
        0 <= k < ranges.len() ==> (#[trigger] ranges[k]).priority.level()
            <= ranges[i].priority.level()
    &&& forall|k: int|
        i < k < ranges.len() ==> (#[trigger] ranges[k]).priority.level()
            < ranges[i].priority.level()
}

/// Whether the range at `i` is the one that is up for scanning.
///
/// A range whose nullifiers are yet to be fetched again goes first if everything below it is done. Otherwise it is
/// a range of the highest priority: the lowest such range if that priority is `Historic`, or if nullifiers are not
/// being mapped, and else the highest.
pub open spec fn is_candidate(
    ranges: Seq<ScanRange>,
    i: int,
    nullifier_map_limit_exceeded: bool,
) -> bool {
    let first = first_open(ranges, 0);
    if first >= ranges.len() {
        false
    } else if ranges[first].priority == ScanPriority::ScannedWithoutMapping {
        i == first
    } else {
        ||| lowest_of_highest_priority(ranges, i) && (nullifier_map_limit_exceeded
            || ranges[i].priority == ScanPriority::Historic)
        ||| highest_of_highest_priority(ranges, i) && !nullifier_map_limit_exceeded
            && ranges[i].priority != ScanPriority::Historic
    }
}

/// Whether a range with this priority can be given to a scan worker.
pub open spec fn can_be_selected(priority: ScanPriority) -> bool {
    priority != ScanPriority::Scanned && priority != ScanPriority::Scanning && priority
        != ScanPriority::RefetchingNullifiers
}

/// The ranges of `state` once the one at `i` has been given to a scan worker.
///
/// Of a historic range, which can be larger than a shard, only the blocks of the lowest shard are given.
pub open spec fn ranges_after_selection(
    parameters: &ChainParameters,
    state: &SyncState,
    i: int,
) -> Seq<ScanRange> {
    let ranges = state.scan_ranges@;
    let range = ranges[i];
    if range.priority == ScanPriority::Historic {
        spliced(
            ranges,
            i,
            split_out(
                range,
                block_range_around(
                    parameters,
                    state,
                    range.block_range.start,
                    Some(ShieldedPool::Ironwood),
                ),
                ScanPriority::Scanning,
            ),
        )
    } else {
        ranges.update(
            i,
            ScanRange {
                block_range: range.block_range,
                priority: if range.priority == ScanPriority::ScannedWithoutMapping {
                    ScanPriority::RefetchingNullifiers
                } else {
                    ScanPriority::Scanning
                },
            },
        )
    }
}

/// What is given to the scan worker: the blocks, with the priority that they had.
pub open spec fn selected_range(
    parameters: &ChainParameters,
    state: &SyncState,
    i: int,
) -> ScanRange {
    ScanRange {
        block_range: ranges_after_selection(parameters, state, i)[i].block_range,
        priority: state.scan_ranges@[i].priority,
    }
}

/// At most one range is up for scanning.
pub proof fn lemma_candidate_is_unique(
    ranges: Seq<ScanRange>,
    i: int,
    j: int,
    nullifier_map_limit_exceeded: bool,
)
    requires
        is_candidate(ranges, i, nullifier_map_limit_exceeded),
        is_candidate(ranges, j, nullifier_map_limit_exceeded),
    ensures
        i == j,
{
    let first = first_open(ranges, 0);
    if ranges[first].priority != ScanPriority::ScannedWithoutMapping {
        assert(ranges[i].priority.level() <= ranges[j].priority.level());
        assert(ranges[j].priority.level() <= ranges[i].priority.level());
        if i < j {
            assert(lowest_of_highest_priority(ranges, j) ==> ranges[i].priority.level()
                < ranges[j].priority.level());
            assert(highest_of_highest_priority(ranges, i) ==> ranges[j].priority.level()
                < ranges[i].priority.level());
        }
        if j < i {
            assert(lowest_of_highest_priority(ranges, i) ==> ranges[j].priority.level()
                < ranges[i].priority.level());
            assert(highest_of_highest_priority(ranges, j) ==> ranges[i].priority.level()
                < ranges[j].priority.level());
        }
    }
}

/// Finds the range that is up for scanning.
pub(crate) fn find_candidate(ranges: &Vec<ScanRange>, nullifier_map_limit_exceeded: bool) -> (r: Option<
    usize,
>)
    ensures
        r matches Some(i) ==> i < ranges@.len() && is_candidate(
            ranges@,
            i as int,
            nullifier_map_limit_exceeded,
        ),
        r.is_none() ==> forall|i: int|
            !#[trigger] is_candidate(ranges@, i, nullifier_map_limit_exceeded),
{
    let mut first: usize = 0;
    while first < ranges.len() && (ranges[first].priority == ScanPriority::Scanned
        || ranges[first].priority == ScanPriority::RefetchingNullifiers)
        invariant
            first <= ranges@.len(),
            first_open(ranges@, 0) == first_open(ranges@, first as int),
        decreases ranges@.len() - first,
    {
        first = first + 1;
    }
    if first >= ranges.len() {
        return None;
    }
    if ranges[first].priority == ScanPriority::ScannedWithoutMapping {
        return Some(first);
    }
    let mut lowest: usize = 0;
    let mut highest: usize = 0;
    let mut k: usize = 1;
    while k < ranges.len()
        invariant
            1 <= k <= ranges@.len(),
            lowest < k,
            highest < k,
            ranges@[lowest as int].priority.level() == ranges@[highest as int].priority.level(),
            forall|x: int|
                0 <= x < k ==> (#[trigger] ranges@[x]).priority.level()
                    <= ranges@[lowest as int].priority.level(),
            forall|x: int|
                0 <= x < lowest ==> (#[trigger] ranges@[x]).priority.level()
                    < ranges@[lowest as int].priority.level(),
            forall|x: int|
                highest < x < k ==> (#[trigger] ranges@[x]).priority.level()
                    < ranges@[highest as int].priority.level(),
        decreases ranges@.len() - k,
    {
        let level: u8 = ranges[k].priority.rank();
        if level > ranges[lowest].priority.rank() {
            lowest = k;
        }
        if level >= ranges[highest].priority.rank() {
            highest = k;
        }
        k = k + 1;
    }
    assert(lowest_of_highest_priority(ranges@, lowest as int));
    assert(highest_of_highest_priority(ranges@, highest as int));
    assert(ranges@[lowest as int].priority == ranges@[highest as int].priority);
    if nullifier_map_limit_exceeded || ranges[lowest].priority == ScanPriority::Historic {
        Some(lowest)
    } else {
        Some(highest)
    }
}

/// Whether the range that is up for scanning is a historic one, whose shard cannot be told.
pub open spec fn shard_unknown(
    parameters: &ChainParameters,
    state: &SyncState,
    nullifier_map_limit_exceeded: bool,
) -> bool {
    exists|i: int|
        #[trigger] is_candidate(state.scan_ranges@, i, nullifier_map_limit_exceeded)
            && state.scan_ranges@[i].priority == ScanPriority::Historic && !has_block_range(
            parameters,
            state,
            state.scan_ranges@[i].block_range.start,
            Some(ShieldedPool::Ironwood),
        )
}

/// Selects and prepares the next scan range for scanning.
///
/// Sets the range for scanning to `Scanning` priority in the `sync_state` but returns the scan range with its
/// initial priority for use in scanning and post-scan processing. If the selected range is of
/// `ScannedWithoutMapping` priority, the range is set to `RefetchingNullifiers` instead. Returns `None` if there
/// are no more ranges to scan.
///
/// Set `nullifier_map_limit_exceeded` to `true` if the nullifiers are not going to be mapped to the wallet's main
/// nullifier map due to performance constraints.
pub fn select_scan_range(
    parameters: &ChainParameters,
    sync_state: &mut SyncState,
    nullifier_map_limit_exceeded: bool,
) -> (r: Option<ScanRange>)
    requires
        contiguous(old(sync_state).scan_ranges@),
        !shard_unknown(parameters, old(sync_state), nullifier_map_limit_exceeded),
    ensures
        final(sync_state).same_but_scan_ranges(old(sync_state)),
        contiguous(final(sync_state).scan_ranges@),
        r.is_none() ==> final(sync_state).scan_ranges@ == old(sync_state).scan_ranges@
            && forall|i: int|
            #[trigger] is_candidate(old(sync_state).scan_ranges@, i, nullifier_map_limit_exceeded)
                ==> !can_be_selected(old(sync_state).scan_ranges@[i].priority),
        r matches Some(selected) ==> exists|i: int|
            #[trigger] is_candidate(old(sync_state).scan_ranges@, i, nullifier_map_limit_exceeded)
                && can_be_selected(old(sync_state).scan_ranges@[i].priority)
                && final(sync_state).scan_ranges@ == ranges_after_selection(
                parameters,
                old(sync_state),
                i,
            ) && selected == selected_range(parameters, old(sync_state), i),
{
    let ghost before = sync_state.scan_ranges@;
    let index: usize = match find_candidate(
        &sync_state.scan_ranges,
        nullifier_map_limit_exceeded,
    ) {
        Some(index) => index,
        None => {
            return None;
        },
    };
    let selected = sync_state.scan_ranges[index];
    let priority = selected.priority;
    if priority == ScanPriority::Scanned || priority == ScanPriority::Scanning || priority
        == ScanPriority::RefetchingNullifiers {
        proof {
            assert forall|i: int| #[trigger]
                is_candidate(before, i, nullifier_map_limit_exceeded) implies !can_be_selected(
                before[i].priority,
            ) by {
                lemma_candidate_is_unique(before, i, index as int, nullifier_map_limit_exceeded);
            }
        }
        return None;
    }
    assert(before[index as int].covers_blocks());
    if priority == ScanPriority::Historic {
        let shard_block_range = determine_block_range(
            parameters,
            sync_state,
            selected.block_range.start,
            Some(ShieldedPool::Ironwood),
        );
        let split_ranges = split_out_scan_range(
            selected,
            shard_block_range,
            ScanPriority::Scanning,
        );
        let block_range = split_ranges[0].block_range;
        proof {
            lemma_split_out(selected, shard_block_range, ScanPriority::Scanning);
            lemma_spliced_contiguous(before, index as int, split_ranges@);
        }
        splice(&mut sync_state.scan_ranges, index, &split_ranges);
        assert(sync_state.scan_ranges@[index as int] == split_ranges@[0]);
        Some(ScanRange { block_range, priority })
    } else {
        let working = if priority == ScanPriority::ScannedWithoutMapping {
            ScanPriority::RefetchingNullifiers
        } else {
            ScanPriority::Scanning
        };
        sync_state.scan_ranges.set(
            index,
            ScanRange { block_range: selected.block_range, priority: working },
        );
        proof {
            let after = sync_state.scan_ranges@;
            assert(after =~= ranges_after_selection(parameters, old(sync_state), index as int));
            assert forall|k: int| 0 <= k < after.len() implies (
            #[trigger] after[k]).covers_blocks() by {
                assert(before[k].covers_blocks());
            }
            assert forall|k: int| 0 <= k < after.len() - 1 implies #[trigger] meets_next(
                after,
                k,
            ) by {
                assert(meets_next(before, k));
            }
        }
        Some(ScanRange { block_range: selected.block_range, priority })
    }
}

/// What is selected lies in one range, has the priority that its blocks had, and is marked as in work; no other
/// block changes.
pub proof fn law_selection_marks_exactly_what_it_returns(
    parameters: &ChainParameters,
    state: &SyncState,
    i: int,
    nullifier_map_limit_exceeded: bool,
    height: int,
)
    requires
        contiguous(state.scan_ranges@),
        is_candidate(state.scan_ranges@, i, nullifier_map_limit_exceeded),
        can_be_selected(state.scan_ranges@[i].priority),
        0 <= i < state.scan_ranges@.len(),
        !shard_unknown(parameters, state, nullifier_map_limit_exceeded),
    ensures
        ({
            let selected = selected_range(parameters, state, i);
            let after = ranges_after_selection(parameters, state, i);
            &&& selected.covers_blocks()
            &&& selected.has(height) ==> priority_at(state.scan_ranges@, height) == Some(
                selected.priority,
            )
            &&& priority_at(after, height) == if selected.has(height) {
                Some(
                    if selected.priority == ScanPriority::ScannedWithoutMapping {
                        ScanPriority::RefetchingNullifiers
                    } else {
                        ScanPriority::Scanning
                    },
                )
            } else {
                priority_at(state.scan_ranges@, height)
            }
        }),
{
    let ranges = state.scan_ranges@;
    let range = ranges[i];
    assert(range.covers_blocks());
    lemma_contiguous_is_ordered(ranges);
    let selected = selected_range(parameters, state, i);
    let after = ranges_after_selection(parameters, state, i);
    if range.has(height) {
        assert(crate::scan_range::covered_by(ranges, i, height));
        crate::scan_range::lemma_priority_at(ranges, i, height);
    }
    if range.priority == ScanPriority::Historic {
        let shard = block_range_around(
            parameters,
            state,
            range.block_range.start,
            Some(ShieldedPool::Ironwood),
        );
        lemma_range_around_has_height(
            parameters,
            state,
            range.block_range.start,
            Some(ShieldedPool::Ironwood),
        );
        let parts = split_out(range, shard, ScanPriority::Scanning);
        lemma_split_out(range, shard, ScanPriority::Scanning);
        lemma_split_out_priority(range, shard, ScanPriority::Scanning, height);
        lemma_spliced_priority(ranges, i, parts, height);
        assert(after[i] == parts[0]);
    } else {
        let part = ScanRange {
            block_range: range.block_range,
            priority: if range.priority == ScanPriority::ScannedWithoutMapping {
                ScanPriority::RefetchingNullifiers
            } else {
                ScanPriority::Scanning
            },
        };
        assert(after =~= spliced(ranges, i, seq![part]));
        let parts = seq![part];
        assert(contiguous(parts));
        lemma_contiguous_is_ordered(parts);
        lemma_spliced_priority(ranges, i, parts, height);
        if range.has(height) {
            assert(crate::scan_range::covered_by(parts, 0, height));
            crate::scan_range::lemma_priority_at(parts, 0, height);
        }
    }
}

proof fn lemma_first_open(ranges: Seq<ScanRange>, i: int)
    requires
        0 <= i <= ranges.len(),
    ensures
        i <= first_open(ranges, i) <= ranges.len(),
        first_open(ranges, i) < ranges.len() ==> is_open(ranges[first_open(ranges, i)]),
        forall|k: int| i <= k < first_open(ranges, i) ==> !is_open(#[trigger] ranges[k]),
    decreases ranges.len() - i,
{
    if i < ranges.len() && !is_open(ranges[i]) {
        lemma_first_open(ranges, i + 1);
    }
}

/// Whether the range at `f` is the lowest that is neither scanned nor has its nullifiers fetched again.
pub open spec fn is_lowest_unfinished(ranges: Seq<ScanRange>, f: int) -> bool {
    &&& 0 <= f < ranges.len()
    &&& ranges[f].priority != ScanPriority::Scanned
    &&& ranges[f].priority != ScanPriority::RefetchingNullifiers
    &&& forall|k: int|
        0 <= k < f ==> (#[trigger] ranges[k]).priority == ScanPriority::Scanned || ranges[k].priority
            == ScanPriority::RefetchingNullifiers
}

/// What is selected has the highest priority that there is: blocks are verified before anything else is scanned, then
/// come the chain tip, the shards of found notes, what is adjacent to them, and history at last. Of several ranges with
/// that priority it is the lowest if they are history or if nullifiers are not mapped, and else the highest. Of history
/// it is the lowest part; of all else it is the whole range.
pub proof fn law_the_highest_priority_is_selected(
    parameters: &ChainParameters,
    state: &SyncState,
    nullifier_map_limit_exceeded: bool,
    i: int,
    selected: ScanRange,
    f: int,
)
    requires
        contiguous(state.scan_ranges@),
        !shard_unknown(parameters, state, nullifier_map_limit_exceeded),
        is_candidate(state.scan_ranges@, i, nullifier_map_limit_exceeded),
        can_be_selected(state.scan_ranges@[i].priority),
        selected == selected_range(parameters, state, i),
        is_lowest_unfinished(state.scan_ranges@, f),
        state.scan_ranges@[f].priority != ScanPriority::ScannedWithoutMapping,
    ensures
        ({
            let ranges = state.scan_ranges@;
            let p = selected.priority;
            &&& p != ScanPriority::Scanned && p != ScanPriority::Scanning && p != ScanPriority::RefetchingNullifiers
            &&& p != ScanPriority::Verify ==> forall|k: int|
                0 <= k < ranges.len() ==> (#[trigger] ranges[k]).priority != ScanPriority::Verify
            &&& p != ScanPriority::Verify && p != ScanPriority::ChainTip ==> forall|k: int|
                0 <= k < ranges.len() ==> (#[trigger] ranges[k]).priority != ScanPriority::ChainTip
            &&& p != ScanPriority::Verify && p != ScanPriority::ChainTip && p != ScanPriority::FoundNote
                ==> forall|k: int|
                0 <= k < ranges.len() ==> (#[trigger] ranges[k]).priority != ScanPriority::FoundNote
            &&& p == ScanPriority::Historic || p == ScanPriority::ScannedWithoutMapping ==> forall|k: int|
                0 <= k < ranges.len() ==> (#[trigger] ranges[k]).priority != ScanPriority::OpenAdjacent
            &&& p == ScanPriority::ScannedWithoutMapping ==> forall|k: int|
                0 <= k < ranges.len() ==> (#[trigger] ranges[k]).priority != ScanPriority::Historic
            &&& 0 <= i < ranges.len()
            &&& ranges[i].priority == p
            &&& selected.block_range.start == ranges[i].block_range.start
            &&& selected.block_range.start < selected.block_range.end <= ranges[i].block_range.end
            &&& p != ScanPriority::Historic ==> selected.block_range == ranges[i].block_range
            &&& p == ScanPriority::Historic || nullifier_map_limit_exceeded ==> forall|k: int|
                0 <= k < i ==> (#[trigger] ranges[k]).priority != p
            &&& p != ScanPriority::Historic && !nullifier_map_limit_exceeded ==> forall|k: int|
                i < k < ranges.len() ==> (#[trigger] ranges[k]).priority != p
        }),
{
    let ranges = state.scan_ranges@;
    lemma_first_open(ranges, 0);
    let first = first_open(ranges, 0);
    if f < first {
        assert(!is_open(ranges[f]));
    }
    if first < f {
        assert(is_open(ranges[first]));
    }
    assert(ranges[i].covers_blocks());
    if ranges[i].priority == ScanPriority::Historic {
        let shard = block_range_around(
            parameters,
            state,
            ranges[i].block_range.start,
            Some(ShieldedPool::Ironwood),
        );
        lemma_range_around_has_height(
            parameters,
            state,
            ranges[i].block_range.start,
            Some(ShieldedPool::Ironwood),
        );
        lemma_split_out(ranges[i], shard, ScanPriority::Scanning);
        let parts = split_out(ranges[i], shard, ScanPriority::Scanning);
        assert(ranges_after_selection(parameters, state, i)[i] == parts[0]);
    }
}

/// Where the lowest range that is not finished only lacks its nullifiers, it is selected as a whole.
pub proof fn law_missing_nullifiers_come_first(
    parameters: &ChainParameters,
    state: &SyncState,
    nullifier_map_limit_exceeded: bool,
    i: int,
    selected: ScanRange,
    f: int,
)
    requires
        is_candidate(state.scan_ranges@, i, nullifier_map_limit_exceeded),
        selected == selected_range(parameters, state, i),
        is_lowest_unfinished(state.scan_ranges@, f),
        state.scan_ranges@[f].priority == ScanPriority::ScannedWithoutMapping,
    ensures
        i == f,
        selected == state.scan_ranges@[f],
        ranges_after_selection(parameters, state, i)[f].priority == ScanPriority::RefetchingNullifiers,
{
    let ranges = state.scan_ranges@;
    lemma_first_open(ranges, 0);
    let first = first_open(ranges, 0);
    if f < first {
        assert(!is_open(ranges[f]));
    }
    if first < f {
        assert(is_open(ranges[first]));
    }
}

proof fn lemma_lowest_of_highest_exists(ranges: Seq<ScanRange>, n: int) -> (i: int)
    requires
        0 < n <= ranges.len(),
    ensures
        0 <= i < n,
        forall|k: int| 0 <= k < n ==> (#[trigger] ranges[k]).priority.level() <= ranges[i].priority.level(),
        forall|k: int| 0 <= k < i ==> (#[trigger] ranges[k]).priority.level() < ranges[i].priority.level(),
    decreases n,
{
    if n == 1 {
        0
    } else {
        let before = lemma_lowest_of_highest_exists(ranges, n - 1);
        if ranges[n - 1].priority.level() > ranges[before].priority.level() {
            n - 1
        } else {
            before
        }
    }
}

proof fn lemma_highest_of_highest_exists(ranges: Seq<ScanRange>, n: int) -> (i: int)
    requires
        0 < n <= ranges.len(),
    ensures
        0 <= i < n,
        forall|k: int| 0 <= k < n ==> (#[trigger] ranges[k]).priority.level() <= ranges[i].priority.level(),
        forall|k: int| i < k < n ==> (#[trigger] ranges[k]).priority.level() < ranges[i].priority.level(),
    decreases n,
{
    if n == 1 {
        0
    } else {
        let before = lemma_highest_of_highest_exists(ranges, n - 1);
        if ranges[n - 1].priority.level() >= ranges[before].priority.level() {
            n - 1
        } else {
            before
        }
    }
}

/// Nothing is selected only where all is scanned or in work.
pub proof fn law_nothing_is_left_unselected(state: &SyncState, nullifier_map_limit_exceeded: bool, k: int)
    requires
        forall|i: int| #[trigger]
            is_candidate(state.scan_ranges@, i, nullifier_map_limit_exceeded) ==> !can_be_selected(
                state.scan_ranges@[i].priority,
            ),
        0 <= k < state.scan_ranges@.len(),
    ensures
        state.scan_ranges@[k].priority == ScanPriority::Scanned || state.scan_ranges@[k].priority
            == ScanPriority::Scanning || state.scan_ranges@[k].priority == ScanPriority::RefetchingNullifiers,
{
    let ranges = state.scan_ranges@;
    lemma_first_open(ranges, 0);
    let first = first_open(ranges, 0);
    if first < ranges.len() {
        if ranges[first].priority == ScanPriority::ScannedWithoutMapping {
            assert(is_candidate(ranges, first, nullifier_map_limit_exceeded));
        } else {
            let n = ranges.len() as int;
            let lowest = lemma_lowest_of_highest_exists(ranges, n);
            let highest = lemma_highest_of_highest_exists(ranges, n);
            assert(ranges[lowest].priority.level() == ranges[highest].priority.level());
            assert(lowest_of_highest_priority(ranges, lowest));
            assert(highest_of_highest_priority(ranges, highest));
            if nullifier_map_limit_exceeded || ranges[lowest].priority == ScanPriority::Historic {
                assert(is_candidate(ranges, lowest, nullifier_map_limit_exceeded));
            } else {
                assert(is_candidate(ranges, highest, nullifier_map_limit_exceeded));
            }
            assert(ranges[k].priority.level() <= ranges[lowest].priority.level());
        }
    } else {
        assert(!is_open(ranges[k]));
    }
}

/// The scan targets with a height in `block_range`.
pub fn find_scan_targets(sync_state: &SyncState, block_range: &BlockRange) -> (r: ScanTargets)
    requires
        sync_state.scan_targets.wf(),
        block_range.start <= block_range.end,
    ensures
        r.wf(),
        forall|target: ScanTarget| #[trigger]
            r@.dom().contains(target) <==> sync_state.scan_targets@.dom().contains(target)
                && block_range.has(target.block_height as int),
{
    let targets = &sync_state.scan_targets;
    let mut found: ScanTargets = crate::sorted_map::SortedMap::new();
    proof {
        targets.lemma_listed();
    }
    let mut i: usize = 0;
    while i < targets.len()
        invariant
            i <= targets.listed().len(),
            targets == sync_state.scan_targets,
            targets.wf(),
            found.wf(),
            forall|k: int|
                0 <= k < targets.listed().len() ==> targets@.dom().contains(
                    (#[trigger] targets.listed()[k]).0,
                ),
            forall|k: int|
                0 <= k < i && block_range.has(
                    (#[trigger] targets.listed()[k]).0.block_height as int,
                ) ==> found@.dom().contains(targets.listed()[k].0),
            forall|target: ScanTarget| #[trigger]
                found@.dom().contains(target) ==> targets@.dom().contains(target)
                    && block_range.has(target.block_height as int),
        decreases targets.listed().len() - i,
    {
        let target = targets.entry(i).0;
        assert(targets.listed()[i as int].0 == target);
        if block_range.contains(target.block_height) {
            found.insert(target, ());
        }
        i = i + 1;
    }
    proof {
        assert forall|target: ScanTarget| #[trigger]
            found@.dom().contains(target) <==> targets@.dom().contains(target) && block_range.has(
                target.block_height as int,
            ) by {
            if targets@.dom().contains(target) && block_range.has(target.block_height as int) {
                assert(crate::sorted_map::has_key(targets.listed(), target));
                let p = crate::sorted_map::place_of(targets.listed(), target);
                assert(targets.listed()[p].0 == target);
            }
        }
    }
    found
}

} // verus!
