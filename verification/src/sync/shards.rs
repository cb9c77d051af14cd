//! The block ranges of note commitment tree shards, and the scan priorities that follow from them.
use crate::chain::{ChainParameters, PoolActivation};
use crate::primitives::{BlockHeight, BlockRange, ShieldedPool};
use crate::scan_range::{contiguous, ScanPriority, ScanRange};
use crate::sync::state::{law_punched, merge_scan_ranges, merged, punch_scan_priority, punched, NARROW_SCAN_AREA};
use crate::wallet::sync_state::{above, below, ScanTarget, ScanTargets, SyncState};
use vstd::prelude::*;

verus! {

/// The newest pool, no newer than `pool`, that is active at `height`.
pub open spec fn newest_active_pool(
    parameters: &ChainParameters,
    pool: ShieldedPool,
    height: BlockHeight,
) -> Option<ShieldedPool> {
    if parameters.active_at(pool, height) {
        Some(pool)
    } else if pool == ShieldedPool::Ironwood && parameters.active_at(
        ShieldedPool::Orchard,
        height,
    ) {
        Some(ShieldedPool::Orchard)
    } else if pool != ShieldedPool::Sapling && parameters.active_at(ShieldedPool::Sapling, height) {
        Some(ShieldedPool::Sapling)
    } else {
        None
    }
}

/// Whether the range at `i` is the first with a block at `height`.
pub open spec fn first_with_block(ranges: Seq<BlockRange>, i: int, height: int) -> bool {
    &&& 0 <= i < ranges.len()
    &&& ranges[i].has(height)
    &&& forall|k: int| 0 <= k < i ==> !(#[trigger] ranges[k]).has(height)
}

/// Whether the range at `i` is the last with a block at `height`.
pub open spec fn last_with_block(ranges: Seq<BlockRange>, i: int, height: int) -> bool {
    &&& 0 <= i < ranges.len()
    &&& ranges[i].has(height)
    &&& forall|k: int| i < k < ranges.len() ==> !(#[trigger] ranges[k]).has(height)
}

/// Whether some range has a block at `height`.
pub open spec fn any_with_block(ranges: Seq<BlockRange>, height: int) -> bool {
    exists|i: int| 0 <= i < ranges.len() && (#[trigger] ranges[i]).has(height)
}

/// The blocks from the last complete shard to the chain tip, which hold the incomplete shard of `pool`.
///
/// Where no shard is complete the incomplete one starts with the pool, or with the wallet birthday if that is
/// later.
pub open spec fn incomplete_shard(
    parameters: &ChainParameters,
    state: &SyncState,
    pool: ShieldedPool,
) -> BlockRange {
    let shards = state.shards_of(pool);
    let activation = parameters.activation_of(pool)->0;
    let birthday = state.birthday()->0;
    BlockRange {
        start: if shards.len() > 0 {
            below(shards.last().end)
        } else if activation < birthday {
            birthday
        } else {
            activation
        },
        end: above(state.known_tip()->0),
    }
}

/// The blocks of all complete shards of `pool` with a block at `height`, or those of the incomplete shard.
pub open spec fn shard_range_around(
    parameters: &ChainParameters,
    state: &SyncState,
    height: BlockHeight,
    pool: ShieldedPool,
) -> BlockRange {
    let shards = state.shards_of(pool);
    if any_with_block(shards, height as int) {
        let first = choose|i: int| first_with_block(shards, i, height as int);
        let last = choose|i: int| last_with_block(shards, i, height as int);
        BlockRange { start: shards[first].start, end: shards[last].end }
    } else {
        incomplete_shard(parameters, state, pool)
    }
}

/// The aligned run of [`NARROW_SCAN_AREA`] blocks around `height`.
pub open spec fn narrow_range_around(height: BlockHeight) -> BlockRange {
    let lower = height - height % NARROW_SCAN_AREA;
    BlockRange {
        start: lower as u32,
        end: if lower + NARROW_SCAN_AREA > u32::MAX {
            u32::MAX
        } else {
            (lower + NARROW_SCAN_AREA) as u32
        },
    }
}

/// The blocks to scan around `height`.
pub open spec fn block_range_around(
    parameters: &ChainParameters,
    state: &SyncState,
    height: BlockHeight,
    pool: Option<ShieldedPool>,
) -> BlockRange {
    match pool {
        Some(pool) => shard_range_around(
            parameters,
            state,
            height,
            newest_active_pool(parameters, pool, height)->0,
        ),
        None => narrow_range_around(height),
    }
}

/// Whether there are blocks to scan around `height`: some pool is active there, and the height lies in a complete
/// shard of it or in the incomplete one.
pub open spec fn has_block_range(
    parameters: &ChainParameters,
    state: &SyncState,
    height: BlockHeight,
    pool: Option<ShieldedPool>,
) -> bool {
    match pool {
        Some(pool) => match newest_active_pool(parameters, pool, height) {
            None => false,
            Some(active) => {
                ||| any_with_block(state.shards_of(active), height as int)
                ||| {
                    &&& state.scan_ranges@.len() > 0
                    &&& incomplete_shard(parameters, state, active).has(height as int)
                }
            },
        },
        None => true,
    }
}

/// The range around a height holds that height.
pub proof fn lemma_range_around_has_height(
    parameters: &ChainParameters,
    state: &SyncState,
    height: BlockHeight,
    pool: Option<ShieldedPool>,
)
    requires
        has_block_range(parameters, state, height, pool),
    ensures
        block_range_around(parameters, state, height, pool).start <= height,
        pool is Some ==> block_range_around(parameters, state, height, pool).has(height as int),
        block_range_around(parameters, state, height, pool).start < block_range_around(
            parameters,
            state,
            height,
            pool,
        ).end,
{
    if let Some(newest) = pool {
        let active = newest_active_pool(parameters, newest, height)->0;
        let shards = state.shards_of(active);
        if any_with_block(shards, height as int) {
            lemma_first_and_last_exist(shards, height as int);
        }
    }
}

pub(crate) proof fn lemma_first_and_last_exist(ranges: Seq<BlockRange>, height: int)
    requires
        any_with_block(ranges, height),
    ensures
        exists|i: int| first_with_block(ranges, i, height),
        exists|i: int| last_with_block(ranges, i, height),
    decreases ranges.len(),
{
    let w = choose|i: int| 0 <= i < ranges.len() && (#[trigger] ranges[i]).has(height);
    lemma_first_exists(ranges, height, w);
    lemma_last_exists(ranges, height, w);
}

proof fn lemma_first_exists(ranges: Seq<BlockRange>, height: int, w: int)
    requires
        0 <= w < ranges.len(),
        ranges[w].has(height),
    ensures
        exists|i: int| first_with_block(ranges, i, height),
    decreases w,
{
    if exists|k: int| 0 <= k < w && (#[trigger] ranges[k]).has(height) {
        let k = choose|k: int| 0 <= k < w && (#[trigger] ranges[k]).has(height);
        lemma_first_exists(ranges, height, k);
    } else {
        assert(first_with_block(ranges, w, height));
    }
}

proof fn lemma_last_exists(ranges: Seq<BlockRange>, height: int, w: int)
    requires
        0 <= w < ranges.len(),
        ranges[w].has(height),
    ensures
        exists|i: int| last_with_block(ranges, i, height),
    decreases ranges.len() - w,
{
    if exists|k: int| w < k < ranges.len() && (#[trigger] ranges[k]).has(height) {
        let k = choose|k: int| w < k < ranges.len() && (#[trigger] ranges[k]).has(height);
        lemma_last_exists(ranges, height, k);
    } else {
        assert(last_with_block(ranges, w, height));
    }
}

/// Walks down from `pool` to the newest pool already active at `height`.
fn find_newest_active_pool(
    parameters: &ChainParameters,
    pool: ShieldedPool,
    height: BlockHeight,
) -> (r: ShieldedPool)
    requires
        newest_active_pool(parameters, pool, height).is_some(),
    ensures
        Some(r) == newest_active_pool(parameters, pool, height),
{
    let mut candidate = pool;
    loop
        invariant
            newest_active_pool(parameters, pool, height).is_some(),
            newest_active_pool(parameters, candidate, height) == newest_active_pool(
                parameters,
                pool,
                height,
            ),
        decreases candidate.age(),
    {
        if let Some(activation) = PoolActivation::of(parameters, candidate) {
            if height >= activation.height {
                return candidate;
            }
        }
        candidate = match candidate {
            ShieldedPool::Ironwood => ShieldedPool::Orchard,
            _ => ShieldedPool::Sapling,
        };
    }
}

/// Determines the block range which contains all the note commitments for the shard of a given pool surrounding
/// the specified `block_height`.
///
/// If no shard range exists for the given `block_height`, returns the range of the incomplete shard at the chain
/// tip. If `block_height` contains note commitments from multiple shards, returns the block range of all of
/// those shards combined.
///
/// If `shielded_protocol` is `None`, returns the surrounding [`NARROW_SCAN_AREA`] blocks starting from the
/// closest lower multiple of [`NARROW_SCAN_AREA`] to `block_height`.
pub fn determine_block_range(
    parameters: &ChainParameters,
    sync_state: &SyncState,
    block_height: BlockHeight,
    shielded_protocol: Option<ShieldedPool>,
) -> (r: BlockRange)
    requires
        has_block_range(parameters, sync_state, block_height, shielded_protocol),
    ensures
        r == block_range_around(parameters, sync_state, block_height, shielded_protocol),
        r.start < r.end,
        shielded_protocol is Some ==> r.has(block_height as int),
{
    proof {
        lemma_range_around_has_height(parameters, sync_state, block_height, shielded_protocol);
    }
    match shielded_protocol {
        Some(pool) => {
            let active = find_newest_active_pool(parameters, pool, block_height);
            let shards = sync_state.shard_ranges(active);
            let mut first: Option<usize> = None;
            let mut last: usize = 0;
            let mut i: usize = 0;
            while i < shards.len()
                invariant
                    i <= shards@.len(),
                    first.is_none() ==> forall|k: int|
                        0 <= k < i ==> !(#[trigger] shards@[k]).has(block_height as int),
                    first matches Some(f) ==> f < i && first_with_block(
                        shards@,
                        f as int,
                        block_height as int,
                    ),
                    first.is_some() ==> last < i && shards@[last as int].has(block_height as int)
                        && forall|k: int|
                        last < k < i ==> !(#[trigger] shards@[k]).has(block_height as int),
                decreases shards@.len() - i,
            {
                if shards[i].contains(block_height) {
                    if first.is_none() {
                        first = Some(i);
                    }
                    last = i;
                }
                i = i + 1;
            }
            match first {
                Some(f) => {
                    proof {
                        assert(last_with_block(shards@, last as int, block_height as int));
                        let f0 = choose|i: int| first_with_block(shards@, i, block_height as int);
                        let l0 = choose|i: int| last_with_block(shards@, i, block_height as int);
                        assert(first_with_block(shards@, f0, block_height as int));
                        assert(last_with_block(shards@, l0, block_height as int));
                        assert(f0 == f);
                        assert(l0 == last);
                        assert(shards@[f as int].has(block_height as int));
                    }
                    BlockRange { start: shards[f].start, end: shards[last].end }
                },
                None => {
                    assert(!any_with_block(shards@, block_height as int));
                    let start: u32 = if shards.len() > 0 {
                        shards[shards.len() - 1].end.saturating_sub(1)
                    } else {
                        PoolActivation::of(parameters, active).unwrap().max_with(
                            sync_state.wallet_birthday().unwrap(),
                        )
                    };
                    let end: u32 = sync_state.last_known_chain_height().unwrap().saturating_add(1);
                    BlockRange { start, end }
                },
            }
        },
        None => {
            let start: u32 = block_height - (block_height % NARROW_SCAN_AREA);
            BlockRange { start, end: start.saturating_add(NARROW_SCAN_AREA) }
        },
    }
}

/// The pool whose shard is scanned around a target, or none for a narrow target.
pub open spec fn target_pool(target: ScanTarget, pool: ShieldedPool) -> Option<ShieldedPool> {
    if target.narrow_scan_area {
        None
    } else {
        Some(pool)
    }
}

/// The ranges of `state` with the blocks around each of the first `n` targets set to `FoundNote`.
pub open spec fn found_note_ranges(
    parameters: &ChainParameters,
    state: &SyncState,
    pool: ShieldedPool,
    targets: Seq<ScanTarget>,
    n: int,
) -> Seq<ScanRange>
    decreases n,
{
    if n <= 0 {
        state.scan_ranges@
    } else {
        punched(
            found_note_ranges(parameters, state, pool, targets, n - 1),
            block_range_around(
                parameters,
                state,
                targets[n - 1].block_height,
                target_pool(targets[n - 1], pool),
            ),
            ScanPriority::FoundNote,
        )
    }
}

/// Punching a priority into the ranges moves neither end of them, so the range around a height stays.
pub proof fn lemma_range_around_depends_on_ends(
    parameters: &ChainParameters,
    a: &SyncState,
    b: &SyncState,
    height: BlockHeight,
    pool: Option<ShieldedPool>,
)
    requires
        a.same_but_scan_ranges(b),
        a.birthday() == b.birthday(),
        a.known_tip() == b.known_tip(),
    ensures
        block_range_around(parameters, a, height, pool) == block_range_around(
            parameters,
            b,
            height,
            pool,
        ),
        has_block_range(parameters, a, height, pool) == has_block_range(
            parameters,
            b,
            height,
            pool,
        ),
{
    if let Some(newest) = pool {
        if let Some(active) = newest_active_pool(parameters, newest, height) {
            assert(a.shards_of(active) == b.shards_of(active));
        }
    }
}

/// Punches in the block range surrounding `block_height` with `ScanPriority::FoundNote`.
///
/// If `shielded_protocol` is `None`, punches in the surrounding [`NARROW_SCAN_AREA`] blocks starting from the
/// closest lower multiple of [`NARROW_SCAN_AREA`] to `block_height`.
pub fn set_found_note_scan_range(
    parameters: &ChainParameters,
    sync_state: &mut SyncState,
    shielded_protocol: Option<ShieldedPool>,
    block_height: BlockHeight,
)
    requires
        contiguous(old(sync_state).scan_ranges@),
        has_block_range(parameters, old(sync_state), block_height, shielded_protocol),
    ensures
        final(sync_state).scan_ranges@ == punched(
            old(sync_state).scan_ranges@,
            block_range_around(parameters, old(sync_state), block_height, shielded_protocol),
            ScanPriority::FoundNote,
        ),
        final(sync_state).same_but_scan_ranges(old(sync_state)),
        contiguous(final(sync_state).scan_ranges@),
        final(sync_state).birthday() == old(sync_state).birthday(),
        final(sync_state).known_tip() == old(sync_state).known_tip(),
{
    let block_range = determine_block_range(
        parameters,
        sync_state,
        block_height,
        shielded_protocol,
    );
    let ghost before = sync_state.scan_ranges@;
    punch_scan_priority(sync_state, block_range, ScanPriority::FoundNote);
    proof {
        if before.len() > 0 {
            law_punched(before, block_range, ScanPriority::FoundNote, 0);
        }
    }
}

/// Punches in the shard block ranges surrounding each scan target with `ScanPriority::FoundNote`.
///
/// If all `scan_targets` have the `narrow_scan_area` set to `true`, `shielded_protocol` is irrelevant.
pub fn set_found_note_scan_ranges(
    parameters: &ChainParameters,
    sync_state: &mut SyncState,
    shielded_protocol: ShieldedPool,
    scan_targets: &Vec<ScanTarget>,
)
    requires
        contiguous(old(sync_state).scan_ranges@),
        forall|i: int|
            0 <= i < scan_targets@.len() ==> has_block_range(
                parameters,
                old(sync_state),
                (#[trigger] scan_targets@[i]).block_height,
                target_pool(scan_targets@[i], shielded_protocol),
            ),
    ensures
        final(sync_state).scan_ranges@ == found_note_ranges(
            parameters,
            old(sync_state),
            shielded_protocol,
            scan_targets@,
            scan_targets@.len() as int,
        ),
        final(sync_state).same_but_scan_ranges(old(sync_state)),
        contiguous(final(sync_state).scan_ranges@),
        final(sync_state).birthday() == old(sync_state).birthday(),
        final(sync_state).known_tip() == old(sync_state).known_tip(),
{
    let mut i: usize = 0;
    while i < scan_targets.len()
        invariant
            i <= scan_targets@.len(),
            contiguous(sync_state.scan_ranges@),
            sync_state.same_but_scan_ranges(old(sync_state)),
            sync_state.birthday() == old(sync_state).birthday(),
            sync_state.known_tip() == old(sync_state).known_tip(),
            forall|i: int|
                0 <= i < scan_targets@.len() ==> has_block_range(
                    parameters,
                    old(sync_state),
                    (#[trigger] scan_targets@[i]).block_height,
                    target_pool(scan_targets@[i], shielded_protocol),
                ),
            sync_state.scan_ranges@ == found_note_ranges(
                parameters,
                old(sync_state),
                shielded_protocol,
                scan_targets@,
                i as int,
            ),
        decreases scan_targets@.len() - i,
    {
        let target = scan_targets[i];
        let pool = if target.narrow_scan_area {
            None
        } else {
            Some(shielded_protocol)
        };
        proof {
            lemma_range_around_depends_on_ends(
                parameters,
                sync_state,
                old(sync_state),
                target.block_height,
                pool,
            );
        }
        set_found_note_scan_range(parameters, sync_state, pool, target.block_height);
        i = i + 1;
    }
}

/// The range that starts lower, or the first of two that start together.
pub open spec fn lower_start(a: BlockRange, b: BlockRange) -> BlockRange {
    if b.start < a.start {
        b
    } else {
        a
    }
}

/// The blocks from the lowest start of the latest incomplete shard of any pool to the chain tip.
pub open spec fn chain_tip_range(
    parameters: &ChainParameters,
    state: &SyncState,
    chain_height: BlockHeight,
) -> BlockRange {
    lower_start(
        lower_start(
            block_range_around(parameters, state, chain_height, Some(ShieldedPool::Sapling)),
            block_range_around(parameters, state, chain_height, Some(ShieldedPool::Orchard)),
        ),
        block_range_around(parameters, state, chain_height, Some(ShieldedPool::Ironwood)),
    )
}

/// Punches in the chain tip block range with `ScanPriority::ChainTip`.
///
/// Determines the chain tip block range by finding the lowest start height of the latest incomplete shard for
/// each shielded protocol.
pub fn set_chain_tip_scan_range(
    parameters: &ChainParameters,
    sync_state: &mut SyncState,
    chain_height: BlockHeight,
)
    requires
        contiguous(old(sync_state).scan_ranges@),
        forall|pool: ShieldedPool| #[trigger]
            has_block_range(parameters, old(sync_state), chain_height, Some(pool)),
    ensures
        final(sync_state).scan_ranges@ == punched(
            old(sync_state).scan_ranges@,
            chain_tip_range(parameters, old(sync_state), chain_height),
            ScanPriority::ChainTip,
        ),
        final(sync_state).same_but_scan_ranges(old(sync_state)),
        contiguous(final(sync_state).scan_ranges@),
{
    let sapling = determine_block_range(
        parameters,
        sync_state,
        chain_height,
        Some(ShieldedPool::Sapling),
    );
    let orchard = determine_block_range(
        parameters,
        sync_state,
        chain_height,
        Some(ShieldedPool::Orchard),
    );
    let ironwood = determine_block_range(
        parameters,
        sync_state,
        chain_height,
        Some(ShieldedPool::Ironwood),
    );
    let mut chain_tip = sapling;
    if orchard.start < chain_tip.start {
        chain_tip = orchard;
    }
    if ironwood.start < chain_tip.start {
        chain_tip = ironwood;
    }
    punch_scan_priority(sync_state, chain_tip, ScanPriority::ChainTip);
}

/// The targets of a set in their order.
pub fn list_targets(targets: &ScanTargets) -> (r: Vec<ScanTarget>)
    ensures
        r@.len() == targets.listed().len(),
        forall|i: int| 0 <= i < r@.len() ==> #[trigger] r@[i] == targets.listed()[i].0,
{
    let mut list: Vec<ScanTarget> = Vec::new();
    let mut i: usize = 0;
    while i < targets.len()
        invariant
            i <= targets.listed().len(),
            list@.len() == i,
            forall|k: int| 0 <= k < i ==> #[trigger] list@[k] == targets.listed()[k].0,
        decreases targets.listed().len() - i,
    {
        list.push(targets.entry(i).0);
        i = i + 1;
    }
    list
}

/// The scan targets of a state in their order.
pub open spec fn targets_in_order(state: &SyncState) -> Seq<ScanTarget> {
    Seq::new(state.scan_targets.listed().len(), |i: int| state.scan_targets.listed()[i].0)
}

/// The ranges of `state` once the blocks around every scan target and the chain tip have been prioritised.
pub open spec fn prioritized_ranges(
    parameters: &ChainParameters,
    state: &SyncState,
    chain_height: BlockHeight,
) -> Seq<ScanRange> {
    let targets = targets_in_order(state);
    merged(
        punched(
            found_note_ranges(
                parameters,
                state,
                ShieldedPool::Ironwood,
                targets,
                targets.len() as int,
            ),
            chain_tip_range(parameters, state, chain_height),
            ScanPriority::ChainTip,
        ),
        ScanPriority::ChainTip,
    )
}

/// Prioritizes scan ranges for scanning.
pub fn prioritize_scan_ranges(
    parameters: &ChainParameters,
    chain_height: BlockHeight,
    sync_state: &mut SyncState,
)
    requires
        contiguous(old(sync_state).scan_ranges@),
        forall|pool: ShieldedPool| #[trigger]
            has_block_range(parameters, old(sync_state), chain_height, Some(pool)),
        forall|i: int|
            0 <= i < targets_in_order(old(sync_state)).len() ==> has_block_range(
                parameters,
                old(sync_state),
                (#[trigger] targets_in_order(old(sync_state))[i]).block_height,
                target_pool(targets_in_order(old(sync_state))[i], ShieldedPool::Ironwood),
            ),
    ensures
        final(sync_state).scan_ranges@ == prioritized_ranges(
            parameters,
            old(sync_state),
            chain_height,
        ),
        final(sync_state).same_but_scan_ranges(old(sync_state)),
        contiguous(final(sync_state).scan_ranges@),
{
    let targets = list_targets(&sync_state.scan_targets);
    assert(targets@ =~= targets_in_order(sync_state));
    set_found_note_scan_ranges(parameters, sync_state, ShieldedPool::Ironwood, &targets);
    proof {
        assert forall|pool: ShieldedPool| #[trigger]
            has_block_range(parameters, sync_state, chain_height, Some(pool)) by {
            assert(has_block_range(parameters, old(sync_state), chain_height, Some(pool)));
            lemma_range_around_depends_on_ends(
                parameters,
                sync_state,
                old(sync_state),
                chain_height,
                Some(pool),
            );
        }
        lemma_range_around_depends_on_ends(
            parameters,
            sync_state,
            old(sync_state),
            chain_height,
            Some(ShieldedPool::Sapling),
        );
        lemma_range_around_depends_on_ends(
            parameters,
            sync_state,
            old(sync_state),
            chain_height,
            Some(ShieldedPool::Orchard),
        );
        lemma_range_around_depends_on_ends(
            parameters,
            sync_state,
            old(sync_state),
            chain_height,
            Some(ShieldedPool::Ironwood),
        );
    }
    set_chain_tip_scan_range(parameters, sync_state, chain_height);
    merge_scan_ranges(sync_state, ScanPriority::ChainTip);
}

// --- the shard ranges themselves ---

/// The root of a complete shard, and the block that completed it.
#[derive(Debug, PartialEq, Eq)]
pub struct SubtreeRoot {
    pub root_hash: Vec<u8>,
    pub completing_block_hash: Vec<u8>,
    pub completing_block_height: u64,
}

/// The shard ranges `ranges`, followed by those of shards that were completed at `heights`.
///
/// A shard starts at the height that completed the one before it, and the first at `activation`.
pub open spec fn with_shards(
    ranges: Seq<BlockRange>,
    activation: BlockHeight,
    heights: Seq<u64>,
) -> Seq<BlockRange> {
    let first = if ranges.len() > 0 {
        below(ranges.last().end)
    } else {
        activation
    };
    ranges + Seq::new(
        heights.len(),
        |i: int|
            BlockRange {
                start: if i == 0 {
                    first
                } else {
                    heights[i - 1] as u32
                },
                end: above(heights[i] as u32),
            },
    )
}

/// The heights at which the shards of `roots` were completed.
pub open spec fn completing_heights(roots: Seq<SubtreeRoot>) -> Seq<u64> {
    Seq::new(roots.len(), |i: int| roots[i].completing_block_height)
}

/// A state whose newest shard range is dropped and rebuilt from its root, fetched again, is the state that would
/// have come of that root in the first place: nothing is duplicated, and a completing height that a re-org moved
/// is corrected.
pub proof fn law_refetched_newest_root_rebuilds_its_shard_range(
    ranges: Seq<BlockRange>,
    activation: BlockHeight,
    heights: Seq<u64>,
    refetched: u64,
)
    requires
        heights.len() > 0,
        forall|i: int| 0 <= i < heights.len() ==> #[trigger] heights[i] < u32::MAX,
    ensures
        with_shards(
            with_shards(ranges, activation, heights).drop_last(),
            activation,
            seq![refetched],
        ) == with_shards(ranges, activation, heights.update(heights.len() - 1, refetched)),
{
    let n = heights.len() - 1;
    let all = with_shards(ranges, activation, heights);
    let popped = all.drop_last();
    let left = with_shards(popped, activation, seq![refetched]);
    let right = with_shards(ranges, activation, heights.update(n, refetched));
    assert(left.len() == right.len());
    if n > 0 {
        assert(heights[n - 1] < u32::MAX);
        assert(popped.last() == all[ranges.len() + n - 1]);
        assert(popped.last().end == heights[n - 1] + 1);
    } else {
        assert(popped =~= ranges);
    }
    assert forall|i: int| 0 <= i < left.len() implies left[i] == right[i] by {
        if i < ranges.len() {
        } else if i < ranges.len() + n {
            assert(heights[i - ranges.len()] < u32::MAX);
        } else {
        }
    }
    assert(left =~= right);
}

/// Whether the two states differ in no more than the shard ranges of `pool`.
pub open spec fn same_but_shards_of(a: &SyncState, b: &SyncState, pool: ShieldedPool) -> bool {
    &&& a.scan_ranges == b.scan_ranges
    &&& a.scan_targets == b.scan_targets
    &&& a.initial_sync_state == b.initial_sync_state
    &&& forall|other: ShieldedPool|
        other != pool ==> #[trigger] a.shards_of(other) == b.shards_of(other)
}

/// Drops the newest stored shard range of a pool, so a refetched newest subtree root can rebuild it through
/// [`add_shard_ranges`], never duplicated, and corrected when a re-org moved the completing height.
///
/// Does nothing when no range exists.
pub fn pop_newest_shard_range(sync_state: &mut SyncState, shielded_protocol: ShieldedPool)
    ensures
        final(sync_state).shards_of(shielded_protocol) == if old(sync_state).shards_of(
            shielded_protocol,
        ).len() == 0 {
            old(sync_state).shards_of(shielded_protocol)
        } else {
            old(sync_state).shards_of(shielded_protocol).drop_last()
        },
        same_but_shards_of(final(sync_state), old(sync_state), shielded_protocol),
{
    match shielded_protocol {
        ShieldedPool::Sapling => {
            sync_state.sapling_shard_ranges.pop();
        },
        ShieldedPool::Orchard => {
            sync_state.orchard_shard_ranges.pop();
        },
        ShieldedPool::Ironwood => {
            sync_state.ironwood_shard_ranges.pop();
        },
    }
}

/// Adds to `shard_ranges` the ranges of the shards that `subtree_roots` complete.
fn extend_shard_ranges(
    shard_ranges: &mut Vec<BlockRange>,
    activation: BlockHeight,
    subtree_roots: &Vec<SubtreeRoot>,
)
    requires
        forall|i: int|
            0 <= i < subtree_roots@.len() ==> (
            #[trigger] subtree_roots@[i]).completing_block_height <= u32::MAX,
    ensures
        final(shard_ranges)@ == with_shards(
            old(shard_ranges)@,
            activation,
            completing_heights(subtree_roots@),
        ),
{
    let ghost before = shard_ranges@;
    let ghost heights = completing_heights(subtree_roots@);
    let mut previous: u32 = if shard_ranges.len() > 0 {
        shard_ranges[shard_ranges.len() - 1].end.saturating_sub(1)
    } else {
        activation
    };
    let ghost first = previous;
    let mut i: usize = 0;
    while i < subtree_roots.len()
        invariant
            i <= subtree_roots@.len(),
            heights == completing_heights(subtree_roots@),
            forall|i: int|
                0 <= i < subtree_roots@.len() ==> (
                #[trigger] subtree_roots@[i]).completing_block_height <= u32::MAX,
            first == if before.len() > 0 {
                below(before.last().end)
            } else {
                activation
            },
            previous == if i == 0 {
                first
            } else {
                heights[i - 1] as u32
            },
            shard_ranges@ =~= with_shards(before, activation, heights.take(i as int)),
        decreases subtree_roots@.len() - i,
    {
        let height: u32 = subtree_roots[i].completing_block_height as u32;
        assert(heights[i as int] as u32 == height);
        shard_ranges.push(BlockRange { start: previous, end: height.saturating_add(1) });
        previous = height;
        i = i + 1;
    }
    assert(heights.take(i as int) =~= heights);
}

/// Creates block ranges that contain all outputs for the shards associated with `subtree_roots` and adds them to
/// `sync_state`.
///
/// The activation height of the pool is the first shard start height for the case where its shard ranges in
/// `sync_state` are empty.
pub fn add_shard_ranges(
    parameters: &ChainParameters,
    shielded_protocol: ShieldedPool,
    sync_state: &mut SyncState,
    subtree_roots: &Vec<SubtreeRoot>,
)
    requires
        parameters.activation_of(shielded_protocol).is_some(),
        forall|i: int|
            0 <= i < subtree_roots@.len() ==> (
            #[trigger] subtree_roots@[i]).completing_block_height <= u32::MAX,
    ensures
        final(sync_state).shards_of(shielded_protocol) == with_shards(
            old(sync_state).shards_of(shielded_protocol),
            parameters.activation_of(shielded_protocol)->0,
            completing_heights(subtree_roots@),
        ),
        same_but_shards_of(final(sync_state), old(sync_state), shielded_protocol),
{
    let activation: u32 = PoolActivation::of(parameters, shielded_protocol).unwrap().height;
    match shielded_protocol {
        ShieldedPool::Sapling => extend_shard_ranges(
            &mut sync_state.sapling_shard_ranges,
            activation,
            subtree_roots,
        ),
        ShieldedPool::Orchard => extend_shard_ranges(
            &mut sync_state.orchard_shard_ranges,
            activation,
            subtree_roots,
        ),
        ShieldedPool::Ironwood => extend_shard_ranges(
            &mut sync_state.ironwood_shard_ranges,
            activation,
            subtree_roots,
        ),
    }
}

} // verus!
