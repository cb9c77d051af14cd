//! The scanner: which range is scanned next, and in which portions its blocks are loaded.
use crate::chain::ChainParameters;
use crate::config::PerformanceLevel;
use crate::primitives::{BlockHeight, BlockRange, ShieldedPool, TxId};
use crate::scan::compact::{inputs_of, outputs_of, CompactBlock};
use crate::scan::gap::Addresses;
use crate::scan_range::{contiguous, lemma_contiguous_is_ordered, ScanPriority, ScanRange};
use crate::sorted_map::{Rule, SortedMap};
use crate::sync::select::{
    can_be_selected, find_scan_targets, is_candidate, ranges_after_selection, select_scan_range, selected_range,
    shard_unknown,
};
use crate::wallet::data::Wallet;
use crate::wallet::stores::{WalletBlock, WalletBlockView, WalletBlocks};
use crate::wallet::sync_state::{above, below, ScanTarget, ScanTargets, SyncState};
use crate::wallet::transaction::TransparentAddressId;
use vstd::prelude::*;

verus! {

/// The number of nullifiers that a load may hold.
pub const MAX_LOAD_NULLIFIERS: u64 = 16_384;

/// The number of outputs that a load may hold.
pub open spec fn output_budget(performance_level: PerformanceLevel) -> u64 {
    match performance_level {
        PerformanceLevel::Low => 2_048,
        PerformanceLevel::Medium => 8_192,
        PerformanceLevel::High => 8_192,
        PerformanceLevel::Maximum => 32_768,
    }
}

/// The number of outputs that a load may hold.
pub fn max_load_outputs(performance_level: PerformanceLevel) -> (r: u64)
    ensures
        r == output_budget(performance_level),
{
    match performance_level {
        PerformanceLevel::Low => 2_048,
        PerformanceLevel::Medium => 8_192,
        PerformanceLevel::High => 8_192,
        PerformanceLevel::Maximum => 32_768,
    }
}

// --- the state of the scanner ---

/// What the scanner does.
#[derive(Clone, Copy, Debug, PartialEq, Eq, Structural)]
pub enum ScannerState {
    /// Ranges are verified, and nothing else is scanned.
    Verification,
    Scan,
    Shutdown,
}

/// What is to be done in an update of the scanner.
#[derive(Clone, Copy, Debug, PartialEq, Eq, Structural)]
pub enum ScannerAction {
    /// Nothing more than handing finished loads to idle workers.
    Wait,
    /// The loader is given the next task if it is idle.
    Load,
    /// Idle workers, the loader and the mempool are shut down.
    Shutdown,
}

/// Whether a range has the priority.
pub open spec fn any_with_priority(ranges: Seq<ScanRange>, priority: ScanPriority) -> bool {
    exists|i: int| 0 <= i < ranges.len() && (#[trigger] ranges[i]).priority == priority
}

/// The state of the scanner after an update, and what is to be done in it.
///
/// Scanning begins when no range is left to be verified and none is being verified.
pub open spec fn scanner_step(state: ScannerState, ranges: Seq<ScanRange>) -> (ScannerState, ScannerAction) {
    match state {
        ScannerState::Verification => if any_with_priority(ranges, ScanPriority::Verify) {
            (ScannerState::Verification, ScannerAction::Load)
        } else if any_with_priority(ranges, ScanPriority::Scanning) {
            (ScannerState::Verification, ScannerAction::Wait)
        } else {
            (ScannerState::Scan, ScannerAction::Wait)
        },
        ScannerState::Scan => (ScannerState::Scan, ScannerAction::Load),
        ScannerState::Shutdown => (ScannerState::Shutdown, ScannerAction::Shutdown),
    }
}

fn has_priority(ranges: &Vec<ScanRange>, priority: ScanPriority) -> (r: bool)
    ensures
        r == any_with_priority(ranges@, priority),
{
    let count: usize = ranges.len();
    let mut i: usize = 0;
    while i < count
        invariant
            i <= count == ranges@.len(),
            forall|k: int| 0 <= k < i ==> (#[trigger] ranges@[k]).priority != priority,
        decreases count - i,
    {
        if ranges[i].priority == priority {
            assert(ranges@[i as int].priority == priority);
            return true;
        }
        i = i + 1;
    }
    false
}

/// Updates the state of the scanner, and says what is to be done.
pub fn update_scanner(state: ScannerState, sync_state: &SyncState) -> (r: (ScannerState, ScannerAction))
    ensures
        r == scanner_step(state, sync_state.scan_ranges@),
{
    match state {
        ScannerState::Verification => if has_priority(&sync_state.scan_ranges, ScanPriority::Verify) {
            (ScannerState::Verification, ScannerAction::Load)
        } else if has_priority(&sync_state.scan_ranges, ScanPriority::Scanning) {
            (ScannerState::Verification, ScannerAction::Wait)
        } else {
            (ScannerState::Scan, ScannerAction::Wait)
        },
        ScannerState::Scan => (ScannerState::Scan, ScannerAction::Load),
        ScannerState::Shutdown => (ScannerState::Shutdown, ScannerAction::Shutdown),
    }
}

/// The state of the scanner once there was no task to create: it shuts down if everything is scanned.
pub fn after_no_task(state: ScannerState, sync_state: &SyncState) -> (r: ScannerState)
    ensures
        r == if forall|i: int|
            0 <= i < sync_state.scan_ranges@.len() ==> (#[trigger] sync_state.scan_ranges@[i]).priority
                == ScanPriority::Scanned {
            ScannerState::Shutdown
        } else {
            state
        },
{
    if sync_state.scan_complete() {
        ScannerState::Shutdown
    } else {
        state
    }
}

/// The scanner never goes back, and leaves verification only when every range has been verified.
pub proof fn law_scanner_moves_forward(state: ScannerState, ranges: Seq<ScanRange>)
    ensures
        state is Shutdown ==> scanner_step(state, ranges).0 is Shutdown,
        state is Scan ==> scanner_step(state, ranges).0 is Scan,
        state is Verification && scanner_step(state, ranges).0 is Scan ==> !any_with_priority(
            ranges,
            ScanPriority::Verify,
        ) && !any_with_priority(ranges, ScanPriority::Scanning),
{
}

// --- tasks ---

/// A range of blocks to be scanned, and what the wallet knows of it.
#[derive(Debug)]
pub struct ScanTask {
    pub compact_blocks: Vec<CompactBlock>,
    pub scan_range: ScanRange,
    pub start_seam_block: Option<WalletBlock>,
    pub end_seam_block: Option<WalletBlock>,
    pub scan_targets: ScanTargets,
    pub transparent_addresses: Addresses,
}

/// The value of a block that may be there.
pub open spec fn seam_view(block: Option<WalletBlock>) -> Option<WalletBlockView> {
    match block {
        Some(block) => Some(block@),
        None => None,
    }
}

/// The block at a height, if the wallet holds it.
pub open spec fn block_at(blocks: Map<BlockHeight, WalletBlock>, height: BlockHeight) -> Option<WalletBlockView> {
    if blocks.dom().contains(height) {
        Some(blocks[height]@)
    } else {
        None
    }
}

/// A copy of a block.
pub fn copy_block(block: &WalletBlock) -> (r: WalletBlock)
    ensures
        r@ == block@,
{
    let mut txids: Vec<TxId> = Vec::new();
    let count: usize = block.txids.len();
    let mut i: usize = 0;
    while i < count
        invariant
            i <= count == block.txids@.len(),
            txids@ == block.txids@.take(i as int),
        decreases count - i,
    {
        txids.push(block.txids[i]);
        assert(txids@ =~= block.txids@.take(i + 1));
        i = i + 1;
    }
    assert(block.txids@.take(count as int) =~= block.txids@);
    WalletBlock {
        block_height: block.block_height,
        block_hash: block.block_hash,
        prev_hash: block.prev_hash,
        time: block.time,
        txids,
        tree_bounds: block.tree_bounds,
    }
}

/// The block at the height, if it is held.
pub(crate) fn find_block(blocks: &WalletBlocks, height: BlockHeight) -> (r: Option<WalletBlock>)
    requires
        blocks.wf(),
    ensures
        seam_view(r) == block_at(blocks@, height),
{
    match blocks.get(&height) {
        Some(block) => Some(copy_block(block)),
        None => None,
    }
}

/// Whether two maps hold the same addresses.
pub open spec fn same_addresses(
    a: Map<TransparentAddressId, String>,
    b: Map<TransparentAddressId, String>,
) -> bool {
    &&& a.dom() == b.dom()
    &&& forall|id: TransparentAddressId| #[trigger] a.dom().contains(id) ==> a[id]@ == b[id]@
}

/// A copy of addresses.
pub fn copy_addresses(addresses: &Addresses) -> (r: Addresses)
    requires
        addresses.wf(),
    ensures
        r.wf(),
        same_addresses(r@, addresses@),
{
    let mut out: Addresses = SortedMap::new();
    let ghost listed = addresses.listed();
    proof {
        addresses.lemma_listed();
    }
    let count: usize = addresses.len();
    let mut i: usize = 0;
    while i < count
        invariant
            i <= count == listed.len(),
            listed == addresses.listed(),
            addresses.wf(),
            out.wf(),
            forall|k: int|
                0 <= k < listed.len() ==> addresses@.dom().contains((#[trigger] listed[k]).0)
                    && addresses@[listed[k].0] == listed[k].1,
            forall|id: TransparentAddressId| #[trigger]
                out@.dom().contains(id) == exists|k: int| 0 <= k < i && (#[trigger] listed[k]).0 == id,
            forall|id: TransparentAddressId| #[trigger] out@.dom().contains(id) ==> out@[id]@ == addresses@[id]@,
        decreases count - i,
    {
        let entry = addresses.entry(i);
        let ghost so_far = out@;
        out.insert(entry.0, entry.1.clone());
        proof {
            assert(listed[i as int] == *entry);
            assert forall|id: TransparentAddressId| #[trigger] out@.dom().contains(id) == exists|k: int|
                0 <= k < i + 1 && (#[trigger] listed[k]).0 == id by {
                assert(so_far.dom().contains(id) == exists|k: int| 0 <= k < i && (#[trigger] listed[k]).0 == id);
            }
            assert forall|id: TransparentAddressId| #[trigger] out@.dom().contains(id) implies out@[id]@
                == addresses@[id]@ by {
                if id == entry.0 {
                } else {
                    assert(so_far.dom().contains(id));
                }
            }
        }
        i = i + 1;
    }
    proof {
        assert(out@.dom() =~= addresses@.dom()) by {
            assert forall|id: TransparentAddressId| out@.dom().contains(id) == addresses@.dom().contains(id) by {
                if addresses@.dom().contains(id) {
                    assert(crate::sorted_map::has_key(listed, id));
                }
            }
        }
    }
    out
}

/// Whether a range that is being scanned ends below the range to be verified, so that it must be awaited.
pub open spec fn must_wait(ranges: Seq<ScanRange>, selected: ScanRange) -> bool {
    &&& selected.priority == ScanPriority::Verify
    &&& exists|i: int|
        0 <= i < ranges.len() && (#[trigger] ranges[i]).priority == ScanPriority::Scanning
            && ranges[i].block_range.has(below(selected.block_range.start) as int)
}

fn is_being_scanned(ranges: &Vec<ScanRange>, height: BlockHeight) -> (r: bool)
    ensures
        r == exists|i: int|
            0 <= i < ranges@.len() && (#[trigger] ranges@[i]).priority == ScanPriority::Scanning
                && ranges@[i].block_range.has(height as int),
{
    let count: usize = ranges.len();
    let mut i: usize = 0;
    while i < count
        invariant
            i <= count == ranges@.len(),
            forall|k: int|
                0 <= k < i ==> !((#[trigger] ranges@[k]).priority == ScanPriority::Scanning
                    && ranges@[k].block_range.has(height as int)),
        decreases count - i,
    {
        if ranges[i].priority == ScanPriority::Scanning && ranges[i].block_range.contains(height) {
            assert(ranges@[i as int].priority == ScanPriority::Scanning);
            return true;
        }
        i = i + 1;
    }
    false
}

/// What the task for a selected range holds.
///
/// A range that only has its nullifiers fetched again has been checked and scanned: its task holds nothing else.
pub open spec fn is_task_for(task: &ScanTask, wallet: &Wallet, selected: ScanRange) -> bool {
    &&& task.compact_blocks@.len() == 0
    &&& task.scan_range == selected
    &&& task.scan_targets.wf()
    &&& task.transparent_addresses.wf()
    &&& if selected.priority == ScanPriority::ScannedWithoutMapping {
        &&& task.start_seam_block.is_none()
        &&& task.end_seam_block.is_none()
        &&& task.scan_targets@ == Map::<ScanTarget, ()>::empty()
        &&& task.transparent_addresses@ == Map::<TransparentAddressId, String>::empty()
    } else {
        &&& seam_view(task.start_seam_block) == block_at(
            wallet.wallet_blocks@,
            below(selected.block_range.start),
        )
        &&& seam_view(task.end_seam_block) == block_at(wallet.wallet_blocks@, selected.block_range.end)
        &&& forall|t: ScanTarget| #[trigger]
            task.scan_targets@.dom().contains(t) == (wallet.sync_state.scan_targets@.dom().contains(t)
                && selected.block_range.has(t.block_height as int))
        &&& same_addresses(task.transparent_addresses@, wallet.transparent_addresses@)
    }
}

/// Whether the range at `i` is selected, and the ranges are those after its selection.
pub open spec fn is_selection(
    parameters: &ChainParameters,
    state: &SyncState,
    limit_exceeded: bool,
    i: int,
    after: Seq<ScanRange>,
) -> bool {
    &&& is_candidate(state.scan_ranges@, i, limit_exceeded)
    &&& can_be_selected(state.scan_ranges@[i].priority)
    &&& after == ranges_after_selection(parameters, state, i)
}

/// Creates the task of scanning the next range, if there is one.
///
/// In continuous sync there is a case where the range directly below the one to be verified is being scanned. The
/// verification waits until that has completed, so that a re-org is noticed.
pub fn create_scan_task(
    parameters: &ChainParameters,
    wallet: &mut Wallet,
    nullifier_map_limit_exceeded: bool,
) -> (r: Option<ScanTask>)
    requires
        old(wallet).wf(),
        contiguous(old(wallet).sync_state.scan_ranges@),
        !shard_unknown(parameters, &old(wallet).sync_state, nullifier_map_limit_exceeded),
    ensures
        final(wallet).wf(),
        contiguous(final(wallet).sync_state.scan_ranges@),
        final(wallet).sync_state.same_but_scan_ranges(&old(wallet).sync_state),
        *final(wallet) == (Wallet { sync_state: final(wallet).sync_state, ..*old(wallet) }),
        r matches Some(task) ==> exists|i: int| #[trigger]
            is_selection(
                parameters,
                &old(wallet).sync_state,
                nullifier_map_limit_exceeded,
                i,
                final(wallet).sync_state.scan_ranges@,
            ) && is_task_for(&task, old(wallet), selected_range(parameters, &old(wallet).sync_state, i)) && !must_wait(
                final(wallet).sync_state.scan_ranges@,
                selected_range(parameters, &old(wallet).sync_state, i),
            ),
        r.is_none() ==> {
            &&& final(wallet).sync_state.scan_ranges@ == old(wallet).sync_state.scan_ranges@
            &&& forall|i: int| #[trigger]
                is_candidate(old(wallet).sync_state.scan_ranges@, i, nullifier_map_limit_exceeded)
                    ==> !can_be_selected(old(wallet).sync_state.scan_ranges@[i].priority) || must_wait(
                    ranges_after_selection(parameters, &old(wallet).sync_state, i),
                    selected_range(parameters, &old(wallet).sync_state, i),
                )
        },
{
    let ghost before = wallet.sync_state;
    let selected = match select_scan_range(parameters, &mut wallet.sync_state, nullifier_map_limit_exceeded) {
        Some(selected) => selected,
        None => {
            return None;
        },
    };
    let ghost at = choose|i: int| #[trigger]
        is_candidate(before.scan_ranges@, i, nullifier_map_limit_exceeded) && can_be_selected(
            before.scan_ranges@[i].priority,
        ) && wallet.sync_state.scan_ranges@ == ranges_after_selection(parameters, &before, i) && selected
            == selected_range(parameters, &before, i);
    let ghost after = wallet.sync_state.scan_ranges@;
    assert(is_selection(parameters, &before, nullifier_map_limit_exceeded, at, after));
    if selected.priority == ScanPriority::ScannedWithoutMapping {
        return Some(
            ScanTask {
                compact_blocks: Vec::new(),
                scan_range: selected,
                start_seam_block: None,
                end_seam_block: None,
                scan_targets: SortedMap::new(),
                transparent_addresses: SortedMap::new(),
            },
        );
    }
    if selected.priority == ScanPriority::Verify && is_being_scanned(
        &wallet.sync_state.scan_ranges,
        selected.block_range.start.saturating_sub(1),
    ) {
        reset_to_verify(&mut wallet.sync_state, &selected, Ghost(at));
        proof {
            let ranges = before.scan_ranges@;
            assert(wallet.sync_state.scan_ranges@ =~= ranges);
            assert forall|i: int| #[trigger]
                is_candidate(ranges, i, nullifier_map_limit_exceeded) implies !can_be_selected(ranges[i].priority)
                || must_wait(
                ranges_after_selection(parameters, &before, i),
                selected_range(parameters, &before, i),
            ) by {
                crate::sync::select::lemma_candidate_is_unique(ranges, i, at, nullifier_map_limit_exceeded);
            }
        }
        return None;
    }
    proof {
        assert(after[at].covers_blocks());
    }
    let start_seam_block = find_block(&wallet.wallet_blocks, selected.block_range.start.saturating_sub(1));
    let end_seam_block = find_block(&wallet.wallet_blocks, selected.block_range.end);
    let scan_targets = find_scan_targets(&wallet.sync_state, &selected.block_range);
    let transparent_addresses = copy_addresses(&wallet.transparent_addresses);
    Some(
        ScanTask {
            compact_blocks: Vec::new(),
            scan_range: selected,
            start_seam_block,
            end_seam_block,
            scan_targets,
            transparent_addresses,
        },
    )
}

/// Sets the range that starts where the selected one does back to be verified.
fn reset_to_verify(sync_state: &mut SyncState, selected: &ScanRange, Ghost(at): Ghost<int>)
    requires
        contiguous(old(sync_state).scan_ranges@),
        0 <= at < old(sync_state).scan_ranges@.len(),
        old(sync_state).scan_ranges@[at].block_range.start == selected.block_range.start,
    ensures
        final(sync_state).same_but_scan_ranges(old(sync_state)),
        final(sync_state).scan_ranges@ == old(sync_state).scan_ranges@.update(
            at,
            ScanRange {
                block_range: old(sync_state).scan_ranges@[at].block_range,
                priority: ScanPriority::Verify,
            },
        ),
        contiguous(final(sync_state).scan_ranges@),
{
    let ghost before = sync_state.scan_ranges@;
    proof {
        lemma_contiguous_is_ordered(before);
    }
    let count: usize = sync_state.scan_ranges.len();
    let mut i: usize = 0;
    while i < count && sync_state.scan_ranges[i].block_range.start != selected.block_range.start
        invariant
            i <= count == before.len(),
            *sync_state == *old(sync_state),
            before == sync_state.scan_ranges@,
            forall|k: int| 0 <= k < i ==> (#[trigger] before[k]).block_range.start != selected.block_range.start,
        decreases count - i,
    {
        i = i + 1;
    }
    proof {
        assert(i < count);
        if i < at {
            assert(before[i as int].covers_blocks());
            assert(before[i as int].block_range.end <= before[at].block_range.start);
        }
        assert(i == at);
    }
    let block_range = sync_state.scan_ranges[i].block_range;
    sync_state.scan_ranges.set(i, ScanRange { block_range, priority: ScanPriority::Verify });
    proof {
        crate::sync::state::lemma_same_blocks_contiguous(before, sync_state.scan_ranges@);
    }
}

// --- splitting ---

/// The place of the first block at the height, or the number of blocks if there is none.
pub open spec fn split_place(blocks: Seq<CompactBlock>, height: BlockHeight, i: int) -> int
    decreases blocks.len() - i,
{
    if i >= blocks.len() || blocks[i].height == height {
        i
    } else {
        split_place(blocks, height, i + 1)
    }
}

/// Keeps the targets below a height.
pub struct TargetsBelow {
    pub height: BlockHeight,
}

impl Rule<ScanTarget, ()> for TargetsBelow {
    open spec fn keeps(&self, target: ScanTarget, value: ()) -> bool {
        target.block_height < self.height
    }

    fn keep(&self, target: &ScanTarget, value: &()) -> bool {
        target.block_height < self.height
    }
}

/// Keeps the targets from a height on.
pub struct TargetsFrom {
    pub height: BlockHeight,
}

impl Rule<ScanTarget, ()> for TargetsFrom {
    open spec fn keeps(&self, target: ScanTarget, value: ()) -> bool {
        target.block_height >= self.height
    }

    fn keep(&self, target: &ScanTarget, value: &()) -> bool {
        target.block_height >= self.height
    }
}

fn copy_targets(targets: &ScanTargets) -> (r: ScanTargets)
    requires
        targets.wf(),
    ensures
        r.wf(),
        r@.dom() == targets@.dom(),
{
    let mut out: ScanTargets = SortedMap::new();
    let ghost listed = targets.listed();
    proof {
        targets.lemma_listed();
    }
    let count: usize = targets.len();
    let mut i: usize = 0;
    while i < count
        invariant
            i <= count == listed.len(),
            listed == targets.listed(),
            out.wf(),
            forall|t: ScanTarget| #[trigger]
                out@.dom().contains(t) == exists|k: int| 0 <= k < i && (#[trigger] listed[k]).0 == t,
        decreases count - i,
    {
        let target = targets.entry(i).0;
        let ghost so_far = out@;
        out.insert(target, ());
        proof {
            assert(listed[i as int].0 == target);
            assert forall|t: ScanTarget| #[trigger] out@.dom().contains(t) == exists|k: int|
                0 <= k < i + 1 && (#[trigger] listed[k]).0 == t by {
                assert(so_far.dom().contains(t) == exists|k: int| 0 <= k < i && (#[trigger] listed[k]).0 == t);
            }
        }
        i = i + 1;
    }
    proof {
        assert(out@.dom() =~= targets@.dom()) by {
            assert forall|t: ScanTarget| out@.dom().contains(t) == targets@.dom().contains(t) by {
                if targets@.dom().contains(t) {
                    assert(crate::sorted_map::has_key(listed, t));
                }
                if exists|k: int| 0 <= k < count && (#[trigger] listed[k]).0 == t {
                    let k = choose|k: int| 0 <= k < count && (#[trigger] listed[k]).0 == t;
                    assert(targets@.dom().contains(listed[k].0));
                }
            }
        }
    }
    out
}

/// Whether the blocks at the ends of the task loaded before are the seams of a task, where they adjoin its range and it
/// had no seam.
pub open spec fn seams_adopted(
    before: &ScanTask,
    after: &ScanTask,
    previous_first: &Option<WalletBlock>,
    previous_last: &Option<WalletBlock>,
) -> bool {
    &&& *after == (ScanTask {
        start_seam_block: after.start_seam_block,
        end_seam_block: after.end_seam_block,
        ..*before
    })
    &&& seam_view(after.start_seam_block) == if before.start_seam_block.is_none() && (previous_last matches Some(block)
        && before.scan_range.block_range.start == above(block.block_height)) {
        seam_view(*previous_last)
    } else {
        seam_view(before.start_seam_block)
    }
    &&& seam_view(after.end_seam_block) == if before.end_seam_block.is_none() && (previous_first matches Some(block)
        && before.scan_range.block_range.end == block.block_height) {
        seam_view(*previous_first)
    } else {
        seam_view(before.end_seam_block)
    }
}

/// Whether a task is split at a height: its blocks and targets are divided there, and the blocks on both sides of the
/// split become the seams.
pub open spec fn is_split(
    whole: &ScanTask,
    low: &ScanTask,
    high: &ScanTask,
    block_height: BlockHeight,
    lower_last_block: Option<WalletBlock>,
    upper_first_block: Option<WalletBlock>,
) -> bool {
    &&& low.scan_range.priority == whole.scan_range.priority
    &&& high.scan_range.priority == whole.scan_range.priority
    &&& low.scan_range.block_range == (BlockRange {
        start: whole.scan_range.block_range.start,
        end: block_height,
    })
    &&& high.scan_range.block_range == (BlockRange {
        start: block_height,
        end: whole.scan_range.block_range.end,
    })
    &&& low.compact_blocks@ == whole.compact_blocks@.take(split_place(whole.compact_blocks@, block_height, 0))
    &&& high.compact_blocks@ == whole.compact_blocks@.skip(split_place(whole.compact_blocks@, block_height, 0))
    &&& low.start_seam_block == whole.start_seam_block
    &&& low.end_seam_block == upper_first_block
    &&& high.start_seam_block == lower_last_block
    &&& high.end_seam_block == whole.end_seam_block
    &&& forall|t: ScanTarget| #[trigger]
        low.scan_targets@.dom().contains(t) == (whole.scan_targets@.dom().contains(t) && t.block_height
            < block_height)
    &&& forall|t: ScanTarget| #[trigger]
        high.scan_targets@.dom().contains(t) == (whole.scan_targets@.dom().contains(t) && t.block_height
            >= block_height)
    &&& same_addresses(low.transparent_addresses@, whole.transparent_addresses@)
    &&& high.transparent_addresses == whole.transparent_addresses
}

impl ScanTask {
    pub open spec fn wf(&self) -> bool {
        self.scan_targets.wf() && self.transparent_addresses.wf()
    }

    /// The place at which the blocks are split, so that those on both sides of it can be made seams.
    pub fn split_index(&self, block_height: BlockHeight) -> (r: usize)
        ensures
            r == split_place(self.compact_blocks@, block_height, 0),
            r <= self.compact_blocks@.len(),
    {
        let count: usize = self.compact_blocks.len();
        let mut i: usize = 0;
        while i < count && self.compact_blocks[i].height != block_height as u64
            invariant
                i <= count == self.compact_blocks@.len(),
                split_place(self.compact_blocks@, block_height, 0) == split_place(
                    self.compact_blocks@,
                    block_height,
                    i as int,
                ),
            decreases count - i,
        {
            i = i + 1;
        }
        i
    }

    /// Splits the task into two at a height within its range.
    ///
    /// `lower_last_block` and `upper_first_block` are the blocks on both sides of the split, where they are loaded.
    /// Each becomes a seam of the task on the other side.
    pub fn split(
        self,
        block_height: BlockHeight,
        lower_last_block: Option<WalletBlock>,
        upper_first_block: Option<WalletBlock>,
    ) -> (r: (ScanTask, ScanTask))
        requires
            self.wf(),
            self.scan_range.block_range.start < block_height < self.scan_range.block_range.end,
        ensures
            r.0.wf(),
            r.1.wf(),
            is_split(&self, &r.0, &r.1, block_height, lower_last_block, upper_first_block),
    {
        let at: usize = self.split_index(block_height);
        let mut lower = self.compact_blocks;
        let ghost all = lower@;
        let upper = lower.split_off(at);
        assert(lower@ =~= all.take(at as int));
        assert(upper@ =~= all.skip(at as int));
        let mut lower_targets = copy_targets(&self.scan_targets);
        let mut upper_targets = self.scan_targets;
        lower_targets.retain(&TargetsBelow { height: block_height });
        upper_targets.retain(&TargetsFrom { height: block_height });
        let addresses = copy_addresses(&self.transparent_addresses);
        let range = self.scan_range.block_range;
        let priority = self.scan_range.priority;
        (
            ScanTask {
                compact_blocks: lower,
                scan_range: ScanRange {
                    block_range: BlockRange { start: range.start, end: block_height },
                    priority,
                },
                start_seam_block: self.start_seam_block,
                end_seam_block: upper_first_block,
                scan_targets: lower_targets,
                transparent_addresses: addresses,
            },
            ScanTask {
                compact_blocks: upper,
                scan_range: ScanRange {
                    block_range: BlockRange { start: block_height, end: range.end },
                    priority,
                },
                start_seam_block: lower_last_block,
                end_seam_block: self.end_seam_block,
                scan_targets: upper_targets,
                transparent_addresses: self.transparent_addresses,
            },
        )
    }

    /// Takes the blocks at the ends of the task loaded before as seams, where they adjoin the range and the wallet does
    /// not hold the seam.
    pub fn adopt_seams(&mut self, previous_first: &Option<WalletBlock>, previous_last: &Option<WalletBlock>)
        ensures
            seams_adopted(old(self), final(self), previous_first, previous_last),
    {
        if let Some(block) = previous_last {
            if self.start_seam_block.is_none() && self.scan_range.block_range.start
                == block.block_height.saturating_add(1) {
                self.start_seam_block = Some(copy_block(block));
            }
        }
        if let Some(block) = previous_first {
            if self.end_seam_block.is_none() && self.scan_range.block_range.end == block.block_height {
                self.end_seam_block = Some(copy_block(block));
            }
        }
    }
}

/// The two tasks of a split cover the range without a gap or an overlap, and hold every block and every target of it
/// once.
pub proof fn law_split_loses_nothing(task: &ScanTask, block_height: BlockHeight, lower: &ScanTask, upper: &ScanTask)
    requires
        lower.scan_range.block_range == (BlockRange {
            start: task.scan_range.block_range.start,
            end: block_height,
        }),
        upper.scan_range.block_range == (BlockRange {
            start: block_height,
            end: task.scan_range.block_range.end,
        }),
        task.scan_range.block_range.start < block_height < task.scan_range.block_range.end,
        0 <= split_place(task.compact_blocks@, block_height, 0) <= task.compact_blocks@.len(),
        lower.compact_blocks@ == task.compact_blocks@.take(split_place(task.compact_blocks@, block_height, 0)),
        upper.compact_blocks@ == task.compact_blocks@.skip(split_place(task.compact_blocks@, block_height, 0)),
        forall|t: ScanTarget| #[trigger]
            lower.scan_targets@.dom().contains(t) == (task.scan_targets@.dom().contains(t) && t.block_height
                < block_height),
        forall|t: ScanTarget| #[trigger]
            upper.scan_targets@.dom().contains(t) == (task.scan_targets@.dom().contains(t) && t.block_height
                >= block_height),
    ensures
        lower.compact_blocks@ + upper.compact_blocks@ == task.compact_blocks@,
        forall|h: int| #[trigger]
            task.scan_range.block_range.has(h) == (lower.scan_range.block_range.has(h)
                || upper.scan_range.block_range.has(h)),
        forall|h: int| !(#[trigger] lower.scan_range.block_range.has(h) && upper.scan_range.block_range.has(h)),
        forall|t: ScanTarget| #[trigger]
            task.scan_targets@.dom().contains(t) == (lower.scan_targets@.dom().contains(t)
                || upper.scan_targets@.dom().contains(t)),
        forall|t: ScanTarget|
            !(#[trigger] lower.scan_targets@.dom().contains(t) && upper.scan_targets@.dom().contains(t)),
{
    assert(lower.compact_blocks@ + upper.compact_blocks@ =~= task.compact_blocks@);
}

// --- budgets ---

/// What a load holds so far.
#[derive(Clone, Copy, Debug, PartialEq, Eq, Structural)]
pub struct LoadCounts {
    pub outputs: u64,
    pub nullifiers: u64,
}

/// Whether the load holds more than it may.
pub open spec fn over_budget(counts: LoadCounts, max_outputs: u64) -> bool {
    counts.outputs > max_outputs || counts.nullifiers > MAX_LOAD_NULLIFIERS
}

/// Both counts together.
pub open spec fn counts_sum(a: LoadCounts, b: LoadCounts) -> LoadCounts {
    LoadCounts {
        outputs: (a.outputs + b.outputs) as u64,
        nullifiers: (a.nullifiers + b.nullifiers) as u64,
    }
}

impl LoadCounts {
    /// An empty load.
    pub fn new() -> (r: Self)
        ensures
            r == (LoadCounts { outputs: 0, nullifiers: 0 }),
    {
        LoadCounts { outputs: 0, nullifiers: 0 }
    }

    /// What a block adds to a load: its nullifiers where only those are fetched, and otherwise its outputs.
    pub fn of_block(block: &CompactBlock, nullifiers_only: bool) -> (r: Self)
        requires
            forall|pool: ShieldedPool| #[trigger] outputs_of(block.vtx@, pool) <= u32::MAX,
            forall|pool: ShieldedPool| #[trigger] inputs_of(block.vtx@, pool) <= u32::MAX,
        ensures
            r.outputs == if nullifiers_only {
                0
            } else {
                outputs_of(block.vtx@, ShieldedPool::Sapling) + outputs_of(block.vtx@, ShieldedPool::Orchard)
                    + outputs_of(block.vtx@, ShieldedPool::Ironwood)
            },
            r.nullifiers == if nullifiers_only {
                inputs_of(block.vtx@, ShieldedPool::Sapling) + inputs_of(block.vtx@, ShieldedPool::Orchard)
                    + inputs_of(block.vtx@, ShieldedPool::Ironwood)
            } else {
                0
            },
    {
        assert(outputs_of(block.vtx@, ShieldedPool::Sapling) <= u32::MAX);
        assert(outputs_of(block.vtx@, ShieldedPool::Orchard) <= u32::MAX);
        assert(outputs_of(block.vtx@, ShieldedPool::Ironwood) <= u32::MAX);
        assert(inputs_of(block.vtx@, ShieldedPool::Sapling) <= u32::MAX);
        assert(inputs_of(block.vtx@, ShieldedPool::Orchard) <= u32::MAX);
        assert(inputs_of(block.vtx@, ShieldedPool::Ironwood) <= u32::MAX);
        if nullifiers_only {
            LoadCounts {
                outputs: 0,
                nullifiers: block.shielded_input_count(ShieldedPool::Sapling) as u64 + block.shielded_input_count(
                    ShieldedPool::Orchard,
                ) as u64 + block.shielded_input_count(ShieldedPool::Ironwood) as u64,
            }
        } else {
            LoadCounts {
                outputs: block.shielded_output_count(ShieldedPool::Sapling) as u64 + block.shielded_output_count(
                    ShieldedPool::Orchard,
                ) as u64 + block.shielded_output_count(ShieldedPool::Ironwood) as u64,
                nullifiers: 0,
            }
        }
    }

    /// Adds a block to the load. Returns whether the task is split before the block, because the load would hold more
    /// than it may. A load holds at least one block.
    pub fn add_block(&mut self, block: LoadCounts, is_first: bool, max_outputs: u64) -> (r: bool)
        requires
            old(self).outputs + block.outputs <= u64::MAX,
            old(self).nullifiers + block.nullifiers <= u64::MAX,
        ensures
            r == (over_budget(counts_sum(*old(self), block), max_outputs) && !is_first),
            *final(self) == if r {
                block
            } else {
                counts_sum(*old(self), block)
            },
    {
        let outputs: u64 = self.outputs + block.outputs;
        let nullifiers: u64 = self.nullifiers + block.nullifiers;
        if (outputs > max_outputs || nullifiers > MAX_LOAD_NULLIFIERS) && !is_first {
            *self = block;
            true
        } else {
            *self = LoadCounts { outputs, nullifiers };
            false
        }
    }
}

// --- loading ---

/// A task whose blocks are being loaded.
#[derive(Debug)]
pub struct LoadState {
    pub task: ScanTask,
    pub counts: LoadCounts,
    /// The height from which blocks are fetched, again if the stream of them breaks off.
    pub retry_height: BlockHeight,
    /// Whether no block has come yet.
    pub awaiting_first_block: bool,
    /// Whether the stream was opened again and no block has come since.
    pub retried: bool,
}

/// Which ends of a task a block is.
#[derive(Clone, Copy, Debug, PartialEq, Eq, Structural)]
pub struct BlockEnds {
    pub first: bool,
    pub last: bool,
}

/// The blocks at the ends of the tasks that were loaded before.
#[derive(Debug)]
pub struct LoaderSeams {
    pub first: Option<WalletBlock>,
    pub last: Option<WalletBlock>,
}

impl LoaderSeams {
    /// Nothing was loaded yet.
    pub fn new() -> (r: Self)
        ensures
            r.first.is_none(),
            r.last.is_none(),
    {
        LoaderSeams { first: None, last: None }
    }

    /// Remembers a block as the ends that it is.
    pub fn remember(&mut self, ends: BlockEnds, block: &WalletBlock)
        ensures
            seam_view(final(self).first) == if ends.first {
                Some(block@)
            } else {
                seam_view(old(self).first)
            },
            seam_view(final(self).last) == if ends.last {
                Some(block@)
            } else {
                seam_view(old(self).last)
            },
    {
        if ends.first {
            self.first = Some(copy_block(block));
        }
        if ends.last {
            self.last = Some(copy_block(block));
        }
    }
}

/// Whether the part occurs in the text.
pub open spec fn text_has(text: Seq<char>, part: Seq<char>) -> bool {
    exists|i: int|
        0 <= i && i + part.len() <= text.len() && #[trigger] text.subrange(i, i + part.len()) == part
}

/// Calls [`str::contains`], which says whether a part of the text is the given one.
#[verifier::external_body]
fn text_contains(text: &str, part: &str) -> (r: bool)
    ensures
        r == text_has(text@, part@),
{
    text.contains(part)
}

/// Whether the stream of blocks is opened again after it broke off with a status: a message did not come in time, or the
/// stream ended within one. A stream that breaks off again before a block came is not.
pub open spec fn is_retried(deadline_exceeded: bool, message: Seq<char>, retried: bool) -> bool {
    !retried && (deadline_exceeded || text_has(message, "Unexpected EOF decoding stream."@))
}

impl LoadState {
    pub open spec fn wf(&self) -> bool {
        self.task.wf()
    }

    /// Whether only nullifiers are fetched.
    pub open spec fn nullifiers_only(&self) -> bool {
        self.task.scan_range.priority == ScanPriority::ScannedWithoutMapping
    }

    /// Begins to load the blocks of a task.
    pub fn begin(task: ScanTask) -> (r: Self)
        requires
            task.wf(),
        ensures
            r.wf(),
            r.task == task,
            r.counts == (LoadCounts { outputs: 0, nullifiers: 0 }),
            r.retry_height == task.scan_range.block_range.start,
            r.awaiting_first_block,
            !r.retried,
    {
        let retry_height: u32 = task.scan_range.block_range.start;
        LoadState { task, counts: LoadCounts::new(), retry_height, awaiting_first_block: true, retried: false }
    }

    /// Whether only nullifiers are fetched.
    pub fn fetches_nullifiers_only(&self) -> (r: bool)
        ensures
            r == self.nullifiers_only(),
    {
        self.task.scan_range.priority == ScanPriority::ScannedWithoutMapping
    }

    /// The blocks that are still to be fetched.
    pub fn blocks_to_fetch(&self) -> (r: BlockRange)
        ensures
            r == (BlockRange { start: self.retry_height, end: self.task.scan_range.block_range.end }),
    {
        BlockRange { start: self.retry_height, end: self.task.scan_range.block_range.end }
    }

    /// Takes the ends of the task loaded before as seams, unless only nullifiers are fetched.
    pub fn adopt_seams(&mut self, seams: &LoaderSeams)
        ensures
            old(self).nullifiers_only() ==> *final(self) == *old(self),
            !old(self).nullifiers_only() ==> seams_adopted(&old(self).task, &final(self).task, &seams.first, &seams.last)
                && *final(self) == (LoadState { task: final(self).task, ..*old(self) }),
    {
        if !self.fetches_nullifiers_only() {
            self.task.adopt_seams(&seams.first, &seams.last);
        }
    }

    /// Which ends of the task a block is, so that it is remembered as a seam.
    pub fn ends_at(&self, height: BlockHeight) -> (r: BlockEnds)
        ensures
            r.first == (!self.nullifiers_only() && self.awaiting_first_block),
            r.last == (!self.nullifiers_only() && height + 1 == self.task.scan_range.block_range.end),
    {
        if self.fetches_nullifiers_only() {
            BlockEnds { first: false, last: false }
        } else {
            BlockEnds {
                first: self.awaiting_first_block,
                last: height < u32::MAX && height + 1 == self.task.scan_range.block_range.end,
            }
        }
    }

    /// What is done when the stream of blocks breaks off: the blocks that it is opened again for, or none if the load
    /// fails.
    pub fn on_broken_stream(&mut self, deadline_exceeded: bool, message: &str) -> (r: Option<BlockRange>)
        ensures
            *final(self) == (LoadState {
                retried: old(self).retried || is_retried(deadline_exceeded, message@, old(self).retried),
                ..*old(self)
            }),
            r == if is_retried(deadline_exceeded, message@, old(self).retried) {
                Some(
                    BlockRange {
                        start: old(self).retry_height,
                        end: old(self).task.scan_range.block_range.end,
                    },
                )
            } else {
                None
            },
    {
        if !self.retried && (deadline_exceeded || text_contains(message, "Unexpected EOF decoding stream.")) {
            self.retried = true;
            Some(self.blocks_to_fetch())
        } else {
            None
        }
    }

    /// Counts a block that was fetched. Returns whether the task is to be split before it.
    pub fn count_block(&mut self, block: &CompactBlock, height: BlockHeight, max_outputs: u64) -> (r: bool)
        requires
            old(self).wf(),
            forall|pool: ShieldedPool| #[trigger] outputs_of(block.vtx@, pool) <= u32::MAX,
            forall|pool: ShieldedPool| #[trigger] inputs_of(block.vtx@, pool) <= u32::MAX,
            old(self).counts.outputs + 3 * u32::MAX <= u64::MAX,
            old(self).counts.nullifiers + 3 * u32::MAX <= u64::MAX,
        ensures
            final(self).wf(),
            final(self).task == old(self).task,
            *final(self) == (LoadState { counts: final(self).counts, ..*old(self) }),
            ({
                let own = block_counts(block, old(self).nullifiers_only());
                &&& r == (over_budget(counts_sum(old(self).counts, own), max_outputs)
                    && old(self).task.scan_range.block_range.start != height)
                &&& final(self).counts == if r {
                    own
                } else {
                    counts_sum(old(self).counts, own)
                }
            }),
    {
        let own = LoadCounts::of_block(block, self.fetches_nullifiers_only());
        let is_first = self.task.scan_range.block_range.start == height;
        self.counts.add_block(own, is_first, max_outputs)
    }

    /// Splits the task at the height, and goes on with the upper part. Returns the lower part, whose blocks are loaded.
    pub fn split_off_load(
        self,
        height: BlockHeight,
        lower_last_block: Option<WalletBlock>,
        upper_first_block: Option<WalletBlock>,
    ) -> (r: (ScanTask, LoadState))
        requires
            self.wf(),
            self.task.scan_range.block_range.start < height < self.task.scan_range.block_range.end,
        ensures
            r.0.wf(),
            r.1.wf(),
            is_split(&self.task, &r.0, &r.1.task, height, lower_last_block, upper_first_block),
            r.0.compact_blocks@ + r.1.task.compact_blocks@ == self.task.compact_blocks@,
            r.1 == (LoadState { task: r.1.task, ..self }),
    {
        let ghost all = self.task.compact_blocks@;
        let LoadState { task, counts, retry_height, awaiting_first_block, retried } = self;
        proof {
            lemma_split_place_bound(all, height, 0);
        }
        let (lower, upper) = task.split(height, lower_last_block, upper_first_block);
        assert(lower.compact_blocks@ + upper.compact_blocks@ =~= all);
        (lower, LoadState { task: upper, counts, retry_height, awaiting_first_block, retried })
    }

    /// Adds a block that was fetched to the task.
    pub fn push_block(&mut self, block: CompactBlock, height: BlockHeight)
        requires
            old(self).wf(),
        ensures
            final(self).wf(),
            final(self).task.compact_blocks@ == old(self).task.compact_blocks@.push(block),
            final(self).task == (ScanTask { compact_blocks: final(self).task.compact_blocks, ..old(self).task }),
            final(self).counts == old(self).counts,
            final(self).retry_height == above(height),
            !final(self).awaiting_first_block,
            !final(self).retried,
    {
        self.task.compact_blocks.push(block);
        self.retry_height = height.saturating_add(1);
        self.awaiting_first_block = false;
        self.retried = false;
    }

    /// Whether the task is split before a block, so that the blocks on both sides of the split are needed as seams.
    pub fn splits_before(&self, block: &CompactBlock, height: BlockHeight, max_outputs: u64) -> (r: bool)
        requires
            self.wf(),
            forall|pool: ShieldedPool| #[trigger] outputs_of(block.vtx@, pool) <= u32::MAX,
            forall|pool: ShieldedPool| #[trigger] inputs_of(block.vtx@, pool) <= u32::MAX,
            self.counts.outputs + 3 * u32::MAX <= u64::MAX,
            self.counts.nullifiers + 3 * u32::MAX <= u64::MAX,
        ensures
            r == (over_budget(counts_sum(self.counts, block_counts(block, self.nullifiers_only())), max_outputs)
                && self.task.scan_range.block_range.start != height),
    {
        let mut counts = self.counts;
        let own = LoadCounts::of_block(block, self.fetches_nullifiers_only());
        counts.add_block(own, self.task.scan_range.block_range.start == height, max_outputs)
    }

    /// Takes in a block that was fetched. Where the load would hold more than it may, the task is split before the block,
    /// and the full load is returned.
    pub fn take_block(
        self,
        block: CompactBlock,
        height: BlockHeight,
        max_outputs: u64,
        lower_last_block: Option<WalletBlock>,
        upper_first_block: Option<WalletBlock>,
    ) -> (r: (Option<ScanTask>, LoadState))
        requires
            self.wf(),
            block.height == height,
            self.task.scan_range.block_range.has(height as int),
            forall|pool: ShieldedPool| #[trigger] outputs_of(block.vtx@, pool) <= u32::MAX,
            forall|pool: ShieldedPool| #[trigger] inputs_of(block.vtx@, pool) <= u32::MAX,
            self.counts.outputs + 3 * u32::MAX <= u64::MAX,
            self.counts.nullifiers + 3 * u32::MAX <= u64::MAX,
            forall|k: int|
                0 <= k < self.task.compact_blocks@.len() ==> (#[trigger] self.task.compact_blocks@[k]).height != height,
        ensures
            r.1.wf(),
            r.1.retry_height == above(height),
            !r.1.awaiting_first_block,
            !r.1.retried,
            r.1.nullifiers_only() == self.nullifiers_only(),
            r.1.load() == next_load(self.load(), block, self.nullifiers_only(), max_outputs).1,
            match next_load(self.load(), block, self.nullifiers_only(), max_outputs).0 {
                None => r.0.is_none() && r.1.task == (ScanTask {
                    compact_blocks: r.1.task.compact_blocks,
                    ..self.task
                }),
                Some(blocks) => r.0 matches Some(full) && full.wf() && full.compact_blocks@ == blocks && exists|
                    upper: ScanTask,
                | #[trigger]
                    is_split(&self.task, &full, &upper, height, lower_last_block, upper_first_block) && r.1.task == (
                    ScanTask { compact_blocks: r.1.task.compact_blocks, ..upper }),
            },
    {
        let ghost all = self.task.compact_blocks@;
        let mut load = self;
        if load.count_block(&block, height, max_outputs) {
            let (full, mut rest) = load.split_off_load(height, lower_last_block, upper_first_block);
            proof {
                lemma_split_beyond(all, height, 0);
                assert(all.take(all.len() as int) =~= all);
            }
            let ghost upper = rest.task;
            assert(is_split(&self.task, &full, &upper, height, lower_last_block, upper_first_block));
            rest.push_block(block, height);
            assert(rest.task.compact_blocks@ =~= seq![block]);
            (Some(full), rest)
        } else {
            load.push_block(block, height);
            (None, load)
        }
    }
}

proof fn lemma_split_place_bound(blocks: Seq<CompactBlock>, height: BlockHeight, i: int)
    requires
        0 <= i <= blocks.len(),
    ensures
        i <= split_place(blocks, height, i) <= blocks.len(),
    decreases blocks.len() - i,
{
    if i < blocks.len() && blocks[i].height != height {
        lemma_split_place_bound(blocks, height, i + 1);
    }
}

proof fn lemma_split_beyond(blocks: Seq<CompactBlock>, height: BlockHeight, i: int)
    requires
        0 <= i <= blocks.len(),
        forall|k: int| 0 <= k < blocks.len() ==> (#[trigger] blocks[k]).height != height,
    ensures
        split_place(blocks, height, i) == blocks.len(),
    decreases blocks.len() - i,
{
    if i < blocks.len() {
        lemma_split_beyond(blocks, height, i + 1);
    }
}

/// The number of outputs that a block adds to a load.
pub open spec fn outputs_counted(block: &CompactBlock, nullifiers_only: bool) -> nat {
    if nullifiers_only {
        0
    } else {
        outputs_of(block.vtx@, ShieldedPool::Sapling) + outputs_of(block.vtx@, ShieldedPool::Orchard) + outputs_of(
            block.vtx@,
            ShieldedPool::Ironwood,
        )
    }
}

/// The number of nullifiers that a block adds to a load.
pub open spec fn nullifiers_counted(block: &CompactBlock, nullifiers_only: bool) -> nat {
    if nullifiers_only {
        inputs_of(block.vtx@, ShieldedPool::Sapling) + inputs_of(block.vtx@, ShieldedPool::Orchard) + inputs_of(
            block.vtx@,
            ShieldedPool::Ironwood,
        )
    } else {
        0
    }
}

/// What a block adds to a load.
pub open spec fn block_counts(block: &CompactBlock, nullifiers_only: bool) -> LoadCounts {
    LoadCounts {
        outputs: outputs_counted(block, nullifiers_only) as u64,
        nullifiers: nullifiers_counted(block, nullifiers_only) as u64,
    }
}

// --- a stream of blocks ---

/// A load: where its task begins, its blocks, and what they count.
pub struct Load {
    pub start: BlockHeight,
    pub blocks: Seq<CompactBlock>,
    pub counts: LoadCounts,
}

impl LoadState {
    /// The load so far.
    pub open spec fn load(&self) -> Load {
        Load {
            start: self.task.scan_range.block_range.start,
            blocks: self.task.compact_blocks@,
            counts: self.counts,
        }
    }
}

/// The load with one more block, or the full load and a new one that begins with the block.
pub open spec fn next_load(load: Load, block: CompactBlock, nullifiers_only: bool, max_outputs: u64) -> (
    Option<Seq<CompactBlock>>,
    Load,
) {
    let own = block_counts(&block, nullifiers_only);
    if over_budget(counts_sum(load.counts, own), max_outputs) && load.start != block.height {
        (Some(load.blocks), Load { start: block.height as u32, blocks: seq![block], counts: own })
    } else {
        (None, Load { blocks: load.blocks.push(block), counts: counts_sum(load.counts, own), ..load })
    }
}

/// The full loads that a stream of blocks makes, and the one that is left.
pub open spec fn loads_of(start: BlockHeight, stream: Seq<CompactBlock>, nullifiers_only: bool, max_outputs: u64) -> (
    Seq<Seq<CompactBlock>>,
    Load,
)
    decreases stream.len(),
{
    if stream.len() == 0 {
        (
            Seq::empty(),
            Load { start, blocks: Seq::empty(), counts: LoadCounts { outputs: 0, nullifiers: 0 } },
        )
    } else {
        let (full, last) = loads_of(start, stream.drop_last(), nullifiers_only, max_outputs);
        match next_load(last, stream.last(), nullifiers_only, max_outputs) {
            (None, load) => (full, load),
            (Some(blocks), load) => (full.push(blocks), load),
        }
    }
}

/// The blocks of the loads, one load after the other.
pub open spec fn joined(loads: Seq<Seq<CompactBlock>>) -> Seq<CompactBlock>
    decreases loads.len(),
{
    if loads.len() == 0 {
        Seq::empty()
    } else {
        joined(loads.drop_last()) + loads.last()
    }
}

/// The number of outputs that blocks add to a load.
pub open spec fn total_outputs(blocks: Seq<CompactBlock>, nullifiers_only: bool) -> nat
    decreases blocks.len(),
{
    if blocks.len() == 0 {
        0
    } else {
        total_outputs(blocks.drop_last(), nullifiers_only) + outputs_counted(&blocks.last(), nullifiers_only)
    }
}

/// The number of nullifiers that blocks add to a load.
pub open spec fn total_nullifiers(blocks: Seq<CompactBlock>, nullifiers_only: bool) -> nat
    decreases blocks.len(),
{
    if blocks.len() == 0 {
        0
    } else {
        total_nullifiers(blocks.drop_last(), nullifiers_only) + nullifiers_counted(&blocks.last(), nullifiers_only)
    }
}

/// Whether a load is a single block or holds no more than it may.
pub open spec fn is_within_budget(blocks: Seq<CompactBlock>, nullifiers_only: bool, max_outputs: u64) -> bool {
    blocks.len() == 1 || (total_outputs(blocks, nullifiers_only) <= max_outputs && total_nullifiers(
        blocks,
        nullifiers_only,
    ) <= MAX_LOAD_NULLIFIERS)
}

/// Whether the blocks come from `start` on, each higher than the one before it, and can be counted.
pub open spec fn is_ascending_stream(start: BlockHeight, stream: Seq<CompactBlock>) -> bool {
    &&& forall|i: int, j: int| 0 <= i < j < stream.len() ==> (#[trigger] stream[i]).height < (#[trigger] stream[j]).height
    &&& forall|i: int| 0 <= i < stream.len() ==> start <= (#[trigger] stream[i]).height <= u32::MAX
    &&& forall|i: int, pool: ShieldedPool| 0 <= i < stream.len() ==> #[trigger] outputs_of(stream[i].vtx@, pool) <= u32::MAX
    &&& forall|i: int, pool: ShieldedPool| 0 <= i < stream.len() ==> #[trigger] inputs_of(stream[i].vtx@, pool) <= u32::MAX
}

/// The loads of a stream hold all of its blocks in their order, and each of them is a single block or holds no more than
/// it may.
pub proof fn law_loads_partition_the_stream(
    start: BlockHeight,
    stream: Seq<CompactBlock>,
    nullifiers_only: bool,
    max_outputs: u64,
)
    requires
        is_ascending_stream(start, stream),
        max_outputs + 3 * u32::MAX <= u64::MAX,
    ensures
        ({
            let (full, last) = loads_of(start, stream, nullifiers_only, max_outputs);
            &&& joined(full) + last.blocks == stream
            &&& forall|i: int|
                0 <= i < full.len() ==> is_within_budget(#[trigger] full[i], nullifiers_only, max_outputs)
            &&& is_within_budget(last.blocks, nullifiers_only, max_outputs)
        }),
{
    lemma_loads(start, stream, nullifiers_only, max_outputs);
}

proof fn lemma_loads(start: BlockHeight, stream: Seq<CompactBlock>, nullifiers_only: bool, max_outputs: u64)
    requires
        is_ascending_stream(start, stream),
        max_outputs + 3 * u32::MAX <= u64::MAX,
    ensures
        ({
            let (full, last) = loads_of(start, stream, nullifiers_only, max_outputs);
            &&& joined(full) + last.blocks == stream
            &&& forall|i: int|
                0 <= i < full.len() ==> is_within_budget(#[trigger] full[i], nullifiers_only, max_outputs)
            &&& is_within_budget(last.blocks, nullifiers_only, max_outputs)
            &&& last.counts.outputs == total_outputs(last.blocks, nullifiers_only)
            &&& last.counts.nullifiers == total_nullifiers(last.blocks, nullifiers_only)
            &&& last.blocks.len() > 0 ==> stream.len() > 0 && last.start <= stream.last().height
            &&& last.blocks.len() == 0 ==> stream.len() == 0
            &&& last.counts.outputs <= max_outputs || last.counts.outputs <= 3 * u32::MAX
            &&& last.counts.nullifiers <= MAX_LOAD_NULLIFIERS || last.counts.nullifiers <= 3 * u32::MAX
        }),
    decreases stream.len(),
{
    let (full, last) = loads_of(start, stream, nullifiers_only, max_outputs);
    if stream.len() == 0 {
        assert(joined(full) + last.blocks =~= stream);
    } else {
        let before = stream.drop_last();
        let block = stream.last();
        let n = stream.len() - 1;
        assert(stream[n] == block);
        assert forall|i: int, j: int| 0 <= i < j < before.len() implies (#[trigger] before[i]).height < (
        #[trigger] before[j]).height by {
            assert(stream[i].height < stream[j].height);
        }
        assert forall|i: int, pool: ShieldedPool| 0 <= i < before.len() implies #[trigger] outputs_of(
            before[i].vtx@,
            pool,
        ) <= u32::MAX by {
            assert(outputs_of(stream[i].vtx@, pool) <= u32::MAX);
        }
        assert forall|i: int, pool: ShieldedPool| 0 <= i < before.len() implies #[trigger] inputs_of(
            before[i].vtx@,
            pool,
        ) <= u32::MAX by {
            assert(inputs_of(stream[i].vtx@, pool) <= u32::MAX);
        }
        lemma_loads(start, before, nullifiers_only, max_outputs);
        let (full0, last0) = loads_of(start, before, nullifiers_only, max_outputs);
        assert(outputs_of(stream[n].vtx@, ShieldedPool::Sapling) <= u32::MAX);
        assert(outputs_of(stream[n].vtx@, ShieldedPool::Orchard) <= u32::MAX);
        assert(outputs_of(stream[n].vtx@, ShieldedPool::Ironwood) <= u32::MAX);
        assert(inputs_of(stream[n].vtx@, ShieldedPool::Sapling) <= u32::MAX);
        assert(inputs_of(stream[n].vtx@, ShieldedPool::Orchard) <= u32::MAX);
        assert(inputs_of(stream[n].vtx@, ShieldedPool::Ironwood) <= u32::MAX);
        if before.len() > 0 {
            assert(stream[n - 1].height < stream[n].height);
            assert(before.last() == stream[n - 1]);
        }
        let (closed, load) = next_load(last0, block, nullifiers_only, max_outputs);
        assert(stream =~= before.push(block));
        match closed {
            None => {
                assert(load.blocks.drop_last() =~= last0.blocks);
                assert(joined(full) + load.blocks =~= (joined(full0) + last0.blocks).push(block));
            },
            Some(blocks) => {
                let one = seq![block];
                assert(one.drop_last() =~= Seq::empty());
                assert(full.drop_last() =~= full0);
                assert(full.last() == last0.blocks);
                assert(joined(full) + load.blocks =~= (joined(full0) + last0.blocks).push(block));
                assert(total_outputs(one.drop_last(), nullifiers_only) == 0);
                assert(total_nullifiers(one.drop_last(), nullifiers_only) == 0);
                assert forall|i: int| 0 <= i < full.len() implies is_within_budget(
                    #[trigger] full[i],
                    nullifiers_only,
                    max_outputs,
                ) by {
                    if i < full0.len() {
                        assert(full[i] == full0[i]);
                    }
                }
            },
        }
    }
}

} // verus!
