//! What holds of scan tasks, loads and blocks, said of the blocks and transactions themselves.
use crate::chain::ChainParameters;
use crate::config::PerformanceLevel;
use crate::primitives::{BlockHeight, ShieldedPool};
use crate::scan::compact::{inputs_of, outputs_of, CompactBlock, CompactTx};
use crate::scan::compact_blocks::{bounds_from_final, with_checkpoint};
use crate::scan::task::{
    is_retried, is_split, is_task_for, must_wait, next_load, output_budget, scanner_step, seams_adopted, split_place,
    text_has, Load, ScanTask, ScannerAction, ScannerState,
};
use crate::scan_range::{contiguous, ScanRange};
use crate::sync::progress::TreeSizes;
use crate::sync::select::{ranges_after_selection, selected_range};
use crate::sync::shards::{block_range_around, has_block_range, lemma_range_around_has_height};
use crate::trees::{Leaf, LeafRetention};
use crate::wallet::data::Wallet;
use crate::wallet::stores::WalletBlock;
use crate::wallet::sync_state::{ScanTarget, SyncState};
use vstd::prelude::*;

verus! {

// --- counting ---

/// The outputs of a pool in a transaction.
pub open spec fn outputs_in_tx(tx: CompactTx, pool: ShieldedPool) -> int {
    match pool {
        ShieldedPool::Sapling => tx.outputs@.len() as int,
        ShieldedPool::Orchard => tx.actions@.len() as int,
        ShieldedPool::Ironwood => tx.ironwood_actions@.len() as int,
    }
}

/// The inputs of a pool in a transaction.
pub open spec fn inputs_in_tx(tx: CompactTx, pool: ShieldedPool) -> int {
    match pool {
        ShieldedPool::Sapling => tx.spends@.len() as int,
        ShieldedPool::Orchard => tx.actions@.len() as int,
        ShieldedPool::Ironwood => tx.ironwood_actions@.len() as int,
    }
}

/// Every transaction adds its outputs and its inputs of a pool to those of the block, and nothing else does.
pub proof fn law_each_transaction_counts(txs: Seq<CompactTx>, pool: ShieldedPool, k: int)
    requires
        0 <= k < txs.len(),
    ensures
        outputs_of(txs, pool) == outputs_of(txs.remove(k), pool) + outputs_in_tx(txs[k], pool),
        inputs_of(txs, pool) == inputs_of(txs.remove(k), pool) + inputs_in_tx(txs[k], pool),
        outputs_of(Seq::empty(), pool) == 0,
        inputs_of(Seq::empty(), pool) == 0,
    decreases txs.len(),
{
    let without = txs.remove(k);
    if k == txs.len() - 1 {
        assert(without =~= txs.drop_last());
    } else {
        law_each_transaction_counts(txs.drop_last(), pool, k);
        assert(txs.drop_last().remove(k) =~= without.drop_last());
        assert(without.last() == txs.last());
    }
}

/// The trees grow by the outputs of a block, in every pool, from before the block to after it.
pub proof fn law_trees_grow_by_the_outputs(sizes: TreeSizes, txs: Seq<CompactTx>)
    ensures
        ({
            let bounds = bounds_from_final(sizes, txs);
            &&& bounds.sapling_final_tree_size == sizes.sapling
            &&& bounds.orchard_final_tree_size == sizes.orchard
            &&& bounds.ironwood_final_tree_size == sizes.ironwood
            &&& sizes.sapling >= outputs_of(txs, ShieldedPool::Sapling) ==> bounds.sapling_initial_tree_size
                + outputs_of(txs, ShieldedPool::Sapling) == bounds.sapling_final_tree_size
            &&& sizes.orchard >= outputs_of(txs, ShieldedPool::Orchard) ==> bounds.orchard_initial_tree_size
                + outputs_of(txs, ShieldedPool::Orchard) == bounds.orchard_final_tree_size
            &&& sizes.ironwood >= outputs_of(txs, ShieldedPool::Ironwood) ==> bounds.ironwood_initial_tree_size
                + outputs_of(txs, ShieldedPool::Ironwood) == bounds.ironwood_final_tree_size
        }),
{
}

/// The last leaf of a block becomes a checkpoint at its height and stays marked if it was. No other leaf changes, no leaf
/// is another node, and a checkpoint stays the one that it is.
pub proof fn law_the_last_leaf_becomes_a_checkpoint(leaves: Seq<Leaf>, height: BlockHeight, i: int)
    requires
        0 <= i < leaves.len(),
    ensures
        ({
            let after = with_checkpoint(leaves, height);
            &&& after.len() == leaves.len()
            &&& after[i].node == leaves[i].node
            &&& i < leaves.len() - 1 ==> after[i] == leaves[i]
            &&& i == leaves.len() - 1 && leaves[i].retention is Marked ==> after[i].retention
                == LeafRetention::MarkedCheckpoint(height)
            &&& i == leaves.len() - 1 && leaves[i].retention is Ephemeral ==> after[i].retention
                == LeafRetention::Checkpoint(height)
            &&& leaves[i].retention is Checkpoint || leaves[i].retention is MarkedCheckpoint ==> after[i] == leaves[i]
        }),
{
}

// --- the scanner ---

/// Whether a range is to be verified.
pub open spec fn is_to_be_verified(ranges: Seq<ScanRange>, i: int) -> bool {
    0 <= i < ranges.len() && ranges[i].priority is Verify
}

/// Whether a range is being scanned.
pub open spec fn is_in_work(ranges: Seq<ScanRange>, i: int) -> bool {
    0 <= i < ranges.len() && ranges[i].priority is Scanning
}

/// What is to be verified is loaded first, and nothing else is scanned before all of it has been.
pub proof fn law_verification_comes_first(ranges: Seq<ScanRange>)
    ensures
        ({
            let (state, action) = scanner_step(ScannerState::Verification, ranges);
            &&& (exists|i: int| #[trigger] is_to_be_verified(ranges, i)) ==> state is Verification && action is Load
            &&& !(exists|i: int| #[trigger] is_to_be_verified(ranges, i)) && (exists|i: int| #[trigger]
                is_in_work(ranges, i)) ==> state is Verification && action is Wait
            &&& !(exists|i: int| #[trigger] is_to_be_verified(ranges, i)) && !(exists|i: int| #[trigger]
                is_in_work(ranges, i)) ==> state is Scan && action is Wait
        }),
        scanner_step(ScannerState::Scan, ranges) == (ScannerState::Scan, ScannerAction::Load),
        scanner_step(ScannerState::Shutdown, ranges) == (ScannerState::Shutdown, ScannerAction::Shutdown),
{
    if exists|i: int| #[trigger] is_to_be_verified(ranges, i) {
        let i = choose|i: int| #[trigger] is_to_be_verified(ranges, i);
        assert(ranges[i].priority is Verify);
    }
    if exists|i: int| #[trigger] is_in_work(ranges, i) {
        let i = choose|i: int| #[trigger] is_in_work(ranges, i);
        assert(ranges[i].priority is Scanning);
    }
    if exists|i: int|
        0 <= i < ranges.len() && (#[trigger] ranges[i]).priority == crate::scan_range::ScanPriority::Verify {
        let i = choose|i: int|
            0 <= i < ranges.len() && (#[trigger] ranges[i]).priority == crate::scan_range::ScanPriority::Verify;
        assert(is_to_be_verified(ranges, i));
    }
    if exists|i: int|
        0 <= i < ranges.len() && (#[trigger] ranges[i]).priority == crate::scan_range::ScanPriority::Scanning {
        let i = choose|i: int|
            0 <= i < ranges.len() && (#[trigger] ranges[i]).priority == crate::scan_range::ScanPriority::Scanning;
        assert(is_in_work(ranges, i));
    }
}

/// A range that is verified waits while the range that ends right below it is being scanned. Nothing else waits.
pub proof fn law_verification_waits_for_the_range_below(ranges: Seq<ScanRange>, selected: ScanRange)
    requires
        contiguous(ranges),
        selected.block_range.start > 0,
    ensures
        must_wait(ranges, selected) ==> selected.priority is Verify,
        selected.priority is Verify ==> must_wait(ranges, selected) == exists|i: int| #[trigger]
            is_in_work(ranges, i) && ranges[i].block_range.start < selected.block_range.start
                && selected.block_range.start <= ranges[i].block_range.end,
{
    if selected.priority is Verify {
        if must_wait(ranges, selected) {
            let i = choose|i: int|
                0 <= i < ranges.len() && (#[trigger] ranges[i]).priority == crate::scan_range::ScanPriority::Scanning
                    && ranges[i].block_range.has(
                    crate::wallet::sync_state::below(selected.block_range.start) as int,
                );
            assert(is_in_work(ranges, i));
        }
        if exists|i: int| #[trigger]
            is_in_work(ranges, i) && ranges[i].block_range.start < selected.block_range.start
                && selected.block_range.start <= ranges[i].block_range.end {
            let i = choose|i: int| #[trigger]
                is_in_work(ranges, i) && ranges[i].block_range.start < selected.block_range.start
                    && selected.block_range.start <= ranges[i].block_range.end;
            assert(ranges[i].block_range.has(
                crate::wallet::sync_state::below(selected.block_range.start) as int,
            ));
        }
    }
}

/// Of a historic range exactly the blocks up to the end of the shard around its first block are taken, of any other range
/// all of them.
pub proof fn law_history_is_taken_by_the_shard(parameters: &ChainParameters, state: &SyncState, i: int)
    requires
        contiguous(state.scan_ranges@),
        0 <= i < state.scan_ranges@.len(),
        state.scan_ranges@[i].priority is Historic ==> has_block_range(
            parameters,
            state,
            state.scan_ranges@[i].block_range.start,
            Some(ShieldedPool::Ironwood),
        ),
    ensures
        ({
            let range = state.scan_ranges@[i];
            let taken = selected_range(parameters, state, i);
            let shard = block_range_around(parameters, state, range.block_range.start, Some(ShieldedPool::Ironwood));
            &&& taken.priority == range.priority
            &&& taken.block_range.start == range.block_range.start
            &&& !(range.priority is Historic) ==> taken.block_range.end == range.block_range.end
            &&& range.priority is Historic ==> taken.block_range.end == if shard.end < range.block_range.end {
                shard.end
            } else {
                range.block_range.end
            }
        }),
{
    let range = state.scan_ranges@[i];
    assert(range.covers_blocks());
    let after = ranges_after_selection(parameters, state, i);
    if range.priority is Historic {
        let shard = block_range_around(parameters, state, range.block_range.start, Some(ShieldedPool::Ironwood));
        lemma_range_around_has_height(parameters, state, range.block_range.start, Some(ShieldedPool::Ironwood));
        let parts = crate::sync::state::split_out(range, shard, crate::scan_range::ScanPriority::Scanning);
        assert(after[i] == parts[0]);
    }
}

// --- tasks ---

/// The seams of a task are the wallet's blocks right below and right above its range, its targets are those in the range,
/// and its addresses are the wallet's. A task that only fetches nullifiers has none of them.
pub proof fn law_tasks_know_their_surroundings(
    task: &ScanTask,
    wallet: &Wallet,
    selected: ScanRange,
    target: ScanTarget,
)
    requires
        is_task_for(task, wallet, selected),
        selected.block_range.start > 0,
    ensures
        task.scan_range == selected,
        task.compact_blocks@.len() == 0,
        selected.priority is ScannedWithoutMapping ==> task.start_seam_block.is_none() && task.end_seam_block.is_none()
            && !task.scan_targets@.dom().contains(target),
        !(selected.priority is ScannedWithoutMapping) ==> {
            let lower = (selected.block_range.start - 1) as u32;
            let upper = selected.block_range.end;
            &&& task.start_seam_block.is_some() == wallet.wallet_blocks@.dom().contains(lower)
            &&& task.start_seam_block matches Some(block) ==> same_block(block, wallet.wallet_blocks@[lower])
            &&& task.end_seam_block.is_some() == wallet.wallet_blocks@.dom().contains(upper)
            &&& task.end_seam_block matches Some(block) ==> same_block(block, wallet.wallet_blocks@[upper])
            &&& task.scan_targets@.dom().contains(target) == (wallet.sync_state.scan_targets@.dom().contains(target)
                && selected.block_range.start <= target.block_height < selected.block_range.end)
        },
{
    if let Some(block) = task.start_seam_block {
        assert(crate::scan::task::seam_view(task.start_seam_block) == Some(block@));
    }
    if let Some(block) = task.end_seam_block {
        assert(crate::scan::task::seam_view(task.end_seam_block) == Some(block@));
    }
}

/// Whether the two are the same block.
pub open spec fn same_block(a: WalletBlock, b: WalletBlock) -> bool {
    &&& a.block_height == b.block_height
    &&& a.block_hash == b.block_hash
    &&& a.prev_hash == b.prev_hash
    &&& a.time == b.time
    &&& a.tree_bounds == b.tree_bounds
}

proof fn lemma_split_place(blocks: Seq<CompactBlock>, height: BlockHeight, i: int)
    requires
        0 <= i <= blocks.len(),
    ensures
        i <= split_place(blocks, height, i) <= blocks.len(),
        forall|k: int| i <= k < split_place(blocks, height, i) ==> (#[trigger] blocks[k]).height != height,
        split_place(blocks, height, i) < blocks.len() ==> blocks[split_place(blocks, height, i)].height == height,
    decreases blocks.len() - i,
{
    if i < blocks.len() && blocks[i].height != height {
        lemma_split_place(blocks, height, i + 1);
    }
}

/// A split puts the blocks and targets below the height into the lower task and all others into the upper one, whose seams
/// are the blocks on the other side. Both keep the priority, and no block, height or target is in both or in neither.
pub proof fn law_a_split_divides_at_the_height(
    whole: &ScanTask,
    low: &ScanTask,
    high: &ScanTask,
    block_height: BlockHeight,
    lower_last_block: Option<WalletBlock>,
    upper_first_block: Option<WalletBlock>,
    k: int,
    target: ScanTarget,
)
    requires
        is_split(whole, low, high, block_height, lower_last_block, upper_first_block),
        forall|i: int, j: int|
            0 <= i < j < whole.compact_blocks@.len() ==> (#[trigger] whole.compact_blocks@[i]).height < (
            #[trigger] whole.compact_blocks@[j]).height,
        (exists|i: int|
            0 <= i < whole.compact_blocks@.len() && (#[trigger] whole.compact_blocks@[i]).height == block_height) || (
        forall|i: int| 0 <= i < whole.compact_blocks@.len() ==> (#[trigger] whole.compact_blocks@[i]).height
            < block_height),
    ensures
        low.compact_blocks@ + high.compact_blocks@ == whole.compact_blocks@,
        0 <= k < low.compact_blocks@.len() ==> low.compact_blocks@[k].height < block_height,
        0 <= k < high.compact_blocks@.len() ==> high.compact_blocks@[k].height >= block_height,
        low.scan_range.block_range.start == whole.scan_range.block_range.start,
        low.scan_range.block_range.end == block_height,
        high.scan_range.block_range.start == block_height,
        high.scan_range.block_range.end == whole.scan_range.block_range.end,
        low.scan_range.priority == whole.scan_range.priority,
        high.scan_range.priority == whole.scan_range.priority,
        low.start_seam_block == whole.start_seam_block,
        low.end_seam_block == upper_first_block,
        high.start_seam_block == lower_last_block,
        high.end_seam_block == whole.end_seam_block,
        whole.scan_targets@.dom().contains(target) && target.block_height < block_height
            <==> low.scan_targets@.dom().contains(target),
        whole.scan_targets@.dom().contains(target) && target.block_height >= block_height
            <==> high.scan_targets@.dom().contains(target),
{
    let blocks = whole.compact_blocks@;
    let at = split_place(blocks, block_height, 0);
    lemma_split_place(blocks, block_height, 0);
    assert(low.compact_blocks@ + high.compact_blocks@ =~= blocks);
    if exists|i: int| 0 <= i < blocks.len() && (#[trigger] blocks[i]).height == block_height {
        let i = choose|i: int| 0 <= i < blocks.len() && (#[trigger] blocks[i]).height == block_height;
        assert(at <= i);
    }
    if 0 <= k < low.compact_blocks@.len() {
        assert(low.compact_blocks@[k] == blocks[k]);
        if at < blocks.len() {
            assert(blocks[k].height < blocks[at].height);
        }
    }
    if 0 <= k < high.compact_blocks@.len() {
        assert(high.compact_blocks@[k] == blocks[at + k]);
        if k > 0 {
            assert(blocks[at].height < blocks[at + k].height);
        }
    }
}

// --- loads ---

/// A load is closed only where one more block would take it over its budget: the outputs of all pools, or, where only
/// nullifiers are fetched, the nullifiers of all pools. Otherwise the block joins it.
pub proof fn law_loads_are_filled(load: Load, block: CompactBlock, nullifiers_only: bool, max_outputs: u64)
    requires
        load.counts.outputs + 3 * u32::MAX <= u64::MAX,
        load.counts.nullifiers + 3 * u32::MAX <= u64::MAX,
        forall|pool: ShieldedPool| #[trigger] outputs_of(block.vtx@, pool) <= u32::MAX,
        forall|pool: ShieldedPool| #[trigger] inputs_of(block.vtx@, pool) <= u32::MAX,
    ensures
        ({
            let outputs = outputs_of(block.vtx@, ShieldedPool::Sapling) + outputs_of(
                block.vtx@,
                ShieldedPool::Orchard,
            ) + outputs_of(block.vtx@, ShieldedPool::Ironwood);
            let inputs = inputs_of(block.vtx@, ShieldedPool::Sapling) + inputs_of(block.vtx@, ShieldedPool::Orchard)
                + inputs_of(block.vtx@, ShieldedPool::Ironwood);
            let own_outputs = if nullifiers_only {
                0
            } else {
                outputs as int
            };
            let own_nullifiers = if nullifiers_only {
                inputs as int
            } else {
                0
            };
            let too_much = load.counts.outputs + own_outputs > max_outputs || load.counts.nullifiers + own_nullifiers
                > 16_384;
            let (closed, next) = next_load(load, block, nullifiers_only, max_outputs);
            &&& closed.is_some() == (too_much && load.start != block.height)
            &&& closed.is_some() ==> closed->0 == load.blocks && next.blocks == seq![block] && next.counts.outputs
                == own_outputs && next.counts.nullifiers == own_nullifiers
            &&& closed.is_none() ==> next.blocks == load.blocks.push(block) && next.start == load.start
                && next.counts.outputs == load.counts.outputs + own_outputs && next.counts.nullifiers
                == load.counts.nullifiers + own_nullifiers
        }),
{
    assert(outputs_of(block.vtx@, ShieldedPool::Sapling) <= u32::MAX);
    assert(outputs_of(block.vtx@, ShieldedPool::Orchard) <= u32::MAX);
    assert(outputs_of(block.vtx@, ShieldedPool::Ironwood) <= u32::MAX);
    assert(inputs_of(block.vtx@, ShieldedPool::Sapling) <= u32::MAX);
    assert(inputs_of(block.vtx@, ShieldedPool::Orchard) <= u32::MAX);
    assert(inputs_of(block.vtx@, ShieldedPool::Ironwood) <= u32::MAX);
}

/// A higher level never loads less: the lowest loads 2,048 outputs at a time, the two in the middle four times as many, and
/// the highest four times as many again.
pub proof fn law_budgets_grow_with_the_level()
    ensures
        output_budget(PerformanceLevel::Low) == 2_048,
        output_budget(PerformanceLevel::Medium) == 4 * 2_048,
        output_budget(PerformanceLevel::High) == 4 * 2_048,
        output_budget(PerformanceLevel::Maximum) == 4 * 4 * 2_048,
        0 < output_budget(PerformanceLevel::Low) < output_budget(PerformanceLevel::Medium),
        output_budget(PerformanceLevel::Medium) <= output_budget(PerformanceLevel::High) < output_budget(
            PerformanceLevel::Maximum,
        ),
{
}

/// A text has a part wherever the part stands in it, and one that is shorter than the part has it not.
pub proof fn law_a_text_has_its_parts(front: Seq<char>, part: Seq<char>, back: Seq<char>, text: Seq<char>)
    ensures
        text_has(front + part + back, part),
        text.len() < part.len() ==> !text_has(text, part),
        text.len() == part.len() ==> text_has(text, part) == (text == part),
{
    let whole = front + part + back;
    let at = front.len() as int;
    assert(whole.subrange(at, at + part.len()) =~= part);
    if text.len() == part.len() {
        assert(text.subrange(0int, 0int + part.len()) =~= text);
        if text_has(text, part) {
            let i = choose|i: int|
                0 <= i && i + part.len() <= text.len() && #[trigger] text.subrange(i, i + part.len()) == part;
            assert(i == 0);
        }
    }
}

/// A stream that breaks off for want of time, or within a message, is opened again, but never twice before a block came. One
/// that breaks off for another reason is not.
pub proof fn law_streams_are_retried_once(deadline_exceeded: bool, message: Seq<char>)
    ensures
        !is_retried(deadline_exceeded, message, true),
        deadline_exceeded ==> is_retried(deadline_exceeded, message, false),
        !deadline_exceeded ==> is_retried(deadline_exceeded, message, false) == text_has(
            message,
            "Unexpected EOF decoding stream."@,
        ),
{
}

/// A task that lacks the block at one of its ends takes it from the tasks before it, if that block lies right there. One
/// that it has is kept, and nothing else changes.
pub proof fn law_neighbours_become_seams(
    before: &ScanTask,
    after: &ScanTask,
    previous_first: &Option<WalletBlock>,
    previous_last: &Option<WalletBlock>,
)
    requires
        seams_adopted(before, after, previous_first, previous_last),
    ensures
        before.start_seam_block matches Some(own) ==> (after.start_seam_block matches Some(block) && block@ == own@),
        before.end_seam_block matches Some(own) ==> (after.end_seam_block matches Some(block) && block@ == own@),
        before.start_seam_block.is_none() ==> (previous_last matches Some(last) ==> (last.block_height + 1
            == before.scan_range.block_range.start ==> (after.start_seam_block matches Some(block) && block@ == last@))),
        before.start_seam_block.is_none() ==> (after.start_seam_block matches Some(block) ==> (
        previous_last matches Some(last) && block@ == last@ && (last.block_height < u32::MAX ==> last.block_height + 1
            == before.scan_range.block_range.start))),
        before.end_seam_block.is_none() ==> (previous_first matches Some(first) ==> (first.block_height
            == before.scan_range.block_range.end ==> (after.end_seam_block matches Some(block) && block@ == first@))),
        before.end_seam_block.is_none() ==> (after.end_seam_block matches Some(block) ==> (
        previous_first matches Some(first) && block@ == first@ && first.block_height
            == before.scan_range.block_range.end)),
        after.scan_range == before.scan_range,
        after.compact_blocks == before.compact_blocks,
        after.scan_targets == before.scan_targets,
        after.transparent_addresses == before.transparent_addresses,
{
}

} // verus!
