//! How far sync has come.
use crate::chain::{ChainParameters, PoolActivation};
use crate::error::SyncStatusError;
use crate::primitives::{BlockHeight, BlockRange, ShieldedPool};
use crate::scan_range::{contiguous, ScanPriority, ScanRange};
use crate::sync::state::{calculate_scanned_blocks, scanned_block_count};
use crate::wallet::data::Wallet;
use crate::wallet::stores::{WalletBlock, WalletBlocks};
use crate::wallet::sync_state::{above, below, zero_bounds, InitialSyncState, SyncState, TreeBounds};
use vstd::prelude::*;

verus! {

/// A block that the wallet does not hold.
#[derive(Clone, Copy, Debug, PartialEq, Eq, Structural)]
pub struct MissingBlock {
    pub height: BlockHeight,
}

// --- outputs ---

/// Numbers of outputs by pool.
#[derive(Clone, Copy, Debug, PartialEq, Eq, Structural)]
pub struct OutputCounts {
    pub sapling: u32,
    pub orchard: u32,
    pub ironwood: u32,
}

impl OutputCounts {
    /// The number of outputs of all pools. Every total of outputs is made here, so that they agree on the pools.
    pub open spec fn sum(self) -> nat {
        self.sapling as nat + self.orchard as nat + self.ironwood as nat
    }

    /// The number of outputs of all pools.
    pub fn total(&self) -> (r: u64)
        ensures
            r == self.sum(),
    {
        self.sapling as u64 + self.orchard as u64 + self.ironwood as u64
    }
}

/// The sizes of the trees before the first and after the last block of a range, where the wallet holds both.
pub open spec fn range_bounds(blocks: Map<BlockHeight, WalletBlock>, range: BlockRange) -> Result<
    TreeBounds,
    MissingBlock,
> {
    let last = below(range.end);
    if !blocks.dom().contains(range.start) {
        Err(MissingBlock { height: range.start })
    } else if !blocks.dom().contains(last) {
        Err(MissingBlock { height: last })
    } else {
        let first_bounds = blocks[range.start].tree_bounds;
        let last_bounds = blocks[last].tree_bounds;
        Ok(
            TreeBounds {
                sapling_initial_tree_size: first_bounds.sapling_initial_tree_size,
                sapling_final_tree_size: last_bounds.sapling_final_tree_size,
                orchard_initial_tree_size: first_bounds.orchard_initial_tree_size,
                orchard_final_tree_size: last_bounds.orchard_final_tree_size,
                ironwood_initial_tree_size: first_bounds.ironwood_initial_tree_size,
                ironwood_final_tree_size: last_bounds.ironwood_final_tree_size,
            },
        )
    }
}

/// The sizes of the trees before the first and after the last block of a scanned range.
pub fn scanned_range_tree_bounds(blocks: &WalletBlocks, scanned_range: &BlockRange) -> (r: Result<
    TreeBounds,
    MissingBlock,
>)
    requires
        blocks.wf(),
    ensures
        r == range_bounds(blocks@, *scanned_range),
{
    let last: u32 = scanned_range.end.saturating_sub(1);
    match blocks.get(&scanned_range.start) {
        None => Err(MissingBlock { height: scanned_range.start }),
        Some(start_block) => match blocks.get(&last) {
            None => Err(MissingBlock { height: last }),
            Some(end_block) => Ok(
                TreeBounds {
                    sapling_initial_tree_size: start_block.tree_bounds.sapling_initial_tree_size,
                    sapling_final_tree_size: end_block.tree_bounds.sapling_final_tree_size,
                    orchard_initial_tree_size: start_block.tree_bounds.orchard_initial_tree_size,
                    orchard_final_tree_size: end_block.tree_bounds.orchard_final_tree_size,
                    ironwood_initial_tree_size: start_block.tree_bounds.ironwood_initial_tree_size,
                    ironwood_final_tree_size: end_block.tree_bounds.ironwood_final_tree_size,
                },
            ),
        },
    }
}

/// The first block that is missing at a bound of a scanned range.
pub open spec fn first_missing(blocks: Map<BlockHeight, WalletBlock>, ranges: Seq<ScanRange>) -> Option<MissingBlock>
    decreases ranges.len(),
{
    if ranges.len() == 0 {
        None
    } else {
        match first_missing(blocks, ranges.drop_last()) {
            Some(missing) => Some(missing),
            None => if !ranges.last().priority.scanned() {
                None
            } else {
                match range_bounds(blocks, ranges.last().block_range) {
                    Err(missing) => Some(missing),
                    Ok(_) => None,
                }
            },
        }
    }
}

/// The number of outputs of `pool` in the scanned ranges, by the sizes of its tree at their bounds.
pub open spec fn outputs_in(blocks: Map<BlockHeight, WalletBlock>, ranges: Seq<ScanRange>, pool: ShieldedPool) -> int
    decreases ranges.len(),
{
    if ranges.len() == 0 {
        0
    } else {
        let before = outputs_in(blocks, ranges.drop_last(), pool);
        if ranges.last().priority.scanned() {
            let bounds = range_bounds(blocks, ranges.last().block_range)->Ok_0;
            before + bounds.final_of(pool) - bounds.initial_of(pool)
        } else {
            before
        }
    }
}

/// Whether the tree sizes at the bounds of every scanned range ascend.
pub open spec fn bounds_ascend(blocks: Map<BlockHeight, WalletBlock>, ranges: Seq<ScanRange>) -> bool {
    forall|i: int|
        0 <= i < ranges.len() && (#[trigger] ranges[i]).priority.scanned() ==> match range_bounds(
            blocks,
            ranges[i].block_range,
        ) {
            Ok(bounds) => bounds.ascending(),
            Err(_) => true,
        }
}

/// Whether the outputs can be counted: where no block is missing, tree sizes ascend and the counts are no larger than
/// a tree.
pub open spec fn countable(blocks: Map<BlockHeight, WalletBlock>, ranges: Seq<ScanRange>) -> bool {
    first_missing(blocks, ranges).is_none() ==> {
        &&& bounds_ascend(blocks, ranges)
        &&& outputs_in(blocks, ranges, ShieldedPool::Sapling) <= u32::MAX
        &&& outputs_in(blocks, ranges, ShieldedPool::Orchard) <= u32::MAX
        &&& outputs_in(blocks, ranges, ShieldedPool::Ironwood) <= u32::MAX
    }
}

proof fn lemma_missing_grows(blocks: Map<BlockHeight, WalletBlock>, ranges: Seq<ScanRange>, n: int)
    requires
        0 <= n <= ranges.len(),
    ensures
        first_missing(blocks, ranges.take(n)) matches Some(missing) ==> first_missing(blocks, ranges) == Some(missing),
    decreases ranges.len() - n,
{
    if n == ranges.len() {
        assert(ranges.take(n) =~= ranges);
    } else {
        assert(ranges.take(n + 1).drop_last() =~= ranges.take(n));
        lemma_missing_grows(blocks, ranges, n + 1);
    }
}

proof fn lemma_outputs_grow(blocks: Map<BlockHeight, WalletBlock>, ranges: Seq<ScanRange>, n: int, pool: ShieldedPool)
    requires
        0 <= n <= ranges.len(),
        first_missing(blocks, ranges).is_none(),
        bounds_ascend(blocks, ranges),
    ensures
        0 <= outputs_in(blocks, ranges.take(n), pool) <= outputs_in(blocks, ranges, pool),
    decreases ranges.len() - n,
{
    if n == ranges.len() {
        assert(ranges.take(n) =~= ranges);
        lemma_outputs_nonnegative(blocks, ranges, n, pool);
    } else {
        lemma_outputs_grow(blocks, ranges, n + 1, pool);
        lemma_outputs_nonnegative(blocks, ranges, n, pool);
        let next = ranges.take(n + 1);
        assert(next.drop_last() =~= ranges.take(n));
        assert(next.last() == ranges[n]);
        lemma_missing_grows(blocks, ranges, n + 1);
    }
}

proof fn lemma_outputs_nonnegative(
    blocks: Map<BlockHeight, WalletBlock>,
    ranges: Seq<ScanRange>,
    n: int,
    pool: ShieldedPool,
)
    requires
        0 <= n <= ranges.len(),
        first_missing(blocks, ranges).is_none(),
        bounds_ascend(blocks, ranges),
    ensures
        0 <= outputs_in(blocks, ranges.take(n), pool),
    decreases n,
{
    if n > 0 {
        lemma_outputs_nonnegative(blocks, ranges, n - 1, pool);
        let part = ranges.take(n);
        assert(part.drop_last() =~= ranges.take(n - 1));
        assert(part.last() == ranges[n - 1]);
        lemma_missing_grows(blocks, ranges, n);
    }
}

/// The number of outputs of each pool in the scanned ranges.
pub open spec fn scanned_outputs(blocks: Map<BlockHeight, WalletBlock>, ranges: Seq<ScanRange>) -> OutputCounts {
    OutputCounts {
        sapling: outputs_in(blocks, ranges, ShieldedPool::Sapling) as u32,
        orchard: outputs_in(blocks, ranges, ShieldedPool::Orchard) as u32,
        ironwood: outputs_in(blocks, ranges, ShieldedPool::Ironwood) as u32,
    }
}

/// Whether the outputs of the scanned ranges can be counted.
pub fn outputs_are_countable(blocks: &WalletBlocks, ranges: &Vec<ScanRange>) -> (r: bool)
    requires
        blocks.wf(),
    ensures
        r == countable(blocks@, ranges@),
{
    let count: usize = ranges.len();
    let mut ascend = true;
    let mut i: usize = 0;
    assert(ranges@.take(0) =~= Seq::empty());
    while i < count
        invariant
            i <= count == ranges@.len(),
            blocks.wf(),
            first_missing(blocks@, ranges@.take(i as int)).is_none(),
            ascend == forall|k: int|
                0 <= k < i && (#[trigger] ranges@[k]).priority.scanned() ==> range_bounds(
                    blocks@,
                    ranges@[k].block_range,
                )->Ok_0.ascending(),
            forall|k: int|
                0 <= k < i && (#[trigger] ranges@[k]).priority.scanned() ==> range_bounds(
                    blocks@,
                    ranges@[k].block_range,
                ).is_ok(),
        decreases count - i,
    {
        proof {
            let next = ranges@.take(i + 1);
            assert(next.drop_last() =~= ranges@.take(i as int));
            assert(next.last() == ranges@[i as int]);
        }
        if ranges[i].priority.is_scanned() {
            match scanned_range_tree_bounds(blocks, &ranges[i].block_range) {
                Err(_) => {
                    proof {
                        lemma_missing_grows(blocks@, ranges@, i + 1);
                    }
                    return true;
                },
                Ok(own) => {
                    let own_ascend = own.sapling_initial_tree_size <= own.sapling_final_tree_size
                        && own.orchard_initial_tree_size <= own.orchard_final_tree_size
                        && own.ironwood_initial_tree_size <= own.ironwood_final_tree_size;
                    proof {
                        assert(own.initial_of(ShieldedPool::Sapling) == own.sapling_initial_tree_size);
                        assert(own.initial_of(ShieldedPool::Orchard) == own.orchard_initial_tree_size);
                        assert(own.initial_of(ShieldedPool::Ironwood) == own.ironwood_initial_tree_size);
                        if own_ascend {
                            assert forall|pool: ShieldedPool| #[trigger] own.initial_of(pool) <= own.final_of(pool) by {
                                match pool {
                                    ShieldedPool::Sapling => {},
                                    ShieldedPool::Orchard => {},
                                    ShieldedPool::Ironwood => {},
                                }
                            }
                        }
                        assert(own_ascend == own.ascending());
                    }
                    ascend = ascend && own_ascend;
                },
            }
        }
        i = i + 1;
    }
    assert(ranges@.take(count as int) =~= ranges@);
    if !ascend {
        proof {
            let k = choose|k: int|
                0 <= k < count && (#[trigger] ranges@[k]).priority.scanned() && !range_bounds(
                    blocks@,
                    ranges@[k].block_range,
                )->Ok_0.ascending();
            assert(ranges@[k].priority.scanned());
            assert(!bounds_ascend(blocks@, ranges@));
        }
        return false;
    }
    assert(bounds_ascend(blocks@, ranges@));
    pool_is_countable(blocks, ranges, ShieldedPool::Sapling) && pool_is_countable(
        blocks,
        ranges,
        ShieldedPool::Orchard,
    ) && pool_is_countable(blocks, ranges, ShieldedPool::Ironwood)
}

/// Whether the outputs of a pool are no more than a tree can hold.
fn pool_is_countable(blocks: &WalletBlocks, ranges: &Vec<ScanRange>, pool: ShieldedPool) -> (r: bool)
    requires
        blocks.wf(),
        first_missing(blocks@, ranges@).is_none(),
        bounds_ascend(blocks@, ranges@),
    ensures
        r == (outputs_in(blocks@, ranges@, pool) <= u32::MAX),
{
    let count: usize = ranges.len();
    let mut total: u32 = 0;
    let mut j: usize = 0;
    assert(ranges@.take(0) =~= Seq::empty());
    while j < count
        invariant
            j <= count == ranges@.len(),
            blocks.wf(),
            first_missing(blocks@, ranges@).is_none(),
            bounds_ascend(blocks@, ranges@),
            total == outputs_in(blocks@, ranges@.take(j as int), pool),
        decreases count - j,
    {
        proof {
            let next = ranges@.take(j + 1);
            assert(next.drop_last() =~= ranges@.take(j as int));
            assert(next.last() == ranges@[j as int]);
            lemma_missing_grows(blocks@, ranges@, j + 1);
            lemma_outputs_grow(blocks@, ranges@, j + 1, pool);
        }
        if ranges[j].priority.is_scanned() {
            if let Ok(own) = scanned_range_tree_bounds(blocks, &ranges[j].block_range) {
                assert(own.ascending());
                assert(own.initial_of(pool) <= own.final_of(pool));
                let outputs: u32 = own.final_tree_size(pool) - own.initial_tree_size(pool);
                if outputs > u32::MAX - total {
                    return false;
                }
                total = total + outputs;
            }
        }
        j = j + 1;
    }
    assert(ranges@.take(count as int) =~= ranges@);
    true
}

/// Counts the outputs of each pool in the scanned ranges, by the sizes of the trees at their bounds.
pub fn calculate_scanned_outputs(wallet: &Wallet) -> (r: Result<OutputCounts, MissingBlock>)
    requires
        wallet.wf(),
        countable(wallet.wallet_blocks@, wallet.sync_state.scan_ranges@),
    ensures
        match first_missing(wallet.wallet_blocks@, wallet.sync_state.scan_ranges@) {
            Some(missing) => r == Err::<OutputCounts, MissingBlock>(missing),
            None => r == Ok::<OutputCounts, MissingBlock>(
                scanned_outputs(wallet.wallet_blocks@, wallet.sync_state.scan_ranges@),
            ),
        },
{
    let ranges = &wallet.sync_state.scan_ranges;
    let ghost blocks = wallet.wallet_blocks@;
    let count: usize = ranges.len();
    let mut i: usize = 0;
    assert(ranges@.take(0) =~= Seq::empty());
    while i < count
        invariant
            i <= count == ranges@.len(),
            wallet.wf(),
            blocks == wallet.wallet_blocks@,
            ranges@ == wallet.sync_state.scan_ranges@,
            first_missing(blocks, ranges@.take(i as int)).is_none(),
        decreases count - i,
    {
        proof {
            let next = ranges@.take(i + 1);
            assert(next.drop_last() =~= ranges@.take(i as int));
            assert(next.last() == ranges@[i as int]);
        }
        if ranges[i].priority.is_scanned() {
            if let Err(missing) = scanned_range_tree_bounds(&wallet.wallet_blocks, &ranges[i].block_range) {
                proof {
                    lemma_missing_grows(blocks, ranges@, i + 1);
                }
                return Err(missing);
            }
        }
        i = i + 1;
    }
    assert(ranges@.take(count as int) =~= ranges@);
    let mut counts = OutputCounts { sapling: 0, orchard: 0, ironwood: 0 };
    let mut j: usize = 0;
    while j < count
        invariant
            j <= count == ranges@.len(),
            wallet.wf(),
            blocks == wallet.wallet_blocks@,
            ranges@ == wallet.sync_state.scan_ranges@,
            first_missing(blocks, ranges@).is_none(),
            countable(blocks, ranges@),
            counts.sapling == outputs_in(blocks, ranges@.take(j as int), ShieldedPool::Sapling),
            counts.orchard == outputs_in(blocks, ranges@.take(j as int), ShieldedPool::Orchard),
            counts.ironwood == outputs_in(blocks, ranges@.take(j as int), ShieldedPool::Ironwood),
        decreases count - j,
    {
        proof {
            let next = ranges@.take(j + 1);
            assert(next.drop_last() =~= ranges@.take(j as int));
            assert(next.last() == ranges@[j as int]);
            lemma_missing_grows(blocks, ranges@, j + 1);
            lemma_outputs_grow(blocks, ranges@, j + 1, ShieldedPool::Sapling);
            lemma_outputs_grow(blocks, ranges@, j + 1, ShieldedPool::Orchard);
            lemma_outputs_grow(blocks, ranges@, j + 1, ShieldedPool::Ironwood);
        }
        if ranges[j].priority.is_scanned() {
            if let Ok(own) = scanned_range_tree_bounds(&wallet.wallet_blocks, &ranges[j].block_range) {
                assert(own.ascending());
                counts.sapling = counts.sapling + (own.sapling_final_tree_size - own.sapling_initial_tree_size);
                counts.orchard = counts.orchard + (own.orchard_final_tree_size - own.orchard_initial_tree_size);
                counts.ironwood = counts.ironwood + (own.ironwood_final_tree_size - own.ironwood_initial_tree_size);
            }
        }
        j = j + 1;
    }
    Ok(counts)
}

// --- what was known when the session began ---

/// The sizes of the trees of all pools.
#[derive(Clone, Copy, Debug, PartialEq, Eq, Structural)]
pub struct TreeSizes {
    pub sapling: u32,
    pub orchard: u32,
    pub ironwood: u32,
}

/// Where the sizes of the trees after a block are to be had.
#[derive(Clone, Copy, Debug, PartialEq, Eq, Structural)]
pub enum SizeSource {
    /// They are known.
    Known(TreeSizes),
    /// They are those of the frontiers at the height.
    Frontiers(BlockHeight),
}

/// Where the sizes of the trees after the block at `height` are to be had: from the wallet's block, from the fact that
/// there are no trees before sapling, or from the chain.
pub open spec fn final_size_source(
    blocks: Map<BlockHeight, WalletBlock>,
    sapling_activation: BlockHeight,
    height: BlockHeight,
) -> SizeSource {
    if blocks.dom().contains(height) {
        let bounds = blocks[height].tree_bounds;
        SizeSource::Known(
            TreeSizes {
                sapling: bounds.sapling_final_tree_size,
                orchard: bounds.orchard_final_tree_size,
                ironwood: bounds.ironwood_final_tree_size,
            },
        )
    } else if height == below(sapling_activation) {
        SizeSource::Known(TreeSizes { sapling: 0, orchard: 0, ironwood: 0 })
    } else {
        SizeSource::Frontiers(height)
    }
}

/// Where the sizes of the trees after the block at `block_height` are to be had.
pub fn final_tree_sizes(parameters: &ChainParameters, blocks: &WalletBlocks, block_height: BlockHeight) -> (r: SizeSource)
    requires
        blocks.wf(),
        parameters.activation_of(ShieldedPool::Sapling).is_some(),
        blocks@.dom().contains(block_height) || block_height >= below(
            parameters.activation_of(ShieldedPool::Sapling)->0,
        ),
    ensures
        r == final_size_source(blocks@, parameters.activation_of(ShieldedPool::Sapling)->0, block_height),
{
    if let Some(block) = blocks.get(&block_height) {
        return SizeSource::Known(
            TreeSizes {
                sapling: block.tree_bounds.sapling_final_tree_size,
                orchard: block.tree_bounds.orchard_final_tree_size,
                ironwood: block.tree_bounds.ironwood_final_tree_size,
            },
        );
    }
    let sapling: u32 = PoolActivation::of(parameters, ShieldedPool::Sapling).unwrap().height;
    if block_height == sapling.saturating_sub(1) {
        SizeSource::Known(TreeSizes { sapling: 0, orchard: 0, ironwood: 0 })
    } else {
        SizeSource::Frontiers(block_height)
    }
}

/// Where the sizes of the trees before the wallet's birthday are to be had: from the wallet's block, or from the block
/// before it.
pub open spec fn birthday_size_source(
    blocks: Map<BlockHeight, WalletBlock>,
    sapling_activation: BlockHeight,
    birthday: BlockHeight,
) -> SizeSource {
    if blocks.dom().contains(birthday) {
        let bounds = blocks[birthday].tree_bounds;
        SizeSource::Known(
            TreeSizes {
                sapling: bounds.sapling_initial_tree_size,
                orchard: bounds.orchard_initial_tree_size,
                ironwood: bounds.ironwood_initial_tree_size,
            },
        )
    } else {
        final_size_source(blocks, sapling_activation, below(birthday))
    }
}

/// Where the sizes of the trees before the wallet's birthday are to be had.
pub fn birthday_tree_sizes(parameters: &ChainParameters, blocks: &WalletBlocks, birthday: BlockHeight) -> (r: SizeSource)
    requires
        blocks.wf(),
        parameters.activation_of(ShieldedPool::Sapling).is_some(),
        parameters.activation_of(ShieldedPool::Sapling)->0 <= birthday,
    ensures
        r == birthday_size_source(blocks@, parameters.activation_of(ShieldedPool::Sapling)->0, birthday),
{
    if let Some(block) = blocks.get(&birthday) {
        return SizeSource::Known(
            TreeSizes {
                sapling: block.tree_bounds.sapling_initial_tree_size,
                orchard: block.tree_bounds.orchard_initial_tree_size,
                ironwood: block.tree_bounds.ironwood_initial_tree_size,
            },
        );
    }
    final_tree_sizes(parameters, blocks, birthday.saturating_sub(1))
}

/// The height from which a session syncs.
pub open spec fn session_start(chain_height: BlockHeight, fully_scanned_height: BlockHeight) -> BlockHeight {
    if chain_height > fully_scanned_height {
        above(fully_scanned_height)
    } else {
        chain_height
    }
}

/// Notes what was known when the session began. The bounds of the trees are set when they are known.
pub fn set_initial_state(wallet: &mut Wallet, chain_height: BlockHeight) -> (r: Result<(), MissingBlock>)
    requires
        old(wallet).wf(),
        old(wallet).sync_state.scan_ranges@.len() > 0,
        countable(old(wallet).wallet_blocks@, old(wallet).sync_state.scan_ranges@),
        contiguous(old(wallet).sync_state.scan_ranges@),
    ensures
        final(wallet).wf(),
        match first_missing(old(wallet).wallet_blocks@, old(wallet).sync_state.scan_ranges@) {
            Some(missing) => r == Err::<(), MissingBlock>(missing) && *final(wallet) == *old(wallet),
            None => {
                let outputs = scanned_outputs(old(wallet).wallet_blocks@, old(wallet).sync_state.scan_ranges@);
                &&& r.is_ok()
                &&& final(wallet).sync_state.initial_sync_state == (InitialSyncState {
                    sync_start_height: session_start(chain_height, old(wallet).sync_state.scanned_to()->0),
                    wallet_tree_bounds: zero_bounds(),
                    previously_scanned_blocks: scanned_block_count(old(wallet).sync_state.scan_ranges@) as u32,
                    previously_scanned_sapling_outputs: outputs.sapling,
                    previously_scanned_orchard_outputs: outputs.orchard,
                    previously_scanned_ironwood_outputs: outputs.ironwood,
                })
                &&& *final(wallet) == (Wallet {
                    sync_state: SyncState {
                        initial_sync_state: final(wallet).sync_state.initial_sync_state,
                        ..old(wallet).sync_state
                    },
                    ..*old(wallet)
                })
            },
        },
{
    let fully_scanned_height: u32 = wallet.sync_state.fully_scanned_height().unwrap();
    let previously_scanned_blocks: u32 = calculate_scanned_blocks(&wallet.sync_state);
    let outputs = match calculate_scanned_outputs(wallet) {
        Ok(outputs) => outputs,
        Err(missing) => {
            return Err(missing);
        },
    };
    wallet.sync_state.initial_sync_state = InitialSyncState {
        sync_start_height: if chain_height > fully_scanned_height {
            fully_scanned_height.saturating_add(1)
        } else {
            chain_height
        },
        wallet_tree_bounds: TreeBounds::zero(),
        previously_scanned_blocks,
        previously_scanned_sapling_outputs: outputs.sapling,
        previously_scanned_orchard_outputs: outputs.orchard,
        previously_scanned_ironwood_outputs: outputs.ironwood,
    };
    Ok(())
}

/// Sets the sizes of the trees from the wallet's birthday to the tip of the chain.
pub fn update_wallet_tree_bounds(wallet: &mut Wallet, at_birthday: TreeSizes, at_tip: TreeSizes)
    requires
        old(wallet).wf(),
    ensures
        final(wallet).wf(),
        final(wallet).save_required,
        final(wallet).sync_state.initial_sync_state == (InitialSyncState {
            wallet_tree_bounds: TreeBounds {
                sapling_initial_tree_size: at_birthday.sapling,
                sapling_final_tree_size: at_tip.sapling,
                orchard_initial_tree_size: at_birthday.orchard,
                orchard_final_tree_size: at_tip.orchard,
                ironwood_initial_tree_size: at_birthday.ironwood,
                ironwood_final_tree_size: at_tip.ironwood,
            },
            ..old(wallet).sync_state.initial_sync_state
        }),
        *final(wallet) == (Wallet {
            sync_state: SyncState {
                initial_sync_state: final(wallet).sync_state.initial_sync_state,
                ..old(wallet).sync_state
            },
            save_required: true,
            ..*old(wallet)
        }),
{
    wallet.sync_state.initial_sync_state.wallet_tree_bounds = TreeBounds {
        sapling_initial_tree_size: at_birthday.sapling,
        sapling_final_tree_size: at_tip.sapling,
        orchard_initial_tree_size: at_birthday.orchard,
        orchard_final_tree_size: at_tip.orchard,
        ironwood_initial_tree_size: at_birthday.ironwood,
        ironwood_final_tree_size: at_tip.ironwood,
    };
    wallet.save_required = true;
}

// --- the status of sync ---

/// A number of things done out of a total that is not zero.
#[derive(Clone, Copy, Debug, PartialEq, Eq, Structural)]
pub struct Progress {
    pub scanned: u64,
    pub total: u64,
}

/// The progress, or `otherwise` where there is nothing to be done.
pub open spec fn progress_or(scanned: nat, total: nat, otherwise: Progress) -> Progress {
    if total == 0 {
        otherwise
    } else {
        Progress { scanned: scanned as u64, total: total as u64 }
    }
}

fn progress(scanned: u64, total: u64, otherwise: Progress) -> (r: Progress)
    ensures
        r == progress_or(scanned as nat, total as nat, otherwise),
{
    if total == 0 {
        otherwise
    } else {
        Progress { scanned, total }
    }
}

/// Everything done.
pub open spec fn complete() -> Progress {
    Progress { scanned: 1, total: 1 }
}

/// Nothing done.
pub open spec fn not_begun() -> Progress {
    Progress { scanned: 0, total: 1 }
}

/// A snapshot of the current state of sync.
///
/// The progress in outputs is a much better indicator of completion than that in blocks. A progress that is complete
/// is to be reported one step short of it while nullifiers are still to be retrieved.
#[derive(Debug, PartialEq, Eq)]
pub struct SyncStatus {
    pub scan_ranges: Vec<ScanRange>,
    pub sync_start_height: BlockHeight,
    pub session_blocks_scanned: u32,
    pub total_blocks_scanned: u32,
    pub session_blocks_progress: Progress,
    pub total_blocks_progress: Progress,
    pub session_outputs_scanned: OutputCounts,
    pub pool_outputs_scanned: OutputCounts,
    pub session_outputs_progress: Progress,
    pub total_outputs_progress: Progress,
    /// The outputs scanned so far. May exceed `total_outputs`, which is fixed when sync starts.
    pub total_outputs_scanned: u64,
    /// The outputs in the chain between the wallet birthday and the last known chain height. Zero when sync has never
    /// started.
    pub total_outputs: u64,
    /// Whether nullifiers of scanned blocks are still to be retrieved.
    pub awaits_nullifiers: bool,
}

/// The value of a [`SyncStatus`].
pub struct SyncStatusView {
    pub scan_ranges: Seq<ScanRange>,
    pub sync_start_height: BlockHeight,
    pub session_blocks_scanned: u32,
    pub total_blocks_scanned: u32,
    pub session_blocks_progress: Progress,
    pub total_blocks_progress: Progress,
    pub session_outputs_scanned: OutputCounts,
    pub pool_outputs_scanned: OutputCounts,
    pub session_outputs_progress: Progress,
    pub total_outputs_progress: Progress,
    pub total_outputs_scanned: u64,
    pub total_outputs: u64,
    pub awaits_nullifiers: bool,
}

impl View for SyncStatus {
    type V = SyncStatusView;

    open spec fn view(&self) -> SyncStatusView {
        SyncStatusView {
            scan_ranges: self.scan_ranges@,
            sync_start_height: self.sync_start_height,
            session_blocks_scanned: self.session_blocks_scanned,
            total_blocks_scanned: self.total_blocks_scanned,
            session_blocks_progress: self.session_blocks_progress,
            total_blocks_progress: self.total_blocks_progress,
            session_outputs_scanned: self.session_outputs_scanned,
            pool_outputs_scanned: self.pool_outputs_scanned,
            session_outputs_progress: self.session_outputs_progress,
            total_outputs_progress: self.total_outputs_progress,
            total_outputs_scanned: self.total_outputs_scanned,
            total_outputs: self.total_outputs,
            awaits_nullifiers: self.awaits_nullifiers,
        }
    }
}

impl SyncStatus {
    /// Whether sync is complete: it has started, and every scan range is fully processed, so that none still awaits
    /// scanning, or the mapping or refetching of nullifiers.
    ///
    /// This holds even where there are no outputs to be scanned.
    pub fn is_complete(&self) -> (r: bool)
        ensures
            r == (self.sync_start_height != 0 && forall|i: int|
                0 <= i < self.scan_ranges@.len() ==> (#[trigger] self.scan_ranges@[i]).priority
                    == ScanPriority::Scanned),
    {
        if self.sync_start_height == 0 {
            return false;
        }
        let count: usize = self.scan_ranges.len();
        let mut i: usize = 0;
        while i < count
            invariant
                i <= count == self.scan_ranges@.len(),
                forall|k: int|
                    0 <= k < i ==> (#[trigger] self.scan_ranges@[k]).priority == ScanPriority::Scanned,
            decreases count - i,
        {
            if self.scan_ranges[i].priority != ScanPriority::Scanned {
                assert(self.scan_ranges@[i as int].priority != ScanPriority::Scanned);
                return false;
            }
            i = i + 1;
        }
        true
    }
}

/// Whether nullifiers of scanned blocks are still to be retrieved.
pub open spec fn awaits_nullifiers(ranges: Seq<ScanRange>) -> bool {
    exists|i: int|
        0 <= i < ranges.len() && ((#[trigger] ranges[i]).priority == ScanPriority::ScannedWithoutMapping
            || ranges[i].priority == ScanPriority::RefetchingNullifiers)
}

fn any_awaits_nullifiers(ranges: &Vec<ScanRange>) -> (r: bool)
    ensures
        r == awaits_nullifiers(ranges@),
{
    let count: usize = ranges.len();
    let mut i: usize = 0;
    while i < count
        invariant
            i <= count == ranges@.len(),
            forall|k: int|
                0 <= k < i ==> !((#[trigger] ranges@[k]).priority == ScanPriority::ScannedWithoutMapping
                    || ranges@[k].priority == ScanPriority::RefetchingNullifiers),
        decreases count - i,
    {
        if ranges[i].priority.awaits_nullifier_retrieval() {
            assert(ranges@[i as int].priority == ScanPriority::ScannedWithoutMapping || ranges@[i as int].priority
                == ScanPriority::RefetchingNullifiers);
            return true;
        }
        i = i + 1;
    }
    false
}

fn copy_scan_ranges(ranges: &Vec<ScanRange>) -> (r: Vec<ScanRange>)
    ensures
        r@ == ranges@,
{
    let mut out: Vec<ScanRange> = Vec::new();
    let count: usize = ranges.len();
    let mut i: usize = 0;
    while i < count
        invariant
            i <= count == ranges@.len(),
            out@ == ranges@.take(i as int),
        decreases count - i,
    {
        out.push(ranges[i]);
        assert(out@ =~= ranges@.take(i + 1));
        i = i + 1;
    }
    assert(ranges@.take(count as int) =~= ranges@);
    out
}

/// What is left of `a` when `b` is taken away, if anything.
pub open spec fn left_of(a: nat, b: nat) -> nat {
    if a > b {
        (a - b) as nat
    } else {
        0
    }
}

/// What is left of each count.
pub open spec fn counts_left(a: OutputCounts, b: OutputCounts) -> OutputCounts {
    OutputCounts {
        sapling: left_of(a.sapling as nat, b.sapling as nat) as u32,
        orchard: left_of(a.orchard as nat, b.orchard as nat) as u32,
        ironwood: left_of(a.ironwood as nat, b.ironwood as nat) as u32,
    }
}

fn subtract_counts(a: &OutputCounts, b: &OutputCounts) -> (r: OutputCounts)
    ensures
        r == counts_left(*a, *b),
{
    OutputCounts {
        sapling: a.sapling.saturating_sub(b.sapling),
        orchard: a.orchard.saturating_sub(b.orchard),
        ironwood: a.ironwood.saturating_sub(b.ironwood),
    }
}

/// The outputs that had been scanned when the session began.
pub open spec fn previous_outputs(initial: InitialSyncState) -> OutputCounts {
    OutputCounts {
        sapling: initial.previously_scanned_sapling_outputs,
        orchard: initial.previously_scanned_orchard_outputs,
        ironwood: initial.previously_scanned_ironwood_outputs,
    }
}

/// The outputs between the wallet's birthday and the tip of the chain.
pub open spec fn wallet_outputs(initial: InitialSyncState) -> OutputCounts {
    let bounds = initial.wallet_tree_bounds;
    OutputCounts {
        sapling: left_of(bounds.sapling_final_tree_size as nat, bounds.sapling_initial_tree_size as nat) as u32,
        orchard: left_of(bounds.orchard_final_tree_size as nat, bounds.orchard_initial_tree_size as nat) as u32,
        ironwood: left_of(bounds.ironwood_final_tree_size as nat, bounds.ironwood_initial_tree_size as nat) as u32,
    }
}

/// The status of a sync that has never started.
pub open spec fn status_before_sync(ranges: Seq<ScanRange>) -> SyncStatusView {
    let none = OutputCounts { sapling: 0, orchard: 0, ironwood: 0 };
    SyncStatusView {
        scan_ranges: ranges,
        sync_start_height: 0,
        session_blocks_scanned: 0,
        total_blocks_scanned: 0,
        session_blocks_progress: not_begun(),
        total_blocks_progress: not_begun(),
        session_outputs_scanned: none,
        pool_outputs_scanned: none,
        session_outputs_progress: not_begun(),
        total_outputs_progress: not_begun(),
        total_outputs_scanned: 0,
        total_outputs: 0,
        awaits_nullifiers: false,
    }
}

/// The number of blocks from the wallet's birthday to the last known height.
pub open spec fn wallet_blocks_total(state: &SyncState) -> u32 {
    let span = left_of(state.known_tip()->0 as nat, state.birthday()->0 as nat);
    if span >= u32::MAX {
        u32::MAX
    } else {
        (span + 1) as u32
    }
}

/// The status of a sync that has started, for outputs that have been scanned.
///
/// A session that has nothing to do shows the progress of the wallet as a whole, and a wallet that has nothing to do
/// is complete.
pub open spec fn status_of(state: &SyncState, scanned: OutputCounts) -> SyncStatusView {
    let initial = state.initial_sync_state;
    let blocks = scanned_block_count(state.scan_ranges@) as nat;
    let all_blocks = wallet_blocks_total(state) as nat;
    let previous_blocks = initial.previously_scanned_blocks as nat;
    let total_blocks_progress = progress_or(blocks, all_blocks, complete());
    let all_outputs = wallet_outputs(initial).sum();
    let session_outputs = counts_left(scanned, previous_outputs(initial));
    let total_outputs_progress = progress_or(scanned.sum(), all_outputs, complete());
    SyncStatusView {
        scan_ranges: state.scan_ranges@,
        sync_start_height: initial.sync_start_height,
        session_blocks_scanned: left_of(blocks, previous_blocks) as u32,
        total_blocks_scanned: blocks as u32,
        session_blocks_progress: progress_or(
            left_of(blocks, previous_blocks),
            left_of(all_blocks, previous_blocks),
            total_blocks_progress,
        ),
        total_blocks_progress,
        session_outputs_scanned: session_outputs,
        pool_outputs_scanned: scanned,
        session_outputs_progress: progress_or(
            session_outputs.sum(),
            left_of(all_outputs, previous_outputs(initial).sum()),
            total_outputs_progress,
        ),
        total_outputs_progress,
        total_outputs_scanned: scanned.sum() as u64,
        total_outputs: all_outputs as u64,
        awaits_nullifiers: awaits_nullifiers(state.scan_ranges@),
    }
}

/// Creates the status of sync from the wallet.
///
/// Where nullifiers are still to be retrieved when all blocks are scanned, sync is not complete.
pub fn sync_status(wallet: &Wallet) -> (r: Result<SyncStatus, SyncStatusError<MissingBlock>>)
    requires
        wallet.wf(),
        contiguous(wallet.sync_state.scan_ranges@),
        countable(wallet.wallet_blocks@, wallet.sync_state.scan_ranges@),
    ensures
        match first_missing(wallet.wallet_blocks@, wallet.sync_state.scan_ranges@) {
            Some(missing) => r == Err::<SyncStatus, SyncStatusError<MissingBlock>>(
                SyncStatusError::WalletError(missing),
            ),
            None => if wallet.sync_state.initial_sync_state.sync_start_height == 0 {
                r matches Ok(status) && status@ == status_before_sync(wallet.sync_state.scan_ranges@)
            } else if wallet.sync_state.scan_ranges@.len() == 0 {
                r == Err::<SyncStatus, SyncStatusError<MissingBlock>>(SyncStatusError::NoSyncData)
            } else {
                r matches Ok(status) && status@ == status_of(
                    &wallet.sync_state,
                    scanned_outputs(wallet.wallet_blocks@, wallet.sync_state.scan_ranges@),
                )
            },
        },
{
    let scanned = match calculate_scanned_outputs(wallet) {
        Ok(scanned) => scanned,
        Err(missing) => {
            return Err(SyncStatusError::WalletError(missing));
        },
    };
    let state = &wallet.sync_state;
    let initial = state.initial_sync_state;
    let scan_ranges = copy_scan_ranges(&state.scan_ranges);
    if initial.sync_start_height == 0 {
        let none = OutputCounts { sapling: 0, orchard: 0, ironwood: 0 };
        let nothing = Progress { scanned: 0, total: 1 };
        return Ok(
            SyncStatus {
                scan_ranges,
                sync_start_height: 0,
                session_blocks_scanned: 0,
                total_blocks_scanned: 0,
                session_blocks_progress: nothing,
                total_blocks_progress: nothing,
                session_outputs_scanned: none,
                pool_outputs_scanned: none,
                session_outputs_progress: nothing,
                total_outputs_progress: nothing,
                total_outputs_scanned: 0,
                total_outputs: 0,
                awaits_nullifiers: false,
            },
        );
    }
    let total_blocks_scanned: u32 = calculate_scanned_blocks(state);
    let birthday: u32 = match state.wallet_birthday() {
        Some(birthday) => birthday,
        None => {
            return Err(SyncStatusError::NoSyncData);
        },
    };
    let tip: u32 = match state.last_known_chain_height() {
        Some(tip) => tip,
        None => {
            return Err(SyncStatusError::NoSyncData);
        },
    };
    let total_blocks: u32 = tip.saturating_sub(birthday).saturating_add(1);
    let bounds = initial.wallet_tree_bounds;
    let wallet_total = OutputCounts {
        sapling: bounds.sapling_final_tree_size.saturating_sub(bounds.sapling_initial_tree_size),
        orchard: bounds.orchard_final_tree_size.saturating_sub(bounds.orchard_initial_tree_size),
        ironwood: bounds.ironwood_final_tree_size.saturating_sub(bounds.ironwood_initial_tree_size),
    };
    let total_outputs: u64 = wallet_total.total();
    let total_outputs_scanned: u64 = scanned.total();
    let session_blocks_scanned: u32 = total_blocks_scanned.saturating_sub(initial.previously_scanned_blocks);
    let session_blocks: u32 = total_blocks.saturating_sub(initial.previously_scanned_blocks);
    let done = Progress { scanned: 1, total: 1 };
    let total_blocks_progress = progress(total_blocks_scanned as u64, total_blocks as u64, done);
    let session_blocks_progress = progress(
        session_blocks_scanned as u64,
        session_blocks as u64,
        total_blocks_progress,
    );
    let previous = OutputCounts {
        sapling: initial.previously_scanned_sapling_outputs,
        orchard: initial.previously_scanned_orchard_outputs,
        ironwood: initial.previously_scanned_ironwood_outputs,
    };
    let session_outputs_scanned = subtract_counts(&scanned, &previous);
    let session_outputs: u64 = total_outputs.saturating_sub(previous.total());
    let total_outputs_progress = progress(total_outputs_scanned, total_outputs, done);
    let session_outputs_progress = progress(
        session_outputs_scanned.total(),
        session_outputs,
        total_outputs_progress,
    );
    let awaits = any_awaits_nullifiers(&state.scan_ranges);
    Ok(
        SyncStatus {
            scan_ranges,
            sync_start_height: initial.sync_start_height,
            session_blocks_scanned,
            total_blocks_scanned,
            session_blocks_progress,
            total_blocks_progress,
            session_outputs_scanned,
            pool_outputs_scanned: scanned,
            session_outputs_progress,
            total_outputs_progress,
            total_outputs_scanned,
            total_outputs,
            awaits_nullifiers: awaits,
        },
    )
}

/// A session that has nothing left to do never shows more progress than the wallet as a whole: where what is recorded
/// of former sessions covers everything, it shows the progress of the wallet.
pub proof fn law_stale_session_shows_total_progress(state: &SyncState, scanned: OutputCounts)
    requires
        state.initial_sync_state.previously_scanned_blocks >= wallet_blocks_total(state),
        previous_outputs(state.initial_sync_state).sum() >= wallet_outputs(state.initial_sync_state).sum(),
    ensures
        status_of(state, scanned).session_blocks_progress == status_of(state, scanned).total_blocks_progress,
        status_of(state, scanned).session_outputs_progress == status_of(state, scanned).total_outputs_progress,
{
}

/// Every total of outputs counts the same pools.
pub proof fn law_output_totals_agree(state: &SyncState, scanned: OutputCounts)
    ensures
        status_of(state, scanned).total_outputs_scanned == status_of(state, scanned).pool_outputs_scanned.sapling
            + status_of(state, scanned).pool_outputs_scanned.orchard + status_of(
            state,
            scanned,
        ).pool_outputs_scanned.ironwood,
        wallet_outputs(state.initial_sync_state).sum() > 0 ==> status_of(state, scanned).total_outputs_progress == (
        Progress {
            scanned: status_of(state, scanned).total_outputs_scanned,
            total: status_of(state, scanned).total_outputs,
        }),
{
}

// --- the result of sync ---

/// What a sync session that ended well did.
#[derive(Clone, Copy, Debug, PartialEq, Eq, Structural)]
pub struct SyncResult {
    pub sync_start_height: BlockHeight,
    pub sync_end_height: BlockHeight,
    pub blocks_scanned: u32,
    pub outputs_scanned: OutputCounts,
    pub total_outputs_progress: Progress,
}

/// The result of a session, from the status at its end.
pub fn sync_result(status: &SyncStatus) -> (r: SyncResult)
    requires
        status.scan_ranges@.len() > 0,
    ensures
        r == (SyncResult {
            sync_start_height: status.sync_start_height,
            sync_end_height: below(status.scan_ranges@.last().block_range.end),
            blocks_scanned: status.session_blocks_scanned,
            outputs_scanned: status.session_outputs_scanned,
            total_outputs_progress: status.total_outputs_progress,
        }),
{
    let last = status.scan_ranges[status.scan_ranges.len() - 1];
    SyncResult {
        sync_start_height: status.sync_start_height,
        sync_end_height: last.block_range.end.saturating_sub(1),
        blocks_scanned: status.session_blocks_scanned,
        outputs_scanned: status.session_outputs_scanned,
        total_outputs_progress: status.total_outputs_progress,
    }
}

} // verus!
