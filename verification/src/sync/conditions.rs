//! Whether a step of a session may be taken: what its functions require, tested on the data at hand.
use crate::chain::{ChainParameters, PoolActivation};
use crate::primitives::{BlockHeight, Nullifier, ShieldedPool};
use crate::scan::compact::{inputs_of, lemma_outputs_grow, outputs_of, CompactBlock, CompactTx};
use crate::scan::scanning::{has_room_for_blocks, lemma_block_outputs_grow, outputs_in_blocks};
use crate::scan_range::{contiguous, meets_next, ScanPriority, ScanRange};
use crate::sorted_map::SortedMap;
use crate::sync::progress::TreeSizes;
use crate::sync::roots::{heights_fit, FetchedRoots};
use crate::sync::select::{find_candidate, is_candidate, lemma_candidate_is_unique, shard_unknown};
use crate::sync::shards::{any_with_block, has_block_range, newest_active_pool, target_pool, SubtreeRoot};
use crate::sync::spend::collect_derived_nullifiers;
use crate::sync::spend_update::{
    has_note, lemma_gathered_notes, lemma_note_is_gathered, lemma_pool_gathered, note_nullifiers, pool_map, spends_placed,
};
use crate::sync::update::{found_note, notes_placed};
use crate::trees::{NoteTree, SHARDS};
use crate::wallet::shard_trees::ShardTrees;
use crate::wallet::stores::{tx_views, txs_in_order, NullifierMap, WalletTransactions};
use crate::wallet::sync_state::{ScanTarget, SyncState};
use crate::wallet::transaction::TransactionView;
use crate::witness::{fetch_start, subtree_fetch_start_index};
use vstd::prelude::*;

verus! {

// --- ranges ---

/// Whether the ranges cover blocks and follow each other without a gap.
pub fn ranges_are_contiguous(ranges: &Vec<ScanRange>) -> (r: bool)
    ensures
        r == contiguous(ranges@),
{
    let count: usize = ranges.len();
    let mut i: usize = 0;
    while i < count
        invariant
            i <= count == ranges@.len(),
            forall|k: int| 0 <= k < i ==> (#[trigger] ranges@[k]).covers_blocks(),
            forall|k: int| 0 <= k < i - 1 ==> #[trigger] meets_next(ranges@, k),
        decreases count - i,
    {
        if ranges[i].is_empty() {
            assert(!ranges@[i as int].covers_blocks());
            return false;
        }
        if i > 0 && ranges[i - 1].block_range.end != ranges[i].block_range.start {
            assert(!meets_next(ranges@, i - 1));
            return false;
        }
        i = i + 1;
    }
    true
}

/// Whether there are blocks to scan around a height: some pool is active there, and the height lies in a shard of it.
pub fn has_blocks_around(
    parameters: &ChainParameters,
    sync_state: &SyncState,
    height: BlockHeight,
    pool: Option<ShieldedPool>,
) -> (r: bool)
    ensures
        r == has_block_range(parameters, sync_state, height, pool),
{
    let active = match pool {
        None => {
            return true;
        },
        Some(pool) => match active_pool(parameters, pool, height) {
            Some(active) => active,
            None => {
                return false;
            },
        },
    };
    let shards = sync_state.shard_ranges(active);
    let count: usize = shards.len();
    let mut i: usize = 0;
    while i < count
        invariant
            i <= count == shards@.len(),
            shards@ == sync_state.shards_of(active),
            pool.is_some(),
            Some(active) == newest_active_pool(parameters, pool->0, height),
            forall|k: int| 0 <= k < i ==> !(#[trigger] shards@[k]).has(height as int),
        decreases count - i,
    {
        if shards[i].contains(height) {
            assert(any_with_block(shards@, height as int));
            return true;
        }
        i = i + 1;
    }
    let (birthday, tip): (u32, u32) = match (sync_state.wallet_birthday(), sync_state.last_known_chain_height()) {
        (Some(birthday), Some(tip)) => (birthday, tip),
        _ => {
            return false;
        },
    };
    let start: u32 = if count > 0 {
        shards[count - 1].end.saturating_sub(1)
    } else {
        PoolActivation::of(parameters, active).unwrap().max_with(birthday)
    };
    start <= height && height < tip.saturating_add(1)
}

/// The newest pool, no newer than `pool`, that is active at the height.
fn active_pool(parameters: &ChainParameters, pool: ShieldedPool, height: BlockHeight) -> (r: Option<ShieldedPool>)
    ensures
        r == newest_active_pool(parameters, pool, height),
        r matches Some(active) ==> parameters.active_at(active, height),
{
    if is_active(parameters, pool, height) {
        Some(pool)
    } else if pool == ShieldedPool::Ironwood && is_active(parameters, ShieldedPool::Orchard, height) {
        Some(ShieldedPool::Orchard)
    } else if pool != ShieldedPool::Sapling && is_active(parameters, ShieldedPool::Sapling, height) {
        Some(ShieldedPool::Sapling)
    } else {
        None
    }
}

/// Whether the pool is active at the height.
fn is_active(parameters: &ChainParameters, pool: ShieldedPool, height: BlockHeight) -> (r: bool)
    ensures
        r == parameters.active_at(pool, height),
{
    match PoolActivation::of(parameters, pool) {
        Some(activation) => height >= activation.height(),
        None => false,
    }
}

/// Whether the shard of the range that is up for scanning can be told, if it must be.
pub fn next_shard_is_known(
    parameters: &ChainParameters,
    sync_state: &SyncState,
    nullifier_map_limit_exceeded: bool,
) -> (r: bool)
    ensures
        r == !shard_unknown(parameters, sync_state, nullifier_map_limit_exceeded),
{
    match find_candidate(&sync_state.scan_ranges, nullifier_map_limit_exceeded) {
        None => true,
        Some(i) => {
            let range = sync_state.scan_ranges[i];
            let known = range.priority != ScanPriority::Historic || has_blocks_around(
                parameters,
                sync_state,
                range.block_range.start,
                Some(ShieldedPool::Ironwood),
            );
            proof {
                let ranges = sync_state.scan_ranges@;
                assert(is_candidate(ranges, i as int, nullifier_map_limit_exceeded));
                assert forall|k: int| #[trigger] is_candidate(ranges, k, nullifier_map_limit_exceeded) implies k == i by {
                    lemma_candidate_is_unique(ranges, k, i as int, nullifier_map_limit_exceeded);
                }
            }
            known
        },
    }
}

// --- spends and notes ---

/// Whether there are blocks around the targets of those of the nullifiers that the map holds.
fn listed_spends_have_blocks(
    parameters: &ChainParameters,
    sync_state: &SyncState,
    pool: ShieldedPool,
    nullifiers: &Vec<Nullifier>,
    map: &SortedMap<Nullifier, ScanTarget>,
) -> (r: bool)
    requires
        map.wf(),
    ensures
        r == forall|i: int|
            0 <= i < nullifiers@.len() && map@.dom().contains(#[trigger] nullifiers@[i]) ==> has_block_range(
                parameters,
                sync_state,
                map@[nullifiers@[i]].block_height,
                target_pool(map@[nullifiers@[i]], pool),
            ),
{
    let count: usize = nullifiers.len();
    let mut i: usize = 0;
    while i < count
        invariant
            i <= count == nullifiers@.len(),
            map.wf(),
            forall|k: int|
                0 <= k < i && map@.dom().contains(#[trigger] nullifiers@[k]) ==> has_block_range(
                    parameters,
                    sync_state,
                    map@[nullifiers@[k]].block_height,
                    target_pool(map@[nullifiers@[k]], pool),
                ),
        decreases count - i,
    {
        if let Some(target) = map.get(&nullifiers[i]) {
            let around = if target.narrow_scan_area {
                None
            } else {
                Some(pool)
            };
            if !has_blocks_around(parameters, sync_state, target.block_height, around) {
                assert(map@.dom().contains(nullifiers@[i as int]));
                return false;
            }
        }
        i = i + 1;
    }
    true
}

/// Whether there are blocks to scan around every spend of the transactions' notes that the map holds.
pub fn spends_have_blocks(
    parameters: &ChainParameters,
    sync_state: &SyncState,
    transactions: &WalletTransactions,
    map: &NullifierMap,
) -> (r: bool)
    requires
        transactions.wf(),
        map.wf(),
    ensures
        r == spends_placed(parameters, sync_state, tx_views(transactions@), map),
{
    let derived = collect_derived_nullifiers(transactions);
    let sapling = listed_spends_have_blocks(
        parameters,
        sync_state,
        ShieldedPool::Sapling,
        &derived.sapling,
        &map.sapling,
    );
    let orchard = listed_spends_have_blocks(
        parameters,
        sync_state,
        ShieldedPool::Orchard,
        &derived.orchard,
        &map.orchard,
    );
    let ironwood = listed_spends_have_blocks(
        parameters,
        sync_state,
        ShieldedPool::Ironwood,
        &derived.ironwood,
        &map.ironwood,
    );
    proof {
        lemma_pool_gathered(transactions);
        let views = tx_views(transactions@);
        lemma_listed_spends(parameters, sync_state, transactions, map, ShieldedPool::Sapling, derived.sapling@);
        lemma_listed_spends(parameters, sync_state, transactions, map, ShieldedPool::Orchard, derived.orchard@);
        lemma_listed_spends(parameters, sync_state, transactions, map, ShieldedPool::Ironwood, derived.ironwood@);
        if sapling && orchard && ironwood {
            assert forall|pool: ShieldedPool, nullifier: Nullifier|
                pool_map(map, pool).dom().contains(nullifier) && #[trigger] has_note(
                    views,
                    pool,
                    nullifier,
                ) implies has_block_range(
                parameters,
                sync_state,
                #[trigger] pool_map(map, pool)[nullifier].block_height,
                target_pool(pool_map(map, pool)[nullifier], pool),
            ) by {
                assert(pool_spends_placed(parameters, sync_state, views, map, pool));
            }
        } else {
            let pool = if !sapling {
                ShieldedPool::Sapling
            } else if !orchard {
                ShieldedPool::Orchard
            } else {
                ShieldedPool::Ironwood
            };
            assert(!pool_spends_placed(parameters, sync_state, views, map, pool));
        }
    }
    sapling && orchard && ironwood
}

/// Whether there are blocks around every spend of a note of the pool.
pub open spec fn pool_spends_placed(
    parameters: &ChainParameters,
    state: &SyncState,
    transactions: Map<crate::primitives::TxId, TransactionView>,
    map: &NullifierMap,
    pool: ShieldedPool,
) -> bool {
    forall|nullifier: Nullifier|
        pool_map(map, pool).dom().contains(nullifier) && #[trigger] has_note(transactions, pool, nullifier)
            ==> has_block_range(
            parameters,
            state,
            pool_map(map, pool)[nullifier].block_height,
            target_pool(pool_map(map, pool)[nullifier], pool),
        )
}

proof fn lemma_listed_spends(
    parameters: &ChainParameters,
    state: &SyncState,
    transactions: &WalletTransactions,
    map: &NullifierMap,
    pool: ShieldedPool,
    nullifiers: Seq<Nullifier>,
)
    requires
        transactions.wf(),
        nullifiers == crate::sync::spend::gathered(
            txs_in_order(transactions),
            |transaction: TransactionView| note_nullifiers(transaction, pool),
        ),
    ensures
        pool_spends_placed(parameters, state, tx_views(transactions@), map, pool) == forall|i: int|
            0 <= i < nullifiers.len() && pool_map(map, pool).dom().contains(#[trigger] nullifiers[i])
                ==> has_block_range(
                parameters,
                state,
                pool_map(map, pool)[nullifiers[i]].block_height,
                target_pool(pool_map(map, pool)[nullifiers[i]], pool),
            ),
{
    let views = tx_views(transactions@);
    let targets = pool_map(map, pool);
    if pool_spends_placed(parameters, state, views, map, pool) {
        assert forall|i: int| 0 <= i < nullifiers.len() && targets.dom().contains(#[trigger] nullifiers[i])
            implies has_block_range(
            parameters,
            state,
            targets[nullifiers[i]].block_height,
            target_pool(targets[nullifiers[i]], pool),
        ) by {
            assert(nullifiers.contains(nullifiers[i]));
            lemma_gathered_notes(transactions, pool, nullifiers[i]);
        }
    }
    if forall|i: int|
        0 <= i < nullifiers.len() && targets.dom().contains(#[trigger] nullifiers[i]) ==> has_block_range(
            parameters,
            state,
            targets[nullifiers[i]].block_height,
            target_pool(targets[nullifiers[i]], pool),
        ) {
        assert forall|nullifier: Nullifier| targets.dom().contains(nullifier) && #[trigger] has_note(
            views,
            pool,
            nullifier,
        ) implies has_block_range(
            parameters,
            state,
            targets[nullifier].block_height,
            target_pool(targets[nullifier], pool),
        ) by {
            lemma_note_is_gathered(transactions, pool, nullifier);
            let i = choose|i: int| 0 <= i < nullifiers.len() && nullifiers[i] == nullifier;
            assert(nullifiers[i] == nullifier);
        }
    }
}

/// Whether there are blocks to scan around the notes of every transaction.
pub fn notes_have_blocks(
    parameters: &ChainParameters,
    sync_state: &SyncState,
    transactions: &WalletTransactions,
) -> (r: bool)
    ensures
        r == forall|i: int|
            0 <= i < txs_in_order(transactions).len() ==> notes_placed(
                parameters,
                sync_state,
                #[trigger] txs_in_order(transactions)[i],
            ),
{
    let ghost txs = txs_in_order(transactions);
    let count: usize = transactions.len();
    let mut i: usize = 0;
    while i < count
        invariant
            i <= count == txs.len(),
            txs == txs_in_order(transactions),
            forall|k: int| 0 <= k < i ==> notes_placed(parameters, sync_state, #[trigger] txs[k]),
        decreases count - i,
    {
        let transaction = &transactions.entry(i).1;
        let height: u32 = transaction.status.get_height();
        assert(txs[i as int] == transaction@);
        let sapling = transaction.has_note(ShieldedPool::Sapling) && !has_blocks_around(
            parameters,
            sync_state,
            height,
            Some(ShieldedPool::Sapling),
        );
        let orchard = transaction.has_note(ShieldedPool::Orchard) && !has_blocks_around(
            parameters,
            sync_state,
            height,
            Some(ShieldedPool::Orchard),
        );
        let ironwood = transaction.has_note(ShieldedPool::Ironwood) && !has_blocks_around(
            parameters,
            sync_state,
            height,
            Some(ShieldedPool::Ironwood),
        );
        if sapling || orchard || ironwood {
            proof {
                let pool = if sapling {
                    ShieldedPool::Sapling
                } else if orchard {
                    ShieldedPool::Orchard
                } else {
                    ShieldedPool::Ironwood
                };
                assert(found_note(txs[i as int], pool));
            }
            return false;
        }
        assert(notes_placed(parameters, sync_state, txs[i as int])) by {
            assert forall|pool: ShieldedPool| #[trigger] found_note(txs[i as int], pool) implies has_block_range(
                parameters,
                sync_state,
                txs[i as int].status.height(),
                Some(pool),
            ) by {
                match pool {
                    ShieldedPool::Sapling => {},
                    ShieldedPool::Orchard => {},
                    ShieldedPool::Ironwood => {},
                }
            }
        }
        i = i + 1;
    }
    true
}

// --- blocks and roots ---

/// The sum of a size and the number of outputs of a pool, if it is the size of a tree.
fn size_with(size: u32, txs: &Vec<CompactTx>, pool: ShieldedPool) -> (r: Option<u32>)
    ensures
        r == if size + outputs_of(txs@, pool) <= u32::MAX {
            Some((size + outputs_of(txs@, pool)) as u32)
        } else {
            None
        },
{
    let mut total: u32 = size;
    let count: usize = txs.len();
    let mut i: usize = 0;
    assert(txs@.take(0) =~= Seq::empty());
    while i < count
        invariant
            i <= count == txs@.len(),
            total == size + outputs_of(txs@.take(i as int), pool),
        decreases count - i,
    {
        let outputs: usize = match pool {
            ShieldedPool::Sapling => txs[i].outputs.len(),
            ShieldedPool::Orchard => txs[i].actions.len(),
            ShieldedPool::Ironwood => txs[i].ironwood_actions.len(),
        };
        proof {
            assert(txs@.take(i + 1).drop_last() =~= txs@.take(i as int));
            assert(txs@.take(i + 1).last() == txs@[i as int]);
            lemma_outputs_grow(txs@, i + 1, pool);
        }
        if outputs > (u32::MAX - total) as usize {
            return None;
        }
        total = total + outputs as u32;
        i = i + 1;
    }
    assert(txs@.take(count as int) =~= txs@);
    Some(total)
}

/// Whether the trees have room for the outputs of the blocks of a pool.
fn pool_has_room(size: u32, blocks: &Vec<CompactBlock>, pool: ShieldedPool) -> (r: bool)
    ensures
        r == (size + outputs_in_blocks(blocks@, blocks@.len() as int, pool) <= u32::MAX),
{
    let mut total: u32 = size;
    let count: usize = blocks.len();
    let mut i: usize = 0;
    while i < count
        invariant
            i <= count == blocks@.len(),
            total == size + outputs_in_blocks(blocks@, i as int, pool),
        decreases count - i,
    {
        proof {
            lemma_block_outputs_grow(blocks@, i + 1, count as int, pool);
        }
        match size_with(total, &blocks[i].vtx, pool) {
            Some(sum) => {
                total = sum;
            },
            None => {
                return false;
            },
        }
        i = i + 1;
    }
    true
}

/// Whether the trees have room for the outputs of the blocks.
pub fn blocks_have_room(sizes: TreeSizes, blocks: &Vec<CompactBlock>) -> (r: bool)
    ensures
        r == has_room_for_blocks(sizes, blocks@),
{
    pool_has_room(sizes.sapling, blocks, ShieldedPool::Sapling) && pool_has_room(
        sizes.orchard,
        blocks,
        ShieldedPool::Orchard,
    ) && pool_has_room(sizes.ironwood, blocks, ShieldedPool::Ironwood)
}

/// Whether there are no more sapling spends than can be counted.
fn spends_are_countable(txs: &Vec<CompactTx>) -> (r: bool)
    ensures
        r == (inputs_of(txs@, ShieldedPool::Sapling) <= u32::MAX),
{
    let mut total: u32 = 0;
    let count: usize = txs.len();
    let mut i: usize = 0;
    assert(txs@.take(0) =~= Seq::empty());
    while i < count
        invariant
            i <= count == txs@.len(),
            total == inputs_of(txs@.take(i as int), ShieldedPool::Sapling),
        decreases count - i,
    {
        proof {
            assert(txs@.take(i + 1).drop_last() =~= txs@.take(i as int));
            assert(txs@.take(i + 1).last() == txs@[i as int]);
            lemma_spends_grow(txs@, i + 1);
        }
        let spends: usize = txs[i].spends.len();
        if spends > (u32::MAX - total) as usize {
            return false;
        }
        total = total + spends as u32;
        i = i + 1;
    }
    assert(txs@.take(count as int) =~= txs@);
    true
}

proof fn lemma_spends_grow(txs: Seq<CompactTx>, n: int)
    requires
        0 <= n <= txs.len(),
    ensures
        inputs_of(txs.take(n), ShieldedPool::Sapling) <= inputs_of(txs, ShieldedPool::Sapling),
    decreases txs.len() - n,
{
    if n == txs.len() {
        assert(txs.take(n) =~= txs);
    } else {
        lemma_spends_grow(txs, n + 1);
        assert(txs.take(n + 1).drop_last() =~= txs.take(n));
    }
}

proof fn lemma_actions_are_inputs(txs: Seq<CompactTx>, pool: ShieldedPool)
    requires
        pool != ShieldedPool::Sapling,
    ensures
        inputs_of(txs, pool) == outputs_of(txs, pool),
    decreases txs.len(),
{
    if txs.len() > 0 {
        lemma_actions_are_inputs(txs.drop_last(), pool);
    }
}

/// Whether the outputs and inputs of a block can be counted.
pub fn block_is_countable(block: &CompactBlock) -> (r: bool)
    ensures
        r == forall|pool: ShieldedPool|
            outputs_of(block.vtx@, pool) <= u32::MAX && #[trigger] inputs_of(block.vtx@, pool) <= u32::MAX,
{
    proof {
        lemma_actions_are_inputs(block.vtx@, ShieldedPool::Orchard);
        lemma_actions_are_inputs(block.vtx@, ShieldedPool::Ironwood);
    }
    let sapling = size_with(0, &block.vtx, ShieldedPool::Sapling).is_some() && spends_are_countable(&block.vtx);
    let orchard = size_with(0, &block.vtx, ShieldedPool::Orchard).is_some();
    let ironwood = size_with(0, &block.vtx, ShieldedPool::Ironwood).is_some();
    proof {
        if sapling && orchard && ironwood {
            assert forall|pool: ShieldedPool|
                outputs_of(block.vtx@, pool) <= u32::MAX && #[trigger] inputs_of(block.vtx@, pool) <= u32::MAX by {
                match pool {
                    ShieldedPool::Sapling => {},
                    ShieldedPool::Orchard => {},
                    ShieldedPool::Ironwood => {},
                }
            }
        } else {
            let pool = if !sapling {
                ShieldedPool::Sapling
            } else if !orchard {
                ShieldedPool::Orchard
            } else {
                ShieldedPool::Ironwood
            };
            assert(!(outputs_of(block.vtx@, pool) <= u32::MAX && inputs_of(block.vtx@, pool) <= u32::MAX));
        }
    }
    sapling && orchard && ironwood
}

/// Whether the heights of the roots are heights, and the tree has room for the roots.
fn pool_roots_fit(tree: &NoteTree, roots: &Vec<SubtreeRoot>) -> (r: bool)
    ensures
        r == (heights_fit(roots@) && fetch_start(tree@.shards) + roots@.len() <= SHARDS),
{
    let count: usize = roots.len();
    let mut i: usize = 0;
    while i < count
        invariant
            i <= count == roots@.len(),
            forall|k: int| 0 <= k < i ==> (#[trigger] roots@[k]).completing_block_height <= u32::MAX,
        decreases count - i,
    {
        if roots[i].completing_block_height > 0xffff_ffff {
            assert(roots@[i as int].completing_block_height > u32::MAX);
            return false;
        }
        i = i + 1;
    }
    let start: usize = subtree_fetch_start_index(tree);
    start as u64 <= SHARDS && count as u64 <= SHARDS - start as u64
}

/// Whether fetched roots can be taken in.
pub fn roots_fit(trees: &ShardTrees, fetched: &FetchedRoots) -> (r: bool)
    ensures
        r == (heights_fit(fetched.sapling@) && heights_fit(fetched.orchard@) && heights_fit(fetched.ironwood@)
            && fetch_start(trees.sapling@.shards) + fetched.sapling@.len() <= SHARDS && fetch_start(
            trees.orchard@.shards,
        ) + fetched.orchard@.len() <= SHARDS && fetch_start(trees.ironwood@.shards) + fetched.ironwood@.len()
            <= SHARDS),
{
    pool_roots_fit(&trees.sapling, &fetched.sapling) && pool_roots_fit(&trees.orchard, &fetched.orchard)
        && pool_roots_fit(&trees.ironwood, &fetched.ironwood)
}

} // verus!
