//! What becomes of the trees and of the other stores when a wallet is taken back, cleared or reopened, and how leaves and
//! frontiers find their places.
use crate::chain::ChainParameters;
use crate::error::{ServerError, SyncError};
use crate::outside::{leaf_count, tree_state_frontier, tree_state_parts};
use crate::primitives::{BlockHeight, Nullifier, OutputId, ShieldedPool, TxId};
use crate::scan_range::ScanRange;
use crate::sync::fetched::frontiers_of_tree_state;
use crate::sync::progress::TreeSizes;
use crate::sync::roots::{ironwood_roots, FetchedRoots};
use crate::sync::session::{partly_reopened, Frontiers};
use crate::sync::shards::SubtreeRoot;
use crate::sync::spend_laws::mapped_in;
use crate::sync::truncate::{data_truncated, is_next_checkpoint, tree_at_next_checkpoint, wallet_cleared};
use crate::sync::update::{data_added, with_located, FoundData};
use crate::trees::{
    tree_rolled_back, tree_with_leaves, CheckpointView, Leaf, LocatedLeaves, LocatedTreeData, ShardView, TreeError,
    TreeView,
};
use crate::wallet::data::Wallet;
use crate::wallet::shard_trees::ShardTreesView;
use crate::wallet::stores::NullifierMap;
use crate::wallet::sync_state::ScanTarget;
use crate::wallet::transaction::TransactionView;
use crate::witness::{build_located_trees, located_of, with_roots};
use vstd::prelude::*;

verus! {

/// The tree of a pool.
pub open spec fn tree_in(trees: ShardTreesView, pool: ShieldedPool) -> TreeView {
    match pool {
        ShieldedPool::Sapling => trees.sapling,
        ShieldedPool::Orchard => trees.orchard,
        ShieldedPool::Ironwood => trees.ironwood,
    }
}

/// Whether a tree was checkpointed above a height but not at it, so that it cannot be taken back there.
pub open spec fn is_stranded(tree: TreeView, height: BlockHeight) -> bool {
    &&& !tree.checkpoints.contains_key(height)
    &&& exists|id: BlockHeight| #[trigger] tree.checkpoints.contains_key(id) && id > height
}

/// A truncation that fails for want of a checkpoint names a pool whose tree cannot be taken back, and one that fails in a
/// tree tells what was wrong with it. One that succeeds finds no such tree.
pub proof fn law_truncation_tells_the_pool<E>(
    before: &Wallet,
    after: &Wallet,
    truncate_height: BlockHeight,
    now: u32,
    r: Result<(), SyncError<E>>,
    pool: ShieldedPool,
)
    requires
        data_truncated(before, after, truncate_height, now, r),
        before.sync_state.birthday().is_some(),
        before.sync_state.scanned_top().is_some(),
    ensures
        r matches Err(SyncError::TruncationError(height, condemned)) ==> height == truncate_height && is_stranded(
            tree_in(before.shard_trees@, condemned),
            truncate_height,
        ),
        r matches Err(SyncError::ShardTreeError(error)) ==> exists|refused: ShieldedPool|
            tree_rolled_back(#[trigger] tree_in(before.shard_trees@, refused), truncate_height) == Err::<
                TreeView,
                TreeError,
            >(error),
        r.is_ok() && 0 < truncate_height && before.sync_state.birthday()->0 <= truncate_height
            <= before.sync_state.scanned_top()->0 ==> !is_stranded(tree_in(before.shard_trees@, pool), truncate_height),
{
    let trees = before.shard_trees@;
    assert(tree_in(trees, ShieldedPool::Sapling) == trees.sapling);
    assert(tree_in(trees, ShieldedPool::Orchard) == trees.orchard);
    assert(tree_in(trees, ShieldedPool::Ironwood) == trees.ironwood);
}

/// A wallet that was cleared holds nothing of any block: no ranges, no transactions, no nullifiers of any pool, no
/// outpoints, and trees without leaves. Its birthday and its addresses stay, and it is to be saved.
pub proof fn law_cleared_wallets_hold_nothing(
    before: &Wallet,
    transactions: Map<TxId, TransactionView>,
    after: &Wallet,
    pool: ShieldedPool,
    nullifier: Nullifier,
    outpoint: OutputId,
)
    requires
        wallet_cleared(before, transactions, after),
    ensures
        mapped_in(&after.nullifiers, pool).dom().contains(nullifier) ==> mapped_in(&before.nullifiers, pool).dom().contains(
            nullifier,
        ) && mapped_in(&before.nullifiers, pool)[nullifier].block_height == 0,
        after.outpoints@.dom().contains(outpoint) ==> before.outpoints@.dom().contains(outpoint)
            && before.outpoints@[outpoint].block_height == 0,
        after.sync_state.scan_ranges@.len() == 0,
        after.sync_state.sapling_shard_ranges@.len() == 0,
        after.sync_state.orchard_shard_ranges@.len() == 0,
        after.sync_state.ironwood_shard_ranges@.len() == 0,
        tree_in(after.shard_trees@, pool).shards.len() == 0,
        tree_in(after.shard_trees@, pool).orchard == !(pool is Sapling),
        forall|id: BlockHeight| #[trigger]
            tree_in(after.shard_trees@, pool).checkpoints.contains_key(id) <==> id == 0,
        tree_in(after.shard_trees@, pool).checkpoints[0u32] == (CheckpointView {
            position: None,
            marks_removed: Set::empty(),
        }),
        after.birthday == before.birthday,
        after.transparent_addresses == before.transparent_addresses,
        after.save_required,
{
}

/// Where a tree fails on reopening, those before it are reopened and those behind it stay. The one that fails stays too,
/// unless it was to start anew: it is empty.
pub proof fn law_a_failed_reopening_stops_at_its_tree(
    trees: ShardTreesView,
    target_pool: ShieldedPool,
    sapling: Result<TreeView, TreeError>,
    orchard: Result<TreeView, TreeError>,
)
    ensures
        ({
            let after = partly_reopened(trees, target_pool, sapling, orchard);
            &&& sapling is Err ==> after.orchard == trees.orchard && after.ironwood == trees.ironwood
            &&& sapling is Err && !(target_pool is Sapling) ==> after.sapling == trees.sapling
            &&& sapling is Err && target_pool is Sapling ==> after.sapling.shards.len() == 0 && !after.sapling.orchard
            &&& sapling matches Ok(tree) ==> after.sapling == tree
            &&& sapling is Ok && orchard is Err ==> after.ironwood == trees.ironwood
            &&& sapling is Ok && orchard is Err && target_pool is Ironwood ==> after.orchard == trees.orchard
            &&& sapling is Ok && orchard is Err && !(target_pool is Ironwood) ==> after.orchard.shards.len() == 0
                && after.orchard.orchard
            &&& sapling is Ok ==> (orchard matches Ok(tree) ==> after.orchard == tree)
            &&& sapling is Ok && orchard is Ok ==> after.ironwood.shards.len() == 0 && after.ironwood.orchard
        }),
{
}

/// Roots of the third pool are taken exactly where the chain has it.
pub proof fn law_roots_of_a_missing_pool_are_not_taken(parameters: &ChainParameters, fetched: &FetchedRoots)
    ensures
        parameters.activation_of(ShieldedPool::Ironwood).is_none() ==> ironwood_roots(parameters, fetched).len() == 0,
        parameters.activation_of(ShieldedPool::Ironwood).is_some() ==> ironwood_roots(parameters, fetched)
            == fetched.ironwood@,
{
}

/// Every leaf is in one of the trees that are built, at the position that it has behind the first.
pub proof fn law_leaves_keep_their_positions(
    orchard: bool,
    initial_position: u64,
    leaves: &Vec<Leaf>,
    located_tree_size: usize,
    trees: Vec<LocatedTreeData>,
    k: int,
)
    requires
        call_ensures(
            build_located_trees,
            (orchard, initial_position, leaves, located_tree_size),
            Ok::<Vec<LocatedTreeData>, TreeError>(trees),
        ),
        located_tree_size > 0,
        initial_position + leaves@.len() <= u64::MAX,
        0 <= k < leaves@.len(),
    ensures
        ({
            let i = k / located_tree_size as int;
            let within = k % located_tree_size as int;
            &&& 0 <= i < trees@.len()
            &&& trees@[i]@.orchard == orchard
            &&& within < trees@[i]@.leaves.len() <= located_tree_size
            &&& trees@[i]@.leaves[within] == leaves@[k]
            &&& trees@[i]@.start + within == initial_position + k
        }),
{
    let size = located_tree_size as int;
    let i = k / size;
    let within = k % size;
    assert(k == i * size + within && 0 <= within < size && i >= 0) by (nonlinear_arith)
        requires
            size > 0,
            k >= 0,
            i == k / size,
            within == k % size,
    ;
    let n = trees@.len() as int;
    assert(i < n) by (nonlinear_arith)
        requires
            k == i * size + within,
            within >= 0,
            k < n * size,
            size > 0,
    ;
    let located = located_of(trees@);
    assert(located[i] == trees@[i]@);
}

/// The text of a pool.
pub open spec fn text_of(sapling: &str, orchard: &str, ironwood: &str, pool: ShieldedPool) -> Seq<char> {
    match pool {
        ShieldedPool::Sapling => sapling@,
        ShieldedPool::Orchard => orchard@,
        ShieldedPool::Ironwood => ironwood@,
    }
}

/// The bytes of the frontier of a pool.
pub open spec fn frontier_in(frontiers: Frontiers, pool: ShieldedPool) -> Seq<u8> {
    match pool {
        ShieldedPool::Sapling => frontiers.sapling@,
        ShieldedPool::Orchard => frontiers.orchard@,
        ShieldedPool::Ironwood => frontiers.ironwood@,
    }
}

/// The frontier and the size of each pool are those of the tree that its own text encodes.
pub proof fn law_each_pool_has_the_frontier_of_its_text(
    sapling: &str,
    orchard: &str,
    ironwood: &str,
    frontiers: Frontiers,
    sizes: TreeSizes,
    pool: ShieldedPool,
)
    requires
        call_ensures(
            frontiers_of_tree_state,
            (sapling, orchard, ironwood),
            Ok::<(Frontiers, TreeSizes), ServerError>((frontiers, sizes)),
        ),
    ensures
        frontier_in(frontiers, pool) == tree_state_frontier(text_of(sapling, orchard, ironwood, pool), pool),
        tree_state_parts(text_of(sapling, orchard, ironwood, pool), pool) is Ok,
        crate::scan::scan_laws::size_in(sizes, pool) == leaf_count(
            tree_state_parts(text_of(sapling, orchard, ironwood, pool), pool)->Ok_0,
        ),
{
}

/// A text that encodes no tree is told as the server's fault, with what is wrong with it.
pub proof fn law_malformed_frontiers_are_told(
    sapling: &str,
    orchard: &str,
    ironwood: &str,
    r: Result<(Frontiers, TreeSizes), ServerError>,
    pool: ShieldedPool,
)
    requires
        call_ensures(frontiers_of_tree_state, (sapling, orchard, ironwood), r),
        tree_state_parts(text_of(sapling, orchard, ironwood, pool), pool) is Err,
    ensures
        r matches Err(ServerError::InvalidFrontier(_)),
        pool is Sapling ==> r->Err_0->InvalidFrontier_0@ == tree_state_parts(sapling@, pool)->Err_0,
{
}

// --- leaves that were scanned ---

/// The leaves of a pool that were found.
pub open spec fn located_in(found: &FoundData, pool: ShieldedPool) -> Seq<LocatedLeaves> {
    match pool {
        ShieldedPool::Sapling => located_of(found.sapling_located_trees@),
        ShieldedPool::Orchard => located_of(found.orchard_located_trees@),
        ShieldedPool::Ironwood => located_of(found.ironwood_located_trees@),
    }
}

/// Adding what was found succeeds exactly where the tree of every pool takes the leaves of that pool, and each tree is
/// then what it is with them. Otherwise the first error is told, and the trees behind it stay.
pub proof fn law_leaves_go_to_the_tree_of_their_pool(
    parameters: &ChainParameters,
    before: &Wallet,
    after: &Wallet,
    scan_range: &ScanRange,
    nullifiers: &NullifierMap,
    outpoints: Map<OutputId, ScanTarget>,
    found: &FoundData,
    r: Result<(), TreeError>,
    pool: ShieldedPool,
)
    requires
        data_added(parameters, before, after, scan_range, nullifiers, outpoints, found, r),
    ensures
        r.is_ok() ==> with_located(tree_in(before.shard_trees@, pool), located_in(found, pool)) == Ok::<
            TreeView,
            TreeError,
        >(tree_in(after.shard_trees@, pool)),
        with_located(tree_in(before.shard_trees@, pool), located_in(found, pool)) is Err ==> r is Err,
        r matches Err(error) ==> exists|refusing: ShieldedPool|
            with_located(#[trigger] tree_in(before.shard_trees@, refusing), located_in(found, refusing)) == Err::<
                TreeView,
                TreeError,
            >(error),
        with_located(before.shard_trees@.sapling, located_in(found, ShieldedPool::Sapling)) matches Err(error) ==> r
            == Err::<(), TreeError>(error) && after.shard_trees@.orchard == before.shard_trees@.orchard
            && after.shard_trees@.ironwood == before.shard_trees@.ironwood,
{
    let trees = before.shard_trees@;
    assert(tree_in(trees, ShieldedPool::Sapling) == trees.sapling);
    assert(tree_in(trees, ShieldedPool::Orchard) == trees.orchard);
    assert(tree_in(trees, ShieldedPool::Ironwood) == trees.ironwood);
}

/// Inserting leaves and then others is inserting all of them, and nothing is left out: with no leaves the tree stays, and
/// one subtree is inserted as it is.
pub proof fn law_leaves_are_inserted_in_turn(tree: TreeView, first: Seq<LocatedLeaves>, second: Seq<LocatedLeaves>)
    ensures
        second.len() == 0 ==> with_located(tree, second) == Ok::<TreeView, TreeError>(tree),
        second.len() == 1 ==> with_located(tree, second) == tree_with_leaves(tree, second[0]),
        with_located(tree, first) matches Ok(between) ==> with_located(tree, first + second) == with_located(
            between,
            second,
        ),
        with_located(tree, first) is Err ==> with_located(tree, first + second) == with_located(tree, first),
    decreases second.len(),
{
    reveal_with_fuel(with_located, 2);
    let all = first + second;
    if second.len() == 0 {
        assert(all =~= first);
    } else {
        law_leaves_are_inserted_in_turn(tree, first, second.drop_last());
        assert(all.drop_last() =~= first + second.drop_last());
        assert(all.last() == second.last());
    }
}

// --- roots ---

/// Each root becomes the shard at its index, of which only the root is known. The shards before the first stay, and there
/// are no more than the roots make.
pub proof fn law_roots_become_shards(shards: Seq<ShardView>, start: int, roots: Seq<SubtreeRoot>, k: int)
    requires
        0 <= start <= shards.len(),
    ensures
        with_roots(shards, start, roots).len() == if start + roots.len() > shards.len() {
            start + roots.len()
        } else {
            shards.len() as int
        },
        0 <= k < start ==> with_roots(shards, start, roots)[k] == shards[k],
        start <= k < start + roots.len() ==> with_roots(shards, start, roots)[k].level == 16
            && with_roots(shards, start, roots)[k].bytes == seq![1u8, 1u8] + roots[k - start].root_hash@ + seq![0u8],
        start + roots.len() <= k < shards.len() ==> with_roots(shards, start, roots)[k] == shards[k],
    decreases roots.len(),
{
    if roots.len() > 0 {
        law_roots_become_shards(shards, start, roots.drop_last(), k);
    }
}

// --- checkpoints ---

/// A tree is taken back to the lowest checkpoint at or above a height, and stays where there is none.
pub proof fn law_trees_go_back_to_the_next_checkpoint(tree: TreeView, height: BlockHeight, id: BlockHeight)
    ensures
        tree.checkpoints.contains_key(height) ==> tree_at_next_checkpoint(tree, height) == tree_rolled_back(tree, height),
        tree.checkpoints.contains_key(id) && height <= id && (forall|other: BlockHeight| #[trigger]
            tree.checkpoints.contains_key(other) ==> other < height || id <= other) ==> tree_at_next_checkpoint(
            tree,
            height,
        ) == tree_rolled_back(tree, id),
        (forall|other: BlockHeight| #[trigger] tree.checkpoints.contains_key(other) ==> other < height)
            ==> tree_at_next_checkpoint(tree, height) == Ok::<TreeView, TreeError>(tree),
{
    if tree.checkpoints.contains_key(height) {
        assert(is_next_checkpoint(tree.checkpoints, height, height));
    }
    if tree.checkpoints.contains_key(id) && height <= id && (forall|other: BlockHeight| #[trigger]
        tree.checkpoints.contains_key(other) ==> other < height || id <= other) {
        assert(is_next_checkpoint(tree.checkpoints, height, id));
    }
}

} // verus!
