//! What the chain tells of the note commitment trees before anything is scanned.
use crate::chain::{ChainParameters, PoolActivation};
use crate::error::ServerError;
use crate::primitives::{BlockHeight, BlockRange, ShieldedPool};
use crate::sync::session::Frontiers;
use crate::sync::shards::{
    add_shard_ranges, completing_heights, pop_newest_shard_range, same_but_shards_of, with_shards, SubtreeRoot,
};
use crate::trees::{tree_with_frontier, TreeError, TreeView, SHARDS};
use crate::wallet::data::Wallet;
use crate::wallet::shard_trees::{ShardTrees, ShardTreesView};
use crate::wallet::sync_state::SyncState;
use crate::witness::{
    add_subtree_roots, fetch_start, stored_subtree_root_count, subtree_fetch_start_index, valid_roots, with_roots,
};
use vstd::prelude::*;

verus! {

/// The index from which the roots of each pool are fetched.
#[derive(Clone, Copy, Debug, PartialEq, Eq, Structural)]
pub struct RootRequests {
    pub sapling: usize,
    pub orchard: usize,
    pub ironwood: usize,
}

/// Says from which index the roots of each pool are fetched.
pub fn root_requests(trees: &ShardTrees) -> (r: RootRequests)
    ensures
        r.sapling == fetch_start(trees.sapling@.shards),
        r.orchard == fetch_start(trees.orchard@.shards),
        r.ironwood == fetch_start(trees.ironwood@.shards),
{
    RootRequests {
        sapling: subtree_fetch_start_index(&trees.sapling),
        orchard: subtree_fetch_start_index(&trees.orchard),
        ironwood: subtree_fetch_start_index(&trees.ironwood),
    }
}

/// The shard ranges once roots were fetched: the newest one goes first if its root was fetched again.
pub open spec fn ranges_with_roots(
    ranges: Seq<BlockRange>,
    refetched: bool,
    activation: BlockHeight,
    roots: Seq<SubtreeRoot>,
) -> Seq<BlockRange> {
    let kept = if refetched && roots.len() > 0 && ranges.len() > 0 {
        ranges.drop_last()
    } else {
        ranges
    };
    with_shards(kept, activation, completing_heights(roots))
}

/// Whether the heights of the roots are block heights.
pub open spec fn heights_fit(roots: Seq<SubtreeRoot>) -> bool {
    forall|i: int| 0 <= i < roots.len() ==> (#[trigger] roots[i]).completing_block_height <= u32::MAX
}

/// Accounts for the roots of one pool in its shard ranges.
fn account_for_roots(
    parameters: &ChainParameters,
    sync_state: &mut SyncState,
    pool: ShieldedPool,
    refetched: bool,
    roots: &Vec<SubtreeRoot>,
)
    requires
        parameters.activation_of(pool).is_some(),
        heights_fit(roots@),
    ensures
        final(sync_state).shards_of(pool) == ranges_with_roots(
            old(sync_state).shards_of(pool),
            refetched,
            parameters.activation_of(pool)->0,
            roots@,
        ),
        same_but_shards_of(final(sync_state), old(sync_state), pool),
{
    if refetched && roots.len() > 0 {
        pop_newest_shard_range(sync_state, pool);
    }
    add_shard_ranges(parameters, pool, sync_state, roots);
}

/// The roots of the complete subtrees of each pool, as they were fetched.
#[derive(Debug)]
pub struct FetchedRoots {
    pub sapling: Vec<SubtreeRoot>,
    pub orchard: Vec<SubtreeRoot>,
    /// None where the server does not serve them.
    pub ironwood: Vec<SubtreeRoot>,
}

/// Whether the ironwood roots count: the pool is on the chain.
pub open spec fn ironwood_roots(parameters: &ChainParameters, fetched: &FetchedRoots) -> Seq<SubtreeRoot> {
    if parameters.activation_of(ShieldedPool::Ironwood).is_some() {
        fetched.ironwood@
    } else {
        Seq::empty()
    }
}

/// The tree once roots were fetched from the index where fetching starts, up to one that is not a node.
pub open spec fn tree_with_roots(tree: TreeView, roots: Seq<SubtreeRoot>) -> TreeView {
    TreeView {
        shards: with_roots(
            tree.shards,
            fetch_start(tree.shards),
            roots.take(valid_roots(roots, tree.orchard) as int),
        ),
        ..tree
    }
}

/// Takes in the roots that were fetched from the indices that [`root_requests`] gave.
///
/// The newest shard range of a pool is dropped where its root was fetched again, so that it is rebuilt from the root
/// and corrected if a re-org moved the block that completed it. Where a root is not a node of the tree, the pools
/// before it and the shard ranges have been updated.
pub fn update_subtree_roots(parameters: &ChainParameters, wallet: &mut Wallet, fetched: &FetchedRoots) -> (r: Result<
    (),
    ServerError,
>)
    requires
        old(wallet).wf(),
        parameters.activation_of(ShieldedPool::Sapling).is_some(),
        parameters.activation_of(ShieldedPool::Orchard).is_some(),
        heights_fit(fetched.sapling@),
        heights_fit(fetched.orchard@),
        heights_fit(fetched.ironwood@),
        fetch_start(old(wallet).shard_trees.sapling@.shards) + fetched.sapling@.len() <= SHARDS,
        fetch_start(old(wallet).shard_trees.orchard@.shards) + fetched.orchard@.len() <= SHARDS,
        fetch_start(old(wallet).shard_trees.ironwood@.shards) + fetched.ironwood@.len() <= SHARDS,
    ensures
        final(wallet).wf(),
        ({
            let trees = old(wallet).shard_trees@;
            let before = old(wallet).sync_state;
            let after = final(wallet).sync_state;
            let ironwood = ironwood_roots(parameters, fetched);
            &&& after.sapling_shard_ranges@ == ranges_with_roots(
                before.sapling_shard_ranges@,
                fetch_start(trees.sapling.shards) < trees.sapling.shards.len(),
                parameters.activation_of(ShieldedPool::Sapling)->0,
                fetched.sapling@,
            )
            &&& after.orchard_shard_ranges@ == ranges_with_roots(
                before.orchard_shard_ranges@,
                fetch_start(trees.orchard.shards) < trees.orchard.shards.len(),
                parameters.activation_of(ShieldedPool::Orchard)->0,
                fetched.orchard@,
            )
            &&& after.ironwood_shard_ranges@ == if ironwood.len() == 0 {
                before.ironwood_shard_ranges@
            } else {
                ranges_with_roots(
                    before.ironwood_shard_ranges@,
                    fetch_start(trees.ironwood.shards) < trees.ironwood.shards.len(),
                    parameters.activation_of(ShieldedPool::Ironwood)->0,
                    ironwood,
                )
            }
            &&& after.scan_ranges == before.scan_ranges
            &&& after.scan_targets == before.scan_targets
            &&& after.initial_sync_state == before.initial_sync_state
            &&& final(wallet).shard_trees.sapling@ == tree_with_roots(trees.sapling, fetched.sapling@)
            &&& if valid_roots(fetched.sapling@, false) != fetched.sapling@.len() {
                &&& r == Err::<(), ServerError>(ServerError::InvalidSubtreeRoot)
                &&& final(wallet).shard_trees.orchard == old(wallet).shard_trees.orchard
                &&& final(wallet).shard_trees.ironwood == old(wallet).shard_trees.ironwood
                &&& final(wallet).save_required == old(wallet).save_required
            } else {
                &&& final(wallet).shard_trees.orchard@ == tree_with_roots(trees.orchard, fetched.orchard@)
                &&& if valid_roots(fetched.orchard@, true) != fetched.orchard@.len() {
                    &&& r == Err::<(), ServerError>(ServerError::InvalidSubtreeRoot)
                    &&& final(wallet).shard_trees.ironwood == old(wallet).shard_trees.ironwood
                    &&& final(wallet).save_required == old(wallet).save_required
                } else {
                    &&& final(wallet).shard_trees.ironwood@ == tree_with_roots(trees.ironwood, ironwood)
                    &&& if valid_roots(ironwood, true) != ironwood.len() {
                        &&& r == Err::<(), ServerError>(ServerError::InvalidSubtreeRoot)
                        &&& final(wallet).save_required == old(wallet).save_required
                    } else {
                        r.is_ok() && final(wallet).save_required
                    }
                }
            }
        }),
        *final(wallet) == (Wallet {
            sync_state: final(wallet).sync_state,
            shard_trees: final(wallet).shard_trees,
            save_required: final(wallet).save_required,
            ..*old(wallet)
        }),
{
    let starts = root_requests(&wallet.shard_trees);
    let stored_sapling: usize = stored_subtree_root_count(&wallet.shard_trees.sapling);
    let stored_orchard: usize = stored_subtree_root_count(&wallet.shard_trees.orchard);
    let stored_ironwood: usize = stored_subtree_root_count(&wallet.shard_trees.ironwood);
    let none: Vec<SubtreeRoot> = Vec::new();
    let ironwood_active = PoolActivation::of(parameters, ShieldedPool::Ironwood).is_some();
    let ironwood = if ironwood_active {
        &fetched.ironwood
    } else {
        &none
    };
    proof {
        assert(none@ =~= Seq::<SubtreeRoot>::empty());
        assert(ironwood@ == ironwood_roots(parameters, fetched));
    }
    let ghost s0 = wallet.sync_state;
    account_for_roots(
        parameters,
        &mut wallet.sync_state,
        ShieldedPool::Sapling,
        starts.sapling < stored_sapling,
        &fetched.sapling,
    );
    let ghost s1 = wallet.sync_state;
    account_for_roots(
        parameters,
        &mut wallet.sync_state,
        ShieldedPool::Orchard,
        starts.orchard < stored_orchard,
        &fetched.orchard,
    );
    let ghost s2 = wallet.sync_state;
    proof {
        assert(s1.shards_of(ShieldedPool::Orchard) == s0.shards_of(ShieldedPool::Orchard));
        assert(s1.shards_of(ShieldedPool::Ironwood) == s0.shards_of(ShieldedPool::Ironwood));
        assert(s2.shards_of(ShieldedPool::Sapling) == s1.shards_of(ShieldedPool::Sapling));
        assert(s2.shards_of(ShieldedPool::Ironwood) == s1.shards_of(ShieldedPool::Ironwood));
    }
    if ironwood.len() > 0 {
        account_for_roots(
            parameters,
            &mut wallet.sync_state,
            ShieldedPool::Ironwood,
            starts.ironwood < stored_ironwood,
            ironwood,
        );
    }
    proof {
        assert(wallet.sync_state.shards_of(ShieldedPool::Sapling) == s2.shards_of(ShieldedPool::Sapling));
        assert(wallet.sync_state.shards_of(ShieldedPool::Orchard) == s2.shards_of(ShieldedPool::Orchard));
    }
    if let Err(error) = add_subtree_roots(starts.sapling as u64, &fetched.sapling, &mut wallet.shard_trees.sapling) {
        return Err(error);
    }
    if let Err(error) = add_subtree_roots(starts.orchard as u64, &fetched.orchard, &mut wallet.shard_trees.orchard) {
        return Err(error);
    }
    if let Err(error) = add_subtree_roots(starts.ironwood as u64, ironwood, &mut wallet.shard_trees.ironwood) {
        return Err(error);
    }
    wallet.save_required = true;
    Ok(())
}

// --- the frontier at the birthday ---

/// Whether the trees still lack what is before the birthday: they hold only the checkpoint that they were made with,
/// and the birthday is not the activation of sapling, before which there are no trees.
pub fn needs_initial_frontier(parameters: &ChainParameters, wallet: &Wallet) -> (r: bool)
    requires
        parameters.activation_of(ShieldedPool::Sapling).is_some(),
    ensures
        r == (wallet.birthday != parameters.activation_of(ShieldedPool::Sapling)->0 && exists|id: BlockHeight|
            wallet.shard_trees.sapling@.checkpoints.dom() == set![id]),
{
    let sapling: u32 = PoolActivation::of(parameters, ShieldedPool::Sapling).unwrap().height;
    if wallet.birthday == sapling {
        return false;
    }
    let entries = wallet.shard_trees.sapling.checkpoints();
    let ghost held = wallet.shard_trees.sapling@.checkpoints;
    proof {
        if entries@.len() == 1 {
            let id = entries@[0].id;
            assert(held.contains_key(entries@[0].id));
            assert(held.dom() =~= set![id]) by {
                assert forall|other: BlockHeight| held.dom().contains(other) implies other == id by {
                    assert(held.contains_key(other));
                    let k = choose|k: int| 0 <= k < entries@.len() && (#[trigger] entries@[k]).id == other;
                }
            }
        }
        if exists|id: BlockHeight| held.dom() == set![id] {
            let id = choose|id: BlockHeight| held.dom() == set![id];
            assert(held.dom().contains(id));
            assert(held.contains_key(id));
            let k = choose|k: int| 0 <= k < entries@.len() && (#[trigger] entries@[k]).id == id;
            if entries@.len() > 1 {
                assert(held.contains_key(entries@[0].id));
                assert(held.contains_key(entries@[1].id));
                assert(held.dom().contains(entries@[0].id));
                assert(held.dom().contains(entries@[1].id));
                assert(entries@[0].id < entries@[1].id);
            }
        }
    }
    entries.len() == 1
}

/// Adds the frontiers at the birthday, which complete the trees.
pub fn add_initial_frontier(wallet: &mut Wallet, frontiers: &Frontiers) -> (r: Result<(), TreeError>)
    requires
        old(wallet).wf(),
    ensures
        final(wallet).wf(),
        ({
            let trees = old(wallet).shard_trees@;
            let birthday = old(wallet).birthday;
            match tree_with_frontier(trees.sapling, frontiers.sapling@, birthday) {
                Err(error) => r == Err::<(), TreeError>(error) && final(wallet).shard_trees@ == trees,
                Ok(sapling) => match tree_with_frontier(trees.orchard, frontiers.orchard@, birthday) {
                    Err(error) => r == Err::<(), TreeError>(error) && final(wallet).shard_trees@ == (ShardTreesView {
                        sapling,
                        ..trees
                    }),
                    Ok(orchard) => match tree_with_frontier(trees.ironwood, frontiers.ironwood@, birthday) {
                        Err(error) => r == Err::<(), TreeError>(error) && final(wallet).shard_trees@ == (
                        ShardTreesView { sapling, orchard, ..trees }),
                        Ok(ironwood) => {
                            &&& r.is_ok()
                            &&& final(wallet).shard_trees.sapling@ == sapling
                            &&& final(wallet).shard_trees.orchard@ == orchard
                            &&& final(wallet).shard_trees.ironwood@ == ironwood
                            &&& final(wallet).save_required
                        },
                    },
                },
            }
        }),
        r.is_err() ==> final(wallet).save_required == old(wallet).save_required,
        *final(wallet) == (Wallet {
            shard_trees: final(wallet).shard_trees,
            save_required: final(wallet).save_required,
            ..*old(wallet)
        }),
{
    let birthday: u32 = wallet.birthday;
    if let Err(error) = wallet.shard_trees.sapling.insert_frontier(frontiers.sapling.as_slice(), birthday) {
        return Err(error);
    }
    if let Err(error) = wallet.shard_trees.orchard.insert_frontier(frontiers.orchard.as_slice(), birthday) {
        return Err(error);
    }
    if let Err(error) = wallet.shard_trees.ironwood.insert_frontier(frontiers.ironwood.as_slice(), birthday) {
        return Err(error);
    }
    wallet.save_required = true;
    Ok(())
}

} // verus!
