//! Beginning a sync session, and starting over where the wallet's history cannot be trusted.
use crate::chain::{ChainParameters, PoolActivation};
use crate::error::{ServerError, SyncError};
use crate::primitives::{BlockHeight, ShieldedPool};
use crate::scan_range::{contiguous, covers, spliced, ScanPriority};
use crate::sync::state::{
    blocks_to_verify, coverer, reopen_scan_ranges_inner, reopened, set_verify_scan_range, split_out, truncated, VerifyEnd,
};
use crate::sync::targets::{add_scan_targets, confirmed_targets, is_confirmed_target};
use crate::sync::truncate::{
    data_truncated, targeted_truncate_wallet_height, tree_at_next_checkpoint, truncate_tree_to_next_checkpoint,
};
use crate::trees::{tree_with_frontier, TreeError, TreeView};
use crate::wallet::data::{same_but_stores, stores_cut_off, truncate_stores, Wallet};
use crate::wallet::shard_trees::{fresh_tree, with_tree, ShardTrees, ShardTreesView};
use crate::wallet::stores::tx_views;
use crate::wallet::sync_state::{above, below, ScanTarget, SyncState};
use vstd::prelude::*;

verus! {

/// The maximum number of blocks that the wallet can be truncated by during re-org detection.
pub const MAX_REORG_ALLOWANCE: u32 = 100;

/// Refuses a chain that has only its genesis block.
pub fn check_chain_height(chain_height: BlockHeight) -> (r: Result<(), ServerError>)
    ensures
        r == if chain_height == 0 {
            Err::<(), ServerError>(ServerError::GenesisBlockOnly)
        } else {
            Ok(())
        },
{
    if chain_height == 0 {
        Err(ServerError::GenesisBlockOnly)
    } else {
        Ok(())
    }
}

/// What the wallet height is checked to be.
pub enum HeightCheck {
    /// The wallet is at this height.
    At(BlockHeight),
    /// The wallet is ahead of the chain by less than the allowance, and is taken back to the chain.
    Rewound,
    /// The wallet is ahead of the chain by the allowance or more, or its birthday is: the height that is ahead.
    Ahead(BlockHeight),
    /// The birthday lies below the activation of sapling.
    BelowSapling,
}

/// What the height of a wallet is checked to be against a chain.
pub open spec fn height_check(
    sync_state: &SyncState,
    birthday: BlockHeight,
    chain_height: BlockHeight,
    sapling_activation: BlockHeight,
) -> HeightCheck {
    match sync_state.known_tip() {
        Some(known) => if known > chain_height {
            if known - chain_height >= MAX_REORG_ALLOWANCE {
                HeightCheck::Ahead(known)
            } else {
                HeightCheck::Rewound
            }
        } else {
            HeightCheck::At(known)
        },
        None => if birthday > chain_height {
            HeightCheck::Ahead(birthday)
        } else if birthday < sapling_activation {
            HeightCheck::BelowSapling
        } else {
            HeightCheck::At(below(birthday))
        },
    }
}

/// Ensures that the wallet height from which scan ranges are created is valid.
///
/// A wallet that is ahead of the chain by less than the allowance is truncated to the height of the chain. One that
/// is further ahead needs human attention. On its first sync the wallet is at the height below its birthday, which
/// must be neither above the chain nor below the activation of sapling.
pub fn checked_wallet_height<E>(
    wallet: &mut Wallet,
    chain_height: BlockHeight,
    consensus_parameters: &ChainParameters,
    now: u32,
) -> (r: Result<BlockHeight, SyncError<E>>)
    requires
        old(wallet).wf(),
        consensus_parameters.activation_of(ShieldedPool::Sapling).is_some(),
    ensures
        final(wallet).wf(),
        match height_check(
            &old(wallet).sync_state,
            old(wallet).birthday,
            chain_height,
            consensus_parameters.activation_of(ShieldedPool::Sapling)->0,
        ) {
            HeightCheck::At(height) => r == Ok::<BlockHeight, SyncError<E>>(height) && *final(wallet) == *old(wallet),
            HeightCheck::Rewound => {
                &&& r matches Ok(height) ==> {
                    &&& height == chain_height
                    &&& final(wallet).save_required
                    &&& data_truncated::<E>(
                        old(wallet),
                        &(Wallet {
                            sync_state: old(wallet).sync_state,
                            save_required: old(wallet).save_required,
                            ..*final(wallet)
                        }),
                        chain_height,
                        now,
                        Ok(()),
                    )
                    &&& chain_height == 0 ==> final(wallet).sync_state.blank()
                    &&& chain_height > 0 ==> final(wallet).sync_state.same_but_scan_ranges(&old(wallet).sync_state)
                        && final(wallet).sync_state.scan_ranges@ == truncated(
                        old(wallet).sync_state.scan_ranges@,
                        chain_height,
                    )
                }
                &&& r matches Err(error) ==> data_truncated::<E>(
                    old(wallet),
                    final(wallet),
                    chain_height,
                    now,
                    Err(error),
                )
            },
            HeightCheck::Ahead(height) => r == Err::<BlockHeight, SyncError<E>>(
                SyncError::ChainError(height, MAX_REORG_ALLOWANCE, chain_height),
            ) && *final(wallet) == *old(wallet),
            HeightCheck::BelowSapling => r == Err::<BlockHeight, SyncError<E>>(
                SyncError::BirthdayBelowSapling(
                    old(wallet).birthday,
                    consensus_parameters.activation_of(ShieldedPool::Sapling)->0,
                ),
            ) && *final(wallet) == *old(wallet),
        },
{
    if let Some(known) = wallet.sync_state.last_known_chain_height() {
        if known > chain_height {
            if known - chain_height >= MAX_REORG_ALLOWANCE {
                return Err(SyncError::ChainError(known, MAX_REORG_ALLOWANCE, chain_height));
            }
            if let Err(error) = targeted_truncate_wallet_height(wallet, chain_height, now) {
                return Err(error);
            }
            let ghost mid = *wallet;
            wallet.save_required = true;
            proof {
                let left = Wallet { sync_state: old(wallet).sync_state, ..mid };
                let right = Wallet {
                    sync_state: old(wallet).sync_state,
                    save_required: old(wallet).save_required,
                    ..*wallet
                };
                assert(left == right);
            }
            return Ok(chain_height);
        }
        Ok(known)
    } else {
        let sapling: u32 = PoolActivation::of(consensus_parameters, ShieldedPool::Sapling).unwrap().height;
        if wallet.birthday > chain_height {
            return Err(SyncError::ChainError(wallet.birthday, MAX_REORG_ALLOWANCE, chain_height));
        }
        if wallet.birthday < sapling {
            return Err(SyncError::BirthdayBelowSapling(wallet.birthday, sapling));
        }
        Ok(wallet.birthday.saturating_sub(1))
    }
}

// --- starting over from the activation of a pool ---

/// The trees of all pools at one height, in the form in which a server sends them.
#[derive(Debug, PartialEq, Eq)]
pub struct Frontiers {
    pub sapling: Vec<u8>,
    pub orchard: Vec<u8>,
    pub ironwood: Vec<u8>,
}

impl Frontiers {
    pub open spec fn of(&self, pool: ShieldedPool) -> Seq<u8> {
        match pool {
            ShieldedPool::Sapling => self.sapling@,
            ShieldedPool::Orchard => self.orchard@,
            ShieldedPool::Ironwood => self.ironwood@,
        }
    }
}

/// A pool whose history is being reopened: from where it is rescanned, and the transactions to find again.
#[derive(Debug)]
pub struct PoolReopening {
    pub target_pool: ShieldedPool,
    pub rescan_from: BlockHeight,
    pub rescan_targets: Vec<ScanTarget>,
}

/// The height from which the history of a pool is scanned again.
pub open spec fn rescan_start(activation: BlockHeight, birthday: BlockHeight) -> BlockHeight {
    if activation < birthday {
        birthday
    } else {
        activation
    }
}

/// Begins to take the wallet back to the activation height of the pool: wallet blocks, transactions, nullifiers and
/// outpoints at or above it are removed.
pub fn begin_pool_reopening(
    consensus_parameters: &ChainParameters,
    wallet: &mut Wallet,
    target_pool: ShieldedPool,
    now: u32,
) -> (r: PoolReopening)
    requires
        old(wallet).wf(),
        consensus_parameters.activation_of(target_pool).is_some(),
    ensures
        final(wallet).wf(),
        r.target_pool == target_pool,
        r.rescan_from == rescan_start(consensus_parameters.activation_of(target_pool)->0, old(wallet).birthday),
        forall|t: ScanTarget| #[trigger]
            r.rescan_targets@.contains(t) == is_confirmed_target(
                tx_views(old(wallet).wallet_transactions@),
                r.rescan_from,
                t,
            ),
        stores_cut_off(old(wallet), final(wallet), below(r.rescan_from), false, now),
        same_but_stores(old(wallet), final(wallet)),
{
    let activation = PoolActivation::of(consensus_parameters, target_pool).unwrap();
    let rescan_from: u32 = activation.max_with(wallet.birthday);
    let rescan_targets = confirmed_targets(&wallet.wallet_transactions, rescan_from);
    truncate_stores(wallet, rescan_from.saturating_sub(1), false, now);
    PoolReopening { target_pool, rescan_from, rescan_targets }
}

/// What becomes of the tree of `pool` when the history of `target_pool` is reopened.
///
/// The tree of the pool, and of any pool that came in a later upgrade, starts anew from the frontier at the birthday.
/// That of an earlier pool is truncated to the next checkpoint from where the rescan starts.
pub open spec fn reopened_tree(
    tree: TreeView,
    pool: ShieldedPool,
    target_pool: ShieldedPool,
    rescan_from: BlockHeight,
    birthday: BlockHeight,
    frontier: Seq<u8>,
) -> Result<TreeView, TreeError> {
    if pool.age() >= target_pool.age() {
        tree_with_frontier(fresh_tree(pool != ShieldedPool::Sapling), frontier, birthday)
    } else {
        tree_at_next_checkpoint(tree, below(rescan_from))
    }
}

/// What is left of the tree of `pool` where it could not be taken back: one that starts anew has no frontier.
pub open spec fn refused_tree(tree: TreeView, pool: ShieldedPool, target_pool: ShieldedPool) -> TreeView {
    if pool.age() >= target_pool.age() {
        fresh_tree(pool != ShieldedPool::Sapling)
    } else {
        tree
    }
}

/// Takes the tree of one pool back.
fn reopen_tree(
    trees: &mut ShardTrees,
    pool: ShieldedPool,
    reopening: &PoolReopening,
    birthday: BlockHeight,
    frontiers: &Frontiers,
) -> (r: Result<(), TreeError>)
    requires
        old(trees).wf(),
    ensures
        final(trees).wf(),
        final(trees)@ == with_tree(old(trees)@, pool, final(trees).of(pool)),
        match reopened_tree(
            old(trees).of(pool),
            pool,
            reopening.target_pool,
            reopening.rescan_from,
            birthday,
            frontiers.of(pool),
        ) {
            Ok(tree) => r.is_ok() && final(trees).of(pool) == tree,
            Err(error) => r == Err::<(), TreeError>(error) && final(trees).of(pool) == refused_tree(
                old(trees).of(pool),
                pool,
                reopening.target_pool,
            ),
        },
{
    if pool.not_before(reopening.target_pool) {
        trees.clear_pool(pool);
        match pool {
            ShieldedPool::Sapling => trees.sapling.insert_frontier(frontiers.sapling.as_slice(), birthday),
            ShieldedPool::Orchard => trees.orchard.insert_frontier(frontiers.orchard.as_slice(), birthday),
            ShieldedPool::Ironwood => trees.ironwood.insert_frontier(frontiers.ironwood.as_slice(), birthday),
        }
    } else {
        let height: u32 = reopening.rescan_from.saturating_sub(1);
        match pool {
            ShieldedPool::Sapling => truncate_tree_to_next_checkpoint(height, &mut trees.sapling),
            ShieldedPool::Orchard => truncate_tree_to_next_checkpoint(height, &mut trees.orchard),
            ShieldedPool::Ironwood => truncate_tree_to_next_checkpoint(height, &mut trees.ironwood),
        }
    }
}

/// Whether the trees could all be taken back.
pub open spec fn trees_reopened(
    before: &Wallet,
    after: ShardTreesView,
    reopening: &PoolReopening,
    frontiers: &Frontiers,
) -> bool {
    let target = reopening.target_pool;
    let from = reopening.rescan_from;
    let birthday = before.birthday;
    &&& reopened_tree(
        before.shard_trees@.sapling,
        ShieldedPool::Sapling,
        target,
        from,
        birthday,
        frontiers.sapling@,
    ) == Ok::<TreeView, TreeError>(after.sapling)
    &&& reopened_tree(
        before.shard_trees@.orchard,
        ShieldedPool::Orchard,
        target,
        from,
        birthday,
        frontiers.orchard@,
    ) == Ok::<TreeView, TreeError>(after.orchard)
    &&& reopened_tree(
        before.shard_trees@.ironwood,
        ShieldedPool::Ironwood,
        target,
        from,
        birthday,
        frontiers.ironwood@,
    ) == Ok::<TreeView, TreeError>(after.ironwood)
}

/// The trees where they could not all be taken back: those of the pools before the first that could not are taken back,
/// and those behind it are as they were.
pub open spec fn partly_reopened(
    trees: ShardTreesView,
    target_pool: ShieldedPool,
    sapling: Result<TreeView, TreeError>,
    orchard: Result<TreeView, TreeError>,
) -> ShardTreesView {
    match (sapling, orchard) {
        (Err(_), _) => ShardTreesView {
            sapling: refused_tree(trees.sapling, ShieldedPool::Sapling, target_pool),
            ..trees
        },
        (Ok(sapling), Err(_)) => ShardTreesView {
            sapling,
            orchard: refused_tree(trees.orchard, ShieldedPool::Orchard, target_pool),
            ..trees
        },
        (Ok(sapling), Ok(orchard)) => ShardTreesView {
            sapling,
            orchard,
            ironwood: refused_tree(trees.ironwood, ShieldedPool::Ironwood, target_pool),
        },
    }
}

/// The first error among those of the trees of the three pools.
pub open spec fn first_tree_error(
    sapling: Result<TreeView, TreeError>,
    orchard: Result<TreeView, TreeError>,
    ironwood: Result<TreeView, TreeError>,
) -> Option<TreeError> {
    match (sapling, orchard, ironwood) {
        (Err(error), _, _) => Some(error),
        (Ok(_), Err(error), _) => Some(error),
        (Ok(_), Ok(_), Err(error)) => Some(error),
        (Ok(_), Ok(_), Ok(_)) => None,
    }
}

/// Finishes to take the wallet back to the activation height of a pool: the trees are taken back, with the frontiers
/// at the birthday, and the scan ranges are reopened.
///
/// Some tree data of earlier pools above the activation height may be kept. It is correct, and inserting it again on
/// rescan does no harm.
pub fn finish_pool_reopening(wallet: &mut Wallet, reopening: &PoolReopening, frontiers: &Frontiers) -> (r: Result<
    (),
    TreeError,
>)
    requires
        old(wallet).wf(),
    ensures
        final(wallet).wf(),
        match first_tree_error(
            reopened_tree(
                old(wallet).shard_trees@.sapling,
                ShieldedPool::Sapling,
                reopening.target_pool,
                reopening.rescan_from,
                old(wallet).birthday,
                frontiers.sapling@,
            ),
            reopened_tree(
                old(wallet).shard_trees@.orchard,
                ShieldedPool::Orchard,
                reopening.target_pool,
                reopening.rescan_from,
                old(wallet).birthday,
                frontiers.orchard@,
            ),
            reopened_tree(
                old(wallet).shard_trees@.ironwood,
                ShieldedPool::Ironwood,
                reopening.target_pool,
                reopening.rescan_from,
                old(wallet).birthday,
                frontiers.ironwood@,
            ),
        ) {
            Some(error) => {
                &&& r == Err::<(), TreeError>(error)
                &&& *final(wallet) == (Wallet { shard_trees: final(wallet).shard_trees, ..*old(wallet) })
                &&& final(wallet).shard_trees@ == partly_reopened(
                    old(wallet).shard_trees@,
                    reopening.target_pool,
                    reopened_tree(
                        old(wallet).shard_trees@.sapling,
                        ShieldedPool::Sapling,
                        reopening.target_pool,
                        reopening.rescan_from,
                        old(wallet).birthday,
                        frontiers.sapling@,
                    ),
                    reopened_tree(
                        old(wallet).shard_trees@.orchard,
                        ShieldedPool::Orchard,
                        reopening.target_pool,
                        reopening.rescan_from,
                        old(wallet).birthday,
                        frontiers.orchard@,
                    ),
                )
            },
            None => {
                &&& r.is_ok()
                &&& trees_reopened(old(wallet), final(wallet).shard_trees@, reopening, frontiers)
                &&& final(wallet).sync_state.scan_ranges@ == reopened(
                    old(wallet).sync_state.scan_ranges@,
                    reopening.rescan_from,
                )
                &&& forall|t: ScanTarget| #[trigger]
                    final(wallet).sync_state.scan_targets@.dom().contains(t) == (
                    old(wallet).sync_state.scan_targets@.dom().contains(t) || reopening.rescan_targets@.contains(t))
                &&& final(wallet).sync_state.sapling_shard_ranges@ == old(wallet).sync_state.sapling_shard_ranges@
                &&& final(wallet).sync_state.orchard_shard_ranges@ == old(wallet).sync_state.orchard_shard_ranges@
                &&& final(wallet).sync_state.ironwood_shard_ranges@ == old(wallet).sync_state.ironwood_shard_ranges@
                &&& final(wallet).sync_state.initial_sync_state == old(wallet).sync_state.initial_sync_state
                &&& final(wallet).save_required
                &&& final(wallet).wallet_blocks == old(wallet).wallet_blocks
                &&& final(wallet).wallet_transactions == old(wallet).wallet_transactions
                &&& final(wallet).nullifiers == old(wallet).nullifiers
                &&& final(wallet).outpoints == old(wallet).outpoints
                &&& final(wallet).birthday == old(wallet).birthday
                &&& final(wallet).transparent_addresses == old(wallet).transparent_addresses
            },
        },
{
    let birthday: u32 = wallet.birthday;
    if let Err(error) = reopen_tree(&mut wallet.shard_trees, ShieldedPool::Sapling, reopening, birthday, frontiers) {
        return Err(error);
    }
    if let Err(error) = reopen_tree(&mut wallet.shard_trees, ShieldedPool::Orchard, reopening, birthday, frontiers) {
        return Err(error);
    }
    if let Err(error) = reopen_tree(&mut wallet.shard_trees, ShieldedPool::Ironwood, reopening, birthday, frontiers) {
        return Err(error);
    }
    reopen_scan_ranges_inner(&mut wallet.sync_state, reopening.rescan_from);
    add_scan_targets(&mut wallet.sync_state, &reopening.rescan_targets);
    wallet.save_required = true;
    Ok(())
}

/// The error that ends the session in which the history of a pool was reopened.
pub fn pool_history_reopened<E>(
    reopening: &PoolReopening,
    disagreed_at: BlockHeight,
    block_metadata_size: u32,
    calculated_size: u32,
) -> (r: SyncError<E>)
    ensures
        r == (SyncError::<E>::PoolHistoryReopened {
            pool: reopening.target_pool,
            rescan_from: reopening.rescan_from,
            disagreed_at,
            block_metadata_size,
            calculated_size,
        }),
{
    SyncError::PoolHistoryReopened {
        pool: reopening.target_pool,
        rescan_from: reopening.rescan_from,
        disagreed_at,
        block_metadata_size,
        calculated_size,
    }
}

/// Has the first blocks above what is scanned verified against what is scanned, if there are any. Returns the height
/// from which a re-org is looked for.
pub fn begin_verification(sync_state: &mut SyncState, chain_height: BlockHeight) -> (r: BlockHeight)
    requires
        contiguous(old(sync_state).scan_ranges@),
        old(sync_state).scan_ranges@.len() > 0,
        above(old(sync_state).scanned_top()->0) <= chain_height ==> covers(
            old(sync_state).scan_ranges@,
            above(old(sync_state).scanned_top()->0) as int,
        ),
    ensures
        final(sync_state).same_but_scan_ranges(old(sync_state)),
        contiguous(final(sync_state).scan_ranges@),
        ({
            let ranges = old(sync_state).scan_ranges@;
            let first = above(old(sync_state).scanned_top()->0);
            let at = coverer(ranges, first as int);
            let verified = blocks_to_verify(ranges[at].block_range, VerifyEnd::VerifyLowest);
            if first <= chain_height {
                &&& r == verified.start
                &&& final(sync_state).scan_ranges@ == spliced(
                    ranges,
                    at,
                    split_out(ranges[at], verified, ScanPriority::Verify),
                )
            } else {
                r == first && final(sync_state).scan_ranges@ == ranges
            }
        }),
{
    let first: u32 = sync_state.highest_scanned_height().unwrap().saturating_add(1);
    if first <= chain_height {
        set_verify_scan_range(sync_state, first, VerifyEnd::VerifyLowest).block_range.start
    } else {
        first
    }
}

/// The block below reopened scan ranges that the wallet does not hold, so that it must be fetched: the rescan takes
/// the sizes of the trees from it.
pub fn missing_block_below(wallet: &Wallet, from_height: BlockHeight) -> (r: Option<BlockHeight>)
    requires
        wallet.wf(),
    ensures
        r == if wallet.wallet_blocks@.dom().contains(below(from_height)) {
            None
        } else {
            Some(below(from_height))
        },
{
    let height: u32 = from_height.saturating_sub(1);
    if wallet.wallet_blocks.contains_key(&height) {
        None
    } else {
        Some(height)
    }
}

} // verus!
