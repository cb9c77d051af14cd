//! What holds of the search for addresses and of the roots that are fetched, said of what is searched and fetched.
use crate::primitives::{BlockHeight, BlockRange, OutputId, ShieldedPool};
use crate::sorted_map::{keys_ascend, OrderedKey};
use crate::sync::roots::ranges_with_roots;
use crate::sync::session::{first_tree_error, reopened_tree};
use crate::sync::shard_laws::law_each_root_adds_its_shard;
use crate::sync::shards::{completing_heights, SubtreeRoot};
use crate::sync::targets::is_confirmed_target;
use crate::sync::transparent::{
    first_unused, is_last_of, scopes_of, search_range, targets_of, with_addresses, AddressTransaction,
    TransparentAddressDiscoveryScopes,
};
use crate::sync::truncate::tree_at_next_checkpoint;
use crate::trees::{tree_with_frontier, TreeError, TreeView};
use crate::wallet::shard_trees::fresh_tree;
use crate::wallet::status::ConfirmationStatus;
use crate::wallet::stores::{tx_views, WalletTransactions};
use crate::wallet::sync_state::ScanTarget;
use crate::wallet::transaction::{TransparentAddressId, TransparentScope};
use crate::witness::valid_roots;
use crate::outside::leaves_below;
use vstd::arithmetic::power2::{lemma2_to64, lemma_pow2_unfold, pow2};
use vstd::prelude::*;

verus! {

// --- transparent addresses ---

/// Exactly the chosen scopes are searched, each once.
pub proof fn law_chosen_scopes_are_searched(scopes: TransparentAddressDiscoveryScopes)
    ensures
        scopes_of(scopes).contains(TransparentScope::External) == scopes.external,
        scopes_of(scopes).contains(TransparentScope::Internal) == scopes.internal,
        scopes_of(scopes).contains(TransparentScope::Refund) == scopes.refund,
        scopes_of(scopes).no_duplicates(),
{
    let all = scopes_of(scopes);
    if scopes.external {
        assert(all[0] is External);
    }
    if scopes.internal {
        if scopes.external {
            assert(all[1] is Internal);
        } else {
            assert(all[0] is Internal);
        }
    }
    if scopes.refund {
        assert(all[all.len() - 1] is Refund);
    }
}

/// Every block above the last known height is searched, and the hundred blocks that a re-org may reach at and below it, but
/// none before sapling.
pub proof fn law_new_blocks_and_reorgs_are_searched(
    sapling_activation: BlockHeight,
    last_known_chain_height: BlockHeight,
    chain_height: BlockHeight,
    height: int,
)
    requires
        chain_height < u32::MAX,
        1 <= height <= u32::MAX,
    ensures
        ({
            let range = search_range(sapling_activation, last_known_chain_height, chain_height);
            (range.start <= height < range.end) == (sapling_activation <= height <= chain_height && height + 100
                > last_known_chain_height)
        }),
{
}

/// The first unused address of a scope lies right behind the last one that the wallet uses, or is the first of all. There
/// is none only where the last one is used.
pub proof fn law_the_search_starts_behind_what_is_used(
    listed: Seq<(TransparentAddressId, String)>,
    account_id: u32,
    scope: TransparentScope,
    k: int,
)
    requires
        keys_ascend(listed),
        0 <= k < listed.len(),
        listed[k].0.account_id == account_id,
        listed[k].0.scope == scope,
    ensures
        first_unused(listed, account_id, scope) matches Some(index) ==> listed[k].0.address_index < index && exists|
            i: int,
        |
            0 <= i < listed.len() && (#[trigger] listed[i]).0.account_id == account_id && listed[i].0.scope == scope
                && listed[i].0.address_index + 1 == index,
        first_unused(listed, account_id, scope).is_none() ==> exists|i: int|
            0 <= i < listed.len() && (#[trigger] listed[i]).0.account_id == account_id && listed[i].0.scope == scope
                && listed[i].0.address_index >= 0x7fff_ffff,
{
    lemma_last_exists(listed, account_id, scope, k);
    let last = choose|i: int| is_last_of(listed, account_id, scope, i);
    assert(is_last_of(listed, account_id, scope, last));
    assert(k <= last);
    if k < last {
        assert(listed[k].0.rank() < listed[last].0.rank());
    }
    assert(listed[last].0.account_id == account_id);
}

proof fn lemma_last_exists(
    listed: Seq<(TransparentAddressId, String)>,
    account_id: u32,
    scope: TransparentScope,
    k: int,
)
    requires
        0 <= k < listed.len(),
        listed[k].0.account_id == account_id,
        listed[k].0.scope == scope,
    ensures
        exists|i: int| is_last_of(listed, account_id, scope, i),
    decreases listed.len() - k,
{
    if exists|j: int|
        k < j < listed.len() && (#[trigger] listed[j]).0.account_id == account_id && listed[j].0.scope == scope {
        let j = choose|j: int|
            k < j < listed.len() && (#[trigger] listed[j]).0.account_id == account_id && listed[j].0.scope == scope;
        lemma_last_exists(listed, account_id, scope, j);
    } else {
        assert(is_last_of(listed, account_id, scope, k));
    }
}

/// A scope of which the wallet uses no address is searched from the start.
pub proof fn law_an_unused_scope_is_searched_from_the_start(
    listed: Seq<(TransparentAddressId, String)>,
    account_id: u32,
    scope: TransparentScope,
)
    requires
        forall|k: int|
            0 <= k < listed.len() ==> !((#[trigger] listed[k]).0.account_id == account_id && listed[k].0.scope == scope),
    ensures
        first_unused(listed, account_id, scope) == Some(0u32),
{
    if exists|i: int| is_last_of(listed, account_id, scope, i) {
        let i = choose|i: int| is_last_of(listed, account_id, scope, i);
        assert(listed[i].0.account_id == account_id && listed[i].0.scope == scope);
    }
}

/// Every transaction of an address becomes a target at its height, near which to scan.
pub proof fn law_transactions_become_targets(transactions: Seq<AddressTransaction>, i: int)
    requires
        0 <= i < transactions.len(),
    ensures
        targets_of(transactions).len() == transactions.len(),
        targets_of(transactions)[i].block_height == transactions[i].height,
        targets_of(transactions)[i].txid == transactions[i].txid,
        targets_of(transactions)[i].narrow_scan_area,
{
}

/// Every address that was found is the wallet's from then on, and none that it had is lost.
pub proof fn law_found_addresses_are_kept(
    addresses: Map<TransparentAddressId, String>,
    added: Seq<(TransparentAddressId, String)>,
    id: TransparentAddressId,
)
    ensures
        with_addresses(addresses, added).dom().contains(id) == (addresses.dom().contains(id) || exists|i: int|
            0 <= i < added.len() && (#[trigger] added[i]).0 == id),
        addresses.dom().contains(id) && !(exists|i: int| 0 <= i < added.len() && (#[trigger] added[i]).0 == id)
            ==> with_addresses(addresses, added)[id] == addresses[id],
    decreases added.len(),
{
    if added.len() > 0 {
        let before = added.drop_last();
        law_found_addresses_are_kept(addresses, before, id);
        assert(added[added.len() - 1] == added.last());
        if exists|i: int| 0 <= i < before.len() && (#[trigger] before[i]).0 == id {
            let i = choose|i: int| 0 <= i < before.len() && (#[trigger] before[i]).0 == id;
            assert(added[i] == before[i]);
        }
        if exists|i: int| 0 <= i < added.len() && (#[trigger] added[i]).0 == id {
            let i = choose|i: int| 0 <= i < added.len() && (#[trigger] added[i]).0 == id;
            if i < before.len() {
                assert(before[i] == added[i]);
            }
        }
    }
}

// --- targets ---

/// A rescan looks for exactly the wallet's transactions in blocks from its start on, each near the block that it is in.
pub proof fn law_rescans_look_for_confirmed_transactions(
    transactions: &WalletTransactions,
    from_height: BlockHeight,
    target: ScanTarget,
)
    ensures
        is_confirmed_target(tx_views(transactions@), from_height, target) == (transactions@.dom().contains(target.txid)
            && transactions@[target.txid].status == ConfirmationStatus::Confirmed(target.block_height)
            && target.block_height >= from_height && target.narrow_scan_area),
{
    assert(tx_views(transactions@).dom().contains(target.txid) == transactions@.dom().contains(target.txid));
}

/// Targets come in the order of their heights.
pub proof fn law_lower_targets_come_first(a: ScanTarget, b: ScanTarget)
    requires
        a.block_height < b.block_height,
    ensures
        a.rank() < b.rank(),
{
    crate::primitives::lemma_be_value_32_bound(a.txid.bytes);
    crate::primitives::lemma_be_value_32_bound(b.txid.bytes);
}

/// Addresses come in the order of their accounts, those of an account in the order of their scopes, and those of a scope in
/// the order of their indices.
pub proof fn law_addresses_come_by_account_and_scope(a: TransparentAddressId, b: TransparentAddressId)
    ensures
        a.account_id < b.account_id ==> a.rank() < b.rank(),
        a.account_id == b.account_id && a.scope is External && !(b.scope is External) ==> a.rank() < b.rank(),
        a.account_id == b.account_id && a.scope is Internal && b.scope is Refund ==> a.rank() < b.rank(),
        a.account_id == b.account_id && a.scope == b.scope && a.address_index < b.address_index ==> a.rank() < b.rank(),
{
}

/// Outputs come in the order of the ids of their transactions, and those of a transaction in the order of their indices.
pub proof fn law_outputs_come_by_transaction(a: OutputId, b: OutputId)
    ensures
        a.txid.rank() < b.txid.rank() ==> a.rank() < b.rank(),
        a.txid == b.txid && a.output_index < b.output_index ==> a.rank() < b.rank(),
{
}

/// A filled place at the end of the parents of a tree stands for as many leaves as the tree below it has room for.
pub proof fn law_each_parent_doubles_its_leaves(parents: Seq<bool>, filled: bool)
    ensures
        leaves_below(parents.push(filled)) == leaves_below(parents) + if filled {
            pow2((parents.len() + 1) as nat)
        } else {
            0
        },
    decreases parents.len(),
{
    lemma_pow2_unfold((parents.len() + 1) as nat);
    lemma2_to64();
    let more = parents.push(filled);
    if parents.len() == 0 {
        assert(more.skip(1) =~= Seq::empty());
        assert(parents =~= Seq::empty());
    } else {
        law_each_parent_doubles_its_leaves(parents.skip(1), filled);
        assert(more.skip(1) =~= parents.skip(1).push(filled));
        assert(more[0] == parents[0]);
    }
}

// --- reopening ---

/// The trees of the reopened pool and of every later one start anew from the frontier, and those of earlier pools are
/// taken back to where the rescan starts.
pub proof fn law_later_trees_start_anew(
    tree: TreeView,
    rescan_from: BlockHeight,
    birthday: BlockHeight,
    frontier: Seq<u8>,
)
    requires
        rescan_from > 0,
    ensures
        ({
            let anew_sapling = tree_with_frontier(fresh_tree(false), frontier, birthday);
            let anew = tree_with_frontier(fresh_tree(true), frontier, birthday);
            let back = tree_at_next_checkpoint(tree, (rescan_from - 1) as u32);
            let sapling = ShieldedPool::Sapling;
            let orchard = ShieldedPool::Orchard;
            let ironwood = ShieldedPool::Ironwood;
            &&& reopened_tree(tree, sapling, sapling, rescan_from, birthday, frontier) == anew_sapling
            &&& reopened_tree(tree, orchard, sapling, rescan_from, birthday, frontier) == anew
            &&& reopened_tree(tree, ironwood, sapling, rescan_from, birthday, frontier) == anew
            &&& reopened_tree(tree, sapling, orchard, rescan_from, birthday, frontier) == back
            &&& reopened_tree(tree, orchard, orchard, rescan_from, birthday, frontier) == anew
            &&& reopened_tree(tree, ironwood, orchard, rescan_from, birthday, frontier) == anew
            &&& reopened_tree(tree, sapling, ironwood, rescan_from, birthday, frontier) == back
            &&& reopened_tree(tree, orchard, ironwood, rescan_from, birthday, frontier) == back
            &&& reopened_tree(tree, ironwood, ironwood, rescan_from, birthday, frontier) == anew
        }),
{
}

/// An error is told exactly where a tree of some pool failed, and it is that of the first that did.
pub proof fn law_the_first_failed_tree_is_told(
    sapling: Result<TreeView, TreeError>,
    orchard: Result<TreeView, TreeError>,
    ironwood: Result<TreeView, TreeError>,
)
    ensures
        first_tree_error(sapling, orchard, ironwood).is_none() == (sapling.is_ok() && orchard.is_ok()
            && ironwood.is_ok()),
        sapling matches Err(error) ==> first_tree_error(sapling, orchard, ironwood) == Some(error),
        sapling.is_ok() ==> (orchard matches Err(error) ==> first_tree_error(sapling, orchard, ironwood) == Some(error)),
        sapling.is_ok() && orchard.is_ok() ==> (ironwood matches Err(error) ==> first_tree_error(
            sapling,
            orchard,
            ironwood,
        ) == Some(error)),
{
}

// --- roots ---

/// Roots that were fetched add a shard each, ending with the block that completed it. Where the newest root was fetched
/// again, its shard is rebuilt, and all before it stay.
pub proof fn law_roots_rebuild_the_newest_shard(
    ranges: Seq<BlockRange>,
    refetched: bool,
    activation: BlockHeight,
    roots: Seq<SubtreeRoot>,
    i: int,
)
    requires
        roots.len() > 0,
        refetched ==> ranges.len() > 0,
        forall|k: int| 0 <= k < roots.len() ==> (#[trigger] roots[k]).completing_block_height < u32::MAX,
        forall|k: int| 0 <= k < ranges.len() ==> (#[trigger] ranges[k]).end > 0,
        0 <= i < ranges.len() + roots.len() - (if refetched {
            1int
        } else {
            0int
        }),
    ensures
        ({
            let after = ranges_with_roots(ranges, refetched, activation, roots);
            let kept = ranges.len() - (if refetched {
                1int
            } else {
                0int
            });
            &&& after.len() == kept + roots.len()
            &&& i < kept ==> after[i] == ranges[i]
            &&& i >= kept ==> after[i].end == roots[i - kept].completing_block_height + 1
            &&& i >= kept && i > 0 ==> after[i].start + 1 == after[i - 1].end
            &&& i >= kept && i == 0 ==> after[i].start == activation
        }),
{
    let kept = if refetched {
        ranges.drop_last()
    } else {
        ranges
    };
    let heights = completing_heights(roots);
    assert forall|k: int| 0 <= k < heights.len() implies #[trigger] heights[k] < u32::MAX by {
        assert(roots[k].completing_block_height < u32::MAX);
    }
    assert forall|k: int| 0 <= k < kept.len() implies (#[trigger] kept[k]).end > 0 by {
        assert(ranges[k].end > 0);
    }
    law_each_root_adds_its_shard(kept, activation, heights, i);
}

/// Roots are taken up to the first that is not a node of the tree, and all of them where every one is.
pub proof fn law_roots_are_taken_up_to_the_first_that_is_none(roots: Seq<SubtreeRoot>, orchard: bool, i: int)
    requires
        0 <= i < roots.len(),
    ensures
        valid_roots(roots, orchard) <= roots.len(),
        i < valid_roots(roots, orchard) ==> roots[i].root_hash@.len() == 32 && crate::trees::is_node(
            roots[i].root_hash@,
            orchard,
        ),
        i == valid_roots(roots, orchard) ==> !(roots[i].root_hash@.len() == 32 && crate::trees::is_node(
            roots[i].root_hash@,
            orchard,
        )),
    decreases roots.len(),
{
    let before = roots.drop_last();
    if i < before.len() {
        law_roots_are_taken_up_to_the_first_that_is_none(before, orchard, i);
        assert(before[i] == roots[i]);
    } else if before.len() > 0 {
        law_roots_are_taken_up_to_the_first_that_is_none(before, orchard, 0);
    }
    assert(roots[roots.len() - 1] == roots.last());
}

} // verus!
