//! What the steps of a session give, whatever they are given.
use crate::chain::{branch_of, ChainParameters};
use crate::client::{inclusive_range, is_fetching_done, shielded_protocol_number, InclusiveRange};
use crate::config::PerformanceLevel;
use crate::error::{ScanError, ServerError, SyncModeError};
use crate::outside::transaction_id;
use crate::primitives::{be_value, bytes_32_precede, BlockHeight, BlockRange, ShieldedPool, TxId};
use crate::scan::compact::{ChainMetadata, CompactBlock};
use crate::scan::compact_blocks::{check_tree_size, final_sizes_of_block, sizes_disagree, BlockSizes};
use crate::scan::task::{after_no_task, BlockEnds, LoadState, ScanTask, ScannerState};
use crate::scan_range::{ScanPriority, ScanRange};
use crate::sync::fetched::{check_fetched_transaction, raw_transaction_id};
use crate::sync::progress::{sync_result, SyncResult, SyncStatus};
use crate::sync::results::{decide_mapping, is_lowest, Mapping};
use crate::sync::roots::{root_requests, RootRequests};
use crate::sync::select::find_scan_targets;
use crate::sync::session::{check_chain_height, missing_block_below};
use crate::sync::spend_update::known_block;
use crate::sync::transparent::ScopeSearch;
use crate::sync_mode::{SessionStep, SyncMode};
use crate::wallet::data::Wallet;
use crate::wallet::shard_trees::ShardTrees;
use crate::wallet::status::ConfirmationStatus;
use crate::wallet::stores::{NullifierMap, WalletBlock, WalletBlocks};
use crate::wallet::sync_state::{ScanTarget, ScanTargets, SyncState, TreeBounds};
use crate::wallet::transaction::TransparentAddressId;
use vstd::prelude::*;

verus! {

// --- beginning and ending ---

/// A chain is refused exactly where it has only its genesis block.
pub proof fn law_a_chain_has_more_than_its_genesis_block(chain_height: BlockHeight, r: Result<(), ServerError>)
    requires
        call_ensures(check_chain_height, (chain_height,), r),
    ensures
        r.is_ok() == (chain_height > 0),
        r matches Err(error) ==> error is GenesisBlockOnly,
{
}

/// A session begins exactly where none has begun, and runs from then on.
pub proof fn law_one_session_runs_at_a_time(mode: SyncMode, r: Result<SyncMode, SyncModeError>)
    requires
        call_ensures(SyncMode::begin, (mode,), r),
    ensures
        r.is_ok() == (mode is NotRunning),
        r matches Ok(next) ==> next is Running,
        r matches Err(error) ==> error is SyncAlreadyRunning,
{
}

/// A session goes on exactly while it is running, waits while it is paused, and stops when it is to end.
pub proof fn law_a_session_does_as_its_mode_says(mode: SyncMode, r: SessionStep)
    requires
        mode is Running || mode is Paused || mode is Shutdown,
        call_ensures(SyncMode::tick, (mode,), r),
    ensures
        mode is Running <==> r is Update,
        mode is Paused <==> r is Pause,
        mode is Shutdown <==> r is Stop,
{
}

/// Every mode has a number of its own, and the number stands for it.
pub proof fn law_modes_have_numbers_of_their_own(
    a: SyncMode,
    b: SyncMode,
    x: u8,
    y: u8,
    r: Result<SyncMode, SyncModeError>,
)
    requires
        call_ensures(SyncMode::to_u8, (a,), x),
        call_ensures(SyncMode::to_u8, (b,), y),
        call_ensures(SyncMode::from_u8, (x,), r),
    ensures
        r == Ok::<SyncMode, SyncModeError>(a),
        x == y ==> a == b,
{
}

/// Once there is nothing to scan, the scanner shuts down exactly where every range is scanned with its nullifiers.
pub proof fn law_the_scanner_shuts_down_when_all_is_scanned(state: ScannerState, sync_state: &SyncState, r: ScannerState)
    requires
        call_ensures(after_no_task, (state, sync_state), r),
        !(state is Shutdown),
    ensures
        r is Shutdown <==> forall|i: int|
            0 <= i < sync_state.scan_ranges@.len() ==> (#[trigger] sync_state.scan_ranges@[i]).priority is Scanned,
        !(r is Shutdown) ==> r == state,
{
    let ranges = sync_state.scan_ranges@;
    if forall|i: int| 0 <= i < ranges.len() ==> (#[trigger] ranges[i]).priority is Scanned {
        assert forall|i: int| 0 <= i < ranges.len() implies (#[trigger] ranges[i]).priority == ScanPriority::Scanned by {}
    }
}

/// The result of a session tells what the session did, up to the tip.
pub proof fn law_the_result_is_that_of_the_session(status: &SyncStatus, r: SyncResult)
    requires
        call_ensures(sync_result, (status,), r),
        status.scan_ranges@.len() > 0,
        status.scan_ranges@.last().block_range.end > 0,
    ensures
        r.blocks_scanned == status.session_blocks_scanned,
        r.outputs_scanned.sapling == status.session_outputs_scanned.sapling,
        r.outputs_scanned.orchard == status.session_outputs_scanned.orchard,
        r.outputs_scanned.ironwood == status.session_outputs_scanned.ironwood,
        r.sync_start_height == status.sync_start_height,
        r.sync_end_height + 1 == status.scan_ranges@.last().block_range.end,
        r.total_outputs_progress == status.total_outputs_progress,
{
}

// --- results ---

/// Nullifiers are mapped unless the limit is exceeded, and for the lowest range even then. The limit stays exceeded once it
/// is. Spent outputs are mapped for the ranges of targets, of the tip and of what is verified.
pub proof fn law_the_lowest_range_is_always_mapped(
    wallet: &Wallet,
    scan_range: &ScanRange,
    nullifiers: &NullifierMap,
    performance_level: PerformanceLevel,
    limit_exceeded: bool,
    r: Mapping,
)
    requires
        call_ensures(decide_mapping, (wallet, scan_range, nullifiers, performance_level, limit_exceeded), r),
    ensures
        limit_exceeded ==> r.limit_exceeded,
        performance_level is Maximum && !limit_exceeded ==> !r.limit_exceeded,
        !r.limit_exceeded ==> r.map_nullifiers,
        is_lowest(wallet.sync_state.scan_ranges@, scan_range.block_range) ==> r.map_nullifiers,
        r.limit_exceeded && !is_lowest(wallet.sync_state.scan_ranges@, scan_range.block_range) ==> !r.map_nullifiers,
        r.map_outpoints <==> scan_range.priority is FoundNote || scan_range.priority is ChainTip
            || scan_range.priority is Verify,
{
}

/// The block below reopened ranges is asked for exactly where the wallet does not hold it.
pub proof fn law_the_block_below_is_asked_for(wallet: &Wallet, from_height: BlockHeight, r: Option<BlockHeight>)
    requires
        call_ensures(missing_block_below, (wallet, from_height), r),
        from_height > 0,
    ensures
        r.is_none() <==> wallet.wallet_blocks@.dom().contains((from_height - 1) as u32),
        r matches Some(height) ==> height + 1 == from_height,
{
}

// --- requests ---

/// An inclusive range names the same blocks.
pub proof fn law_inclusive_ranges_name_the_same_blocks(block_range: &BlockRange, r: InclusiveRange, height: int)
    requires
        call_ensures(inclusive_range, (block_range,), r),
        block_range.start < block_range.end,
    ensures
        (r.first <= height <= r.last) == (block_range.start <= height < block_range.end),
{
}

/// The pools have numbers of their own.
pub proof fn law_pools_have_numbers_of_their_own(a: ShieldedPool, b: ShieldedPool, x: i32, y: i32)
    requires
        call_ensures(shielded_protocol_number, (a,), x),
        call_ensures(shielded_protocol_number, (b,), y),
    ensures
        x == y ==> a == b,
{
}

/// Fetching ends exactly where no request is waiting and none can come.
pub proof fn law_fetching_ends_when_nothing_waits(waiting: usize, closed: bool, r: bool)
    requires
        call_ensures(is_fetching_done, (waiting, closed), r),
    ensures
        r <==> waiting == 0 && closed,
{
}

/// The roots of each pool are fetched from behind those that its own tree holds, or from the newest of them.
pub proof fn law_roots_are_fetched_pool_by_pool(trees: &ShardTrees, r: RootRequests)
    requires
        call_ensures(root_requests, (trees,), r),
    ensures
        r.sapling <= trees.sapling@.shards.len() <= r.sapling + 1,
        r.orchard <= trees.orchard@.shards.len() <= r.orchard + 1,
        r.ironwood <= trees.ironwood@.shards.len() <= r.ironwood + 1,
{
}

// --- loading ---

/// The sizes after a block are those that were sent with it, pool by pool. Without them, those at the activation of sapling
/// are known, and all others are asked for.
pub proof fn law_sizes_sent_with_a_block_are_its_sizes(
    compact_block: &CompactBlock,
    height: BlockHeight,
    sapling_activation: BlockHeight,
    r: BlockSizes,
)
    requires
        call_ensures(final_sizes_of_block, (compact_block, height, sapling_activation), r),
    ensures
        compact_block.chain_metadata matches Some(metadata) ==> (r matches BlockSizes::Known(sizes) && sizes.sapling
            == metadata.sapling_commitment_tree_size && sizes.orchard == metadata.orchard_commitment_tree_size
            && sizes.ironwood == metadata.ironwood_commitment_tree_size),
        compact_block.chain_metadata.is_none() ==> (r is Known <==> height == sapling_activation),
{
}

/// A load begins with nothing, from the first block of its range on.
pub proof fn law_a_load_begins_with_nothing(task: ScanTask, r: LoadState)
    requires
        call_ensures(LoadState::begin, (task,), r),
    ensures
        r.task == task,
        r.counts.outputs == 0 && r.counts.nullifiers == 0,
        r.retry_height == task.scan_range.block_range.start,
        r.awaiting_first_block && !r.retried,
{
}

/// What is still to be fetched lies between what has come and the end of the range.
pub proof fn law_what_has_not_come_is_fetched(load: &LoadState, r: BlockRange)
    requires
        call_ensures(LoadState::blocks_to_fetch, (load,), r),
    ensures
        r.start == load.retry_height,
        r.end == load.task.scan_range.block_range.end,
{
}

/// The ends of a task are its first block that comes and the last block of its range. A task that only fetches nullifiers
/// has none.
pub proof fn law_the_ends_of_a_task(load: &LoadState, height: BlockHeight, r: BlockEnds)
    requires
        call_ensures(LoadState::ends_at, (load, height), r),
    ensures
        load.task.scan_range.priority is ScannedWithoutMapping ==> !r.first && !r.last,
        !(load.task.scan_range.priority is ScannedWithoutMapping) ==> r.first == load.awaiting_first_block && r.last == (
        height + 1 == load.task.scan_range.block_range.end),
{
}

/// The search of a scope goes on with the next index exactly until enough addresses in a row are unused.
pub proof fn law_a_search_goes_on_until_the_gap(search: &ScopeSearch, gap_limit: u8, r: Option<TransparentAddressId>)
    requires
        call_ensures(ScopeSearch::next_address, (search, gap_limit), r),
    ensures
        r.is_some() <==> search.unused < gap_limit,
        r matches Some(id) ==> id.account_id == search.account_id && id.scope == search.scope && id.address_index
            == search.next_index,
{
}

// --- transactions that were fetched ---

/// A transaction that was fetched is accepted exactly where its id is the one that was asked for. Otherwise both ids are
/// told.
pub proof fn law_fetched_transactions_are_those_asked_for(
    parameters: &ChainParameters,
    raw: &[u8],
    target: &ScanTarget,
    txid: TxId,
    r: Result<(), ScanError>,
)
    requires
        call_ensures(raw_transaction_id, (parameters, raw, target.block_height), Ok::<TxId, ServerError>(txid)),
        call_ensures(check_fetched_transaction, (parameters, raw, target), r),
    ensures
        r.is_ok() <==> txid.bytes@ == target.txid.bytes@,
        r matches Err(error) ==> (error matches ScanError::IncorrectTxid { txid_requested, txid_returned }
            && txid_requested == target.txid && txid_returned.bytes@ == txid.bytes@),
{
}

/// The branch under which a transaction is read is that of the newest rules in force at its height.
pub proof fn law_transactions_are_read_under_their_branch(
    parameters: &ChainParameters,
    raw: &[u8],
    height: BlockHeight,
    r: Result<TxId, ServerError>,
)
    requires
        call_ensures(raw_transaction_id, (parameters, raw, height), r),
    ensures
        r.is_ok() == transaction_id(raw@, branch_of(parameters.newest_in_force(height))).is_ok(),
        r matches Ok(txid) ==> transaction_id(raw@, branch_of(parameters.newest_in_force(height))) == Ok::<
            Seq<u8>,
            Seq<char>,
        >(txid.bytes@),
        r matches Err(error) ==> error is InvalidTransaction,
{
}

/// A block that the wallet holds is preferred to one that was scanned, and one is known exactly where either is there.
pub proof fn law_held_blocks_are_preferred(
    wallet_blocks: &WalletBlocks,
    scanned_blocks: &WalletBlocks,
    height: BlockHeight,
    r: Option<WalletBlock>,
)
    requires
        call_ensures(known_block, (wallet_blocks, scanned_blocks, height), r),
    ensures
        r.is_some() <==> wallet_blocks@.dom().contains(height) || scanned_blocks@.dom().contains(height),
        wallet_blocks@.dom().contains(height) ==> (r matches Some(block) && block@ == wallet_blocks@[height]@),
        !wallet_blocks@.dom().contains(height) && scanned_blocks@.dom().contains(height) ==> (r matches Some(block)
            && block@ == scanned_blocks@[height]@),
{
}

// --- small questions ---

/// A transaction is pending, confirmed or failed, and just one of these.
pub proof fn law_a_status_is_one_of_three(status: &ConfirmationStatus, pending: bool, confirmed: bool, failed: bool)
    requires
        call_ensures(ConfirmationStatus::is_pending, (status,), pending),
        call_ensures(ConfirmationStatus::is_confirmed, (status,), confirmed),
        call_ensures(ConfirmationStatus::is_failed, (status,), failed),
    ensures
        pending || confirmed || failed,
        !(pending && confirmed) && !(pending && failed) && !(confirmed && failed),
        confirmed == (*status is Confirmed),
        failed == (*status is Failed),
{
}

/// A sync is complete exactly where a session has begun and every range is scanned with its nullifiers mapped.
pub proof fn law_a_sync_is_complete_when_all_is_scanned(status: &SyncStatus, r: bool)
    requires
        call_ensures(SyncStatus::is_complete, (status,), r),
    ensures
        r ==> status.sync_start_height > 0,
        r ==> forall|i: int| 0 <= i < status.scan_ranges@.len() ==> (#[trigger] status.scan_ranges@[i]).priority is Scanned,
        !r && status.sync_start_height > 0 ==> exists|i: int|
            0 <= i < status.scan_ranges@.len() && !((#[trigger] status.scan_ranges@[i]).priority is Scanned),
{
}

/// Blocks count as scanned where only their nullifiers are missing, too, and then they await them.
pub proof fn law_scanned_blocks_may_await_nullifiers(priority: ScanPriority, scanned: bool, awaits: bool)
    requires
        call_ensures(ScanPriority::is_scanned, (priority,), scanned),
        call_ensures(ScanPriority::awaits_nullifier_retrieval, (priority,), awaits),
    ensures
        awaits == (priority is ScannedWithoutMapping || priority is RefetchingNullifiers),
        scanned == (awaits || priority is Scanned),
{
}

/// The pools came one after the other: sapling, orchard, ironwood.
pub proof fn law_pools_came_in_order(pool: ShieldedPool, other: ShieldedPool, r: bool)
    requires
        call_ensures(ShieldedPool::not_before, (pool, other), r),
    ensures
        pool == other ==> r,
        pool is Sapling && !(other is Sapling) ==> !r,
        pool is Orchard && other is Ironwood ==> !r,
        pool is Orchard && other is Sapling ==> r,
        pool is Ironwood ==> r,
{
}

/// The targets of a range are those that lie in it.
pub proof fn law_targets_of_a_range_lie_in_it(
    sync_state: &SyncState,
    block_range: &BlockRange,
    r: ScanTargets,
    target: ScanTarget,
)
    requires
        call_ensures(find_scan_targets, (sync_state, block_range), r),
    ensures
        r@.dom().contains(target) <==> sync_state.scan_targets@.dom().contains(target) && block_range.start
            <= target.block_height < block_range.end,
{
    assert(r@.dom().contains(target) <==> sync_state.scan_targets@.dom().contains(target) && block_range.has(
        target.block_height as int,
    ));
}

proof fn lemma_first_byte_decides(a: Seq<u8>, b: Seq<u8>, k: int)
    requires
        a.len() == b.len(),
        0 <= k < a.len(),
        forall|i: int| 0 <= i < k ==> a[i] == b[i],
        a[k] < b[k],
    ensures
        be_value(a) < be_value(b),
    decreases a.len(),
{
    let front_a = a.drop_last();
    let front_b = b.drop_last();
    if k < front_a.len() {
        lemma_first_byte_decides(front_a, front_b, k);
    } else {
        assert(front_a =~= front_b);
    }
}

/// Of two ids the one with the lower first byte in which they differ comes first.
pub proof fn law_the_first_byte_that_differs_decides(a: &[u8; 32], b: &[u8; 32], k: int, r: bool)
    requires
        call_ensures(bytes_32_precede, (a, b), r),
        0 <= k < 32,
        forall|i: int| 0 <= i < k ==> a@[i] == b@[i],
        a@[k] != b@[k],
    ensures
        r == (a@[k] < b@[k]),
{
    if a@[k] < b@[k] {
        lemma_first_byte_decides(a@, b@, k);
    } else {
        lemma_first_byte_decides(b@, a@, k);
    }
}

// --- sizes ---

/// Whether the size of the tree of a pool that the chain reports is that after the block, or none is reported.
pub open spec fn size_is_right(metadata: ChainMetadata, bounds: TreeBounds, pool: ShieldedPool) -> bool {
    match pool {
        ShieldedPool::Sapling => metadata.sapling_commitment_tree_size == 0 || metadata.sapling_commitment_tree_size
            == bounds.sapling_final_tree_size,
        ShieldedPool::Orchard => metadata.orchard_commitment_tree_size == 0 || metadata.orchard_commitment_tree_size
            == bounds.orchard_final_tree_size,
        ShieldedPool::Ironwood => metadata.ironwood_commitment_tree_size == 0 || metadata.ironwood_commitment_tree_size
            == bounds.ironwood_final_tree_size,
    }
}

/// A block is refused exactly where the size of some tree is wrong. The oldest pool of which it is, is told.
pub proof fn law_the_oldest_pool_with_a_wrong_size_is_told(
    chain_metadata: &Option<ChainMetadata>,
    wallet_block: &WalletBlock,
    r: Result<(), ScanError>,
)
    requires
        call_ensures(check_tree_size, (chain_metadata, wallet_block), r),
    ensures
        chain_metadata.is_none() ==> r.is_ok(),
        chain_metadata matches Some(metadata) ==> (r.is_ok() <==> forall|pool: ShieldedPool| #[trigger]
            size_is_right(*metadata, wallet_block.tree_bounds, pool)),
        r matches Err(error) ==> (error matches ScanError::IncorrectTreeSize { shielded_protocol, height, .. } && height
            == wallet_block.block_height && !size_is_right(
            chain_metadata->0,
            wallet_block.tree_bounds,
            shielded_protocol,
        ) && (shielded_protocol is Orchard ==> size_is_right(
            chain_metadata->0,
            wallet_block.tree_bounds,
            ShieldedPool::Sapling,
        )) && (shielded_protocol is Ironwood ==> size_is_right(
            chain_metadata->0,
            wallet_block.tree_bounds,
            ShieldedPool::Sapling,
        ) && size_is_right(chain_metadata->0, wallet_block.tree_bounds, ShieldedPool::Orchard))),
{
    if let Some(metadata) = chain_metadata {
        let bounds = wallet_block.tree_bounds;
        assert(size_is_right(*metadata, bounds, ShieldedPool::Sapling) == !sizes_disagree(
            *metadata,
            bounds,
            ShieldedPool::Sapling,
        ));
        assert(size_is_right(*metadata, bounds, ShieldedPool::Orchard) == !sizes_disagree(
            *metadata,
            bounds,
            ShieldedPool::Orchard,
        ));
        assert(size_is_right(*metadata, bounds, ShieldedPool::Ironwood) == !sizes_disagree(
            *metadata,
            bounds,
            ShieldedPool::Ironwood,
        ));
    }
}

} // verus!
