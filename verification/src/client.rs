//! What is asked of the server, and in which order.
use crate::primitives::{BlockHeight, BlockRange, ShieldedPool, TxId};
use vstd::prelude::*;

verus! {

/// A request to the server.
#[derive(Debug, PartialEq, Eq)]
pub enum FetchRequest {
    /// The height of the chain.
    ChainTip,
    /// The compact block at a height.
    CompactBlock(BlockHeight),
    /// The compact blocks of a range.
    CompactBlockRange(BlockRange),
    /// The nullifiers of the blocks of a range.
    NullifierRange(BlockRange),
    /// The roots of complete subtrees from an index on.
    SubtreeRoots { start_index: u32, pool: ShieldedPool, max_entries: u32 },
    /// The trees after the block at a height.
    TreeState(BlockHeight),
    /// A transaction.
    Transaction(TxId),
    /// The unspent outputs of addresses, from a height on.
    UtxoMetadata { addresses: Vec<String>, start_height: BlockHeight },
    /// The transactions of an address in a range of blocks.
    TransparentAddressTxs { address: String, block_range: BlockRange },
}

/// The first and the last height of a range, as a server is asked for it.
#[derive(Clone, Copy, Debug, PartialEq, Eq, Structural)]
pub struct InclusiveRange {
    pub first: u64,
    pub last: u64,
}

/// The first and the last height of a range that covers blocks.
pub fn inclusive_range(block_range: &BlockRange) -> (r: InclusiveRange)
    requires
        block_range.end > 0,
    ensures
        r.first == block_range.start,
        r.last == block_range.end - 1,
        forall|h: int| #[trigger] block_range.has(h) == (r.first <= h <= r.last),
{
    InclusiveRange { first: block_range.start as u64, last: block_range.end as u64 - 1 }
}

/// The number by which a server knows a pool.
pub open spec fn pool_number(pool: ShieldedPool) -> i32 {
    match pool {
        ShieldedPool::Sapling => 0,
        ShieldedPool::Orchard => 1,
        ShieldedPool::Ironwood => 2,
    }
}

/// The number by which a server knows a pool.
pub fn shielded_protocol_number(pool: ShieldedPool) -> (r: i32)
    ensures
        r == pool_number(pool),
{
    match pool {
        ShieldedPool::Sapling => 0,
        ShieldedPool::Orchard => 1,
        ShieldedPool::Ironwood => 2,
    }
}

/// Takes the request that has waited longest.
pub fn select_fetch_request<T>(fetch_request_queue: &mut Vec<T>) -> (r: Option<T>)
    ensures
        old(fetch_request_queue)@.len() == 0 ==> r.is_none() && final(fetch_request_queue)@ == old(fetch_request_queue)@,
        old(fetch_request_queue)@.len() > 0 ==> r == Some(old(fetch_request_queue)@[0]) && final(fetch_request_queue)@ == old(fetch_request_queue)@.skip(1),
{
    if fetch_request_queue.len() == 0 {
        None
    } else {
        let ghost before = fetch_request_queue@;
        let first = fetch_request_queue.remove(0);
        assert(fetch_request_queue@ =~= before.skip(1));
        Some(first)
    }
}

/// Whether nothing is left to be fetched: no request waits, and none can come any more.
pub fn is_fetching_done(waiting: usize, closed: bool) -> (r: bool)
    ensures
        r == (waiting == 0 && closed),
{
    waiting == 0 && closed
}

} // verus!
