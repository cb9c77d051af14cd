//! What is made of the bytes and texts that a server sends.
use crate::chain::{branch_of, ChainParameters};
use crate::error::{ScanError, ServerError};
use crate::outside::{
    leaf_count, leaves_below, read_transaction_id, read_tree_parts, transaction_id, tree_frontier, tree_state_error,
    tree_state_fault, tree_state_frontier, tree_state_parts,
};
use crate::primitives::{BlockHeight, ShieldedPool, TxId};
use crate::sync::progress::TreeSizes;
use crate::sync::session::Frontiers;
use crate::sync::update::{mempool_transaction_noted, note_mempool_transaction, MempoolStep};
use crate::wallet::data::Wallet;
use crate::wallet::sync_state::{above, ScanTarget};
use vstd::prelude::*;

verus! {

// --- transactions ---

/// The branch whose rules are in force at a height.
pub open spec fn branch_at(parameters: &ChainParameters, height: BlockHeight) -> u32 {
    branch_of(parameters.newest_in_force(height))
}

/// The id of a transaction that is in a block at the height, or would be.
pub fn raw_transaction_id(parameters: &ChainParameters, raw: &[u8], height: BlockHeight) -> (r: Result<
    TxId,
    ServerError,
>)
    ensures
        match transaction_id(raw@, branch_at(parameters, height)) {
            Ok(id) => r matches Ok(txid) && txid.bytes@ == id,
            Err(detail) => r matches Err(ServerError::InvalidTransaction(text)) && text@ == detail,
        },
{
    match read_transaction_id(raw, parameters.branch_id(height)) {
        Ok(bytes) => Ok(TxId { bytes }),
        Err(detail) => Err(ServerError::InvalidTransaction(detail)),
    }
}

/// Checks that a fetched transaction is the one that was asked for.
pub fn check_fetched_transaction(parameters: &ChainParameters, raw: &[u8], target: &ScanTarget) -> (r: Result<
    (),
    ScanError,
>)
    ensures
        match transaction_id(raw@, branch_at(parameters, target.block_height)) {
            Err(detail) => r matches Err(ScanError::ServerError(ServerError::InvalidTransaction(text))) && text@
                == detail,
            Ok(id) => if id == target.txid.bytes@ {
                r.is_ok()
            } else {
                r matches Err(ScanError::IncorrectTxid { txid_requested, txid_returned }) && txid_requested
                    == target.txid && txid_returned.bytes@ == id
            },
        },
{
    let returned = match raw_transaction_id(parameters, raw, target.block_height) {
        Ok(txid) => txid,
        Err(error) => {
            return Err(ScanError::ServerError(error));
        },
    };
    if returned.same(&target.txid) {
        Ok(())
    } else {
        proof {
            if returned.bytes@ == target.txid.bytes@ {
                assert(returned.bytes =~= target.txid.bytes);
            }
        }
        Err(ScanError::IncorrectTxid { txid_requested: target.txid, txid_returned: returned })
    }
}

/// Notes a transaction that was seen in the mempool, as one that may be in the next block.
///
/// The height that a server gives with it is not used. One that is no transaction by the rules of that block changes
/// nothing.
pub fn process_mempool_transaction(
    parameters: &ChainParameters,
    wallet: &mut Wallet,
    raw: &[u8],
    now: u32,
) -> (r: Result<(TxId, MempoolStep), ServerError>)
    requires
        old(wallet).wf(),
        old(wallet).sync_state.scan_ranges@.len() > 0,
    ensures
        final(wallet).wf(),
        match transaction_id(raw@, branch_at(parameters, above(old(wallet).sync_state.known_tip()->0))) {
            Err(detail) => r matches Err(ServerError::InvalidTransaction(text)) && text@ == detail && *final(wallet)
                == *old(wallet),
            Ok(id) => r matches Ok((txid, step)) && txid.bytes@ == id && mempool_transaction_noted(
                old(wallet),
                final(wallet),
                txid,
                now,
                step,
            ),
        },
{
    let tip: u32 = wallet.sync_state.last_known_chain_height().unwrap();
    match raw_transaction_id(parameters, raw, tip.saturating_add(1)) {
        Ok(txid) => {
            let step = note_mempool_transaction(wallet, &txid, now);
            Ok((txid, step))
        },
        Err(error) => Err(error),
    }
}

// --- trees ---

/// The frontier of a tree and its size, as a tree state has it.
pub open spec fn frontier_of_text(text: Seq<char>, pool: ShieldedPool) -> Result<(Seq<u8>, u32), Seq<char>> {
    match tree_state_parts(text, pool) {
        Err(detail) => Err(detail),
        Ok(parts) => if !parts[0] && leaf_count(parts) > 0 {
            Err("the tree has no first leaf"@)
        } else if leaf_count(parts) > u32::MAX {
            Err("the tree is too large"@)
        } else {
            Ok((tree_state_frontier(text, pool), leaf_count(parts) as u32))
        },
    }
}

proof fn lemma_leaves_bound(parents: Seq<bool>, n: nat)
    requires
        parents.len() <= n <= 32,
    ensures
        leaves_below(parents) <= 0x2_0000_0000,
        n == 0 ==> leaves_below(parents) == 0,
        n > 0 ==> leaves_below(parents) + 2 <= vstd::arithmetic::power2::pow2(n + 1),
    decreases n,
{
    vstd::arithmetic::power2::lemma2_to64();
    if n > 0 {
        vstd::arithmetic::power2::lemma_pow2_unfold(n + 1);
        if parents.len() > 0 {
            lemma_leaves_bound(parents.skip(1), (n - 1) as nat);
            if n - 1 == 0 {
                assert(vstd::arithmetic::power2::pow2(2) == 4);
            }
        }
        if n < 32 {
            vstd::arithmetic::power2::lemma_pow2_strictly_increases(n + 1, 33);
        }
        vstd::arithmetic::power2::lemma_pow2_unfold(33);
        assert(vstd::arithmetic::power2::pow2(33) == 0x2_0000_0000);
        if parents.len() == 0 {
            if n + 1 > 2 {
                vstd::arithmetic::power2::lemma_pow2_strictly_increases(2, n + 1);
            }
        }
    }
}

/// The number of leaves of a commitment tree with these parts.
fn count_leaves(parts: &Vec<bool>) -> (r: u64)
    requires
        2 <= parts@.len() < 34,
    ensures
        r == leaf_count(parts@),
{
    let mut below: u64 = 0;
    let mut i: usize = parts.len();
    assert(parts@.skip(i as int) =~= Seq::empty());
    while i > 2
        invariant
            2 <= i <= parts@.len() < 34,
            below == leaves_below(parts@.skip(i as int)),
        decreases i,
    {
        i = i - 1;
        proof {
            let rest = parts@.skip(i as int);
            assert(rest.skip(1) =~= parts@.skip(i + 1));
            assert(rest[0] == parts@[i as int]);
            lemma_leaves_bound(rest.skip(1), 32);
        }
        below = 2 * (below + (if parts[i] {
            1u64
        } else {
            0u64
        }));
    }
    proof {
        lemma_leaves_bound(parts@.skip(2), 32);
    }
    let first: u64 = if parts[0] {
        1
    } else {
        0
    };
    let second: u64 = if parts[1] {
        1
    } else {
        0
    };
    first + second + below
}

/// The frontier of a tree and its size, as a tree state has it.
fn read_frontier(text: &str, pool: ShieldedPool) -> (r: Result<(Vec<u8>, u32), ServerError>)
    ensures
        match frontier_of_text(text@, pool) {
            Ok((bytes, size)) => r matches Ok(v) && v.0@ == bytes && v.1 == size,
            Err(detail) => r matches Err(ServerError::InvalidFrontier(error)) && error@ == detail,
        },
{
    let parts = match read_tree_parts(text, pool) {
        Ok(parts) => parts,
        Err(detail) => {
            return Err(ServerError::InvalidFrontier(detail));
        },
    };
    let size: u64 = count_leaves(&parts);
    if !parts[0] && size > 0 {
        return Err(ServerError::InvalidFrontier(String::from_str("the tree has no first leaf")));
    }
    if size > 0xffff_ffff {
        return Err(ServerError::InvalidFrontier(String::from_str("the tree is too large")));
    }
    Ok((tree_frontier(text, pool), size as u32))
}

/// Whether the result is the frontiers and the sizes of the trees that the texts encode, or the first error among them.
pub open spec fn is_frontiers(
    sapling: Seq<char>,
    orchard: Seq<char>,
    ironwood: Seq<char>,
    r: Result<(Frontiers, TreeSizes), ServerError>,
) -> bool {
    match (
        frontier_of_text(sapling, ShieldedPool::Sapling),
        frontier_of_text(orchard, ShieldedPool::Orchard),
        frontier_of_text(ironwood, ShieldedPool::Ironwood),
    ) {
        (Err(detail), _, _) => r matches Err(ServerError::InvalidFrontier(error)) && error@ == detail,
        (_, Err(detail), _) => r matches Err(ServerError::InvalidFrontier(error)) && error@ == detail,
        (_, _, Err(detail)) => r matches Err(ServerError::InvalidFrontier(error)) && error@ == detail,
        (Ok(s), Ok(o), Ok(i)) => r matches Ok((frontiers, sizes)) && frontiers.sapling@ == s.0 && frontiers.orchard@
            == o.0 && frontiers.ironwood@ == i.0 && sizes == (TreeSizes { sapling: s.1, orchard: o.1, ironwood: i.1 }),
    }
}

/// The frontiers of the trees of all pools and the sizes of the trees, from the texts of a tree state. The first that is
/// malformed is told.
pub fn frontiers_of_tree_state(sapling: &str, orchard: &str, ironwood: &str) -> (r: Result<
    (Frontiers, TreeSizes),
    ServerError,
>)
    ensures
        is_frontiers(sapling@, orchard@, ironwood@, r),
{
    let s = match read_frontier(sapling, ShieldedPool::Sapling) {
        Ok(s) => s,
        Err(error) => {
            return Err(error);
        },
    };
    let o = match read_frontier(orchard, ShieldedPool::Orchard) {
        Ok(o) => o,
        Err(error) => {
            return Err(error);
        },
    };
    let i = match read_frontier(ironwood, ShieldedPool::Ironwood) {
        Ok(i) => i,
        Err(error) => {
            return Err(error);
        },
    };
    let sizes = TreeSizes { sapling: s.1, orchard: o.1, ironwood: i.1 };
    Ok((Frontiers { sapling: s.0, orchard: o.0, ironwood: i.0 }, sizes))
}

/// The frontiers of a tree state, as [`frontiers_of_tree_state`] gives them, if its height and hash are those of a block.
pub fn frontiers_of_block(height: u64, hash: &str, sapling: &str, orchard: &str, ironwood: &str) -> (r: Result<
    (Frontiers, TreeSizes),
    ServerError,
>)
    ensures
        match tree_state_fault(height, hash@) {
            Some(detail) => r matches Err(ServerError::InvalidFrontier(error)) && error@ == detail,
            None => is_frontiers(sapling@, orchard@, ironwood@, r),
        },
{
    if let Some(detail) = tree_state_error(height, hash) {
        return Err(ServerError::InvalidFrontier(detail));
    }
    frontiers_of_tree_state(sapling, orchard, ironwood)
}

} // verus!
