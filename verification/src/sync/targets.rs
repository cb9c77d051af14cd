//! Blocks and transactions that are to be scanned before others.
use crate::primitives::{BlockHeight, TxId};
use crate::wallet::stores::{filed_by_id, tx_views, WalletTransactions};
use crate::wallet::sync_state::{ScanTarget, SyncState};
use crate::wallet::transaction::TransactionView;
use vstd::prelude::*;

verus! {

/// Whether no field but the scan targets differs.
pub open spec fn same_but_targets(a: &SyncState, b: &SyncState) -> bool {
    &&& a.scan_ranges == b.scan_ranges
    &&& a.sapling_shard_ranges == b.sapling_shard_ranges
    &&& a.orchard_shard_ranges == b.orchard_shard_ranges
    &&& a.ironwood_shard_ranges == b.ironwood_shard_ranges
    &&& a.initial_sync_state == b.initial_sync_state
}

/// Adds targets to be prioritised for scanning.
///
/// The height of a target says which blocks are prioritised. Its txid may be all zeroes, which prioritises the blocks
/// and is passed over when transactions are fetched.
pub fn add_scan_targets(sync_state: &mut SyncState, scan_targets: &Vec<ScanTarget>)
    requires
        old(sync_state).scan_targets.wf(),
    ensures
        final(sync_state).scan_targets.wf(),
        forall|t: ScanTarget| #[trigger]
            final(sync_state).scan_targets@.dom().contains(t) == (old(sync_state).scan_targets@.dom().contains(t)
                || scan_targets@.contains(t)),
        same_but_targets(final(sync_state), old(sync_state)),
{
    let ghost before = sync_state.scan_targets@;
    let count: usize = scan_targets.len();
    let mut i: usize = 0;
    while i < count
        invariant
            i <= count == scan_targets@.len(),
            sync_state.scan_targets.wf(),
            before == old(sync_state).scan_targets@,
            forall|t: ScanTarget| #[trigger]
                sync_state.scan_targets@.dom().contains(t) == (before.dom().contains(t) || exists|k: int|
                    0 <= k < i && scan_targets@[k] == t),
            same_but_targets(sync_state, old(sync_state)),
        decreases count - i,
    {
        let target = scan_targets[i];
        let ghost so_far = sync_state.scan_targets@;
        sync_state.scan_targets.insert(target, ());
        proof {
            assert forall|t: ScanTarget| #[trigger] sync_state.scan_targets@.dom().contains(t) == (before.dom().contains(
                t,
            ) || exists|k: int| 0 <= k < i + 1 && scan_targets@[k] == t) by {
                assert(so_far.dom().contains(t) == (before.dom().contains(t) || exists|k: int|
                    0 <= k < i && scan_targets@[k] == t));
                if t == target {
                    assert(scan_targets@[i as int] == t);
                }
            }
        }
        i = i + 1;
    }
}

/// Whether the target is that of a transaction in a block at or above `from_height`.
pub open spec fn is_confirmed_target(
    transactions: Map<TxId, TransactionView>,
    from_height: BlockHeight,
    target: ScanTarget,
) -> bool {
    &&& transactions.dom().contains(target.txid)
    &&& transactions[target.txid].status.confirmed_height() == Some(target.block_height)
    &&& target.block_height >= from_height
    &&& target.narrow_scan_area
}

/// The targets of the transactions in blocks at or above `from_height`, so that a rescan can find them.
pub fn confirmed_targets(transactions: &WalletTransactions, from_height: BlockHeight) -> (r: Vec<ScanTarget>)
    requires
        transactions.wf(),
        filed_by_id(transactions),
    ensures
        forall|t: ScanTarget| #[trigger]
            r@.contains(t) == is_confirmed_target(tx_views(transactions@), from_height, t),
{
    let mut out: Vec<ScanTarget> = Vec::new();
    let ghost listed = transactions.listed();
    let count: usize = transactions.len();
    let mut i: usize = 0;
    proof {
        transactions.lemma_listed();
    }
    while i < count
        invariant
            i <= count == listed.len(),
            listed == transactions.listed(),
            transactions.wf(),
            filed_by_id(transactions),
            forall|k: int|
                0 <= k < listed.len() ==> transactions@.dom().contains((#[trigger] listed[k]).0)
                    && transactions@[listed[k].0] == listed[k].1,
            forall|t: ScanTarget| #[trigger]
                out@.contains(t) == exists|k: int|
                    0 <= k < i && (#[trigger] listed[k]).0 == t.txid && listed[k].1.status.confirmed_height() == Some(
                        t.block_height,
                    ) && t.block_height >= from_height && t.narrow_scan_area,
        decreases count - i,
    {
        let entry = transactions.entry(i);
        let ghost so_far = out@;
        assert(transactions@.dom().contains(listed[i as int].0));
        if let Some(height) = entry.1.status.get_confirmed_height() {
            if height >= from_height {
                let target = ScanTarget { block_height: height, txid: entry.1.txid, narrow_scan_area: true };
                out.push(target);
                proof {
                    lemma_push_contains(so_far, target);
                }
            }
        }
        proof {
            assert forall|t: ScanTarget| #[trigger] out@.contains(t) == exists|k: int|
                0 <= k < i + 1 && (#[trigger] listed[k]).0 == t.txid && listed[k].1.status.confirmed_height() == Some(
                    t.block_height,
                ) && t.block_height >= from_height && t.narrow_scan_area by {
                assert(so_far.contains(t) == exists|k: int|
                    0 <= k < i && (#[trigger] listed[k]).0 == t.txid && listed[k].1.status.confirmed_height() == Some(
                        t.block_height,
                    ) && t.block_height >= from_height && t.narrow_scan_area);
                assert(listed[i as int].1.txid == listed[i as int].0);
                if out@.contains(t) && !so_far.contains(t) {
                    assert(listed[i as int].0 == t.txid);
                }
            }
        }
        i = i + 1;
    }
    proof {
        assert forall|t: ScanTarget| #[trigger] out@.contains(t) == is_confirmed_target(
            tx_views(transactions@),
            from_height,
            t,
        ) by {
            if is_confirmed_target(tx_views(transactions@), from_height, t) {
                assert(transactions@.dom().contains(t.txid));
                assert(crate::sorted_map::has_key(listed, t.txid));
                let k = choose|k: int| 0 <= k < listed.len() && (#[trigger] listed[k]).0 == t.txid;
                assert(transactions@[listed[k].0] == listed[k].1);
            }
            if out@.contains(t) {
                let k = choose|k: int|
                    0 <= k < listed.len() && (#[trigger] listed[k]).0 == t.txid
                        && listed[k].1.status.confirmed_height() == Some(t.block_height) && t.block_height
                        >= from_height && t.narrow_scan_area;
                assert(transactions@[listed[k].0] == listed[k].1);
            }
        }
    }
    out
}

pub proof fn lemma_push_contains<T>(list: Seq<T>, item: T)
    ensures
        forall|t: T| #[trigger] list.push(item).contains(t) == (list.contains(t) || t == item),
{
    assert forall|t: T| #[trigger] list.push(item).contains(t) == (list.contains(t) || t == item) by {
        let all = list.push(item);
        if all.contains(t) {
            let i = choose|i: int| 0 <= i < all.len() && all[i] == t;
            if i < list.len() {
                assert(list[i] == t);
            }
        }
        if list.contains(t) {
            let i = choose|i: int| 0 <= i < list.len() && list[i] == t;
            assert(all[i] == t);
        }
        assert(all[list.len() as int] == item);
    }
}

} // verus!
