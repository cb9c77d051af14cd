//! The stores of a wallet: its blocks, transactions, and the spends on chain that it has not placed yet.
use crate::primitives::{BlockHash, BlockHeight, Nullifier, OutputId, TxId};
use crate::sorted_map::{has_key, place_of, SortedMap};
use crate::wallet::sync_state::{ScanTarget, TreeBounds};
use crate::wallet::transaction::{TransactionView, WalletTransaction};
use vstd::prelude::*;

verus! {

/// What the wallet keeps of a scanned block.
#[derive(Debug, PartialEq, Eq)]
pub struct WalletBlock {
    pub block_height: BlockHeight,
    pub block_hash: BlockHash,
    pub prev_hash: BlockHash,
    pub time: u32,
    pub txids: Vec<TxId>,
    pub tree_bounds: TreeBounds,
}

/// The value of a [`WalletBlock`].
pub struct WalletBlockView {
    pub block_height: BlockHeight,
    pub block_hash: BlockHash,
    pub prev_hash: BlockHash,
    pub time: u32,
    pub txids: Seq<TxId>,
    pub tree_bounds: TreeBounds,
}

impl View for WalletBlock {
    type V = WalletBlockView;

    open spec fn view(&self) -> WalletBlockView {
        WalletBlockView {
            block_height: self.block_height,
            block_hash: self.block_hash,
            prev_hash: self.prev_hash,
            time: self.time,
            txids: self.txids@,
            tree_bounds: self.tree_bounds,
        }
    }
}

impl WalletBlock {
    pub fn tree_bounds(&self) -> (r: TreeBounds)
        ensures
            r == self.tree_bounds,
    {
        self.tree_bounds
    }
}

/// The blocks of a wallet by height.
pub type WalletBlocks = SortedMap<BlockHeight, WalletBlock>;

/// The transactions of a wallet by id.
pub type WalletTransactions = SortedMap<TxId, WalletTransaction>;

/// The transparent inputs on chain, each with the transaction that it is in.
pub type OutPoints = SortedMap<OutputId, ScanTarget>;

/// The nullifiers on chain, each with the transaction that it is in.
#[derive(Debug, PartialEq, Eq)]
pub struct NullifierMap {
    pub sapling: SortedMap<Nullifier, ScanTarget>,
    pub orchard: SortedMap<Nullifier, ScanTarget>,
    pub ironwood: SortedMap<Nullifier, ScanTarget>,
}

impl NullifierMap {
    pub open spec fn wf(&self) -> bool {
        self.sapling.wf() && self.orchard.wf() && self.ironwood.wf()
    }

    /// Whether no nullifier is mapped.
    pub open spec fn blank(&self) -> bool {
        &&& self.sapling@ == Map::<Nullifier, ScanTarget>::empty()
        &&& self.orchard@ == Map::<Nullifier, ScanTarget>::empty()
        &&& self.ironwood@ == Map::<Nullifier, ScanTarget>::empty()
    }

    pub fn new() -> (r: Self)
        ensures
            r.wf(),
            r.blank(),
    {
        NullifierMap {
            sapling: SortedMap::new(),
            orchard: SortedMap::new(),
            ironwood: SortedMap::new(),
        }
    }

    /// The number of nullifiers of all pools.
    pub open spec fn count(&self) -> nat {
        self.sapling.listed().len() + self.orchard.listed().len() + self.ironwood.listed().len()
    }

    /// Moves every entry of `other` into this map.
    pub fn append(&mut self, other: &mut NullifierMap)
        requires
            old(self).wf(),
            old(other).wf(),
        ensures
            final(self).wf(),
            final(other).wf(),
            final(other).blank(),
            final(self).sapling@ == old(self).sapling@.union_prefer_right(old(other).sapling@),
            final(self).orchard@ == old(self).orchard@.union_prefer_right(old(other).orchard@),
            final(self).ironwood@ == old(self).ironwood@.union_prefer_right(old(other).ironwood@),
    {
        self.sapling.append(&mut other.sapling);
        self.orchard.append(&mut other.orchard);
        self.ironwood.append(&mut other.ironwood);
    }
}

/// The values of the transactions of a wallet.
pub open spec fn tx_views(transactions: Map<TxId, WalletTransaction>) -> Map<
    TxId,
    TransactionView,
> {
    Map::new(|k: TxId| transactions.dom().contains(k), |k: TxId| transactions[k]@)
}

/// The values of the transactions of a wallet, in the order of their ids.
pub open spec fn txs_in_order(transactions: &WalletTransactions) -> Seq<TransactionView> {
    Seq::new(transactions.listed().len(), |i: int| transactions.listed()[i].1@)
}

/// Whether each transaction is filed under its own id.
pub open spec fn filed_by_id(transactions: &WalletTransactions) -> bool {
    forall|k: TxId| #[trigger]
        transactions@.dom().contains(k) ==> transactions@[k].txid == k
}

/// Transactions that were changed place by place were changed key by key.
pub proof fn lemma_changed_in_place(
    before: &WalletTransactions,
    after: &WalletTransactions,
    change: spec_fn(TransactionView) -> TransactionView,
)
    requires
        before.wf(),
        after.wf(),
        before.listed().len() == after.listed().len(),
        forall|i: int|
            0 <= i < after.listed().len() ==> (#[trigger] after.listed()[i]).0
                == before.listed()[i].0 && after.listed()[i].1@ == change(before.listed()[i].1@),
    ensures
        after@.dom() == before@.dom(),
        tx_views(after@) == tx_views(before@).map_values(change),
{
    before.lemma_listed();
    after.lemma_listed();
    let left = tx_views(after@);
    let right = tx_views(before@).map_values(change);
    assert forall|k: TxId| left.dom().contains(k) <==> right.dom().contains(k) by {
        if after@.dom().contains(k) {
            let p = place_of(after.listed(), k);
            assert(has_key(after.listed(), k));
            assert(after.listed()[p].0 == k);
            assert(before@.dom().contains(before.listed()[p].0));
        }
        if before@.dom().contains(k) {
            let p = place_of(before.listed(), k);
            assert(has_key(before.listed(), k));
            assert(before.listed()[p].0 == k);
            assert(after.listed()[p].0 == k);
            assert(after@.dom().contains(after.listed()[p].0));
        }
    }
    assert forall|k: TxId| left.dom().contains(k) implies left[k] == right[k] by {
        let p = place_of(after.listed(), k);
        assert(has_key(after.listed(), k));
        assert(after.listed()[p].0 == k);
        assert(after@[after.listed()[p].0] == after.listed()[p].1);
        assert(before@[before.listed()[p].0] == before.listed()[p].1);
    }
    assert(after@.dom() =~= before@.dom()) by {
        assert forall|k: TxId| after@.dom().contains(k) <==> before@.dom().contains(k) by {
            assert(left.dom().contains(k) <==> right.dom().contains(k));
        }
    }
    assert(left =~= right);
}

} // verus!
