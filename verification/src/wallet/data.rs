//! Everything that a wallet keeps of the chain.
use crate::primitives::{BlockHeight, OutputId, TxId};
use crate::sorted_map::{Rule, SortedMap};
use crate::sync::spend::{reset_spends, set_transactions_failed_unchecked, with_failed, with_spends_reset};
use crate::wallet::shard_trees::{fresh_tree, ShardTrees};
use crate::wallet::status::ConfirmationStatus;
use crate::wallet::stores::{filed_by_id, tx_views, NullifierMap, OutPoints, WalletBlock, WalletBlocks, WalletTransactions};
use crate::wallet::sync_state::{ScanTarget, SyncState};
use crate::wallet::transaction::{TransactionView, TransparentAddressId, WalletTransaction};
use vstd::prelude::*;

verus! {

/// What a wallet keeps of the chain.
pub struct Wallet {
    pub birthday: BlockHeight,
    pub sync_state: SyncState,
    pub wallet_blocks: WalletBlocks,
    pub wallet_transactions: WalletTransactions,
    pub nullifiers: NullifierMap,
    pub outpoints: OutPoints,
    pub shard_trees: ShardTrees,
    /// The transparent addresses that the wallet handed out or found in use.
    pub transparent_addresses: SortedMap<TransparentAddressId, String>,
    /// Whether the wallet has changed since it was last saved.
    pub save_required: bool,
}

impl Wallet {
    pub open spec fn wf(&self) -> bool {
        &&& self.sync_state.scan_targets.wf()
        &&& self.wallet_blocks.wf()
        &&& self.wallet_transactions.wf()
        &&& filed_by_id(&self.wallet_transactions)
        &&& self.nullifiers.wf()
        &&& self.outpoints.wf()
        &&& self.shard_trees.wf()
        &&& self.transparent_addresses.wf()
    }

    /// A wallet that has never synced.
    pub fn new(birthday: BlockHeight) -> (r: Self)
        ensures
            r.wf(),
            r.birthday == birthday,
            r.sync_state.blank(),
            r.wallet_blocks@ == Map::<BlockHeight, WalletBlock>::empty(),
            r.wallet_transactions@ == Map::<TxId, WalletTransaction>::empty(),
            r.nullifiers.blank(),
            r.outpoints@ == Map::<OutputId, ScanTarget>::empty(),
            r.shard_trees@.sapling == fresh_tree(false),
            r.shard_trees@.orchard == fresh_tree(true),
            r.shard_trees@.ironwood == fresh_tree(true),
            r.transparent_addresses@ == Map::<TransparentAddressId, String>::empty(),
            !r.save_required,
    {
        Wallet {
            birthday,
            sync_state: SyncState::new(),
            wallet_blocks: SortedMap::new(),
            wallet_transactions: SortedMap::new(),
            nullifiers: NullifierMap::new(),
            outpoints: SortedMap::new(),
            shard_trees: ShardTrees::new(),
            transparent_addresses: SortedMap::new(),
            save_required: false,
        }
    }
}

// --- cutting the stores off at a height ---

/// The entries of blocks at or below `height`.
pub open spec fn up_to<K>(targets: Map<K, ScanTarget>, height: BlockHeight) -> Map<K, ScanTarget> {
    Map::new(|k: K| targets.dom().contains(k) && targets[k].block_height <= height, |k: K| targets[k])
}

/// The entries of blocks above `height`.
pub open spec fn beyond<K>(targets: Map<K, ScanTarget>, height: BlockHeight) -> Map<K, ScanTarget> {
    Map::new(|k: K| targets.dom().contains(k) && targets[k].block_height > height, |k: K| targets[k])
}

/// The blocks at or below `height`.
pub open spec fn blocks_up_to(blocks: Map<BlockHeight, WalletBlock>, height: BlockHeight) -> Map<
    BlockHeight,
    WalletBlock,
> {
    Map::new(|k: BlockHeight| blocks.dom().contains(k) && k <= height, |k: BlockHeight| blocks[k])
}

/// Keeps what is at or below a height.
pub struct UpTo {
    pub height: BlockHeight,
}

/// Keeps what is above a height.
pub struct Beyond {
    pub height: BlockHeight,
}

impl<K> Rule<K, ScanTarget> for UpTo {
    open spec fn keeps(&self, key: K, target: ScanTarget) -> bool {
        target.block_height <= self.height
    }

    fn keep(&self, key: &K, target: &ScanTarget) -> bool {
        target.block_height <= self.height
    }
}

impl<K> Rule<K, ScanTarget> for Beyond {
    open spec fn keeps(&self, key: K, target: ScanTarget) -> bool {
        target.block_height > self.height
    }

    fn keep(&self, key: &K, target: &ScanTarget) -> bool {
        target.block_height > self.height
    }
}

impl Rule<BlockHeight, WalletBlock> for UpTo {
    open spec fn keeps(&self, height: BlockHeight, block: WalletBlock) -> bool {
        height <= self.height
    }

    fn keep(&self, height: &BlockHeight, block: &WalletBlock) -> bool {
        *height <= self.height
    }
}

/// Whether the transaction is in a block above `height`.
pub open spec fn is_confirmed_above(status: ConfirmationStatus, height: BlockHeight) -> bool {
    status is Confirmed && status.height() > height
}

/// The ids of the listed transactions in blocks above `height`.
pub open spec fn ids_above(listed: Seq<(TxId, WalletTransaction)>, height: BlockHeight) -> Seq<TxId>
    decreases listed.len(),
{
    if listed.len() == 0 {
        Seq::empty()
    } else if is_confirmed_above(listed.last().1.status, height) {
        ids_above(listed.drop_last(), height).push(listed.last().0)
    } else {
        ids_above(listed.drop_last(), height)
    }
}

/// The ids of the transactions in blocks above `height`.
pub fn transactions_above(transactions: &WalletTransactions, height: BlockHeight) -> (r: Vec<TxId>)
    ensures
        r@ == ids_above(transactions.listed(), height),
{
    let mut out: Vec<TxId> = Vec::new();
    let count: usize = transactions.len();
    let mut i: usize = 0;
    assert(transactions.listed().take(0) =~= Seq::empty());
    while i < count
        invariant
            i <= count == transactions.listed().len(),
            out@ == ids_above(transactions.listed().take(i as int), height),
        decreases count - i,
    {
        let entry = transactions.entry(i);
        proof {
            let next = transactions.listed().take(i + 1);
            assert(next.drop_last() =~= transactions.listed().take(i as int));
            assert(next.last() == transactions.listed()[i as int]);
        }
        if entry.1.status.is_confirmed() && entry.1.status.get_height() > height {
            out.push(entry.0);
        }
        i = i + 1;
    }
    assert(transactions.listed().take(count as int) =~= transactions.listed());
    out
}

/// An id is listed if and only if its transaction is in a block above `height`.
pub proof fn lemma_ids_above(transactions: &WalletTransactions, height: BlockHeight, txid: TxId)
    requires
        transactions.wf(),
    ensures
        ids_above(transactions.listed(), height).contains(txid) == (transactions@.dom().contains(txid)
            && is_confirmed_above(transactions@[txid].status, height)),
{
    transactions.lemma_listed();
    let listed = transactions.listed();
    lemma_ids_above_listed(listed, height, txid);
    if ids_above(listed, height).contains(txid) {
        let i = choose|i: int|
            0 <= i < listed.len() && (#[trigger] listed[i]).0 == txid && is_confirmed_above(listed[i].1.status, height);
        assert(transactions@.dom().contains(listed[i].0));
    }
    if transactions@.dom().contains(txid) && is_confirmed_above(transactions@[txid].status, height) {
        assert(crate::sorted_map::has_key(listed, txid));
        let i = choose|i: int| 0 <= i < listed.len() && (#[trigger] listed[i]).0 == txid;
        assert(transactions@[listed[i].0] == listed[i].1);
    }
}

proof fn lemma_ids_above_listed(listed: Seq<(TxId, WalletTransaction)>, height: BlockHeight, txid: TxId)
    ensures
        ids_above(listed, height).contains(txid) == exists|i: int|
            0 <= i < listed.len() && (#[trigger] listed[i]).0 == txid && is_confirmed_above(
                listed[i].1.status,
                height,
            ),
    decreases listed.len(),
{
    if listed.len() > 0 {
        let before = listed.drop_last();
        let last = listed.last();
        let ids = ids_above(before, height);
        lemma_ids_above_listed(before, height, txid);
        assert(ids.push(last.0).contains(txid) == (ids.contains(txid) || last.0 == txid)) by {
            if ids.push(last.0).contains(txid) {
                let i = choose|i: int| 0 <= i < ids.push(last.0).len() && ids.push(last.0)[i] == txid;
                if i < ids.len() {
                    assert(ids[i] == txid);
                }
            }
            if ids.contains(txid) {
                let i = choose|i: int| 0 <= i < ids.len() && ids[i] == txid;
                assert(ids.push(last.0)[i] == txid);
            }
            assert(ids.push(last.0)[ids.len() as int] == last.0);
        }
        if ids.contains(txid) {
            let i = choose|i: int|
                0 <= i < before.len() && (#[trigger] before[i]).0 == txid && is_confirmed_above(
                    before[i].1.status,
                    height,
                );
            assert(listed[i] == before[i]);
        }
        if exists|i: int|
            0 <= i < listed.len() && (#[trigger] listed[i]).0 == txid && is_confirmed_above(
                listed[i].1.status,
                height,
            ) {
            let i = choose|i: int|
                0 <= i < listed.len() && (#[trigger] listed[i]).0 == txid && is_confirmed_above(
                    listed[i].1.status,
                    height,
                );
            if i < before.len() {
                assert(before[i] == listed[i]);
            }
        }
        assert(listed[listed.len() - 1] == last);
    }
}

/// The transactions but for those of `txids`, with every output that those had spent unspent again.
pub open spec fn without(transactions: Map<TxId, TransactionView>, txids: Seq<TxId>) -> Map<TxId, TransactionView> {
    Map::new(
        |k: TxId| transactions.dom().contains(k) && !txids.contains(k),
        |k: TxId| with_spends_reset(transactions[k], txids),
    )
}

/// Removes the transactions of `txids`, and makes the outputs that they had spent unspent.
pub fn remove_transactions(transactions: &mut WalletTransactions, txids: &Vec<TxId>)
    requires
        old(transactions).wf(),
    ensures
        final(transactions).wf(),
        tx_views(final(transactions)@) == without(tx_views(old(transactions)@), txids@),
{
    let ghost before = transactions@;
    let mut i: usize = 0;
    let count: usize = txids.len();
    while i < count
        invariant
            i <= count == txids@.len(),
            transactions.wf(),
            forall|k: TxId| #[trigger]
                transactions@.dom().contains(k) == (before.dom().contains(k) && !txids@.take(i as int).contains(k)),
            forall|k: TxId| #[trigger] transactions@.dom().contains(k) ==> transactions@[k] == before[k],
        decreases count - i,
    {
        let txid = txids[i];
        let ghost so_far = transactions@;
        proof {
            let listed = txids@.take(i as int);
            let next = txids@.take(i + 1);
            assert(next =~= listed.push(txid));
            assert forall|k: TxId| next.contains(k) <==> listed.contains(k) || k == txid by {
                if next.contains(k) {
                    let j = choose|j: int| 0 <= j < next.len() && next[j] == k;
                    if j < listed.len() {
                        assert(listed[j] == k);
                    }
                }
                if listed.contains(k) {
                    let j = choose|j: int| 0 <= j < listed.len() && listed[j] == k;
                    assert(next[j] == k);
                }
                assert(next[listed.len() as int] == txid);
            }
        }
        let _taken = transactions.remove(&txid);
        proof {
            assert forall|k: TxId| #[trigger] transactions@.dom().contains(k) == (before.dom().contains(k)
                && !txids@.take(i + 1).contains(k)) by {
                assert(so_far.dom().contains(k) == (before.dom().contains(k) && !txids@.take(i as int).contains(k)));
            }
            assert forall|k: TxId| #[trigger] transactions@.dom().contains(k) implies transactions@[k]
                == before[k] by {
                assert(so_far.dom().contains(k));
            }
        }
        i = i + 1;
    }
    assert(txids@.take(count as int) =~= txids@);
    let ghost left = tx_views(transactions@);
    reset_spends(transactions, txids);
    assert(tx_views(transactions@) =~= without(tx_views(before), txids@));
}

/// The transactions once those in blocks above `height` have failed, or have been removed.
pub open spec fn transactions_cut_off(
    transactions: &WalletTransactions,
    height: BlockHeight,
    set_failed: bool,
    now: u32,
) -> Map<TxId, TransactionView> {
    let gone = ids_above(transactions.listed(), height);
    if set_failed {
        with_failed(tx_views(transactions@), gone, now)
    } else {
        without(tx_views(transactions@), gone)
    }
}

/// Whether the stores of `after` are those of `before` cut off at `height`, and the rest is unchanged.
pub open spec fn stores_cut_off(before: &Wallet, after: &Wallet, height: BlockHeight, set_failed: bool, now: u32) -> bool {
    &&& after.wallet_blocks@ == blocks_up_to(before.wallet_blocks@, height)
    &&& tx_views(after.wallet_transactions@) == transactions_cut_off(
        &before.wallet_transactions,
        height,
        set_failed,
        now,
    )
    &&& after.nullifiers.sapling@ == up_to(before.nullifiers.sapling@, height)
    &&& after.nullifiers.orchard@ == up_to(before.nullifiers.orchard@, height)
    &&& after.nullifiers.ironwood@ == up_to(before.nullifiers.ironwood@, height)
    &&& after.outpoints@ == up_to(before.outpoints@, height)
}

/// Whether the two wallets differ in nothing but their stores of blocks, transactions, nullifiers and outpoints.
pub open spec fn same_but_stores(before: &Wallet, after: &Wallet) -> bool {
    &&& after.birthday == before.birthday
    &&& after.sync_state == before.sync_state
    &&& after.shard_trees == before.shard_trees
    &&& after.transparent_addresses == before.transparent_addresses
    &&& after.save_required == before.save_required
}

/// Removes wallet blocks, transactions, nullifiers and outpoints above the given height.
///
/// If `set_truncated_transactions_failed` is set, transactions are not removed from the wallet, but their status is
/// set to `Failed` at the time `now`.
pub fn truncate_stores(
    wallet: &mut Wallet,
    truncate_height: BlockHeight,
    set_truncated_transactions_failed: bool,
    now: u32,
)
    requires
        old(wallet).wf(),
    ensures
        final(wallet).wf(),
        stores_cut_off(old(wallet), final(wallet), truncate_height, set_truncated_transactions_failed, now),
        same_but_stores(old(wallet), final(wallet)),
{
    let cut = UpTo { height: truncate_height };
    let ghost blocks = wallet.wallet_blocks@;
    wallet.wallet_blocks.retain(&cut);
    assert(wallet.wallet_blocks@ =~= blocks_up_to(blocks, truncate_height));
    let gone = transactions_above(&wallet.wallet_transactions, truncate_height);
    let ghost before = tx_views(wallet.wallet_transactions@);
    if set_truncated_transactions_failed {
        set_transactions_failed_unchecked(&mut wallet.wallet_transactions, &gone, now);
    } else {
        remove_transactions(&mut wallet.wallet_transactions, &gone);
    }
    proof {
        lemma_still_filed(&old(wallet).wallet_transactions, &wallet.wallet_transactions);
    }
    wallet.nullifiers.sapling.retain(&cut);
    wallet.nullifiers.orchard.retain(&cut);
    wallet.nullifiers.ironwood.retain(&cut);
    wallet.outpoints.retain(&cut);
    proof {
        assert(wallet.nullifiers.sapling@ =~= up_to(old(wallet).nullifiers.sapling@, truncate_height));
        assert(wallet.nullifiers.orchard@ =~= up_to(old(wallet).nullifiers.orchard@, truncate_height));
        assert(wallet.nullifiers.ironwood@ =~= up_to(old(wallet).nullifiers.ironwood@, truncate_height));
        assert(wallet.outpoints@ =~= up_to(old(wallet).outpoints@, truncate_height));
    }
}

/// Transactions that keep their ids stay filed by them.
pub proof fn lemma_still_filed(before: &WalletTransactions, after: &WalletTransactions)
    requires
        filed_by_id(before),
        forall|k: TxId| #[trigger] tx_views(after@).dom().contains(k) ==> tx_views(before@).dom().contains(k)
            && tx_views(after@)[k].txid == tx_views(before@)[k].txid,
    ensures
        filed_by_id(after),
{
    assert forall|k: TxId| #[trigger] after@.dom().contains(k) implies after@[k].txid == k by {
        assert(tx_views(after@).dom().contains(k));
        assert(before@.dom().contains(k));
    }
}

/// What is kept of the stores is exactly the data at or below the height.
pub proof fn law_truncated_stores_hold_nothing_above(
    before: &Wallet,
    after: &Wallet,
    height: BlockHeight,
    set_failed: bool,
    now: u32,
)
    requires
        before.wf(),
        stores_cut_off(before, after, height, set_failed, now),
    ensures
        forall|k: BlockHeight| #[trigger]
            after.wallet_blocks@.dom().contains(k) == (before.wallet_blocks@.dom().contains(k) && k <= height),
        forall|k: OutputId| #[trigger]
            after.outpoints@.dom().contains(k) ==> after.outpoints@[k].block_height <= height,
        forall|k: TxId| #[trigger]
            after.wallet_transactions@.dom().contains(k) ==> !is_confirmed_above(
                after.wallet_transactions@[k].status,
                height,
            ),
{
    assert forall|k: TxId| #[trigger]
        after.wallet_transactions@.dom().contains(k) implies !is_confirmed_above(
        after.wallet_transactions@[k].status,
        height,
    ) by {
        assert(tx_views(after.wallet_transactions@).dom().contains(k));
        assert(tx_views(after.wallet_transactions@)[k].status == after.wallet_transactions@[k].status);
        lemma_ids_above(&before.wallet_transactions, height, k);
        assert(before.wallet_transactions@.dom().contains(k));
        assert(tx_views(before.wallet_transactions@)[k].status == before.wallet_transactions@[k].status);
    }
}

} // verus!
