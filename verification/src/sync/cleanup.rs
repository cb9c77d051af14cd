//! What the wallet keeps of what was scanned.
use crate::primitives::{BlockHeight, TxId};
use crate::scan_range::ScanRange;
use crate::sorted_map::{has_key, Rule};
use crate::sync::session::MAX_REORG_ALLOWANCE;
use crate::sync::spend::{not_confirmed, set_transactions_failed, with_failed};
use crate::sync::targets::lemma_push_contains;
use crate::wallet::data::{beyond, Beyond, Wallet};
use crate::wallet::stores::{tx_views, WalletBlock, WalletBlocks, WalletTransactions};
use crate::wallet::sync_state::{below, ScanTarget, SyncState};
use crate::wallet::transaction::{TransactionView, WalletTransaction};
use vstd::prelude::*;

verus! {

// --- blocks ---

/// Whether a range that has been scanned begins or ends with the block.
pub open spec fn bounds_scanned_range(ranges: Seq<ScanRange>, height: BlockHeight) -> bool {
    exists|i: int|
        0 <= i < ranges.len() && (#[trigger] ranges[i]).priority.scanned() && (ranges[i].block_range.start == height
            || below(ranges[i].block_range.end) == height)
}

/// Whether a transaction of the wallet is in the block.
pub open spec fn has_transaction(transactions: Map<TxId, TransactionView>, height: BlockHeight) -> bool {
    exists|txid: TxId| #[trigger]
        transactions.dom().contains(txid) && transactions[txid].status.confirmed_height() == Some(height)
}

/// The lowest height that a re-org may reach.
pub open spec fn reorg_floor(highest_scanned_height: BlockHeight) -> BlockHeight {
    if highest_scanned_height < MAX_REORG_ALLOWANCE {
        0
    } else {
        (highest_scanned_height - MAX_REORG_ALLOWANCE) as u32
    }
}

/// The first and the last block of every range that has been scanned.
fn scanned_bounds(ranges: &Vec<ScanRange>) -> (r: Vec<BlockHeight>)
    ensures
        forall|h: BlockHeight| #[trigger] r@.contains(h) == bounds_scanned_range(ranges@, h),
{
    let mut out: Vec<BlockHeight> = Vec::new();
    let count: usize = ranges.len();
    let mut i: usize = 0;
    assert(ranges@.take(0) =~= Seq::empty());
    while i < count
        invariant
            i <= count == ranges@.len(),
            forall|h: BlockHeight| #[trigger] out@.contains(h) == bounds_scanned_range(ranges@.take(i as int), h),
        decreases count - i,
    {
        let range = ranges[i];
        let ghost so_far = out@;
        if range.priority.is_scanned() {
            let end: u32 = range.block_range.end.saturating_sub(1);
            out.push(range.block_range.start);
            proof {
                lemma_push_contains(so_far, range.block_range.start);
                lemma_push_contains(so_far.push(range.block_range.start), end);
            }
            out.push(end);
        }
        proof {
            let seen = ranges@.take(i as int);
            let next = ranges@.take(i + 1);
            assert forall|h: BlockHeight| #[trigger] out@.contains(h) == bounds_scanned_range(next, h) by {
                assert(so_far.contains(h) == bounds_scanned_range(seen, h));
                if bounds_scanned_range(seen, h) {
                    let k = choose|k: int|
                        0 <= k < seen.len() && (#[trigger] seen[k]).priority.scanned() && (seen[k].block_range.start
                            == h || below(seen[k].block_range.end) == h);
                    assert(next[k] == seen[k]);
                }
                if bounds_scanned_range(next, h) {
                    let k = choose|k: int|
                        0 <= k < next.len() && (#[trigger] next[k]).priority.scanned() && (next[k].block_range.start
                            == h || below(next[k].block_range.end) == h);
                    if k < i {
                        assert(seen[k] == next[k]);
                    } else {
                        assert(next[k] == range);
                    }
                }
                assert(next[i as int] == range);
            }
        }
        i = i + 1;
    }
    assert(ranges@.take(count as int) =~= ranges@);
    out
}

/// The heights of the blocks of the wallet's transactions.
fn confirmed_heights(transactions: &WalletTransactions) -> (r: Vec<BlockHeight>)
    requires
        transactions.wf(),
    ensures
        forall|h: BlockHeight| #[trigger] r@.contains(h) == has_transaction(tx_views(transactions@), h),
{
    let mut out: Vec<BlockHeight> = Vec::new();
    let ghost listed = transactions.listed();
    let count: usize = transactions.len();
    let mut i: usize = 0;
    while i < count
        invariant
            i <= count == listed.len(),
            listed == transactions.listed(),
            forall|h: BlockHeight| #[trigger]
                out@.contains(h) == exists|k: int|
                    0 <= k < i && (#[trigger] listed[k]).1.status.confirmed_height() == Some(h),
        decreases count - i,
    {
        let ghost so_far = out@;
        if let Some(height) = transactions.entry(i).1.status.get_confirmed_height() {
            out.push(height);
            proof {
                lemma_push_contains(so_far, height);
            }
        }
        proof {
            assert forall|h: BlockHeight| #[trigger] out@.contains(h) == exists|k: int|
                0 <= k < i + 1 && (#[trigger] listed[k]).1.status.confirmed_height() == Some(h) by {
                assert(so_far.contains(h) == exists|k: int|
                    0 <= k < i && (#[trigger] listed[k]).1.status.confirmed_height() == Some(h));
                if out@.contains(h) && !so_far.contains(h) {
                    assert(listed[i as int].1.status.confirmed_height() == Some(h));
                }
            }
        }
        i = i + 1;
    }
    proof {
        transactions.lemma_listed();
        assert forall|h: BlockHeight| #[trigger] out@.contains(h) == has_transaction(
            tx_views(transactions@),
            h,
        ) by {
            if out@.contains(h) {
                let k = choose|k: int|
                    0 <= k < count && (#[trigger] listed[k]).1.status.confirmed_height() == Some(h);
                assert(transactions@.dom().contains(listed[k].0));
                assert(tx_views(transactions@).dom().contains(listed[k].0));
            }
            if has_transaction(tx_views(transactions@), h) {
                let txid = choose|txid: TxId| #[trigger]
                    tx_views(transactions@).dom().contains(txid) && tx_views(
                        transactions@,
                    )[txid].status.confirmed_height() == Some(h);
                assert(transactions@.dom().contains(txid));
                assert(has_key(listed, txid));
                let k = choose|k: int| 0 <= k < listed.len() && (#[trigger] listed[k]).0 == txid;
                assert(transactions@[listed[k].0] == listed[k].1);
                assert(listed[k].1.status.confirmed_height() == Some(h));
            }
        }
    }
    out
}

fn has_height(heights: &Vec<BlockHeight>, height: BlockHeight) -> (r: bool)
    ensures
        r == heights@.contains(height),
{
    let count: usize = heights.len();
    let mut i: usize = 0;
    while i < count
        invariant
            i <= count == heights@.len(),
            forall|k: int| 0 <= k < i ==> heights@[k] != height,
        decreases count - i,
    {
        if heights[i] == height {
            assert(heights@[i as int] == height);
            return true;
        }
        i = i + 1;
    }
    false
}

/// Keeps the blocks from a height on, and those of a list.
pub struct BlockRule {
    pub from: BlockHeight,
    pub others: Vec<BlockHeight>,
    pub heights: Vec<BlockHeight>,
}

impl Rule<BlockHeight, WalletBlock> for BlockRule {
    open spec fn keeps(&self, height: BlockHeight, block: WalletBlock) -> bool {
        height >= self.from || self.others@.contains(height) || self.heights@.contains(height)
    }

    fn keep(&self, height: &BlockHeight, block: &WalletBlock) -> bool {
        *height >= self.from || has_height(&self.others, *height) || has_height(&self.heights, *height)
    }
}

/// Whether the wallet still needs a block: a re-org may reach it, it bounds a range that has been scanned, or a
/// transaction of the wallet is in it.
pub open spec fn is_relevant_block(
    state: &SyncState,
    transactions: Map<TxId, TransactionView>,
    height: BlockHeight,
) -> bool {
    ||| height >= reorg_floor(state.scanned_top()->0)
    ||| bounds_scanned_range(state.scan_ranges@, height)
    ||| has_transaction(transactions, height)
}

/// The blocks that the wallet still needs.
pub open spec fn relevant_blocks(
    blocks: Map<BlockHeight, WalletBlock>,
    state: &SyncState,
    transactions: Map<TxId, TransactionView>,
) -> Map<BlockHeight, WalletBlock> {
    Map::new(
        |h: BlockHeight| blocks.dom().contains(h) && is_relevant_block(state, transactions, h),
        |h: BlockHeight| blocks[h],
    )
}

/// Removes the blocks that the wallet no longer needs.
pub fn remove_irrelevant_blocks(wallet: &mut Wallet)
    requires
        old(wallet).wf(),
        old(wallet).sync_state.scan_ranges@.len() > 0,
    ensures
        final(wallet).wf(),
        final(wallet).wallet_blocks@ == relevant_blocks(
            old(wallet).wallet_blocks@,
            &old(wallet).sync_state,
            tx_views(old(wallet).wallet_transactions@),
        ),
        *final(wallet) == (Wallet { wallet_blocks: final(wallet).wallet_blocks, ..*old(wallet) }),
{
    let highest: u32 = wallet.sync_state.highest_scanned_height().unwrap();
    let rule = BlockRule {
        from: highest.saturating_sub(MAX_REORG_ALLOWANCE),
        others: scanned_bounds(&wallet.sync_state.scan_ranges),
        heights: confirmed_heights(&wallet.wallet_transactions),
    };
    wallet.wallet_blocks.retain(&rule);
    assert(wallet.wallet_blocks@ =~= relevant_blocks(
        old(wallet).wallet_blocks@,
        &old(wallet).sync_state,
        tx_views(old(wallet).wallet_transactions@),
    ));
}

/// Whether a scanned block is kept: a re-org may reach it, it bounds the range that was scanned, or a transaction of
/// the wallet is in it.
pub open spec fn is_kept_block(
    state: &SyncState,
    transactions: Map<TxId, TransactionView>,
    scan_range: ScanRange,
    height: BlockHeight,
) -> bool {
    ||| height >= reorg_floor(state.scanned_top()->0)
    ||| height == scan_range.block_range.start
    ||| height == below(scan_range.block_range.end)
    ||| has_transaction(transactions, height)
}

/// Adds the blocks that were scanned and that the wallet needs.
pub fn add_scanned_blocks(wallet: &mut Wallet, scanned_blocks: &mut WalletBlocks, scan_range: &ScanRange)
    requires
        old(wallet).wf(),
        old(wallet).sync_state.scan_ranges@.len() > 0,
        old(scanned_blocks).wf(),
    ensures
        final(wallet).wf(),
        final(wallet).wallet_blocks@ == old(wallet).wallet_blocks@.union_prefer_right(
            Map::new(
                |h: BlockHeight|
                    old(scanned_blocks)@.dom().contains(h) && is_kept_block(
                        &old(wallet).sync_state,
                        tx_views(old(wallet).wallet_transactions@),
                        *scan_range,
                        h,
                    ),
                |h: BlockHeight| old(scanned_blocks)@[h],
            ),
        ),
        *final(wallet) == (Wallet { wallet_blocks: final(wallet).wallet_blocks, ..*old(wallet) }),
{
    let highest: u32 = wallet.sync_state.highest_scanned_height().unwrap();
    let mut others: Vec<BlockHeight> = Vec::new();
    others.push(scan_range.block_range.start);
    others.push(scan_range.block_range.end.saturating_sub(1));
    proof {
        let none = Seq::<BlockHeight>::empty();
        lemma_push_contains(none, scan_range.block_range.start);
        lemma_push_contains(none.push(scan_range.block_range.start), below(scan_range.block_range.end));
        assert(others@ == none.push(scan_range.block_range.start).push(below(scan_range.block_range.end)));
    }
    let rule = BlockRule {
        from: highest.saturating_sub(MAX_REORG_ALLOWANCE),
        others,
        heights: confirmed_heights(&wallet.wallet_transactions),
    };
    let ghost all = scanned_blocks@;
    scanned_blocks.retain(&rule);
    proof {
        let kept = Map::new(
            |h: BlockHeight|
                all.dom().contains(h) && is_kept_block(
                    &old(wallet).sync_state,
                    tx_views(old(wallet).wallet_transactions@),
                    *scan_range,
                    h,
                ),
            |h: BlockHeight| all[h],
        );
        assert(scanned_blocks@ =~= kept);
    }
    wallet.wallet_blocks.append(scanned_blocks);
}

// --- everything else ---

impl Rule<ScanTarget, ()> for Beyond {
    open spec fn keeps(&self, target: ScanTarget, value: ()) -> bool {
        target.block_height > self.height
    }

    fn keep(&self, target: &ScanTarget, value: &()) -> bool {
        target.block_height > self.height
    }
}

/// Whether `after` is `before` without what the wallet no longer needs: nullifiers, outpoints and targets up to the
/// height at and below which every block is scanned, and irrelevant blocks.
pub open spec fn cleaned_up(before: &Wallet, after: &Wallet) -> bool {
    let done = before.sync_state.scanned_to()->0;
    &&& after.outpoints@ == beyond(before.outpoints@, done)
    &&& after.nullifiers.sapling@ == beyond(before.nullifiers.sapling@, done)
    &&& after.nullifiers.orchard@ == beyond(before.nullifiers.orchard@, done)
    &&& after.nullifiers.ironwood@ == beyond(before.nullifiers.ironwood@, done)
    &&& forall|t: ScanTarget| #[trigger]
        after.sync_state.scan_targets@.dom().contains(t) == (before.sync_state.scan_targets@.dom().contains(t)
            && t.block_height > done)
    &&& crate::sync::targets::same_but_targets(&after.sync_state, &before.sync_state)
    &&& after.wallet_blocks@ == relevant_blocks(
        before.wallet_blocks@,
        &before.sync_state,
        tx_views(before.wallet_transactions@),
    )
    &&& after.wallet_transactions == before.wallet_transactions
    &&& after.shard_trees == before.shard_trees
    &&& after.birthday == before.birthday
    &&& after.transparent_addresses == before.transparent_addresses
    &&& after.save_required == before.save_required
}

/// Removes what the wallet no longer needs.
pub fn remove_irrelevant_data(wallet: &mut Wallet)
    requires
        old(wallet).wf(),
        old(wallet).sync_state.scan_ranges@.len() > 0,
    ensures
        final(wallet).wf(),
        cleaned_up(old(wallet), final(wallet)),
{
    let fully_scanned_height: u32 = wallet.sync_state.fully_scanned_height().unwrap();
    let rule = Beyond { height: fully_scanned_height };
    wallet.outpoints.retain(&rule);
    wallet.nullifiers.sapling.retain(&rule);
    wallet.nullifiers.orchard.retain(&rule);
    wallet.nullifiers.ironwood.retain(&rule);
    wallet.sync_state.scan_targets.retain(&rule);
    proof {
        assert(wallet.outpoints@ =~= beyond(old(wallet).outpoints@, fully_scanned_height));
        assert(wallet.nullifiers.sapling@ =~= beyond(old(wallet).nullifiers.sapling@, fully_scanned_height));
        assert(wallet.nullifiers.orchard@ =~= beyond(old(wallet).nullifiers.orchard@, fully_scanned_height));
        assert(wallet.nullifiers.ironwood@ =~= beyond(old(wallet).nullifiers.ironwood@, fully_scanned_height));
    }
    let ghost mid = wallet.sync_state;
    remove_irrelevant_blocks(wallet);
    proof {
        assert(mid.scanned_top() == old(wallet).sync_state.scanned_top());
        assert(relevant_blocks(
            old(wallet).wallet_blocks@,
            &mid,
            tx_views(old(wallet).wallet_transactions@),
        ) =~= relevant_blocks(
            old(wallet).wallet_blocks@,
            &old(wallet).sync_state,
            tx_views(old(wallet).wallet_transactions@),
        ));
    }
}

/// The wallet needs no nullifier below the height at and below which every block is scanned, and cleaning up twice
/// removes nothing more.
pub proof fn law_cleanup_is_idempotent(before: &Wallet, once: &Wallet, twice: &Wallet)
    requires
        cleaned_up(before, once),
        cleaned_up(once, twice),
    ensures
        twice.outpoints@ == once.outpoints@,
        twice.nullifiers.sapling@ == once.nullifiers.sapling@,
        twice.nullifiers.orchard@ == once.nullifiers.orchard@,
        twice.nullifiers.ironwood@ == once.nullifiers.ironwood@,
        twice.wallet_blocks@ == once.wallet_blocks@,
{
    assert(once.sync_state.scan_ranges == before.sync_state.scan_ranges);
    assert(twice.outpoints@ =~= once.outpoints@);
    assert(twice.nullifiers.sapling@ =~= once.nullifiers.sapling@);
    assert(twice.nullifiers.orchard@ =~= once.nullifiers.orchard@);
    assert(twice.nullifiers.ironwood@ =~= once.nullifiers.ironwood@);
    assert(twice.wallet_blocks@ =~= once.wallet_blocks@);
}

// --- transactions that expired ---

/// Whether the transaction can no longer be mined: it is pending, it has an expiry height, and the chain has reached
/// it.
pub open spec fn is_expired(transaction: TransactionView, chain_height: BlockHeight) -> bool {
    &&& transaction.status.pending()
    &&& transaction.expiry_height > 0
    &&& chain_height >= transaction.expiry_height
}

/// The ids of the listed transactions that have expired.
pub open spec fn expired_ids(listed: Seq<(TxId, WalletTransaction)>, chain_height: BlockHeight) -> Seq<TxId>
    decreases listed.len(),
{
    if listed.len() == 0 {
        Seq::empty()
    } else if is_expired(listed.last().1@, chain_height) {
        expired_ids(listed.drop_last(), chain_height).push(listed.last().1.txid)
    } else {
        expired_ids(listed.drop_last(), chain_height)
    }
}

/// Sets a transaction to `Failed` if it is still unconfirmed when the chain reaches its expiry height.
///
/// Transactions with an expiry height of zero never expire. This must only be called after all blocks up to the
/// wallet's last known chain height have been scanned, since otherwise a transaction mined near its expiry height
/// would fail before the block that holds it is scanned.
pub fn expire_transactions(wallet: &mut Wallet, now: u32)
    requires
        old(wallet).wf(),
        old(wallet).sync_state.scan_ranges@.len() > 0,
    ensures
        final(wallet).wf(),
        tx_views(final(wallet).wallet_transactions@) == with_failed(
            tx_views(old(wallet).wallet_transactions@),
            not_confirmed(
                tx_views(old(wallet).wallet_transactions@),
                expired_ids(
                    old(wallet).wallet_transactions.listed(),
                    old(wallet).sync_state.known_tip()->0,
                ),
            ),
            now,
        ),
        final(wallet).save_required,
        *final(wallet) == (Wallet {
            wallet_transactions: final(wallet).wallet_transactions,
            save_required: true,
            ..*old(wallet)
        }),
{
    let chain_height: u32 = wallet.sync_state.last_known_chain_height().unwrap();
    let ghost listed = wallet.wallet_transactions.listed();
    let mut expired: Vec<TxId> = Vec::new();
    let count: usize = wallet.wallet_transactions.len();
    let mut i: usize = 0;
    assert(listed.take(0) =~= Seq::empty());
    while i < count
        invariant
            i <= count == listed.len(),
            listed == wallet.wallet_transactions.listed(),
            *wallet == *old(wallet),
            expired@ == expired_ids(listed.take(i as int), chain_height),
        decreases count - i,
    {
        let transaction = &wallet.wallet_transactions.entry(i).1;
        proof {
            let next = listed.take(i + 1);
            assert(next.drop_last() =~= listed.take(i as int));
            assert(next.last() == listed[i as int]);
        }
        let expiry_height: u32 = transaction.transaction.expiry_height;
        if transaction.status.is_pending() && expiry_height > 0 && chain_height >= expiry_height {
            expired.push(transaction.txid);
        }
        i = i + 1;
    }
    assert(listed.take(count as int) =~= listed);
    set_transactions_failed(&mut wallet.wallet_transactions, &expired, now);
    proof {
        crate::wallet::data::lemma_still_filed(&old(wallet).wallet_transactions, &wallet.wallet_transactions);
    }
    wallet.save_required = true;
}

/// Exactly the expired transactions are listed, so that no other transaction fails.
pub proof fn law_only_expired_transactions_fail(
    transactions: &WalletTransactions,
    chain_height: BlockHeight,
    txid: TxId,
)
    requires
        transactions.wf(),
        crate::wallet::stores::filed_by_id(transactions),
    ensures
        expired_ids(transactions.listed(), chain_height).contains(txid) == (transactions@.dom().contains(txid)
            && is_expired(transactions@[txid]@, chain_height)),
{
    let listed = transactions.listed();
    transactions.lemma_listed();
    lemma_expired_listed(listed, chain_height, txid);
    if expired_ids(listed, chain_height).contains(txid) {
        let i = choose|i: int|
            0 <= i < listed.len() && (#[trigger] listed[i]).1.txid == txid && is_expired(listed[i].1@, chain_height);
        assert(transactions@.dom().contains(listed[i].0));
    }
    if transactions@.dom().contains(txid) && is_expired(transactions@[txid]@, chain_height) {
        assert(has_key(listed, txid));
        let i = choose|i: int| 0 <= i < listed.len() && (#[trigger] listed[i]).0 == txid;
        assert(transactions@[listed[i].0] == listed[i].1);
        assert(listed[i].1.txid == txid);
    }
}

proof fn lemma_expired_listed(listed: Seq<(TxId, WalletTransaction)>, chain_height: BlockHeight, txid: TxId)
    ensures
        expired_ids(listed, chain_height).contains(txid) == exists|i: int|
            0 <= i < listed.len() && (#[trigger] listed[i]).1.txid == txid && is_expired(listed[i].1@, chain_height),
    decreases listed.len(),
{
    if listed.len() > 0 {
        let before = listed.drop_last();
        let last = listed.last();
        let ids = expired_ids(before, chain_height);
        lemma_expired_listed(before, chain_height, txid);
        lemma_push_contains(ids, last.1.txid);
        assert(listed[listed.len() - 1] == last);
        if exists|i: int|
            0 <= i < before.len() && (#[trigger] before[i]).1.txid == txid && is_expired(before[i].1@, chain_height) {
            let i = choose|i: int|
                0 <= i < before.len() && (#[trigger] before[i]).1.txid == txid && is_expired(
                    before[i].1@,
                    chain_height,
                );
            assert(listed[i] == before[i]);
        }
        if exists|i: int|
            0 <= i < listed.len() && (#[trigger] listed[i]).1.txid == txid && is_expired(listed[i].1@, chain_height) {
            let i = choose|i: int|
                0 <= i < listed.len() && (#[trigger] listed[i]).1.txid == txid && is_expired(
                    listed[i].1@,
                    chain_height,
                );
            if i < before.len() {
                assert(before[i] == listed[i]);
            }
        }
    }
}

} // verus!
