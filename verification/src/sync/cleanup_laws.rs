//! What the wallet keeps, loses and undoes, said of its blocks, transactions and maps.
use crate::error::SyncError;
use crate::primitives::{BlockHeight, Nullifier, OutputId, ShieldedPool, TxId};
use crate::scan_range::{contiguous, ScanRange};
use crate::sync::cleanup::{
    bounds_scanned_range, cleaned_up, expired_ids, has_transaction, is_kept_block, law_only_expired_transactions_fail,
};
use crate::sync::spend::{not_confirmed, with_failed};
use crate::sync::spend_laws::{
    height_at, invalid_spends_undone, law_failed_transactions_spend_nothing, lemma_not_confirmed, lemma_views_reset,
    mapped_in, note_count, spender_at,
};
use crate::sync::truncate::{data_truncated, truncation_plan, truncation_state};
use crate::wallet::data::{ids_above, lemma_ids_above, stores_cut_off, Wallet};
use crate::wallet::status::ConfirmationStatus;
use crate::wallet::stores::{tx_views, WalletBlock};
use crate::wallet::sync_state::ScanTarget;
use vstd::prelude::*;

verus! {

// --- what is cleaned up ---

/// Whether a range that has been scanned begins or ends with the block.
pub open spec fn is_bound_of(ranges: Seq<ScanRange>, i: int, height: BlockHeight) -> bool {
    &&& 0 <= i < ranges.len()
    &&& ranges[i].priority is Scanned || ranges[i].priority is ScannedWithoutMapping
        || ranges[i].priority is RefetchingNullifiers
    &&& ranges[i].block_range.start == height || ranges[i].block_range.end == height + 1
}

/// Whether the transaction is in the block.
pub open spec fn is_in_block(wallet: &Wallet, txid: TxId, height: BlockHeight) -> bool {
    wallet.wallet_transactions@.dom().contains(txid) && wallet.wallet_transactions@[txid].status
        == ConfirmationStatus::Confirmed(height)
}

proof fn lemma_in_block(wallet: &Wallet, height: BlockHeight)
    ensures
        has_transaction(tx_views(wallet.wallet_transactions@), height) == exists|txid: TxId| #[trigger]
            is_in_block(wallet, txid, height),
{
    let views = tx_views(wallet.wallet_transactions@);
    if has_transaction(views, height) {
        let txid = choose|txid: TxId| #[trigger]
            views.dom().contains(txid) && views[txid].status.confirmed_height() == Some(height);
        assert(is_in_block(wallet, txid, height));
    }
    if exists|txid: TxId| #[trigger] is_in_block(wallet, txid, height) {
        let txid = choose|txid: TxId| #[trigger] is_in_block(wallet, txid, height);
        assert(views.dom().contains(txid));
        assert(views[txid].status.confirmed_height() == Some(height));
    }
}

proof fn lemma_bounds(ranges: Seq<ScanRange>, height: BlockHeight)
    requires
        contiguous(ranges),
    ensures
        bounds_scanned_range(ranges, height) == exists|i: int| #[trigger] is_bound_of(ranges, i, height),
{
    if bounds_scanned_range(ranges, height) {
        let i = choose|i: int|
            0 <= i < ranges.len() && (#[trigger] ranges[i]).priority.scanned() && (ranges[i].block_range.start == height
                || crate::wallet::sync_state::below(ranges[i].block_range.end) == height);
        assert(ranges[i].covers_blocks());
        assert(is_bound_of(ranges, i, height));
    }
    if exists|i: int| #[trigger] is_bound_of(ranges, i, height) {
        let i = choose|i: int| #[trigger] is_bound_of(ranges, i, height);
        assert(ranges[i].covers_blocks());
        assert(ranges[i].priority.scanned());
    }
}

/// A block stays through a cleanup exactly if it is less than a hundred and one blocks deep, or bounds a range that has
/// been scanned, or holds a transaction of the wallet's. Blocks that stay are as they were.
pub proof fn law_needed_blocks_stay(before: &Wallet, after: &Wallet, height: BlockHeight)
    requires
        contiguous(before.sync_state.scan_ranges@),
        before.sync_state.scan_ranges@.len() > 0,
        cleaned_up(before, after),
        before.wallet_blocks@.dom().contains(height),
    ensures
        after.wallet_blocks@.dom().contains(height) == (height + 100 >= before.sync_state.scanned_top()->0 || (exists|
            i: int,
        | #[trigger] is_bound_of(before.sync_state.scan_ranges@, i, height)) || (exists|txid: TxId| #[trigger]
            is_in_block(before, txid, height))),
        after.wallet_blocks@.dom().contains(height) ==> after.wallet_blocks@[height] == before.wallet_blocks@[height],
{
    lemma_in_block(before, height);
    lemma_bounds(before.sync_state.scan_ranges@, height);
}

/// A cleanup adds no block.
pub proof fn law_cleanup_adds_no_block(before: &Wallet, after: &Wallet, height: BlockHeight)
    requires
        cleaned_up(before, after),
        after.wallet_blocks@.dom().contains(height),
    ensures
        before.wallet_blocks@.dom().contains(height),
{
}

/// Of what is mapped, in every pool, a cleanup removes exactly what lies at or below the height up to which every block
/// is scanned, and likewise of outputs that are waited for and of targets. Transactions and trees are left alone.
pub proof fn law_what_lies_ahead_stays(
    before: &Wallet,
    after: &Wallet,
    pool: ShieldedPool,
    nullifier: Nullifier,
    id: OutputId,
    target: ScanTarget,
)
    requires
        cleaned_up(before, after),
    ensures
        mapped_in(&after.nullifiers, pool).dom().contains(nullifier) == (mapped_in(
            &before.nullifiers,
            pool,
        ).dom().contains(nullifier) && mapped_in(&before.nullifiers, pool)[nullifier].block_height
            > before.sync_state.scanned_to()->0),
        mapped_in(&after.nullifiers, pool).dom().contains(nullifier) ==> mapped_in(&after.nullifiers, pool)[nullifier]
            == mapped_in(&before.nullifiers, pool)[nullifier],
        after.outpoints@.dom().contains(id) == (before.outpoints@.dom().contains(id)
            && before.outpoints@[id].block_height > before.sync_state.scanned_to()->0),
        after.outpoints@.dom().contains(id) ==> after.outpoints@[id] == before.outpoints@[id],
        after.sync_state.scan_targets@.dom().contains(target) == (before.sync_state.scan_targets@.dom().contains(target)
            && target.block_height > before.sync_state.scanned_to()->0),
        after.wallet_transactions == before.wallet_transactions,
        after.sync_state.scan_ranges == before.sync_state.scan_ranges,
{
}

/// Of the blocks that were scanned, exactly those are added that are less than a hundred and one blocks deep, or bound
/// the range that was scanned, or hold a transaction of the wallet's. No block that the wallet held is lost.
pub proof fn law_needed_blocks_are_added(
    before: &Wallet,
    after: Map<BlockHeight, WalletBlock>,
    scanned: Map<BlockHeight, WalletBlock>,
    scan_range: ScanRange,
    height: BlockHeight,
)
    requires
        scan_range.block_range.start < scan_range.block_range.end,
        after == before.wallet_blocks@.union_prefer_right(
            Map::new(
                |h: BlockHeight|
                    scanned.dom().contains(h) && is_kept_block(
                        &before.sync_state,
                        tx_views(before.wallet_transactions@),
                        scan_range,
                        h,
                    ),
                |h: BlockHeight| scanned[h],
            ),
        ),
    ensures
        ({
            let needed = scanned.dom().contains(height) && (height + 100 >= before.sync_state.scanned_top()->0 || height
                == scan_range.block_range.start || height + 1 == scan_range.block_range.end || (exists|txid: TxId|
                #[trigger] is_in_block(before, txid, height)));
            &&& after.dom().contains(height) == (needed || before.wallet_blocks@.dom().contains(height))
            &&& needed ==> after[height] == scanned[height]
            &&& !needed && before.wallet_blocks@.dom().contains(height) ==> after[height]
                == before.wallet_blocks@[height]
        }),
{
    lemma_in_block(before, height);
}

// --- what has expired ---

/// Whether the transaction is neither in a block nor failed, and the chain has reached the height at which it expires.
pub open spec fn has_expired(wallet: &Wallet, txid: TxId) -> bool {
    let transaction = wallet.wallet_transactions@[txid];
    &&& wallet.wallet_transactions@.dom().contains(txid)
    &&& !(transaction.status is Confirmed) && !(transaction.status is Failed)
    &&& transaction.transaction.expiry_height > 0
    &&& wallet.sync_state.scan_ranges@.last().block_range.end > transaction.transaction.expiry_height
}

/// A transaction that is pending when the chain reaches its expiry height fails, and what it had spent, in whichever
/// pool, can be spent again. No other transaction fails, and no other spend is undone.
pub proof fn law_expired_transactions_fail(before: &Wallet, after: &Wallet, now: u32, txid: TxId)
    requires
        before.wf(),
        before.sync_state.scan_ranges@.len() > 0,
        before.sync_state.scan_ranges@.last().block_range.end > 0,
        tx_views(after.wallet_transactions@) == with_failed(
            tx_views(before.wallet_transactions@),
            not_confirmed(
                tx_views(before.wallet_transactions@),
                expired_ids(before.wallet_transactions.listed(), before.sync_state.known_tip()->0),
            ),
            now,
        ),
        before.wallet_transactions@.dom().contains(txid),
    ensures
        after.wallet_transactions@.dom().contains(txid),
        after.wallet_transactions@[txid].status == if has_expired(before, txid) {
            ConfirmationStatus::Failed(height_at(before.wallet_transactions@[txid].status))
        } else {
            before.wallet_transactions@[txid].status
        },
        forall|pool: ShieldedPool, j: int|
            0 <= j < note_count(before.wallet_transactions@[txid], pool) ==> #[trigger] spender_at(
                after.wallet_transactions@[txid],
                pool,
                j,
            ) == match spender_at(before.wallet_transactions@[txid], pool, j) {
                Some(spender) => if has_expired(before, spender) {
                    None
                } else {
                    Some(spender)
                },
                None => None,
            },
        forall|j: int|
            0 <= j < before.wallet_transactions@[txid].transparent_coins@.len() ==> (
            #[trigger] after.wallet_transactions@[txid].transparent_coins@[j]).spending_transaction == match before.wallet_transactions@[txid].transparent_coins@[j].spending_transaction {
                Some(spender) => if has_expired(before, spender) {
                    None::<TxId>
                } else {
                    Some(spender)
                },
                None => None,
            },
{
    let transactions = &before.wallet_transactions;
    let tip = before.sync_state.known_tip()->0;
    let ids = expired_ids(transactions.listed(), tip);
    let listed = not_confirmed(tx_views(transactions@), ids);
    assert forall|id: TxId| #[trigger] listed.contains(id) == has_expired(before, id) by {
        lemma_not_confirmed(tx_views(transactions@), ids, id);
        law_only_expired_transactions_fail(transactions, tip, id);
        assert(tx_views(transactions@).dom().contains(id) == transactions@.dom().contains(id));
        if transactions@.dom().contains(id) {
            assert(tx_views(transactions@)[id] == transactions@[id]@);
            assert(transactions@[id]@.expiry_height == transactions@[id].transaction.expiry_height);
        }
    }
    law_failed_transactions_spend_nothing(transactions, &after.wallet_transactions, listed, now, txid);
    let before_tx = transactions@[txid];
    let after_tx = after.wallet_transactions@[txid];
    assert(invalid_spends_undone(before_tx, after_tx, listed));
    assert forall|pool: ShieldedPool, j: int| 0 <= j < note_count(before_tx, pool) implies #[trigger] spender_at(
        after_tx,
        pool,
        j,
    ) == match spender_at(before_tx, pool, j) {
        Some(spender) => if has_expired(before, spender) {
            None
        } else {
            Some(spender)
        },
        None => None,
    } by {
        match pool {
            ShieldedPool::Sapling => {
                assert(after_tx.sapling_notes@[j].spending_transaction == spender_at(after_tx, pool, j));
            },
            ShieldedPool::Orchard => {
                assert(after_tx.orchard_notes@[j].spending_transaction == spender_at(after_tx, pool, j));
            },
            ShieldedPool::Ironwood => {
                assert(after_tx.ironwood_notes@[j].spending_transaction == spender_at(after_tx, pool, j));
            },
        }
        if let Some(spender) = spender_at(before_tx, pool, j) {
            assert(listed.contains(spender) == has_expired(before, spender));
        }
    }
    assert forall|j: int| 0 <= j < before_tx.transparent_coins@.len() implies (
    #[trigger] after_tx.transparent_coins@[j]).spending_transaction == match before_tx.transparent_coins@[j].spending_transaction {
        Some(spender) => if has_expired(before, spender) {
            None::<TxId>
        } else {
            Some(spender)
        },
        None => None,
    } by {
        if let Some(spender) = before_tx.transparent_coins@[j].spending_transaction {
            assert(listed.contains(spender) == has_expired(before, spender));
        }
    }
    assert(listed.contains(txid) == has_expired(before, txid));
}

// --- what is truncated ---

/// Whether the transaction is in a block above the height.
pub open spec fn lies_above(wallet: &Wallet, txid: TxId, height: BlockHeight) -> bool {
    wallet.wallet_transactions@.dom().contains(txid) && wallet.wallet_transactions@[txid].status is Confirmed
        && height_at(wallet.wallet_transactions@[txid].status) > height
}

/// Cutting the stores off at a height keeps exactly what lies at or below it: blocks, nullifiers of every pool and
/// outputs that are waited for.
pub proof fn law_stores_are_cut_off(
    before: &Wallet,
    after: &Wallet,
    height: BlockHeight,
    set_failed: bool,
    now: u32,
    pool: ShieldedPool,
    block: BlockHeight,
    nullifier: Nullifier,
    id: OutputId,
)
    requires
        stores_cut_off(before, after, height, set_failed, now),
    ensures
        after.wallet_blocks@.dom().contains(block) == (before.wallet_blocks@.dom().contains(block) && block <= height),
        after.wallet_blocks@.dom().contains(block) ==> after.wallet_blocks@[block] == before.wallet_blocks@[block],
        mapped_in(&after.nullifiers, pool).dom().contains(nullifier) == (mapped_in(
            &before.nullifiers,
            pool,
        ).dom().contains(nullifier) && mapped_in(&before.nullifiers, pool)[nullifier].block_height <= height),
        mapped_in(&after.nullifiers, pool).dom().contains(nullifier) ==> mapped_in(&after.nullifiers, pool)[nullifier]
            == mapped_in(&before.nullifiers, pool)[nullifier],
        after.outpoints@.dom().contains(id) == (before.outpoints@.dom().contains(id)
            && before.outpoints@[id].block_height <= height),
        after.outpoints@.dom().contains(id) ==> after.outpoints@[id] == before.outpoints@[id],
{
}

/// Transactions in blocks above the height fail, or are removed, and what they had spent, in whichever pool, can be
/// spent again. All other transactions stay, and so do all other spends.
pub proof fn law_transactions_above_are_undone(
    before: &Wallet,
    after: &Wallet,
    height: BlockHeight,
    set_failed: bool,
    now: u32,
    txid: TxId,
)
    requires
        before.wf(),
        stores_cut_off(before, after, height, set_failed, now),
        before.wallet_transactions@.dom().contains(txid),
    ensures
        after.wallet_transactions@.dom().contains(txid) == (set_failed || !lies_above(before, txid, height)),
        after.wallet_transactions@.dom().contains(txid) ==> {
            let before_tx = before.wallet_transactions@[txid];
            let after_tx = after.wallet_transactions@[txid];
            &&& after_tx.status == if lies_above(before, txid, height) {
                ConfirmationStatus::Failed(height_at(before_tx.status))
            } else {
                before_tx.status
            }
            &&& forall|pool: ShieldedPool, j: int|
                0 <= j < note_count(before_tx, pool) ==> #[trigger] spender_at(after_tx, pool, j) == match spender_at(
                    before_tx,
                    pool,
                    j,
                ) {
                    Some(spender) => if lies_above(before, spender, height) {
                        None
                    } else {
                        Some(spender)
                    },
                    None => None,
                }
            &&& forall|j: int|
                0 <= j < before_tx.transparent_coins@.len() ==> (
                #[trigger] after_tx.transparent_coins@[j]).spending_transaction == match before_tx.transparent_coins@[j].spending_transaction {
                    Some(spender) => if lies_above(before, spender, height) {
                        None::<TxId>
                    } else {
                        Some(spender)
                    },
                    None => None,
                }
        },
{
    let transactions = &before.wallet_transactions;
    let gone = ids_above(transactions.listed(), height);
    let before_tx = transactions@[txid];
    let after_tx = after.wallet_transactions@[txid];
    assert forall|id: TxId| #[trigger] gone.contains(id) == lies_above(before, id, height) by {
        lemma_ids_above(transactions, height, id);
    }
    assert(gone.contains(txid) == lies_above(before, txid, height));
    assert(tx_views(transactions@).dom().contains(txid));
    assert(tx_views(after.wallet_transactions@).dom().contains(txid) == after.wallet_transactions@.dom().contains(
        txid,
    ));
    if after.wallet_transactions@.dom().contains(txid) {
        if set_failed {
            law_failed_transactions_spend_nothing(transactions, &after.wallet_transactions, gone, now, txid);
        } else {
            assert(after_tx@ == tx_views(after.wallet_transactions@)[txid]);
            lemma_views_reset(before_tx, after_tx, before_tx@, gone);
        }
        assert(invalid_spends_undone(before_tx, after_tx, gone));
        assert forall|pool: ShieldedPool, j: int| 0 <= j < note_count(before_tx, pool) implies #[trigger] spender_at(
            after_tx,
            pool,
            j,
        ) == match spender_at(before_tx, pool, j) {
            Some(spender) => if lies_above(before, spender, height) {
                None
            } else {
                Some(spender)
            },
            None => None,
        } by {
            match pool {
                ShieldedPool::Sapling => {
                    assert(after_tx.sapling_notes@[j].spending_transaction == spender_at(after_tx, pool, j));
                },
                ShieldedPool::Orchard => {
                    assert(after_tx.orchard_notes@[j].spending_transaction == spender_at(after_tx, pool, j));
                },
                ShieldedPool::Ironwood => {
                    assert(after_tx.ironwood_notes@[j].spending_transaction == spender_at(after_tx, pool, j));
                },
            }
            if let Some(spender) = spender_at(before_tx, pool, j) {
                assert(gone.contains(spender) == lies_above(before, spender, height));
            }
        }
        assert forall|j: int| 0 <= j < before_tx.transparent_coins@.len() implies (
        #[trigger] after_tx.transparent_coins@[j]).spending_transaction == match before_tx.transparent_coins@[j].spending_transaction {
            Some(spender) => if lies_above(before, spender, height) {
                None::<TxId>
            } else {
                Some(spender)
            },
            None => None,
        } by {
            if let Some(spender) = before_tx.transparent_coins@[j].spending_transaction {
                assert(gone.contains(spender) == lies_above(before, spender, height));
            }
        }
    }
}

/// A truncation to a height that has been scanned leaves no block, and no transaction in a block, above it, unless a
/// tree no longer holds what it needs. One to a height below the birthday leaves none at all, and one to a height that
/// has not been reached changes nothing.
pub proof fn law_truncation_leaves_nothing_above<E>(
    before: &Wallet,
    after: &Wallet,
    truncate_height: BlockHeight,
    now: u32,
    r: Result<(), SyncError<E>>,
    block: BlockHeight,
    txid: TxId,
)
    requires
        before.wf(),
        before.sync_state.scan_ranges@.len() > 0,
        data_truncated(before, after, truncate_height, now, r),
    ensures
        ({
            let birthday = before.sync_state.scan_ranges@[0].block_range.start;
            let cleared = truncate_height == 0 || truncate_height < birthday;
            let ahead = truncate_height > before.sync_state.scanned_top()->0;
            &&& !cleared && ahead ==> r.is_ok() && *after == *before
            &&& cleared ==> r.is_ok() && (after.wallet_blocks@.dom().contains(block) ==> block == 0)
            &&& cleared && after.wallet_transactions@.dom().contains(txid) ==> !lies_above(after, txid, 0)
            &&& !cleared && !ahead ==> (after.wallet_blocks@.dom().contains(block) ==> block <= truncate_height)
            &&& !cleared && !ahead && after.wallet_transactions@.dom().contains(txid) ==> !lies_above(
                after,
                txid,
                truncate_height,
            )
            &&& !cleared && !ahead && r.is_ok() && before.wallet_blocks@.dom().contains(block) && block
                <= truncate_height ==> after.wallet_blocks@.dom().contains(block)
        }),
{
    let plan = truncation_plan(truncation_state(&before.sync_state), truncate_height);
    let height: BlockHeight = if plan is ClearAll {
        0
    } else {
        truncate_height
    };
    if stores_cut_off(before, after, height, true, now) {
        if after.wallet_transactions@.dom().contains(txid) {
            assert(tx_views(after.wallet_transactions@).dom().contains(txid));
            assert(tx_views(before.wallet_transactions@).dom().contains(txid));
            law_transactions_above_are_undone(before, after, height, true, now, txid);
        }
    }
}

} // verus!
