//! Scanning a load of compact blocks for what is the wallet's.
use crate::error::ScanError;
use crate::primitives::{BlockHeight, Nullifier, ShieldedPool, TxId};
use crate::scan::compact::{
    compact_hash, compact_prev_hash, get_compact_hash, get_compact_height, get_compact_prev_hash, get_compact_txid,
    lemma_outputs_grow, outputs_of, CompactBlock, CompactTx,
};
use crate::scan::compact_blocks::{
    any_decrypted, calculate_leaves_and_retentions, calculate_positions, check_continuity, check_tree_size,
    collect_nullifiers_compact, continuity_error, has_decrypted, leaves_of, positions_of,
    set_checkpoint_retentions, tree_size_error, with_action_nullifiers, with_checkpoint, with_spend_nullifiers,
    BlockHead, Decrypted, FoundPosition,
};
use crate::sorted_map::SortedMap;
use crate::sync::progress::TreeSizes;
use crate::trees::Leaf;
use crate::wallet::serialization::array_of;
use crate::wallet::stores::{NullifierMap, WalletBlock, WalletBlockView, WalletBlocks};
use crate::wallet::sync_state::{ScanTarget, ScanTargets, TreeBounds};
use vstd::prelude::*;

verus! {

// --- the names of blocks and transactions ---

/// What a block and its transactions are called.
#[derive(Debug, PartialEq, Eq)]
pub struct BlockNames {
    pub head: BlockHead,
    pub txids: Vec<TxId>,
}

/// The id of the transaction at `i`.
pub open spec fn txid_at(block: &CompactBlock, i: int) -> TxId {
    TxId { bytes: array_of(block.vtx@[i].txid@) }
}

/// Whether a block can be named: it has a height, hashes, and ids of its transactions.
pub open spec fn is_named(block: &CompactBlock) -> bool {
    &&& block.height <= u32::MAX
    &&& compact_hash(block).is_some()
    &&& compact_prev_hash(block).is_some()
    &&& forall|i: int| 0 <= i < block.vtx@.len() ==> (#[trigger] block.vtx@[i]).txid@.len() == 32
}

/// Whether the names are those of the block.
pub open spec fn names_of(block: &CompactBlock, names: &BlockNames) -> bool {
    &&& names.head.height == block.height
    &&& Some(names.head.hash) == compact_hash(block)
    &&& Some(names.head.prev_hash) == compact_prev_hash(block)
    &&& names.txids@ == Seq::new(block.vtx@.len(), |i: int| txid_at(block, i))
}

/// The names of a block, or none if one is missing or malformed.
pub fn name_block(block: &CompactBlock) -> (r: Option<BlockNames>)
    ensures
        r.is_some() == is_named(block),
        r matches Some(names) ==> names_of(block, &names),
{
    let height: u32 = match get_compact_height(block) {
        Some(height) => height,
        None => {
            return None;
        },
    };
    let hash = match get_compact_hash(block) {
        Some(hash) => hash,
        None => {
            return None;
        },
    };
    let prev_hash = match get_compact_prev_hash(block) {
        Some(hash) => hash,
        None => {
            return None;
        },
    };
    let mut txids: Vec<TxId> = Vec::new();
    let count: usize = block.vtx.len();
    let mut i: usize = 0;
    let ghost all = Seq::new(block.vtx@.len(), |i: int| txid_at(block, i));
    while i < count
        invariant
            i <= count == block.vtx@.len(),
            all == Seq::new(block.vtx@.len(), |i: int| txid_at(block, i)),
            txids@ == all.take(i as int),
            forall|k: int| 0 <= k < i ==> (#[trigger] block.vtx@[k]).txid@.len() == 32,
        decreases count - i,
    {
        match get_compact_txid(&block.vtx[i]) {
            Some(txid) => txids.push(txid),
            None => {
                return None;
            },
        }
        assert(txids@ =~= all.take(i + 1));
        i = i + 1;
    }
    assert(all.take(count as int) =~= all);
    Some(BlockNames { head: BlockHead { height, hash, prev_hash }, txids })
}

// --- what is found ---

/// The outputs of all pools that the wallet's keys could decrypt.
#[derive(Debug)]
pub struct DecryptedOutputs {
    pub sapling: Decrypted,
    pub orchard: Decrypted,
    pub ironwood: Decrypted,
}

impl DecryptedOutputs {
    pub open spec fn wf(&self) -> bool {
        self.sapling.wf() && self.orchard.wf() && self.ironwood.wf()
    }
}

/// What scanning has found.
#[derive(Debug)]
pub struct ShieldedScanData {
    pub nullifiers: NullifierMap,
    pub wallet_blocks: WalletBlocks,
    /// The transactions that hold an output of the wallet's.
    pub decrypted_scan_targets: ScanTargets,
    pub sapling_positions: Vec<FoundPosition>,
    pub orchard_positions: Vec<FoundPosition>,
    pub ironwood_positions: Vec<FoundPosition>,
    pub sapling_leaves: Vec<Leaf>,
    pub orchard_leaves: Vec<Leaf>,
    pub ironwood_leaves: Vec<Leaf>,
    /// The sizes of the trees after what has been scanned.
    pub sizes: TreeSizes,
}

/// The value of [`ShieldedScanData`].
pub struct ShieldedScanView {
    pub sapling_nullifiers: Map<Nullifier, ScanTarget>,
    pub orchard_nullifiers: Map<Nullifier, ScanTarget>,
    pub ironwood_nullifiers: Map<Nullifier, ScanTarget>,
    pub wallet_blocks: Map<BlockHeight, WalletBlockView>,
    pub decrypted_scan_targets: Map<ScanTarget, ()>,
    pub sapling_positions: Seq<FoundPosition>,
    pub orchard_positions: Seq<FoundPosition>,
    pub ironwood_positions: Seq<FoundPosition>,
    pub sapling_leaves: Seq<Leaf>,
    pub orchard_leaves: Seq<Leaf>,
    pub ironwood_leaves: Seq<Leaf>,
    pub sizes: TreeSizes,
}

/// The values of blocks.
pub open spec fn block_views(blocks: Map<BlockHeight, WalletBlock>) -> Map<BlockHeight, WalletBlockView> {
    Map::new(|h: BlockHeight| blocks.dom().contains(h), |h: BlockHeight| blocks[h]@)
}

impl View for ShieldedScanData {
    type V = ShieldedScanView;

    open spec fn view(&self) -> ShieldedScanView {
        ShieldedScanView {
            sapling_nullifiers: self.nullifiers.sapling@,
            orchard_nullifiers: self.nullifiers.orchard@,
            ironwood_nullifiers: self.nullifiers.ironwood@,
            wallet_blocks: block_views(self.wallet_blocks@),
            decrypted_scan_targets: self.decrypted_scan_targets@,
            sapling_positions: self.sapling_positions@,
            orchard_positions: self.orchard_positions@,
            ironwood_positions: self.ironwood_positions@,
            sapling_leaves: self.sapling_leaves@,
            orchard_leaves: self.orchard_leaves@,
            ironwood_leaves: self.ironwood_leaves@,
            sizes: self.sizes,
        }
    }
}

/// Nothing found yet, with trees of the given sizes.
pub open spec fn nothing_found(sizes: TreeSizes) -> ShieldedScanView {
    ShieldedScanView {
        sapling_nullifiers: Map::empty(),
        orchard_nullifiers: Map::empty(),
        ironwood_nullifiers: Map::empty(),
        wallet_blocks: Map::empty(),
        decrypted_scan_targets: Map::empty(),
        sapling_positions: Seq::empty(),
        orchard_positions: Seq::empty(),
        ironwood_positions: Seq::empty(),
        sapling_leaves: Seq::empty(),
        orchard_leaves: Seq::empty(),
        ironwood_leaves: Seq::empty(),
        sizes,
    }
}

impl ShieldedScanData {
    pub open spec fn wf(&self) -> bool {
        self.nullifiers.wf() && self.wallet_blocks.wf() && self.decrypted_scan_targets.wf()
    }

    /// Nothing found yet, with trees of the given sizes.
    pub fn new(sizes: TreeSizes) -> (r: Self)
        ensures
            r.wf(),
            r@ == nothing_found(sizes),
    {
        let r = ShieldedScanData {
            nullifiers: NullifierMap::new(),
            wallet_blocks: SortedMap::new(),
            decrypted_scan_targets: SortedMap::new(),
            sapling_positions: Vec::new(),
            orchard_positions: Vec::new(),
            ironwood_positions: Vec::new(),
            sapling_leaves: Vec::new(),
            orchard_leaves: Vec::new(),
            ironwood_leaves: Vec::new(),
            sizes,
        };
        assert(block_views(r.wallet_blocks@) =~= Map::<BlockHeight, WalletBlockView>::empty());
        r
    }
}

// --- transactions ---

/// Whether any output of the transaction was decrypted.
pub open spec fn is_relevant(tx: &CompactTx, txid: TxId, decrypted: &DecryptedOutputs) -> bool {
    ||| any_decrypted(tx.outputs@.len() as int, txid, decrypted.sapling@)
    ||| any_decrypted(tx.actions@.len() as int, txid, decrypted.orchard@)
    ||| any_decrypted(tx.ironwood_actions@.len() as int, txid, decrypted.ironwood@)
}

/// What is found after one more transaction, or what is wrong with it.
pub open spec fn after_transaction(
    found: ShieldedScanView,
    height: BlockHeight,
    tx: &CompactTx,
    txid: TxId,
    decrypted: &DecryptedOutputs,
) -> Result<ShieldedScanView, ScanError> {
    let target = ScanTarget { block_height: height, txid, narrow_scan_area: false };
    match (
        with_spend_nullifiers(found.sapling_nullifiers, tx.spends@, target),
        with_action_nullifiers(found.orchard_nullifiers, tx.actions@, target),
        with_action_nullifiers(found.ironwood_nullifiers, tx.ironwood_actions@, target),
    ) {
        (Err(error), _, _) => Err(error),
        (_, Err(error), _) => Err(error),
        (_, _, Err(error)) => Err(error),
        (Ok(sapling_nullifiers), Ok(orchard_nullifiers), Ok(ironwood_nullifiers)) => match (
            leaves_of(tx.outputs@, txid, decrypted.sapling@),
            leaves_of(tx.actions@, txid, decrypted.orchard@),
            leaves_of(tx.ironwood_actions@, txid, decrypted.ironwood@),
        ) {
            (None, _, _) => Err(ScanError::InvalidSaplingOutput),
            (_, None, _) => Err(ScanError::InvalidOrchardAction),
            (_, _, None) => Err(ScanError::InvalidOrchardAction),
            (Some(sapling), Some(orchard), Some(ironwood)) => Ok(
                ShieldedScanView {
                    sapling_nullifiers,
                    orchard_nullifiers,
                    ironwood_nullifiers,
                    wallet_blocks: found.wallet_blocks,
                    decrypted_scan_targets: if is_relevant(tx, txid, decrypted) {
                        found.decrypted_scan_targets.insert(target, ())
                    } else {
                        found.decrypted_scan_targets
                    },
                    sapling_positions: found.sapling_positions + positions_of(
                        tx.outputs@.len() as int,
                        txid,
                        found.sizes.sapling,
                        decrypted.sapling@,
                    ),
                    orchard_positions: found.orchard_positions + positions_of(
                        tx.actions@.len() as int,
                        txid,
                        found.sizes.orchard,
                        decrypted.orchard@,
                    ),
                    ironwood_positions: found.ironwood_positions + positions_of(
                        tx.ironwood_actions@.len() as int,
                        txid,
                        found.sizes.ironwood,
                        decrypted.ironwood@,
                    ),
                    sapling_leaves: found.sapling_leaves + sapling,
                    orchard_leaves: found.orchard_leaves + orchard,
                    ironwood_leaves: found.ironwood_leaves + ironwood,
                    sizes: TreeSizes {
                        sapling: (found.sizes.sapling + tx.outputs@.len()) as u32,
                        orchard: (found.sizes.orchard + tx.actions@.len()) as u32,
                        ironwood: (found.sizes.ironwood + tx.ironwood_actions@.len()) as u32,
                    },
                },
            ),
        },
    }
}

/// Whether the trees have room for the outputs of the transaction.
pub open spec fn has_room_for_tx(sizes: TreeSizes, tx: &CompactTx) -> bool {
    &&& sizes.sapling + tx.outputs@.len() <= u32::MAX
    &&& sizes.orchard + tx.actions@.len() <= u32::MAX
    &&& sizes.ironwood + tx.ironwood_actions@.len() <= u32::MAX
}

fn scan_compact_transaction(
    found: &mut ShieldedScanData,
    height: BlockHeight,
    tx: &CompactTx,
    txid: TxId,
    decrypted: &DecryptedOutputs,
) -> (r: Result<(), ScanError>)
    requires
        old(found).wf(),
        decrypted.wf(),
        has_room_for_tx(old(found).sizes, tx),
    ensures
        final(found).wf(),
        match after_transaction(old(found)@, height, tx, txid, decrypted) {
            Ok(view) => r.is_ok() && final(found)@ == view,
            Err(error) => r == Err::<(), ScanError>(error),
        },
        r.is_ok() ==> {
            &&& final(found).sizes.sapling == old(found).sizes.sapling + tx.outputs@.len()
            &&& final(found).sizes.orchard == old(found).sizes.orchard + tx.actions@.len()
            &&& final(found).sizes.ironwood == old(found).sizes.ironwood + tx.ironwood_actions@.len()
        },
{
    let target = ScanTarget { block_height: height, txid, narrow_scan_area: false };
    let sapling_count: usize = tx.outputs.len();
    let orchard_count: usize = tx.actions.len();
    let ironwood_count: usize = tx.ironwood_actions.len();
    if has_decrypted(sapling_count, txid, &decrypted.sapling) || has_decrypted(
        orchard_count,
        txid,
        &decrypted.orchard,
    ) || has_decrypted(ironwood_count, txid, &decrypted.ironwood) {
        found.decrypted_scan_targets.insert(target, ());
    }
    if let Err(error) = collect_nullifiers_compact(&mut found.nullifiers, height, txid, tx) {
        return Err(error);
    }
    if !calculate_leaves_and_retentions(&tx.outputs, txid, &decrypted.sapling, &mut found.sapling_leaves) {
        return Err(ScanError::InvalidSaplingOutput);
    }
    if !calculate_leaves_and_retentions(&tx.actions, txid, &decrypted.orchard, &mut found.orchard_leaves) {
        return Err(ScanError::InvalidOrchardAction);
    }
    if !calculate_leaves_and_retentions(&tx.ironwood_actions, txid, &decrypted.ironwood, &mut found.ironwood_leaves) {
        return Err(ScanError::InvalidOrchardAction);
    }
    calculate_positions(sapling_count, txid, found.sizes.sapling, &decrypted.sapling, &mut found.sapling_positions);
    calculate_positions(orchard_count, txid, found.sizes.orchard, &decrypted.orchard, &mut found.orchard_positions);
    calculate_positions(
        ironwood_count,
        txid,
        found.sizes.ironwood,
        &decrypted.ironwood,
        &mut found.ironwood_positions,
    );
    found.sizes = TreeSizes {
        sapling: found.sizes.sapling + sapling_count as u32,
        orchard: found.sizes.orchard + orchard_count as u32,
        ironwood: found.sizes.ironwood + ironwood_count as u32,
    };
    Ok(())
}

/// What is found after the first `n` transactions of a block.
pub open spec fn after_transactions(
    found: ShieldedScanView,
    height: BlockHeight,
    block: &CompactBlock,
    decrypted: &DecryptedOutputs,
    n: int,
) -> Result<ShieldedScanView, ScanError>
    decreases n,
{
    if n <= 0 {
        Ok(found)
    } else {
        match after_transactions(found, height, block, decrypted, n - 1) {
            Err(error) => Err(error),
            Ok(before) => after_transaction(before, height, &block.vtx@[n - 1], txid_at(block, n - 1), decrypted),
        }
    }
}

proof fn lemma_transaction_error_stays(
    found: ShieldedScanView,
    height: BlockHeight,
    block: &CompactBlock,
    decrypted: &DecryptedOutputs,
    n: int,
)
    requires
        0 <= n <= block.vtx@.len(),
        after_transactions(found, height, block, decrypted, n) is Err,
    ensures
        after_transactions(found, height, block, decrypted, block.vtx@.len() as int) == after_transactions(
            found,
            height,
            block,
            decrypted,
            n,
        ),
    decreases block.vtx@.len() - n,
{
    if n < block.vtx@.len() {
        lemma_transaction_error_stays(found, height, block, decrypted, n + 1);
    }
}

// --- blocks ---

/// The bounds of the trees in a block, from their sizes before and after it.
pub open spec fn bounds_between(before: TreeSizes, after: TreeSizes) -> TreeBounds {
    TreeBounds {
        sapling_initial_tree_size: before.sapling,
        sapling_final_tree_size: after.sapling,
        orchard_initial_tree_size: before.orchard,
        orchard_final_tree_size: after.orchard,
        ironwood_initial_tree_size: before.ironwood,
        ironwood_final_tree_size: after.ironwood,
    }
}

/// What is found after one more block.
///
/// The last leaf of the block in each tree becomes a checkpoint, and the tree sizes after the block are held against
/// those that the chain reports.
pub open spec fn after_block(found: ShieldedScanView, block: &CompactBlock, decrypted: &DecryptedOutputs) -> Result<
    ShieldedScanView,
    ScanError,
> {
    let height = block.height as u32;
    match after_transactions(found, height, block, decrypted, block.vtx@.len() as int) {
        Err(error) => Err(error),
        Ok(scanned) => {
            let bounds = bounds_between(found.sizes, scanned.sizes);
            match tree_size_error(block.chain_metadata, height, bounds) {
                Some(error) => Err(error),
                None => Ok(
                    ShieldedScanView {
                        sapling_leaves: with_checkpoint(scanned.sapling_leaves, height),
                        orchard_leaves: with_checkpoint(scanned.orchard_leaves, height),
                        ironwood_leaves: with_checkpoint(scanned.ironwood_leaves, height),
                        wallet_blocks: scanned.wallet_blocks.insert(
                            height,
                            WalletBlockView {
                                block_height: height,
                                block_hash: compact_hash(block)->0,
                                prev_hash: compact_prev_hash(block)->0,
                                time: block.time,
                                txids: Seq::new(block.vtx@.len(), |i: int| txid_at(block, i)),
                                tree_bounds: bounds,
                            },
                        ),
                        ..scanned
                    },
                ),
            }
        },
    }
}

/// Whether the trees have room for the outputs of the transactions.
pub open spec fn has_room(sizes: TreeSizes, txs: Seq<CompactTx>) -> bool {
    &&& sizes.sapling + outputs_of(txs, ShieldedPool::Sapling) <= u32::MAX
    &&& sizes.orchard + outputs_of(txs, ShieldedPool::Orchard) <= u32::MAX
    &&& sizes.ironwood + outputs_of(txs, ShieldedPool::Ironwood) <= u32::MAX
}

/// Whether the sizes are `before` and the outputs of the transactions.
pub open spec fn sizes_grown(before: TreeSizes, after: TreeSizes, txs: Seq<CompactTx>) -> bool {
    &&& after.sapling == before.sapling + outputs_of(txs, ShieldedPool::Sapling)
    &&& after.orchard == before.orchard + outputs_of(txs, ShieldedPool::Orchard)
    &&& after.ironwood == before.ironwood + outputs_of(txs, ShieldedPool::Ironwood)
}

fn scan_compact_block(
    found: &mut ShieldedScanData,
    block: &CompactBlock,
    names: BlockNames,
    decrypted: &DecryptedOutputs,
) -> (r: Result<(), ScanError>)
    requires
        old(found).wf(),
        decrypted.wf(),
        names_of(block, &names),
        has_room(old(found).sizes, block.vtx@),
    ensures
        final(found).wf(),
        match after_block(old(found)@, block, decrypted) {
            Ok(view) => r.is_ok() && final(found)@ == view,
            Err(error) => r == Err::<(), ScanError>(error),
        },
        r.is_ok() ==> sizes_grown(old(found).sizes, final(found).sizes, block.vtx@),
{
    let height: u32 = names.head.height;
    let ghost before = found@;
    let initial = found.sizes;
    let count: usize = block.vtx.len();
    let mut i: usize = 0;
    assert(block.vtx@.take(0) =~= Seq::empty());
    while i < count
        invariant
            i <= count == block.vtx@.len(),
            found.wf(),
            decrypted.wf(),
            names_of(block, &names),
            height == block.height,
            before == old(found)@,
            initial == before.sizes,
            has_room(initial, block.vtx@),
            after_transactions(before, height, block, decrypted, i as int) == Ok::<ShieldedScanView, ScanError>(found@),
            sizes_grown(initial, found.sizes, block.vtx@.take(i as int)),
        decreases count - i,
    {
        proof {
            let next = block.vtx@.take(i + 1);
            assert(next.drop_last() =~= block.vtx@.take(i as int));
            assert(next.last() == block.vtx@[i as int]);
            lemma_outputs_grow(block.vtx@, i + 1, ShieldedPool::Sapling);
            lemma_outputs_grow(block.vtx@, i + 1, ShieldedPool::Orchard);
            lemma_outputs_grow(block.vtx@, i + 1, ShieldedPool::Ironwood);
            assert(names.txids@[i as int] == txid_at(block, i as int));
        }
        let txid = names.txids[i];
        if let Err(error) = scan_compact_transaction(found, height, &block.vtx[i], txid, decrypted) {
            proof {
                lemma_transaction_error_stays(before, height, block, decrypted, i + 1);
            }
            return Err(error);
        }
        i = i + 1;
    }
    assert(block.vtx@.take(count as int) =~= block.vtx@);
    let wallet_block = WalletBlock {
        block_height: height,
        block_hash: names.head.hash,
        prev_hash: names.head.prev_hash,
        time: block.time,
        txids: names.txids,
        tree_bounds: TreeBounds {
            sapling_initial_tree_size: initial.sapling,
            sapling_final_tree_size: found.sizes.sapling,
            orchard_initial_tree_size: initial.orchard,
            orchard_final_tree_size: found.sizes.orchard,
            ironwood_initial_tree_size: initial.ironwood,
            ironwood_final_tree_size: found.sizes.ironwood,
        },
    };
    if let Err(error) = check_tree_size(&block.chain_metadata, &wallet_block) {
        return Err(error);
    }
    set_checkpoint_retentions(height, &mut found.sapling_leaves);
    set_checkpoint_retentions(height, &mut found.orchard_leaves);
    set_checkpoint_retentions(height, &mut found.ironwood_leaves);
    let ghost blocks = found.wallet_blocks@;
    let ghost view = wallet_block@;
    found.wallet_blocks.insert(height, wallet_block);
    proof {
        assert(block_views(found.wallet_blocks@) =~= block_views(blocks).insert(height, view));
    }
    Ok(())
}

/// What is found after the first `n` blocks.
pub open spec fn after_blocks(
    found: ShieldedScanView,
    blocks: Seq<CompactBlock>,
    decrypted: &DecryptedOutputs,
    n: int,
) -> Result<ShieldedScanView, ScanError>
    decreases n,
{
    if n <= 0 {
        Ok(found)
    } else {
        match after_blocks(found, blocks, decrypted, n - 1) {
            Err(error) => Err(error),
            Ok(before) => after_block(before, &blocks[n - 1], decrypted),
        }
    }
}

proof fn lemma_block_error_stays(
    found: ShieldedScanView,
    blocks: Seq<CompactBlock>,
    decrypted: &DecryptedOutputs,
    n: int,
)
    requires
        0 <= n <= blocks.len(),
        after_blocks(found, blocks, decrypted, n) is Err,
    ensures
        after_blocks(found, blocks, decrypted, blocks.len() as int) == after_blocks(found, blocks, decrypted, n),
    decreases blocks.len() - n,
{
    if n < blocks.len() {
        lemma_block_error_stays(found, blocks, decrypted, n + 1);
    }
}

/// The number of outputs of `pool` in the first `n` blocks.
pub open spec fn outputs_in_blocks(blocks: Seq<CompactBlock>, n: int, pool: ShieldedPool) -> nat
    decreases n,
{
    if n <= 0 {
        0
    } else {
        outputs_in_blocks(blocks, n - 1, pool) + outputs_of(blocks[n - 1].vtx@, pool)
    }
}

pub(crate) proof fn lemma_block_outputs_grow(blocks: Seq<CompactBlock>, n: int, m: int, pool: ShieldedPool)
    requires
        0 <= n <= m <= blocks.len(),
    ensures
        outputs_in_blocks(blocks, n, pool) <= outputs_in_blocks(blocks, m, pool),
    decreases m - n,
{
    if n < m {
        lemma_block_outputs_grow(blocks, n, m - 1, pool);
    }
}

/// Whether the trees have room for the outputs of the blocks.
pub open spec fn has_room_for_blocks(sizes: TreeSizes, blocks: Seq<CompactBlock>) -> bool {
    let n = blocks.len() as int;
    &&& sizes.sapling + outputs_in_blocks(blocks, n, ShieldedPool::Sapling) <= u32::MAX
    &&& sizes.orchard + outputs_in_blocks(blocks, n, ShieldedPool::Orchard) <= u32::MAX
    &&& sizes.ironwood + outputs_in_blocks(blocks, n, ShieldedPool::Ironwood) <= u32::MAX
}

/// The heads of the blocks.
pub open spec fn heads_of(blocks: Seq<CompactBlock>) -> Seq<BlockHead> {
    Seq::new(
        blocks.len(),
        |i: int|
            BlockHead {
                height: blocks[i].height as u32,
                hash: compact_hash(&blocks[i])->0,
                prev_hash: compact_prev_hash(&blocks[i])->0,
            },
    )
}

/// What the wallet knows of a range before it is scanned.
#[derive(Debug)]
pub struct InitialScanData {
    pub start_seam_block: Option<WalletBlock>,
    pub end_seam_block: Option<WalletBlock>,
    pub sapling_initial_tree_size: u32,
    pub orchard_initial_tree_size: u32,
    pub ironwood_initial_tree_size: u32,
}

impl InitialScanData {
    /// The sizes of the trees before the range.
    pub open spec fn sizes(&self) -> TreeSizes {
        TreeSizes {
            sapling: self.sapling_initial_tree_size,
            orchard: self.orchard_initial_tree_size,
            ironwood: self.ironwood_initial_tree_size,
        }
    }
}

/// The block that may be there, by reference.
pub open spec fn seam(block: &Option<WalletBlock>) -> Option<&WalletBlock> {
    match block {
        Some(block) => Some(block),
        None => None,
    }
}

/// Why blocks were not scanned.
#[derive(Debug, PartialEq, Eq)]
pub enum ScanFailure {
    /// A block is not named, so that it cannot be placed in the chain.
    UnnamedBlock,
    /// What is wrong with the blocks.
    Scan(ScanError),
}

/// What scanning a load of blocks gives, for the outputs that could be decrypted.
pub open spec fn scanned(
    blocks: Seq<CompactBlock>,
    initial: &InitialScanData,
    decrypted: &DecryptedOutputs,
) -> Result<ShieldedScanView, ScanError> {
    match continuity_error(heads_of(blocks), seam(&initial.start_seam_block), seam(&initial.end_seam_block)) {
        Some(error) => Err(ScanError::ContinuityError(error)),
        None => after_blocks(nothing_found(initial.sizes()), blocks, decrypted, blocks.len() as int),
    }
}

/// Whether all blocks are named.
pub open spec fn all_named(blocks: Seq<CompactBlock>) -> bool {
    forall|i: int| 0 <= i < blocks.len() ==> is_named(#[trigger] &blocks[i])
}

/// Scans a load of compact blocks, once it is known which outputs the wallet's keys can decrypt.
///
/// The blocks are checked to be continuous. Of each, the nullifiers, the leaves of the trees and the positions of the
/// wallet's notes are collected.
pub fn scan_shielded(
    compact_blocks: &Vec<CompactBlock>,
    initial_scan_data: &InitialScanData,
    decrypted: &DecryptedOutputs,
) -> (r: Result<ShieldedScanData, ScanFailure>)
    requires
        compact_blocks@.len() > 0,
        decrypted.wf(),
        has_room_for_blocks(initial_scan_data.sizes(), compact_blocks@),
    ensures
        !all_named(compact_blocks@) ==> r == Err::<ShieldedScanData, ScanFailure>(ScanFailure::UnnamedBlock),
        all_named(compact_blocks@) ==> match scanned(compact_blocks@, initial_scan_data, decrypted) {
            Ok(view) => r matches Ok(found) && found.wf() && found@ == view,
            Err(error) => r == Err::<ShieldedScanData, ScanFailure>(ScanFailure::Scan(error)),
        },
{
    let blocks = compact_blocks;
    let count: usize = blocks.len();
    let mut heads: Vec<BlockHead> = Vec::new();
    let mut i: usize = 0;
    while i < count
        invariant
            i <= count == blocks@.len(),
            blocks == compact_blocks,
            forall|k: int| 0 <= k < i ==> is_named(#[trigger] &blocks@[k]),
            heads@ == heads_of(blocks@).take(i as int),
        decreases count - i,
    {
        match name_block(&blocks[i]) {
            Some(names) => {
                heads.push(names.head);
                assert(heads@ =~= heads_of(blocks@).take(i + 1));
            },
            None => {
                assert(!is_named(&blocks@[i as int]));
                return Err(ScanFailure::UnnamedBlock);
            },
        }
        i = i + 1;
    }
    assert(heads_of(blocks@).take(count as int) =~= heads_of(blocks@));
    if let Err(error) = check_continuity(
        &heads,
        initial_scan_data.start_seam_block.as_ref(),
        initial_scan_data.end_seam_block.as_ref(),
    ) {
        return Err(ScanFailure::Scan(ScanError::ContinuityError(error)));
    }
    let sizes = TreeSizes {
        sapling: initial_scan_data.sapling_initial_tree_size,
        orchard: initial_scan_data.orchard_initial_tree_size,
        ironwood: initial_scan_data.ironwood_initial_tree_size,
    };
    let mut found = ShieldedScanData::new(sizes);
    let ghost start = found@;
    let mut j: usize = 0;
    while j < count
        invariant
            j <= count == blocks@.len(),
            blocks == compact_blocks,
            decrypted.wf(),
            found.wf(),
            sizes == initial_scan_data.sizes(),
            start == nothing_found(sizes),
            continuity_error(
                heads_of(blocks@),
                seam(&initial_scan_data.start_seam_block),
                seam(&initial_scan_data.end_seam_block),
            ).is_none(),
            all_named(blocks@),
            has_room_for_blocks(sizes, blocks@),
            after_blocks(start, blocks@, decrypted, j as int) == Ok::<ShieldedScanView, ScanError>(found@),
            found.sizes.sapling == sizes.sapling + outputs_in_blocks(blocks@, j as int, ShieldedPool::Sapling),
            found.sizes.orchard == sizes.orchard + outputs_in_blocks(blocks@, j as int, ShieldedPool::Orchard),
            found.sizes.ironwood == sizes.ironwood + outputs_in_blocks(blocks@, j as int, ShieldedPool::Ironwood),
        decreases count - j,
    {
        proof {
            lemma_block_outputs_grow(blocks@, j + 1, count as int, ShieldedPool::Sapling);
            lemma_block_outputs_grow(blocks@, j + 1, count as int, ShieldedPool::Orchard);
            lemma_block_outputs_grow(blocks@, j + 1, count as int, ShieldedPool::Ironwood);
            assert(is_named(&blocks@[j as int]));
        }
        match name_block(&blocks[j]) {
            Some(names) => {
                if let Err(error) = scan_compact_block(&mut found, &blocks[j], names, decrypted) {
                    proof {
                        assert(after_blocks(start, blocks@, decrypted, j + 1) == Err::<ShieldedScanView, ScanError>(
                            error,
                        ));
                        lemma_block_error_stays(start, blocks@, decrypted, j + 1);
                    }
                    return Err(ScanFailure::Scan(error));
                }
            },
            None => {
                return Err(ScanFailure::UnnamedBlock);
            },
        }
        j = j + 1;
    }
    Ok(found)
}

/// The size of a tree after a block is the size before the range and every output served since, for each pool alike.
pub proof fn law_tree_sizes_count_served_outputs(
    blocks: Seq<CompactBlock>,
    initial: &InitialScanData,
    decrypted: &DecryptedOutputs,
    n: int,
)
    requires
        0 <= n <= blocks.len(),
        has_room_for_blocks(initial.sizes(), blocks),
        after_blocks(nothing_found(initial.sizes()), blocks, decrypted, n) is Ok,
    ensures
        ({
            let sizes = after_blocks(nothing_found(initial.sizes()), blocks, decrypted, n)->Ok_0.sizes;
            &&& sizes.sapling == initial.sapling_initial_tree_size + outputs_in_blocks(
                blocks,
                n,
                ShieldedPool::Sapling,
            )
            &&& sizes.orchard == initial.orchard_initial_tree_size + outputs_in_blocks(
                blocks,
                n,
                ShieldedPool::Orchard,
            )
            &&& sizes.ironwood == initial.ironwood_initial_tree_size + outputs_in_blocks(
                blocks,
                n,
                ShieldedPool::Ironwood,
            )
        }),
    decreases n,
{
    if n > 0 {
        law_tree_sizes_count_served_outputs(blocks, initial, decrypted, n - 1);
        lemma_block_outputs_grow(blocks, n, blocks.len() as int, ShieldedPool::Sapling);
        lemma_block_outputs_grow(blocks, n, blocks.len() as int, ShieldedPool::Orchard);
        lemma_block_outputs_grow(blocks, n, blocks.len() as int, ShieldedPool::Ironwood);
        let before = after_blocks(nothing_found(initial.sizes()), blocks, decrypted, n - 1)->Ok_0;
        let block = &blocks[n - 1];
        lemma_sizes_after_transactions(before, block.height as u32, block, decrypted, block.vtx@.len() as int);
        assert(block.vtx@.take(block.vtx@.len() as int) =~= block.vtx@);
    }
}

pub(crate) proof fn lemma_sizes_after_transactions(
    found: ShieldedScanView,
    height: BlockHeight,
    block: &CompactBlock,
    decrypted: &DecryptedOutputs,
    n: int,
)
    requires
        0 <= n <= block.vtx@.len(),
        has_room(found.sizes, block.vtx@),
        after_transactions(found, height, block, decrypted, n) is Ok,
    ensures
        sizes_grown(
            found.sizes,
            after_transactions(found, height, block, decrypted, n)->Ok_0.sizes,
            block.vtx@.take(n),
        ),
    decreases n,
{
    if n > 0 {
        lemma_sizes_after_transactions(found, height, block, decrypted, n - 1);
        let next = block.vtx@.take(n);
        assert(next.drop_last() =~= block.vtx@.take(n - 1));
        assert(next.last() == block.vtx@[n - 1]);
        lemma_outputs_grow(block.vtx@, n, ShieldedPool::Sapling);
        lemma_outputs_grow(block.vtx@, n, ShieldedPool::Orchard);
        lemma_outputs_grow(block.vtx@, n, ShieldedPool::Ironwood);
    } else {
        assert(block.vtx@.take(0) =~= Seq::empty());
    }
}

impl WalletBlock {
    /// The block of a wallet from a compact block and the bounds of the trees in it, if the block is named.
    pub fn from_compact_block(block: &CompactBlock, tree_bounds: TreeBounds) -> (r: Option<WalletBlock>)
        ensures
            r.is_some() == is_named(block),
            r matches Some(wallet_block) ==> wallet_block@ == (WalletBlockView {
                block_height: block.height as u32,
                block_hash: compact_hash(block)->0,
                prev_hash: compact_prev_hash(block)->0,
                time: block.time,
                txids: Seq::new(block.vtx@.len(), |i: int| txid_at(block, i)),
                tree_bounds,
            }),
    {
        match name_block(block) {
            None => None,
            Some(names) => Some(
                WalletBlock {
                    block_height: names.head.height,
                    block_hash: names.head.hash,
                    prev_hash: names.head.prev_hash,
                    time: block.time,
                    txids: names.txids,
                    tree_bounds,
                },
            ),
        }
    }
}

} // verus!
