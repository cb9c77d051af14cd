//! Scanning compact blocks.
use crate::error::{CompactFormatError, ContinuityError, ScanError};
use crate::outside::{is_orchard_nullifier, orchard_nullifier_is_valid};
use crate::primitives::{bytes_32_equal, BlockHash, BlockHeight, Nullifier, OutputId, ShieldedPool, TxId};
use crate::scan::compact::{
    action_commitment, get_compact_action, get_compact_output_description, output_commitment, outputs_of, to_32,
    ChainMetadata, CompactBlock, CompactOrchardAction, CompactSaplingOutput, CompactSaplingSpend, CompactTx,
};
use crate::sorted_map::SortedMap;
use crate::sync::progress::TreeSizes;
use crate::trees::{Leaf, LeafRetention};
use crate::wallet::serialization::array_of;
use crate::wallet::stores::{NullifierMap, WalletBlock};
use crate::wallet::sync_state::{above, ScanTarget, TreeBounds};
use vstd::prelude::*;

verus! {

// --- continuity ---

/// What of a block says where it stands in the chain.
#[derive(Clone, Copy, Debug, PartialEq, Eq)]
pub struct BlockHead {
    pub height: BlockHeight,
    pub hash: BlockHash,
    pub prev_hash: BlockHash,
}

/// The height and the hash of the block before.
#[derive(Clone, Copy, Debug, PartialEq, Eq)]
pub struct Link {
    pub height: BlockHeight,
    pub hash: BlockHash,
}

/// What is wrong with a block that comes after `prev`.
pub open spec fn link_error(prev: Option<Link>, height: BlockHeight, prev_hash: BlockHash) -> Option<ContinuityError> {
    match prev {
        None => None,
        Some(link) => if height != above(link.height) {
            Some(ContinuityError::HeightDiscontinuity { height, previous_block_height: link.height })
        } else if prev_hash != link.hash {
            Some(
                ContinuityError::HashDiscontinuity { height, prev_hash, previous_block_hash: link.hash },
            )
        } else {
            None
        },
    }
}

/// What the block at `i` comes after.
pub open spec fn link_before(start: Option<Link>, heads: Seq<BlockHead>, i: int) -> Option<Link> {
    if i <= 0 {
        start
    } else {
        Some(Link { height: heads[i - 1].height, hash: heads[i - 1].hash })
    }
}

/// What is wrong with the first of `n` blocks that is not continuous with the one before it.
pub open spec fn first_break(start: Option<Link>, heads: Seq<BlockHead>, n: int) -> Option<ContinuityError>
    decreases n,
{
    if n <= 0 {
        None
    } else {
        match first_break(start, heads, n - 1) {
            Some(error) => Some(error),
            None => link_error(
                link_before(start, heads, n - 1),
                heads[n - 1].height,
                heads[n - 1].prev_hash,
            ),
        }
    }
}

/// The link to a block of the wallet.
pub open spec fn link_of(block: Option<&WalletBlock>) -> Option<Link> {
    match block {
        Some(block) => Some(Link { height: block.block_height, hash: block.block_hash }),
        None => None,
    }
}

/// What is wrong with a load of blocks, between the blocks of the wallet on both sides of it.
pub open spec fn continuity_error(
    heads: Seq<BlockHead>,
    start_seam_block: Option<&WalletBlock>,
    end_seam_block: Option<&WalletBlock>,
) -> Option<ContinuityError> {
    let start = link_of(start_seam_block);
    match first_break(start, heads, heads.len() as int) {
        Some(error) => Some(error),
        None => match end_seam_block {
            None => None,
            Some(end) => link_error(
                link_before(start, heads, heads.len() as int),
                end.block_height,
                end.prev_hash,
            ),
        },
    }
}

fn check_link(prev: &Option<Link>, height: BlockHeight, prev_hash: &BlockHash) -> (r: Option<ContinuityError>)
    ensures
        r == link_error(*prev, height, *prev_hash),
{
    match prev {
        None => None,
        Some(link) => if height != link.height.saturating_add(1) {
            Some(ContinuityError::HeightDiscontinuity { height, previous_block_height: link.height })
        } else if !bytes_32_equal(prev_hash, &link.hash) {
            Some(
                ContinuityError::HashDiscontinuity {
                    height,
                    prev_hash: *prev_hash,
                    previous_block_hash: link.hash,
                },
            )
        } else {
            None
        },
    }
}

proof fn lemma_break_stays(start: Option<Link>, heads: Seq<BlockHead>, n: int)
    requires
        0 <= n <= heads.len(),
        first_break(start, heads, n).is_some(),
    ensures
        first_break(start, heads, heads.len() as int) == first_break(start, heads, n),
    decreases heads.len() - n,
{
    if n < heads.len() {
        lemma_break_stays(start, heads, n + 1);
    }
}

/// Checks the continuity in height and hash of a load of compact blocks.
///
/// Also checks it with the blocks of the wallet that form the start and the end seams of the scan range, where it
/// holds them.
pub fn check_continuity(
    heads: &Vec<BlockHead>,
    start_seam_block: Option<&WalletBlock>,
    end_seam_block: Option<&WalletBlock>,
) -> (r: Result<(), ContinuityError>)
    requires
        heads@.len() > 0,
    ensures
        match continuity_error(heads@, start_seam_block, end_seam_block) {
            None => r.is_ok(),
            Some(error) => r == Err::<(), ContinuityError>(error),
        },
{
    let ghost start = link_of(start_seam_block);
    let mut prev: Option<Link> = match start_seam_block {
        Some(block) => Some(Link { height: block.block_height, hash: block.block_hash }),
        None => None,
    };
    let count: usize = heads.len();
    let mut i: usize = 0;
    while i < count
        invariant
            i <= count == heads@.len(),
            start == link_of(start_seam_block),
            prev == link_before(start, heads@, i as int),
            first_break(start, heads@, i as int).is_none(),
        decreases count - i,
    {
        let head = heads[i];
        if let Some(error) = check_link(&prev, head.height, &head.prev_hash) {
            proof {
                assert(first_break(start, heads@, i + 1) == Some(error));
                lemma_break_stays(start, heads@, i + 1);
            }
            return Err(error);
        }
        prev = Some(Link { height: head.height, hash: head.hash });
        i = i + 1;
    }
    if let Some(end) = end_seam_block {
        if let Some(error) = check_link(&prev, end.block_height, &end.prev_hash) {
            return Err(error);
        }
    }
    Ok(())
}

/// Continuous blocks have ascending heights without gaps, and each names the hash of the one before it.
pub proof fn law_continuous_blocks_form_a_chain(
    heads: Seq<BlockHead>,
    start_seam_block: Option<&WalletBlock>,
    end_seam_block: Option<&WalletBlock>,
    i: int,
)
    requires
        continuity_error(heads, start_seam_block, end_seam_block).is_none(),
        0 < i < heads.len(),
    ensures
        heads[i].height == above(heads[i - 1].height),
        heads[i].prev_hash == heads[i - 1].hash,
{
    lemma_no_break_before(link_of(start_seam_block), heads, heads.len() as int, i + 1);
}

/// Continuous blocks follow the block of the wallet below them, and the block of the wallet above them follows them.
pub proof fn law_continuous_blocks_meet_the_seams(
    heads: Seq<BlockHead>,
    start_seam_block: Option<&WalletBlock>,
    end_seam_block: Option<&WalletBlock>,
)
    requires
        continuity_error(heads, start_seam_block, end_seam_block).is_none(),
        heads.len() > 0,
    ensures
        start_seam_block matches Some(start) ==> heads[0].prev_hash == start.block_hash && (start.block_height < u32::MAX
            ==> heads[0].height == start.block_height + 1),
        end_seam_block matches Some(end) ==> end.prev_hash == heads.last().hash && (heads.last().height < u32::MAX
            ==> end.block_height == heads.last().height + 1),
{
    lemma_no_break_before(link_of(start_seam_block), heads, heads.len() as int, 1);
    reveal_with_fuel(first_break, 2);
}

/// Blocks that follow each other, and the blocks of the wallet on both sides, are accepted.
pub proof fn law_a_chain_is_continuous(
    heads: Seq<BlockHead>,
    start_seam_block: Option<&WalletBlock>,
    end_seam_block: Option<&WalletBlock>,
)
    requires
        heads.len() > 0,
        forall|i: int|
            0 < i < heads.len() ==> (#[trigger] heads[i]).height == heads[i - 1].height + 1 && heads[i].prev_hash
                == heads[i - 1].hash,
        start_seam_block matches Some(start) ==> heads[0].prev_hash == start.block_hash && heads[0].height
            == start.block_height + 1,
        end_seam_block matches Some(end) ==> end.prev_hash == heads.last().hash && end.block_height
            == heads.last().height + 1,
    ensures
        continuity_error(heads, start_seam_block, end_seam_block).is_none(),
{
    lemma_chain_has_no_break(heads, start_seam_block, heads.len() as int);
}

proof fn lemma_chain_has_no_break(heads: Seq<BlockHead>, start_seam_block: Option<&WalletBlock>, n: int)
    requires
        0 <= n <= heads.len(),
        forall|i: int|
            0 < i < heads.len() ==> (#[trigger] heads[i]).height == heads[i - 1].height + 1 && heads[i].prev_hash
                == heads[i - 1].hash,
        heads.len() > 0 ==> (start_seam_block matches Some(start) ==> heads[0].prev_hash == start.block_hash
            && heads[0].height == start.block_height + 1),
    ensures
        first_break(link_of(start_seam_block), heads, n).is_none(),
    decreases n,
{
    if n > 0 {
        lemma_chain_has_no_break(heads, start_seam_block, n - 1);
        assert(heads[n - 1].height == heads[n - 1].height);
    }
}

proof fn lemma_no_break_before(start: Option<Link>, heads: Seq<BlockHead>, n: int, i: int)
    requires
        0 <= i <= n <= heads.len(),
        first_break(start, heads, n).is_none(),
    ensures
        first_break(start, heads, i).is_none(),
    decreases n,
{
    if i < n {
        lemma_no_break_before(start, heads, n - 1, i);
    }
}

// --- tree sizes ---

/// The size of the tree of `pool` that the chain reports.
pub open spec fn reported_size(metadata: ChainMetadata, pool: ShieldedPool) -> u32 {
    match pool {
        ShieldedPool::Sapling => metadata.sapling_commitment_tree_size,
        ShieldedPool::Orchard => metadata.orchard_commitment_tree_size,
        ShieldedPool::Ironwood => metadata.ironwood_commitment_tree_size,
    }
}

/// Whether the sizes of the tree of `pool` disagree. A size of zero is also what a server sends that does not report
/// the pool.
pub open spec fn sizes_disagree(metadata: ChainMetadata, bounds: TreeBounds, pool: ShieldedPool) -> bool {
    reported_size(metadata, pool) != bounds.final_of(pool) && reported_size(metadata, pool) != 0
}

/// The first pool whose tree sizes disagree.
pub open spec fn disagreeing_pool(metadata: ChainMetadata, bounds: TreeBounds) -> Option<ShieldedPool> {
    if sizes_disagree(metadata, bounds, ShieldedPool::Sapling) {
        Some(ShieldedPool::Sapling)
    } else if sizes_disagree(metadata, bounds, ShieldedPool::Orchard) {
        Some(ShieldedPool::Orchard)
    } else if sizes_disagree(metadata, bounds, ShieldedPool::Ironwood) {
        Some(ShieldedPool::Ironwood)
    } else {
        None
    }
}

/// What is wrong with the tree sizes of a block.
pub open spec fn tree_size_error(
    metadata: Option<ChainMetadata>,
    height: BlockHeight,
    bounds: TreeBounds,
) -> Option<ScanError> {
    match metadata {
        None => None,
        Some(metadata) => match disagreeing_pool(metadata, bounds) {
            None => None,
            Some(pool) => Some(
                ScanError::IncorrectTreeSize {
                    shielded_protocol: pool,
                    height,
                    block_metadata_size: reported_size(metadata, pool),
                    calculated_size: bounds.final_of(pool),
                },
            ),
        },
    }
}

/// Checks every pool's tree size against the chain.
///
/// A size that is not reported is tolerated, with outputs in the block or without: the next block with a reported
/// size decides.
pub fn check_tree_size(chain_metadata: &Option<ChainMetadata>, wallet_block: &WalletBlock) -> (r: Result<(), ScanError>)
    ensures
        match tree_size_error(*chain_metadata, wallet_block.block_height, wallet_block.tree_bounds) {
            None => r.is_ok(),
            Some(error) => r == Err::<(), ScanError>(error),
        },
{
    let metadata = match chain_metadata {
        Some(metadata) => metadata,
        None => {
            return Ok(());
        },
    };
    let bounds = wallet_block.tree_bounds;
    let height: u32 = wallet_block.block_height;
    let sapling: u32 = metadata.sapling_commitment_tree_size;
    if sapling != bounds.sapling_final_tree_size && sapling != 0 {
        return Err(
            ScanError::IncorrectTreeSize {
                shielded_protocol: ShieldedPool::Sapling,
                height,
                block_metadata_size: sapling,
                calculated_size: bounds.sapling_final_tree_size,
            },
        );
    }
    let orchard: u32 = metadata.orchard_commitment_tree_size;
    if orchard != bounds.orchard_final_tree_size && orchard != 0 {
        return Err(
            ScanError::IncorrectTreeSize {
                shielded_protocol: ShieldedPool::Orchard,
                height,
                block_metadata_size: orchard,
                calculated_size: bounds.orchard_final_tree_size,
            },
        );
    }
    let ironwood: u32 = metadata.ironwood_commitment_tree_size;
    if ironwood != bounds.ironwood_final_tree_size && ironwood != 0 {
        return Err(
            ScanError::IncorrectTreeSize {
                shielded_protocol: ShieldedPool::Ironwood,
                height,
                block_metadata_size: ironwood,
                calculated_size: bounds.ironwood_final_tree_size,
            },
        );
    }
    Ok(())
}

/// What `a` is more than `b`.
pub open spec fn less(a: u32, b: nat) -> u32 {
    if a >= b {
        (a - b) as u32
    } else {
        0
    }
}

/// The bounds of the trees in a block, from their sizes after it and the outputs in it.
pub open spec fn bounds_from_final(sizes: TreeSizes, txs: Seq<CompactTx>) -> TreeBounds {
    TreeBounds {
        sapling_initial_tree_size: less(sizes.sapling, outputs_of(txs, ShieldedPool::Sapling)),
        sapling_final_tree_size: sizes.sapling,
        orchard_initial_tree_size: less(sizes.orchard, outputs_of(txs, ShieldedPool::Orchard)),
        orchard_final_tree_size: sizes.orchard,
        ironwood_initial_tree_size: less(sizes.ironwood, outputs_of(txs, ShieldedPool::Ironwood)),
        ironwood_final_tree_size: sizes.ironwood,
    }
}

/// Where the sizes of the trees after a block are to be had.
#[derive(Clone, Copy, Debug, PartialEq, Eq, Structural)]
pub enum BlockSizes {
    /// They are known.
    Known(TreeSizes),
    /// They are those of the frontiers at the block.
    Frontiers,
}

/// Where the sizes of the trees after a block are to be had: from what was sent with it, from the fact that the trees
/// begin with sapling, or from the chain.
pub fn final_sizes_of_block(compact_block: &CompactBlock, height: BlockHeight, sapling_activation: BlockHeight) -> (r:
    BlockSizes)
    requires
        compact_block.chain_metadata.is_some() || height >= sapling_activation,
    ensures
        r == match compact_block.chain_metadata {
            Some(metadata) => BlockSizes::Known(
                TreeSizes {
                    sapling: metadata.sapling_commitment_tree_size,
                    orchard: metadata.orchard_commitment_tree_size,
                    ironwood: metadata.ironwood_commitment_tree_size,
                },
            ),
            None => if height == sapling_activation {
                BlockSizes::Known(TreeSizes { sapling: 0, orchard: 0, ironwood: 0 })
            } else {
                BlockSizes::Frontiers
            },
        },
{
    match &compact_block.chain_metadata {
        Some(metadata) => BlockSizes::Known(
            TreeSizes {
                sapling: metadata.sapling_commitment_tree_size,
                orchard: metadata.orchard_commitment_tree_size,
                ironwood: metadata.ironwood_commitment_tree_size,
            },
        ),
        None => if height == sapling_activation {
            BlockSizes::Known(TreeSizes { sapling: 0, orchard: 0, ironwood: 0 })
        } else {
            BlockSizes::Frontiers
        },
    }
}

/// The bounds of the trees in a block, from their sizes after it.
pub fn calculate_block_tree_bounds(compact_block: &CompactBlock, final_sizes: TreeSizes) -> (r: TreeBounds)
    requires
        outputs_of(compact_block.vtx@, ShieldedPool::Sapling) <= u32::MAX,
        outputs_of(compact_block.vtx@, ShieldedPool::Orchard) <= u32::MAX,
        outputs_of(compact_block.vtx@, ShieldedPool::Ironwood) <= u32::MAX,
    ensures
        r == bounds_from_final(final_sizes, compact_block.vtx@),
{
    let sapling: u32 = compact_block.shielded_output_count(ShieldedPool::Sapling);
    let orchard: u32 = compact_block.shielded_output_count(ShieldedPool::Orchard);
    let ironwood: u32 = compact_block.shielded_output_count(ShieldedPool::Ironwood);
    TreeBounds {
        sapling_initial_tree_size: final_sizes.sapling.saturating_sub(sapling),
        sapling_final_tree_size: final_sizes.sapling,
        orchard_initial_tree_size: final_sizes.orchard.saturating_sub(orchard),
        orchard_final_tree_size: final_sizes.orchard,
        ironwood_initial_tree_size: final_sizes.ironwood.saturating_sub(ironwood),
        ironwood_final_tree_size: final_sizes.ironwood,
    }
}

// --- leaves ---

/// An output that has a note commitment.
pub trait Committed {
    /// The commitment, if the output is well formed.
    spec fn commitment(&self) -> Result<[u8; 32], CompactFormatError>;

    fn get_commitment(&self) -> (r: Result<[u8; 32], CompactFormatError>)
        ensures
            r == self.commitment(),
    ;
}

impl Committed for CompactSaplingOutput {
    open spec fn commitment(&self) -> Result<[u8; 32], CompactFormatError> {
        output_commitment(self)
    }

    fn get_commitment(&self) -> Result<[u8; 32], CompactFormatError> {
        get_compact_output_description(self)
    }
}

impl Committed for CompactOrchardAction {
    open spec fn commitment(&self) -> Result<[u8; 32], CompactFormatError> {
        action_commitment(self)
    }

    fn get_commitment(&self) -> Result<[u8; 32], CompactFormatError> {
        get_compact_action(self)
    }
}

/// The outputs that the wallet's keys could decrypt.
pub type Decrypted = SortedMap<OutputId, ()>;

/// Whether the wallet could decrypt the output at `index` of the transaction.
pub open spec fn is_decrypted(decrypted: Map<OutputId, ()>, txid: TxId, index: int) -> bool {
    decrypted.dom().contains(OutputId { txid, output_index: index as u32 })
}

/// The leaves of the outputs, of which those that the wallet decrypted are marked; or none if one is malformed.
pub open spec fn leaves_of<T: Committed>(outputs: Seq<T>, txid: TxId, decrypted: Map<OutputId, ()>) -> Option<Seq<Leaf>>
    decreases outputs.len(),
{
    if outputs.len() == 0 {
        Some(Seq::empty())
    } else {
        match (leaves_of(outputs.drop_last(), txid, decrypted), outputs.last().commitment()) {
            (Some(before), Ok(node)) => Some(
                before.push(
                    Leaf {
                        node,
                        retention: if is_decrypted(decrypted, txid, outputs.len() - 1) {
                            LeafRetention::Marked
                        } else {
                            LeafRetention::Ephemeral
                        },
                    },
                ),
            ),
            _ => None,
        }
    }
}

proof fn lemma_malformed_stays<T: Committed>(outputs: Seq<T>, txid: TxId, decrypted: Map<OutputId, ()>, n: int)
    requires
        0 <= n <= outputs.len(),
        leaves_of(outputs.take(n), txid, decrypted).is_none(),
    ensures
        leaves_of(outputs, txid, decrypted).is_none(),
    decreases outputs.len() - n,
{
    if n == outputs.len() {
        assert(outputs.take(n) =~= outputs);
    } else {
        assert(outputs.take(n + 1).drop_last() =~= outputs.take(n));
        lemma_malformed_stays(outputs, txid, decrypted, n + 1);
    }
}

/// Appends the leaves of the outputs of a transaction. Returns whether all outputs are well formed.
pub fn calculate_leaves_and_retentions<T: Committed>(
    outputs: &Vec<T>,
    txid: TxId,
    decrypted: &Decrypted,
    leaves: &mut Vec<Leaf>,
) -> (r: bool)
    requires
        decrypted.wf(),
        outputs@.len() <= u32::MAX,
    ensures
        match leaves_of(outputs@, txid, decrypted@) {
            Some(added) => r && final(leaves)@ == old(leaves)@ + added,
            None => !r,
        },
{
    let ghost before = leaves@;
    let count: usize = outputs.len();
    let mut i: usize = 0;
    assert(outputs@.take(0) =~= Seq::empty());
    assert(leaves@ =~= before + Seq::<Leaf>::empty());
    while i < count
        invariant
            i <= count == outputs@.len() <= u32::MAX,
            decrypted.wf(),
            leaves_of(outputs@.take(i as int), txid, decrypted@) matches Some(added) && leaves@ == before + added,
        decreases count - i,
    {
        proof {
            let next = outputs@.take(i + 1);
            assert(next.drop_last() =~= outputs@.take(i as int));
            assert(next.last() == outputs@[i as int]);
        }
        let ghost so_far = leaves_of(outputs@.take(i as int), txid, decrypted@)->0;
        match outputs[i].get_commitment() {
            Err(_) => {
                proof {
                    lemma_malformed_stays(outputs@, txid, decrypted@, i + 1);
                }
                return false;
            },
            Ok(node) => {
                let marked = decrypted.contains_key(&OutputId { txid, output_index: i as u32 });
                let leaf = Leaf {
                    node,
                    retention: if marked {
                        LeafRetention::Marked
                    } else {
                        LeafRetention::Ephemeral
                    },
                };
                leaves.push(leaf);
                assert(leaves@ =~= before + so_far.push(leaf));
            },
        }
        i = i + 1;
    }
    assert(outputs@.take(count as int) =~= outputs@);
    true
}

/// The leaves with the last of them made a checkpoint at the height.
pub open spec fn with_checkpoint(leaves: Seq<Leaf>, height: BlockHeight) -> Seq<Leaf> {
    if leaves.len() == 0 {
        leaves
    } else {
        let last = leaves.last();
        leaves.drop_last().push(
            Leaf {
                retention: match last.retention {
                    LeafRetention::Marked => LeafRetention::MarkedCheckpoint(height),
                    LeafRetention::Ephemeral => LeafRetention::Checkpoint(height),
                    other => other,
                },
                ..last
            },
        )
    }
}

/// Makes the last leaf of a block a checkpoint. Where the block has no outputs the last leaf is one already, and stays
/// as it is.
pub fn set_checkpoint_retentions(block_height: BlockHeight, leaves: &mut Vec<Leaf>)
    ensures
        final(leaves)@ == with_checkpoint(old(leaves)@, block_height),
{
    let ghost before = leaves@;
    let count: usize = leaves.len();
    if count > 0 {
        let last = leaves[count - 1];
        let retention = match last.retention {
            LeafRetention::Marked => LeafRetention::MarkedCheckpoint(block_height),
            LeafRetention::Ephemeral => LeafRetention::Checkpoint(block_height),
            other => other,
        };
        leaves.set(count - 1, Leaf { node: last.node, retention });
        assert(leaves@ =~= with_checkpoint(before, block_height));
    }
}

// --- positions ---

/// A note of the wallet and its position.
#[derive(Clone, Copy, Debug, PartialEq, Eq)]
pub struct FoundPosition {
    pub output_id: OutputId,
    pub position: u64,
}

/// The positions of the decrypted outputs among the first `n` of a transaction, `tree_size` being the size of the tree
/// before it.
pub open spec fn positions_of(n: int, txid: TxId, tree_size: u32, decrypted: Map<OutputId, ()>) -> Seq<FoundPosition>
    decreases n,
{
    if n <= 0 {
        Seq::empty()
    } else {
        let before = positions_of(n - 1, txid, tree_size, decrypted);
        if is_decrypted(decrypted, txid, n - 1) {
            before.push(
                FoundPosition {
                    output_id: OutputId { txid, output_index: (n - 1) as u32 },
                    position: (tree_size + n - 1) as u64,
                },
            )
        } else {
            before
        }
    }
}

/// Appends the positions of the decrypted outputs of a transaction. A note's nullifier follows from its position.
pub fn calculate_positions(
    output_count: usize,
    txid: TxId,
    tree_size: u32,
    decrypted: &Decrypted,
    positions: &mut Vec<FoundPosition>,
)
    requires
        decrypted.wf(),
        output_count <= u32::MAX,
    ensures
        final(positions)@ == old(positions)@ + positions_of(output_count as int, txid, tree_size, decrypted@),
{
    let ghost before = positions@;
    let mut i: usize = 0;
    assert(positions@ =~= before + Seq::<FoundPosition>::empty());
    while i < output_count
        invariant
            i <= output_count <= u32::MAX,
            decrypted.wf(),
            positions@ == before + positions_of(i as int, txid, tree_size, decrypted@),
        decreases output_count - i,
    {
        let output_id = OutputId { txid, output_index: i as u32 };
        if decrypted.contains_key(&output_id) {
            positions.push(FoundPosition { output_id, position: tree_size as u64 + i as u64 });
        }
        assert(positions@ =~= before + positions_of(i + 1, txid, tree_size, decrypted@));
        i = i + 1;
    }
}

/// Whether any of the first `n` outputs of a transaction was decrypted.
pub open spec fn any_decrypted(n: int, txid: TxId, decrypted: Map<OutputId, ()>) -> bool {
    exists|i: int| 0 <= i < n && #[trigger] is_decrypted(decrypted, txid, i)
}

pub(crate) fn has_decrypted(output_count: usize, txid: TxId, decrypted: &Decrypted) -> (r: bool)
    requires
        decrypted.wf(),
        output_count <= u32::MAX,
    ensures
        r == any_decrypted(output_count as int, txid, decrypted@),
{
    let mut i: usize = 0;
    while i < output_count
        invariant
            i <= output_count <= u32::MAX,
            decrypted.wf(),
            forall|k: int| 0 <= k < i ==> !#[trigger] is_decrypted(decrypted@, txid, k),
        decreases output_count - i,
    {
        if decrypted.contains_key(&OutputId { txid, output_index: i as u32 }) {
            assert(is_decrypted(decrypted@, txid, i as int));
            return true;
        }
        i = i + 1;
    }
    false
}

// --- nullifiers ---

/// The map with the nullifiers of sapling spends added, or the error of the first that is malformed.
pub open spec fn with_spend_nullifiers(
    map: Map<Nullifier, ScanTarget>,
    spends: Seq<CompactSaplingSpend>,
    target: ScanTarget,
) -> Result<Map<Nullifier, ScanTarget>, ScanError>
    decreases spends.len(),
{
    if spends.len() == 0 {
        Ok(map)
    } else {
        match with_spend_nullifiers(map, spends.drop_last(), target) {
            Err(error) => Err(error),
            Ok(before) => if spends.last().nf@.len() != 32 {
                Err(ScanError::InvalidSaplingNullifier)
            } else {
                Ok(before.insert(Nullifier { bytes: array_of(spends.last().nf@) }, target))
            },
        }
    }
}

/// The map with the nullifiers of actions added, or the error of the first that is malformed.
pub open spec fn with_action_nullifiers(
    map: Map<Nullifier, ScanTarget>,
    actions: Seq<CompactOrchardAction>,
    target: ScanTarget,
) -> Result<Map<Nullifier, ScanTarget>, ScanError>
    decreases actions.len(),
{
    if actions.len() == 0 {
        Ok(map)
    } else {
        match with_action_nullifiers(map, actions.drop_last(), target) {
            Err(error) => Err(error),
            Ok(before) => {
                let bytes = actions.last().nullifier@;
                if bytes.len() != 32 {
                    Err(ScanError::InvalidOrchardNullifierLength(bytes.len() as usize))
                } else if !orchard_nullifier_is_valid(bytes) {
                    Err(ScanError::InvalidOrchardNullifier)
                } else {
                    Ok(before.insert(Nullifier { bytes: array_of(bytes) }, target))
                }
            },
        }
    }
}

proof fn lemma_spend_error_stays(
    map: Map<Nullifier, ScanTarget>,
    spends: Seq<CompactSaplingSpend>,
    target: ScanTarget,
    n: int,
)
    requires
        0 <= n <= spends.len(),
        with_spend_nullifiers(map, spends.take(n), target) is Err,
    ensures
        with_spend_nullifiers(map, spends, target) == with_spend_nullifiers(map, spends.take(n), target),
    decreases spends.len() - n,
{
    if n == spends.len() {
        assert(spends.take(n) =~= spends);
    } else {
        assert(spends.take(n + 1).drop_last() =~= spends.take(n));
        lemma_spend_error_stays(map, spends, target, n + 1);
    }
}

proof fn lemma_action_error_stays(
    map: Map<Nullifier, ScanTarget>,
    actions: Seq<CompactOrchardAction>,
    target: ScanTarget,
    n: int,
)
    requires
        0 <= n <= actions.len(),
        with_action_nullifiers(map, actions.take(n), target) is Err,
    ensures
        with_action_nullifiers(map, actions, target) == with_action_nullifiers(map, actions.take(n), target),
    decreases actions.len() - n,
{
    if n == actions.len() {
        assert(actions.take(n) =~= actions);
    } else {
        assert(actions.take(n + 1).drop_last() =~= actions.take(n));
        lemma_action_error_stays(map, actions, target, n + 1);
    }
}

fn add_spend_nullifiers(
    map: &mut SortedMap<Nullifier, ScanTarget>,
    spends: &Vec<CompactSaplingSpend>,
    target: ScanTarget,
) -> (r: Result<(), ScanError>)
    requires
        old(map).wf(),
    ensures
        final(map).wf(),
        match with_spend_nullifiers(old(map)@, spends@, target) {
            Ok(view) => r.is_ok() && final(map)@ == view,
            Err(error) => r == Err::<(), ScanError>(error),
        },
{
    let ghost before = map@;
    let count: usize = spends.len();
    let mut i: usize = 0;
    assert(spends@.take(0) =~= Seq::empty());
    while i < count
        invariant
            i <= count == spends@.len(),
            before == old(map)@,
            map.wf(),
            with_spend_nullifiers(before, spends@.take(i as int), target) == Ok::<
                Map<Nullifier, ScanTarget>,
                ScanError,
            >(map@),
        decreases count - i,
    {
        proof {
            let next = spends@.take(i + 1);
            assert(next.drop_last() =~= spends@.take(i as int));
            assert(next.last() == spends@[i as int]);
        }
        match to_32(&spends[i].nf) {
            None => {
                proof {
                    lemma_spend_error_stays(before, spends@, target, i + 1);
                }
                return Err(ScanError::InvalidSaplingNullifier);
            },
            Some(bytes) => map.insert(Nullifier { bytes }, target),
        }
        i = i + 1;
    }
    assert(spends@.take(count as int) =~= spends@);
    Ok(())
}

fn add_action_nullifiers(
    map: &mut SortedMap<Nullifier, ScanTarget>,
    actions: &Vec<CompactOrchardAction>,
    target: ScanTarget,
) -> (r: Result<(), ScanError>)
    requires
        old(map).wf(),
    ensures
        final(map).wf(),
        match with_action_nullifiers(old(map)@, actions@, target) {
            Ok(view) => r.is_ok() && final(map)@ == view,
            Err(error) => r == Err::<(), ScanError>(error),
        },
{
    let ghost before = map@;
    let count: usize = actions.len();
    let mut i: usize = 0;
    assert(actions@.take(0) =~= Seq::empty());
    while i < count
        invariant
            i <= count == actions@.len(),
            before == old(map)@,
            map.wf(),
            with_action_nullifiers(before, actions@.take(i as int), target) == Ok::<
                Map<Nullifier, ScanTarget>,
                ScanError,
            >(map@),
        decreases count - i,
    {
        proof {
            let next = actions@.take(i + 1);
            assert(next.drop_last() =~= actions@.take(i as int));
            assert(next.last() == actions@[i as int]);
        }
        match to_32(&actions[i].nullifier) {
            None => {
                proof {
                    lemma_action_error_stays(before, actions@, target, i + 1);
                }
                return Err(ScanError::InvalidOrchardNullifierLength(actions[i].nullifier.len()));
            },
            Some(bytes) => {
                if !is_orchard_nullifier(&bytes) {
                    proof {
                        lemma_action_error_stays(before, actions@, target, i + 1);
                    }
                    return Err(ScanError::InvalidOrchardNullifier);
                }
                map.insert(Nullifier { bytes }, target);
            },
        }
        i = i + 1;
    }
    assert(actions@.take(count as int) =~= actions@);
    Ok(())
}

/// Adds the nullifiers of a transaction, by the pools that they spend from. The first that is malformed ends it.
pub fn collect_nullifiers_compact(
    nullifiers: &mut NullifierMap,
    block_height: BlockHeight,
    txid: TxId,
    transaction: &CompactTx,
) -> (r: Result<(), ScanError>)
    requires
        old(nullifiers).wf(),
    ensures
        final(nullifiers).wf(),
        ({
            let target = ScanTarget { block_height, txid, narrow_scan_area: false };
            match (
                with_spend_nullifiers(old(nullifiers).sapling@, transaction.spends@, target),
                with_action_nullifiers(old(nullifiers).orchard@, transaction.actions@, target),
                with_action_nullifiers(old(nullifiers).ironwood@, transaction.ironwood_actions@, target),
            ) {
                (Err(error), _, _) => r == Err::<(), ScanError>(error),
                (_, Err(error), _) => r == Err::<(), ScanError>(error),
                (_, _, Err(error)) => r == Err::<(), ScanError>(error),
                (Ok(sapling), Ok(orchard), Ok(ironwood)) => {
                    &&& r.is_ok()
                    &&& final(nullifiers).sapling@ == sapling
                    &&& final(nullifiers).orchard@ == orchard
                    &&& final(nullifiers).ironwood@ == ironwood
                },
            }
        }),
{
    let target = ScanTarget { block_height, txid, narrow_scan_area: false };
    if let Err(error) = add_spend_nullifiers(&mut nullifiers.sapling, &transaction.spends, target) {
        return Err(error);
    }
    if let Err(error) = add_action_nullifiers(&mut nullifiers.orchard, &transaction.actions, target) {
        return Err(error);
    }
    add_action_nullifiers(&mut nullifiers.ironwood, &transaction.ironwood_actions, target)
}

} // verus!
