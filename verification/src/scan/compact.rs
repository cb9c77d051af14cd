//! Compact blocks: what a server sends of a block.
use crate::error::CompactFormatError;
use crate::outside::{is_orchard_nullifier, orchard_nullifier_is_valid, pallas_modulus};
use crate::primitives::{BlockHash, BlockHeight, ShieldedPool, TxId};
use crate::trees::{is_node, jubjub_base_modulus};
use crate::wallet::codec::le_value;
use crate::wallet::serialization::{array_of, lemma_array_of};
use vstd::prelude::*;

verus! {

/// The nullifier of a sapling note that is spent.
#[derive(Debug, PartialEq, Eq)]
pub struct CompactSaplingSpend {
    pub nf: Vec<u8>,
}

/// A sapling output.
#[derive(Debug, PartialEq, Eq)]
pub struct CompactSaplingOutput {
    pub cmu: Vec<u8>,
    pub ephemeral_key: Vec<u8>,
    pub ciphertext: Vec<u8>,
}

/// An action of the orchard protocol: a note that is spent, and an output.
#[derive(Debug, PartialEq, Eq)]
pub struct CompactOrchardAction {
    pub nullifier: Vec<u8>,
    pub cmx: Vec<u8>,
    pub ephemeral_key: Vec<u8>,
    pub ciphertext: Vec<u8>,
}

/// A transparent input.
#[derive(Debug, PartialEq, Eq)]
pub struct CompactTxIn {
    pub prevout_txid: Vec<u8>,
    pub prevout_index: u32,
}

/// A transparent output.
#[derive(Debug, PartialEq, Eq)]
pub struct CompactTxOut {
    pub value: u64,
    pub script_pub_key: Vec<u8>,
}

/// What a server sends of a transaction.
#[derive(Debug, PartialEq, Eq)]
pub struct CompactTx {
    pub index: u64,
    pub txid: Vec<u8>,
    pub fee: u32,
    pub spends: Vec<CompactSaplingSpend>,
    pub outputs: Vec<CompactSaplingOutput>,
    pub actions: Vec<CompactOrchardAction>,
    pub ironwood_actions: Vec<CompactOrchardAction>,
    pub vin: Vec<CompactTxIn>,
    pub vout: Vec<CompactTxOut>,
}

/// The sizes of the trees after a block, as the chain reports them.
#[derive(Clone, Copy, Debug, PartialEq, Eq, Structural)]
pub struct ChainMetadata {
    pub sapling_commitment_tree_size: u32,
    pub orchard_commitment_tree_size: u32,
    pub ironwood_commitment_tree_size: u32,
}

/// What a server sends of a block.
#[derive(Debug, PartialEq, Eq)]
pub struct CompactBlock {
    pub height: u64,
    pub hash: Vec<u8>,
    pub prev_hash: Vec<u8>,
    pub time: u32,
    /// The header of the block, or nothing.
    pub header: Vec<u8>,
    pub vtx: Vec<CompactTx>,
    pub chain_metadata: Option<ChainMetadata>,
}

// --- bytes ---

/// The 32 bytes, if there are as many.
pub fn to_32(bytes: &Vec<u8>) -> (r: Option<[u8; 32]>)
    ensures
        r.is_some() == (bytes@.len() == 32),
        r matches Some(array) ==> array@ == bytes@ && array == array_of(bytes@),
{
    if bytes.len() != 32 {
        return None;
    }
    let mut array: [u8; 32] = [0u8; 32];
    let mut i: usize = 0;
    while i < 32
        invariant
            i <= 32,
            bytes@.len() == 32,
            forall|k: int| 0 <= k < i ==> array@[k] == bytes@[k],
        decreases 32 - i,
    {
        array[i] = bytes[i];
        i = i + 1;
    }
    assert(array@ =~= bytes@);
    proof {
        lemma_array_of(array);
    }
    Some(array)
}

// --- blocks ---

/// The hash of a block and that of the block before it.
pub struct HeaderHashes {
    pub hash: Seq<u8>,
    pub prev_hash: Seq<u8>,
}

/// The hashes that a header gives.
pub uninterp spec fn header_hashes(header: Seq<u8>) -> Option<HeaderHashes>;

/// Calls [`zcash_primitives::block::BlockHeader::read`], and gives the hash of the block and that of its parent.
#[verifier::external_body]
fn read_header(header: &[u8]) -> (r: Option<([u8; 32], [u8; 32])>)
    ensures
        match header_hashes(header@) {
            Some(hashes) => r matches Some(read) && read.0@ == hashes.hash && read.1@ == hashes.prev_hash,
            None => r.is_none(),
        },
{
    zcash_primitives::block::BlockHeader::read(header).ok().map(|header| (header.hash().0, header.prev_block.0))
}

/// The hash of a block: that of its header, or the one that was sent beside it.
pub open spec fn compact_hash(block: &CompactBlock) -> Option<BlockHash> {
    if block.header@.len() > 0 && header_hashes(block.header@).is_some() {
        Some(array_of(header_hashes(block.header@)->0.hash))
    } else if block.hash@.len() == 32 {
        Some(array_of(block.hash@))
    } else {
        None
    }
}

/// The hash of the block before a block.
pub open spec fn compact_prev_hash(block: &CompactBlock) -> Option<BlockHash> {
    if block.header@.len() > 0 && header_hashes(block.header@).is_some() {
        Some(array_of(header_hashes(block.header@)->0.prev_hash))
    } else if block.prev_hash@.len() == 32 {
        Some(array_of(block.prev_hash@))
    } else {
        None
    }
}

fn header_of(block: &CompactBlock) -> (r: Option<([u8; 32], [u8; 32])>)
    ensures
        r.is_some() == (block.header@.len() > 0 && header_hashes(block.header@).is_some()),
        r matches Some(hashes) ==> hashes.0 == array_of(header_hashes(block.header@)->0.hash) && hashes.1 == array_of(
            header_hashes(block.header@)->0.prev_hash,
        ),
{
    if block.header.len() == 0 {
        None
    } else {
        let r = read_header(block.header.as_slice());
        proof {
            if let Some(hashes) = r {
                lemma_array_of(hashes.0);
                lemma_array_of(hashes.1);
            }
        }
        r
    }
}

/// The hash of the block, or none if neither a header nor a hash was sent.
pub fn get_compact_hash(compact_block: &CompactBlock) -> (r: Option<BlockHash>)
    ensures
        r == compact_hash(compact_block),
{
    match header_of(compact_block) {
        Some(hashes) => Some(hashes.0),
        None => to_32(&compact_block.hash),
    }
}

/// The hash of the block's parent, or none if neither a header nor a hash was sent.
pub fn get_compact_prev_hash(compact_block: &CompactBlock) -> (r: Option<BlockHash>)
    ensures
        r == compact_prev_hash(compact_block),
{
    match header_of(compact_block) {
        Some(hashes) => Some(hashes.1),
        None => to_32(&compact_block.prev_hash),
    }
}

/// The height of the block, if it is one.
pub fn get_compact_height(compact_block: &CompactBlock) -> (r: Option<BlockHeight>)
    ensures
        r == if compact_block.height <= u32::MAX {
            Some(compact_block.height as u32)
        } else {
            None
        },
{
    if compact_block.height <= u32::MAX as u64 {
        Some(compact_block.height as u32)
    } else {
        None
    }
}

/// The id of the transaction, if it has one.
pub fn get_compact_txid(compact_tx: &CompactTx) -> (r: Option<TxId>)
    ensures
        r == if compact_tx.txid@.len() == 32 {
            Some(TxId { bytes: array_of(compact_tx.txid@) })
        } else {
            None
        },
{
    match to_32(&compact_tx.txid) {
        Some(bytes) => Some(TxId { bytes }),
        None => None,
    }
}

// --- counts ---

/// The number of outputs of `pool` in a transaction.
pub open spec fn tx_outputs(tx: &CompactTx, pool: ShieldedPool) -> nat {
    match pool {
        ShieldedPool::Sapling => tx.outputs@.len(),
        ShieldedPool::Orchard => tx.actions@.len(),
        ShieldedPool::Ironwood => tx.ironwood_actions@.len(),
    }
}

/// The number of inputs of `pool` in a transaction.
pub open spec fn tx_inputs(tx: &CompactTx, pool: ShieldedPool) -> nat {
    match pool {
        ShieldedPool::Sapling => tx.spends@.len(),
        ShieldedPool::Orchard => tx.actions@.len(),
        ShieldedPool::Ironwood => tx.ironwood_actions@.len(),
    }
}

/// The number of outputs of `pool` in transactions.
pub open spec fn outputs_of(txs: Seq<CompactTx>, pool: ShieldedPool) -> nat
    decreases txs.len(),
{
    if txs.len() == 0 {
        0
    } else {
        outputs_of(txs.drop_last(), pool) + tx_outputs(&txs.last(), pool)
    }
}

/// The number of inputs of `pool` in transactions.
pub open spec fn inputs_of(txs: Seq<CompactTx>, pool: ShieldedPool) -> nat
    decreases txs.len(),
{
    if txs.len() == 0 {
        0
    } else {
        inputs_of(txs.drop_last(), pool) + tx_inputs(&txs.last(), pool)
    }
}

pub proof fn lemma_outputs_grow(txs: Seq<CompactTx>, n: int, pool: ShieldedPool)
    requires
        0 <= n <= txs.len(),
    ensures
        outputs_of(txs.take(n), pool) <= outputs_of(txs, pool),
    decreases txs.len() - n,
{
    if n == txs.len() {
        assert(txs.take(n) =~= txs);
    } else {
        assert(txs.take(n + 1).drop_last() =~= txs.take(n));
        lemma_outputs_grow(txs, n + 1, pool);
    }
}

pub proof fn lemma_inputs_grow(txs: Seq<CompactTx>, n: int, pool: ShieldedPool)
    requires
        0 <= n <= txs.len(),
    ensures
        inputs_of(txs.take(n), pool) <= inputs_of(txs, pool),
    decreases txs.len() - n,
{
    if n == txs.len() {
        assert(txs.take(n) =~= txs);
    } else {
        assert(txs.take(n + 1).drop_last() =~= txs.take(n));
        lemma_inputs_grow(txs, n + 1, pool);
    }
}

impl CompactTx {
    /// The number of outputs of `pool`.
    pub fn shielded_output_count(&self, pool: ShieldedPool) -> (r: u32)
        requires
            tx_outputs(self, pool) <= u32::MAX,
        ensures
            r == tx_outputs(self, pool),
    {
        match pool {
            ShieldedPool::Sapling => self.outputs.len() as u32,
            ShieldedPool::Orchard => self.actions.len() as u32,
            ShieldedPool::Ironwood => self.ironwood_actions.len() as u32,
        }
    }

    /// The number of inputs of `pool`.
    pub fn shielded_input_count(&self, pool: ShieldedPool) -> (r: u32)
        requires
            tx_inputs(self, pool) <= u32::MAX,
        ensures
            r == tx_inputs(self, pool),
    {
        match pool {
            ShieldedPool::Sapling => self.spends.len() as u32,
            ShieldedPool::Orchard => self.actions.len() as u32,
            ShieldedPool::Ironwood => self.ironwood_actions.len() as u32,
        }
    }
}

impl CompactBlock {
    /// The number of outputs of `pool`.
    pub fn shielded_output_count(&self, pool: ShieldedPool) -> (r: u32)
        requires
            outputs_of(self.vtx@, pool) <= u32::MAX,
        ensures
            r == outputs_of(self.vtx@, pool),
    {
        let mut sum: u32 = 0;
        let count: usize = self.vtx.len();
        let mut i: usize = 0;
        assert(self.vtx@.take(0) =~= Seq::empty());
        while i < count
            invariant
                i <= count == self.vtx@.len(),
                outputs_of(self.vtx@, pool) <= u32::MAX,
                sum == outputs_of(self.vtx@.take(i as int), pool),
            decreases count - i,
        {
            proof {
                assert(self.vtx@.take(i + 1).drop_last() =~= self.vtx@.take(i as int));
                lemma_outputs_grow(self.vtx@, i + 1, pool);
            }
            sum = sum + self.vtx[i].shielded_output_count(pool);
            i = i + 1;
        }
        assert(self.vtx@.take(count as int) =~= self.vtx@);
        sum
    }

    /// The number of inputs of `pool`.
    pub fn shielded_input_count(&self, pool: ShieldedPool) -> (r: u32)
        requires
            inputs_of(self.vtx@, pool) <= u32::MAX,
        ensures
            r == inputs_of(self.vtx@, pool),
    {
        let mut sum: u32 = 0;
        let count: usize = self.vtx.len();
        let mut i: usize = 0;
        assert(self.vtx@.take(0) =~= Seq::empty());
        while i < count
            invariant
                i <= count == self.vtx@.len(),
                inputs_of(self.vtx@, pool) <= u32::MAX,
                sum == inputs_of(self.vtx@.take(i as int), pool),
            decreases count - i,
        {
            proof {
                assert(self.vtx@.take(i + 1).drop_last() =~= self.vtx@.take(i as int));
                lemma_inputs_grow(self.vtx@, i + 1, pool);
            }
            sum = sum + self.vtx[i].shielded_input_count(pool);
            i = i + 1;
        }
        assert(self.vtx@.take(count as int) =~= self.vtx@);
        sum
    }
}

// --- outputs and actions ---

/// The number of bytes of the part of a ciphertext that is sent.
pub const COMPACT_NOTE_SIZE: usize = 52;

/// Calls [`sapling_crypto::note::ExtractedNoteCommitment::from_bytes`] and says whether it gave a commitment, which it
/// does for exactly the numbers below the modulus of the field.
#[verifier::external_body]
pub(crate) fn is_sapling_commitment(bytes: &[u8; 32]) -> (r: bool)
    ensures
        r == (le_value(bytes@) < jubjub_base_modulus()),
{
    sapling_crypto::note::ExtractedNoteCommitment::from_bytes(bytes).is_some().into()
}

/// Calls [`orchard::note::ExtractedNoteCommitment::from_bytes`] and says whether it gave a commitment, which it does
/// for exactly the numbers below the modulus of the field.
#[verifier::external_body]
pub(crate) fn is_orchard_commitment(bytes: &[u8; 32]) -> (r: bool)
    ensures
        r == (le_value(bytes@) < pallas_modulus()),
{
    orchard::note::ExtractedNoteCommitment::from_bytes(bytes).is_some().into()
}

/// The commitment of a sapling output, if the output is well formed.
pub open spec fn output_commitment(output: &CompactSaplingOutput) -> Result<[u8; 32], CompactFormatError> {
    if output.cmu@.len() != 32 {
        Err(CompactFormatError::InvalidLength)
    } else if !is_node(output.cmu@, false) {
        Err(CompactFormatError::InvalidValue)
    } else if output.ephemeral_key@.len() != 32 || output.ciphertext@.len() != COMPACT_NOTE_SIZE {
        Err(CompactFormatError::InvalidLength)
    } else {
        Ok(array_of(output.cmu@))
    }
}

/// The commitment of a sapling output, if the output is well formed.
pub fn get_compact_output_description(output: &CompactSaplingOutput) -> (r: Result<[u8; 32], CompactFormatError>)
    ensures
        r == output_commitment(output),
{
    match to_32(&output.cmu) {
        None => Err(CompactFormatError::InvalidLength),
        Some(cmu) => if !is_sapling_commitment(&cmu) {
            Err(CompactFormatError::InvalidValue)
        } else if output.ephemeral_key.len() != 32 || output.ciphertext.len() != COMPACT_NOTE_SIZE {
            Err(CompactFormatError::InvalidLength)
        } else {
            Ok(cmu)
        },
    }
}

/// The commitment of an action, if the action is well formed.
pub open spec fn action_commitment(action: &CompactOrchardAction) -> Result<[u8; 32], CompactFormatError> {
    if action.nullifier@.len() != 32 {
        Err(CompactFormatError::InvalidLength)
    } else if !orchard_nullifier_is_valid(action.nullifier@) {
        Err(CompactFormatError::InvalidValue)
    } else if action.cmx@.len() != 32 {
        Err(CompactFormatError::InvalidLength)
    } else if !is_node(action.cmx@, true) {
        Err(CompactFormatError::InvalidValue)
    } else if action.ephemeral_key@.len() != 32 || action.ciphertext@.len() != COMPACT_NOTE_SIZE {
        Err(CompactFormatError::InvalidLength)
    } else {
        Ok(array_of(action.cmx@))
    }
}

/// The commitment of an action, if the action is well formed.
pub fn get_compact_action(action: &CompactOrchardAction) -> (r: Result<[u8; 32], CompactFormatError>)
    ensures
        r == action_commitment(action),
{
    match to_32(&action.nullifier) {
        None => {
            return Err(CompactFormatError::InvalidLength);
        },
        Some(nullifier) => {
            if !is_orchard_nullifier(&nullifier) {
                return Err(CompactFormatError::InvalidValue);
            }
        },
    }
    match to_32(&action.cmx) {
        None => Err(CompactFormatError::InvalidLength),
        Some(cmx) => if !is_orchard_commitment(&cmx) {
            Err(CompactFormatError::InvalidValue)
        } else if action.ephemeral_key.len() != 32 || action.ciphertext.len() != COMPACT_NOTE_SIZE {
            Err(CompactFormatError::InvalidLength)
        } else {
            Ok(cmx)
        },
    }
}

} // verus!
