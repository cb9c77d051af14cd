//! What holds of every load of compact blocks that is scanned, said of the blocks and of what was found in them.
use crate::error::{ContinuityError, ScanError};
use crate::outside::pallas_modulus;
use crate::primitives::{BlockHeight, Nullifier, OutputId, ShieldedPool, TxId};
use crate::scan::compact::{
    compact_hash, compact_prev_hash, header_hashes, outputs_of, CompactBlock, CompactOrchardAction,
    CompactSaplingOutput, CompactSaplingSpend, CompactTx,
};
use crate::scan::compact_blocks::{
    continuity_error, first_break, is_decrypted, law_a_chain_is_continuous, leaves_of, link_of, positions_of,
    with_action_nullifiers, with_spend_nullifiers, BlockHead, Committed, FoundPosition,
};
use crate::scan::scanning::{
    after_block, after_blocks, after_transaction, after_transactions, all_named, has_room_for_blocks, heads_of,
    is_named, law_tree_sizes_count_served_outputs, lemma_sizes_after_transactions, nothing_found, outputs_in_blocks,
    scanned, seam, txid_at, DecryptedOutputs, InitialScanData, ShieldedScanView,
};
use crate::sync::progress::TreeSizes;
use crate::trees::{jubjub_base_modulus, Leaf, LeafRetention};
use crate::wallet::codec::le_value;
use crate::wallet::serialization::{array_of, lemma_array_of};
use crate::wallet::stores::WalletBlock;
use crate::wallet::sync_state::ScanTarget;
use vstd::prelude::*;

verus! {

// --- blocks and what is found in them, pool by pool ---

/// The number of outputs of a pool in a transaction.
pub open spec fn output_count(tx: CompactTx, pool: ShieldedPool) -> int {
    match pool {
        ShieldedPool::Sapling => tx.outputs@.len() as int,
        ShieldedPool::Orchard => tx.actions@.len() as int,
        ShieldedPool::Ironwood => tx.ironwood_actions@.len() as int,
    }
}

/// The bytes of the note commitment of an output.
pub open spec fn commitment_bytes(tx: CompactTx, pool: ShieldedPool, j: int) -> Seq<u8> {
    match pool {
        ShieldedPool::Sapling => tx.outputs@[j].cmu@,
        ShieldedPool::Orchard => tx.actions@[j].cmx@,
        ShieldedPool::Ironwood => tx.ironwood_actions@[j].cmx@,
    }
}

/// The number of nullifiers of a pool in a transaction.
pub open spec fn input_count(tx: CompactTx, pool: ShieldedPool) -> int {
    match pool {
        ShieldedPool::Sapling => tx.spends@.len() as int,
        ShieldedPool::Orchard => tx.actions@.len() as int,
        ShieldedPool::Ironwood => tx.ironwood_actions@.len() as int,
    }
}

/// The bytes of a nullifier of a transaction.
pub open spec fn nullifier_bytes(tx: CompactTx, pool: ShieldedPool, j: int) -> Seq<u8> {
    match pool {
        ShieldedPool::Sapling => tx.spends@[j].nf@,
        ShieldedPool::Orchard => tx.actions@[j].nullifier@,
        ShieldedPool::Ironwood => tx.ironwood_actions@[j].nullifier@,
    }
}

/// The outputs of a pool that the wallet's keys could decrypt.
pub open spec fn decrypted_in(decrypted: &DecryptedOutputs, pool: ShieldedPool) -> Map<OutputId, ()> {
    match pool {
        ShieldedPool::Sapling => decrypted.sapling@,
        ShieldedPool::Orchard => decrypted.orchard@,
        ShieldedPool::Ironwood => decrypted.ironwood@,
    }
}

/// The leaves of a pool that were found.
pub open spec fn leaves_in(view: ShieldedScanView, pool: ShieldedPool) -> Seq<Leaf> {
    match pool {
        ShieldedPool::Sapling => view.sapling_leaves,
        ShieldedPool::Orchard => view.orchard_leaves,
        ShieldedPool::Ironwood => view.ironwood_leaves,
    }
}

/// The positions of the wallet's notes of a pool.
pub open spec fn positions_in(view: ShieldedScanView, pool: ShieldedPool) -> Seq<FoundPosition> {
    match pool {
        ShieldedPool::Sapling => view.sapling_positions,
        ShieldedPool::Orchard => view.orchard_positions,
        ShieldedPool::Ironwood => view.ironwood_positions,
    }
}

/// The nullifiers of a pool that were found.
pub open spec fn nullifiers_in(view: ShieldedScanView, pool: ShieldedPool) -> Map<Nullifier, ScanTarget> {
    match pool {
        ShieldedPool::Sapling => view.sapling_nullifiers,
        ShieldedPool::Orchard => view.orchard_nullifiers,
        ShieldedPool::Ironwood => view.ironwood_nullifiers,
    }
}

/// The size of the tree of a pool before the blocks.
pub open spec fn size_before(initial: &InitialScanData, pool: ShieldedPool) -> int {
    match pool {
        ShieldedPool::Sapling => initial.sapling_initial_tree_size as int,
        ShieldedPool::Orchard => initial.orchard_initial_tree_size as int,
        ShieldedPool::Ironwood => initial.ironwood_initial_tree_size as int,
    }
}

/// The size of a tree.
pub open spec fn size_in(sizes: TreeSizes, pool: ShieldedPool) -> int {
    match pool {
        ShieldedPool::Sapling => sizes.sapling as int,
        ShieldedPool::Orchard => sizes.orchard as int,
        ShieldedPool::Ironwood => sizes.ironwood as int,
    }
}

/// The number of outputs of a pool before the transaction at `t` of the block at `i`.
pub open spec fn served(blocks: Seq<CompactBlock>, pool: ShieldedPool, i: int, t: int) -> int
    decreases i, t,
{
    if t > 0 {
        served(blocks, pool, i, t - 1) + output_count(blocks[i].vtx@[t - 1], pool)
    } else if i > 0 {
        served(blocks, pool, i - 1, blocks[i - 1].vtx@.len() as int)
    } else {
        0
    }
}

/// Whether `txid` is the id of the transaction at `t` of the block at `i`.
pub open spec fn is_tx(blocks: Seq<CompactBlock>, i: int, t: int, txid: TxId) -> bool {
    0 <= i < blocks.len() && 0 <= t < blocks[i].vtx@.len() && txid.bytes@ == blocks[i].vtx@[t].txid@
}

/// Whether the blocks and transactions have ids of the right length.
pub open spec fn ids_are_ids(blocks: Seq<CompactBlock>) -> bool {
    forall|i: int, t: int|
        0 <= i < blocks.len() && 0 <= t < blocks[i].vtx@.len() ==> (#[trigger] blocks[i].vtx@[t]).txid@.len() == 32
            && blocks[i].height <= u32::MAX
}

/// What is found before the transaction at `t` of the block at `i`.
spec fn state(
    start: ShieldedScanView,
    blocks: Seq<CompactBlock>,
    decrypted: &DecryptedOutputs,
    i: int,
    t: int,
) -> Result<ShieldedScanView, ScanError> {
    match after_blocks(start, blocks, decrypted, i) {
        Ok(before) => after_transactions(before, blocks[i].height as u32, &blocks[i], decrypted, t),
        Err(error) => Err(error),
    }
}

proof fn lemma_txid(blocks: Seq<CompactBlock>, i: int, t: int, txid: TxId)
    requires
        is_tx(blocks, i, t, txid),
    ensures
        txid == txid_at(&blocks[i], t),
{
    lemma_array_of(txid.bytes);
}

/// The array with the first `n` bytes set.
spec fn array_up_to(bytes: Seq<u8>, n: int) -> [u8; 32]
    decreases n,
{
    if n <= 0 {
        vstd::array::spec_array_fill_for_copy_type::<u8, 32>(0u8)
    } else {
        vstd::array::spec_array_update(array_up_to(bytes, n - 1), n - 1, bytes[n - 1])
    }
}

proof fn lemma_array_up_to(bytes: Seq<u8>, n: int)
    requires
        0 <= n <= 32,
        bytes.len() == 32,
    ensures
        forall|k: int| 0 <= k < n ==> array_up_to(bytes, n)@[k] == bytes[k],
    decreases n,
{
    broadcast use {vstd::array::axiom_spec_array_update, vstd::array::axiom_spec_array_fill_for_copy_type};

    if n > 0 {
        lemma_array_up_to(bytes, n - 1);
        let before = array_up_to(bytes, n - 1);
        assert(array_up_to(bytes, n)@ == before@.update(n - 1, bytes[n - 1]));
    }
}

/// There is an array with the given 32 bytes.
pub proof fn lemma_array_view(bytes: Seq<u8>)
    requires
        bytes.len() == 32,
    ensures
        array_of(bytes)@ == bytes,
{
    lemma_array_up_to(bytes, 32);
    let a = array_up_to(bytes, 32);
    assert(a@ =~= bytes);
}

// --- one step ---

proof fn lemma_leaves_of<T: Committed>(outputs: Seq<T>, txid: TxId, decrypted: Map<OutputId, ()>, j: int)
    requires
        leaves_of(outputs, txid, decrypted).is_some(),
        0 <= j < outputs.len(),
    ensures
        ({
            let leaves = leaves_of(outputs, txid, decrypted)->0;
            &&& leaves.len() == outputs.len()
            &&& outputs[j].commitment() is Ok
            &&& leaves[j].node == outputs[j].commitment()->Ok_0
            &&& leaves[j].retention == if decrypted.dom().contains(OutputId { txid, output_index: j as u32 }) {
                LeafRetention::Marked
            } else {
                LeafRetention::Ephemeral
            }
        }),
    decreases outputs.len(),
{
    let before = outputs.drop_last();
    if j < before.len() {
        lemma_leaves_of(before, txid, decrypted, j);
    } else {
        lemma_leaf_count(before, txid, decrypted);
    }
    lemma_leaf_count(outputs, txid, decrypted);
    assert(is_decrypted(decrypted, txid, j) == decrypted.dom().contains(OutputId { txid, output_index: j as u32 }));
}

proof fn lemma_leaf_count<T: Committed>(outputs: Seq<T>, txid: TxId, decrypted: Map<OutputId, ()>)
    requires
        leaves_of(outputs, txid, decrypted).is_some(),
    ensures
        leaves_of(outputs, txid, decrypted)->0.len() == outputs.len(),
    decreases outputs.len(),
{
    if outputs.len() > 0 {
        lemma_leaf_count(outputs.drop_last(), txid, decrypted);
    }
}

/// The leaves that a transaction adds.
proof fn lemma_added_leaves(
    found: ShieldedScanView,
    height: BlockHeight,
    tx: &CompactTx,
    txid: TxId,
    decrypted: &DecryptedOutputs,
    pool: ShieldedPool,
)
    requires
        after_transaction(found, height, tx, txid, decrypted) is Ok,
    ensures
        ({
            let next = leaves_in(after_transaction(found, height, tx, txid, decrypted)->Ok_0, pool);
            let before = leaves_in(found, pool);
            &&& next.len() == before.len() + output_count(*tx, pool)
            &&& next.take(before.len() as int) == before
            &&& forall|j: int, node: [u8; 32]|
                0 <= j < output_count(*tx, pool) && #[trigger] node@ == commitment_bytes(*tx, pool, j)
                    ==> #[trigger] next[before.len() + j].node == node
            &&& forall|j: int|
                0 <= j < output_count(*tx, pool) ==> (#[trigger] next[before.len() + j]).retention
                    == if decrypted_in(decrypted, pool).dom().contains(OutputId { txid, output_index: j as u32 }) {
                    LeafRetention::Marked
                } else {
                    LeafRetention::Ephemeral
                }
        }),
{
    let next = leaves_in(after_transaction(found, height, tx, txid, decrypted)->Ok_0, pool);
    let before = leaves_in(found, pool);
    match pool {
        ShieldedPool::Sapling => {
            lemma_leaf_count(tx.outputs@, txid, decrypted.sapling@);
        },
        ShieldedPool::Orchard => {
            lemma_leaf_count(tx.actions@, txid, decrypted.orchard@);
        },
        ShieldedPool::Ironwood => {
            lemma_leaf_count(tx.ironwood_actions@, txid, decrypted.ironwood@);
        },
    }
    assert(next.take(before.len() as int) =~= before);
    assert forall|j: int| 0 <= j < output_count(*tx, pool) implies (#[trigger] next[before.len() + j]).retention
        == if decrypted_in(decrypted, pool).dom().contains(OutputId { txid, output_index: j as u32 }) {
        LeafRetention::Marked
    } else {
        LeafRetention::Ephemeral
    } by {
        match pool {
            ShieldedPool::Sapling => lemma_leaves_of(tx.outputs@, txid, decrypted.sapling@, j),
            ShieldedPool::Orchard => lemma_leaves_of(tx.actions@, txid, decrypted.orchard@, j),
            ShieldedPool::Ironwood => lemma_leaves_of(tx.ironwood_actions@, txid, decrypted.ironwood@, j),
        }
    }
    assert forall|j: int, node: [u8; 32]|
        0 <= j < output_count(*tx, pool) && #[trigger] node@ == commitment_bytes(*tx, pool, j) implies #[trigger] next[before.len()
        + j].node == node by {
        lemma_array_of(node);
        match pool {
            ShieldedPool::Sapling => lemma_leaves_of(tx.outputs@, txid, decrypted.sapling@, j),
            ShieldedPool::Orchard => lemma_leaves_of(tx.actions@, txid, decrypted.orchard@, j),
            ShieldedPool::Ironwood => lemma_leaves_of(tx.ironwood_actions@, txid, decrypted.ironwood@, j),
        }
    }
}

/// Whether `place` is the position of an output that was decrypted.
pub open spec fn is_place(
    place: FoundPosition,
    txid: TxId,
    decrypted: Map<OutputId, ()>,
    tree_size: int,
    j: int,
) -> bool {
    &&& place.output_id == OutputId { txid, output_index: j as u32 }
    &&& decrypted.dom().contains(place.output_id)
    &&& place.position == tree_size + j
}

/// Whether `place` is the position of one of the first `n` outputs, and that was decrypted.
spec fn is_some_place(place: FoundPosition, n: int, txid: TxId, decrypted: Map<OutputId, ()>, tree_size: int) -> bool {
    exists|j: int| 0 <= j < n && #[trigger] is_place(place, txid, decrypted, tree_size, j)
}

/// Whether the position of the output at `j` is among the places.
spec fn has_place(
    places: Seq<FoundPosition>,
    txid: TxId,
    decrypted: Map<OutputId, ()>,
    tree_size: int,
    j: int,
) -> bool {
    exists|k: int| 0 <= k < places.len() && is_place(#[trigger] places[k], txid, decrypted, tree_size, j)
}

proof fn lemma_positions_of(n: int, txid: TxId, tree_size: u32, decrypted: Map<OutputId, ()>)
    requires
        n <= u32::MAX,
    ensures
        ({
            let places = positions_of(n, txid, tree_size, decrypted);
            &&& forall|k: int|
                0 <= k < places.len() ==> is_some_place(
                    #[trigger] places[k],
                    n,
                    txid,
                    decrypted,
                    tree_size as int,
                )
            &&& forall|j: int|
                0 <= j < n && #[trigger] decrypted.dom().contains(OutputId { txid, output_index: j as u32 })
                    ==> has_place(places, txid, decrypted, tree_size as int, j)
        }),
    decreases n,
{
    if n > 0 {
        lemma_positions_of(n - 1, txid, tree_size, decrypted);
        let before = positions_of(n - 1, txid, tree_size, decrypted);
        let all = positions_of(n, txid, tree_size, decrypted);
        assert forall|k: int| 0 <= k < all.len() implies is_some_place(
            #[trigger] all[k],
            n,
            txid,
            decrypted,
            tree_size as int,
        ) by {
            if k < before.len() {
                assert(all[k] == before[k]);
                assert(is_some_place(before[k], n - 1, txid, decrypted, tree_size as int));
                let j = choose|j: int|
                    0 <= j < n - 1 && #[trigger] is_place(before[k], txid, decrypted, tree_size as int, j);
                assert(is_place(all[k], txid, decrypted, tree_size as int, j));
            } else {
                assert(is_decrypted(decrypted, txid, n - 1));
                assert(is_place(all[k], txid, decrypted, tree_size as int, n - 1));
            }
        }
        assert forall|j: int|
            0 <= j < n && #[trigger] decrypted.dom().contains(
                OutputId { txid, output_index: j as u32 },
            ) implies has_place(all, txid, decrypted, tree_size as int, j) by {
            if j < n - 1 {
                assert(has_place(before, txid, decrypted, tree_size as int, j));
                let k = choose|k: int|
                    0 <= k < before.len() && is_place(
                        #[trigger] before[k],
                        txid,
                        decrypted,
                        tree_size as int,
                        j,
                    );
                assert(all[k] == before[k]);
            } else {
                assert(is_decrypted(decrypted, txid, n - 1));
                assert(is_place(all[before.len() as int], txid, decrypted, tree_size as int, j));
            }
        }
    }
}

proof fn lemma_spend_nullifiers(
    map: Map<Nullifier, ScanTarget>,
    spends: Seq<CompactSaplingSpend>,
    target: ScanTarget,
)
    requires
        with_spend_nullifiers(map, spends, target) is Ok,
    ensures
        ({
            let all = with_spend_nullifiers(map, spends, target)->Ok_0;
            &&& forall|n: Nullifier| #[trigger] map.dom().contains(n) ==> all.dom().contains(n)
            &&& forall|j: int, n: Nullifier|
                0 <= j < spends.len() && n.bytes@ == (#[trigger] spends[j]).nf@ ==> #[trigger] all.dom().contains(n)
            &&& forall|n: Nullifier| #[trigger]
                all.dom().contains(n) ==> (map.dom().contains(n) && all[n] == map[n]) || (all[n] == target && exists|
                    j: int,
                |
                    0 <= j < spends.len() && n.bytes@ == (#[trigger] spends[j]).nf@)
        }),
    decreases spends.len(),
{
    if spends.len() > 0 {
        let before = spends.drop_last();
        lemma_spend_nullifiers(map, before, target);
        let rest = with_spend_nullifiers(map, before, target)->Ok_0;
        let all = with_spend_nullifiers(map, spends, target)->Ok_0;
        let last = Nullifier { bytes: array_of(spends.last().nf@) };
        lemma_array_view(spends.last().nf@);
        assert forall|j: int, n: Nullifier|
            0 <= j < spends.len() && n.bytes@ == (#[trigger] spends[j]).nf@ implies #[trigger] all.dom().contains(n) by {
            if j < before.len() {
                assert(before[j] == spends[j]);
            } else {
                lemma_array_of(n.bytes);
            }
        }
        assert forall|n: Nullifier| #[trigger] all.dom().contains(n) implies (map.dom().contains(n) && all[n] == map[n])
            || (all[n] == target && exists|j: int| 0 <= j < spends.len() && n.bytes@ == (#[trigger] spends[j]).nf@) by {
            if n == last {
                assert(n.bytes@ == spends[spends.len() - 1].nf@);
            } else {
                assert(rest.dom().contains(n));
                if exists|j: int| 0 <= j < before.len() && n.bytes@ == (#[trigger] before[j]).nf@ {
                    let j = choose|j: int| 0 <= j < before.len() && n.bytes@ == (#[trigger] before[j]).nf@;
                    assert(spends[j] == before[j]);
                }
            }
        }
    }
}

proof fn lemma_action_nullifiers(
    map: Map<Nullifier, ScanTarget>,
    actions: Seq<CompactOrchardAction>,
    target: ScanTarget,
)
    requires
        with_action_nullifiers(map, actions, target) is Ok,
    ensures
        ({
            let all = with_action_nullifiers(map, actions, target)->Ok_0;
            &&& forall|n: Nullifier| #[trigger] map.dom().contains(n) ==> all.dom().contains(n)
            &&& forall|j: int, n: Nullifier|
                0 <= j < actions.len() && n.bytes@ == (#[trigger] actions[j]).nullifier@ ==> #[trigger] all.dom().contains(
                    n,
                )
            &&& forall|n: Nullifier| #[trigger]
                all.dom().contains(n) ==> (map.dom().contains(n) && all[n] == map[n]) || (all[n] == target && exists|
                    j: int,
                |
                    0 <= j < actions.len() && n.bytes@ == (#[trigger] actions[j]).nullifier@)
        }),
    decreases actions.len(),
{
    if actions.len() > 0 {
        let before = actions.drop_last();
        lemma_action_nullifiers(map, before, target);
        let rest = with_action_nullifiers(map, before, target)->Ok_0;
        let all = with_action_nullifiers(map, actions, target)->Ok_0;
        let last = Nullifier { bytes: array_of(actions.last().nullifier@) };
        lemma_array_view(actions.last().nullifier@);
        assert forall|j: int, n: Nullifier|
            0 <= j < actions.len() && n.bytes@ == (#[trigger] actions[j]).nullifier@ implies #[trigger] all.dom().contains(
            n,
        ) by {
            if j < before.len() {
                assert(before[j] == actions[j]);
            } else {
                lemma_array_of(n.bytes);
            }
        }
        assert forall|n: Nullifier| #[trigger] all.dom().contains(n) implies (map.dom().contains(n) && all[n] == map[n])
            || (all[n] == target && exists|j: int|
            0 <= j < actions.len() && n.bytes@ == (#[trigger] actions[j]).nullifier@) by {
            if n == last {
                assert(n.bytes@ == actions[actions.len() - 1].nullifier@);
            } else {
                assert(rest.dom().contains(n));
                if exists|j: int| 0 <= j < before.len() && n.bytes@ == (#[trigger] before[j]).nullifier@ {
                    let j = choose|j: int| 0 <= j < before.len() && n.bytes@ == (#[trigger] before[j]).nullifier@;
                    assert(actions[j] == before[j]);
                }
            }
        }
    }
}

/// The nullifiers that a transaction adds.
proof fn lemma_added_nullifiers(
    found: ShieldedScanView,
    height: BlockHeight,
    tx: &CompactTx,
    txid: TxId,
    decrypted: &DecryptedOutputs,
    pool: ShieldedPool,
)
    requires
        after_transaction(found, height, tx, txid, decrypted) is Ok,
    ensures
        ({
            let next = nullifiers_in(after_transaction(found, height, tx, txid, decrypted)->Ok_0, pool);
            let before = nullifiers_in(found, pool);
            &&& forall|n: Nullifier| #[trigger] before.dom().contains(n) ==> next.dom().contains(n)
            &&& forall|j: int, n: Nullifier|
                0 <= j < input_count(*tx, pool) && n.bytes@ == #[trigger] nullifier_bytes(*tx, pool, j)
                    ==> #[trigger] next.dom().contains(n)
            &&& forall|n: Nullifier| #[trigger]
                next.dom().contains(n) ==> (before.dom().contains(n) && next[n] == before[n]) || (next[n]
                    == (ScanTarget { block_height: height, txid, narrow_scan_area: false }) && exists|j: int|
                    0 <= j < input_count(*tx, pool) && n.bytes@ == #[trigger] nullifier_bytes(*tx, pool, j))
        }),
{
    let target = ScanTarget { block_height: height, txid, narrow_scan_area: false };
    let next = nullifiers_in(after_transaction(found, height, tx, txid, decrypted)->Ok_0, pool);
    let before = nullifiers_in(found, pool);
    match pool {
        ShieldedPool::Sapling => lemma_spend_nullifiers(found.sapling_nullifiers, tx.spends@, target),
        ShieldedPool::Orchard => lemma_action_nullifiers(found.orchard_nullifiers, tx.actions@, target),
        ShieldedPool::Ironwood => lemma_action_nullifiers(found.ironwood_nullifiers, tx.ironwood_actions@, target),
    }
    assert forall|j: int, n: Nullifier|
        0 <= j < input_count(*tx, pool) && n.bytes@ == #[trigger] nullifier_bytes(*tx, pool, j) implies #[trigger] next.dom().contains(
        n,
    ) by {
        match pool {
            ShieldedPool::Sapling => {
                assert(n.bytes@ == tx.spends@[j].nf@);
            },
            ShieldedPool::Orchard => {
                assert(n.bytes@ == tx.actions@[j].nullifier@);
            },
            ShieldedPool::Ironwood => {
                assert(n.bytes@ == tx.ironwood_actions@[j].nullifier@);
            },
        }
    }
    assert forall|n: Nullifier| #[trigger] next.dom().contains(n) implies (before.dom().contains(n) && next[n]
        == before[n]) || (next[n] == target && exists|j: int|
        0 <= j < input_count(*tx, pool) && n.bytes@ == #[trigger] nullifier_bytes(*tx, pool, j)) by {
        if !(before.dom().contains(n) && next[n] == before[n]) {
            match pool {
                ShieldedPool::Sapling => {
                    let j = choose|j: int| 0 <= j < tx.spends@.len() && n.bytes@ == (#[trigger] tx.spends@[j]).nf@;
                    assert(n.bytes@ == nullifier_bytes(*tx, pool, j));
                },
                ShieldedPool::Orchard => {
                    let j = choose|j: int|
                        0 <= j < tx.actions@.len() && n.bytes@ == (#[trigger] tx.actions@[j]).nullifier@;
                    assert(n.bytes@ == nullifier_bytes(*tx, pool, j));
                },
                ShieldedPool::Ironwood => {
                    let j = choose|j: int|
                        0 <= j < tx.ironwood_actions@.len() && n.bytes@ == (#[trigger] tx.ironwood_actions@[j]).nullifier@;
                    assert(n.bytes@ == nullifier_bytes(*tx, pool, j));
                },
            }
        }
    }
}

/// The targets that a transaction adds.
proof fn lemma_added_targets(
    found: ShieldedScanView,
    height: BlockHeight,
    tx: &CompactTx,
    txid: TxId,
    decrypted: &DecryptedOutputs,
)
    requires
        after_transaction(found, height, tx, txid, decrypted) is Ok,
    ensures
        ({
            let next = after_transaction(found, height, tx, txid, decrypted)->Ok_0.decrypted_scan_targets;
            let own = ScanTarget { block_height: height, txid, narrow_scan_area: false };
            &&& forall|target: ScanTarget| #[trigger]
                found.decrypted_scan_targets.dom().contains(target) ==> next.dom().contains(target)
            &&& forall|pool: ShieldedPool, j: int|
                0 <= j < output_count(*tx, pool) && #[trigger] decrypted_in(decrypted, pool).dom().contains(
                    OutputId { txid, output_index: j as u32 },
                ) ==> next.dom().contains(own)
            &&& forall|target: ScanTarget| #[trigger]
                next.dom().contains(target) ==> found.decrypted_scan_targets.dom().contains(target) || (target == own
                    && exists|pool: ShieldedPool, j: int|
                    0 <= j < output_count(*tx, pool) && #[trigger] decrypted_in(decrypted, pool).dom().contains(
                        OutputId { txid, output_index: j as u32 },
                    ))
        }),
{
    let next = after_transaction(found, height, tx, txid, decrypted)->Ok_0.decrypted_scan_targets;
    let own = ScanTarget { block_height: height, txid, narrow_scan_area: false };
    assert forall|pool: ShieldedPool, j: int|
        0 <= j < output_count(*tx, pool) && #[trigger] decrypted_in(decrypted, pool).dom().contains(
            OutputId { txid, output_index: j as u32 },
        ) implies next.dom().contains(own) by {
        assert(is_decrypted(decrypted_in(decrypted, pool), txid, j));
    }
    assert forall|target: ScanTarget| #[trigger] next.dom().contains(target) implies found.decrypted_scan_targets.dom().contains(
        target,
    ) || (target == own && exists|pool: ShieldedPool, j: int|
        0 <= j < output_count(*tx, pool) && #[trigger] decrypted_in(decrypted, pool).dom().contains(
            OutputId { txid, output_index: j as u32 },
        )) by {
        if !found.decrypted_scan_targets.dom().contains(target) {
            let pool = if crate::scan::compact_blocks::any_decrypted(
                tx.outputs@.len() as int,
                txid,
                decrypted.sapling@,
            ) {
                ShieldedPool::Sapling
            } else if crate::scan::compact_blocks::any_decrypted(tx.actions@.len() as int, txid, decrypted.orchard@) {
                ShieldedPool::Orchard
            } else {
                ShieldedPool::Ironwood
            };
            let j = choose|j: int|
                0 <= j < output_count(*tx, pool) && #[trigger] is_decrypted(decrypted_in(decrypted, pool), txid, j);
            assert(decrypted_in(decrypted, pool).dom().contains(OutputId { txid, output_index: j as u32 }));
        }
    }
}

// --- all steps ---

proof fn lemma_transactions_before(
    found: ShieldedScanView,
    height: BlockHeight,
    block: &CompactBlock,
    decrypted: &DecryptedOutputs,
    n: int,
    t: int,
)
    requires
        0 <= t <= n,
        after_transactions(found, height, block, decrypted, n) is Ok,
    ensures
        after_transactions(found, height, block, decrypted, t) is Ok,
    decreases n,
{
    if t < n {
        lemma_transactions_before(found, height, block, decrypted, n - 1, t);
    }
}

proof fn lemma_blocks_before(
    start: ShieldedScanView,
    blocks: Seq<CompactBlock>,
    decrypted: &DecryptedOutputs,
    n: int,
    i: int,
)
    requires
        0 <= i <= n,
        after_blocks(start, blocks, decrypted, n) is Ok,
    ensures
        after_blocks(start, blocks, decrypted, i) is Ok,
    decreases n,
{
    if i < n {
        lemma_blocks_before(start, blocks, decrypted, n - 1, i);
    }
}

/// What is found before each transaction, if all blocks are scanned.
proof fn lemma_state_is_found(
    start: ShieldedScanView,
    blocks: Seq<CompactBlock>,
    decrypted: &DecryptedOutputs,
    i: int,
    t: int,
)
    requires
        after_blocks(start, blocks, decrypted, blocks.len() as int) is Ok,
        0 <= i < blocks.len(),
        0 <= t <= blocks[i].vtx@.len(),
    ensures
        state(start, blocks, decrypted, i, t) is Ok,
{
    lemma_blocks_before(start, blocks, decrypted, blocks.len() as int, i + 1);
    lemma_blocks_before(start, blocks, decrypted, blocks.len() as int, i);
    let before = after_blocks(start, blocks, decrypted, i)->Ok_0;
    assert(after_blocks(start, blocks, decrypted, i + 1) == after_block(before, &blocks[i], decrypted));
    lemma_transactions_before(
        before,
        blocks[i].height as u32,
        &blocks[i],
        decrypted,
        blocks[i].vtx@.len() as int,
        t,
    );
}

/// Whether nothing that was found is lost.
spec fn is_kept(before: ShieldedScanView, after: ShieldedScanView) -> bool {
    &&& forall|target: ScanTarget| #[trigger]
        before.decrypted_scan_targets.dom().contains(target) ==> after.decrypted_scan_targets.dom().contains(target)
    &&& forall|pool: ShieldedPool, n: Nullifier| #[trigger]
        nullifiers_in(before, pool).dom().contains(n) ==> nullifiers_in(after, pool).dom().contains(n)
    &&& forall|pool: ShieldedPool, place: FoundPosition| #[trigger]
        positions_in(before, pool).contains(place) ==> positions_in(after, pool).contains(place)
}

proof fn lemma_kept_by_transaction(
    found: ShieldedScanView,
    height: BlockHeight,
    tx: &CompactTx,
    txid: TxId,
    decrypted: &DecryptedOutputs,
)
    requires
        after_transaction(found, height, tx, txid, decrypted) is Ok,
    ensures
        is_kept(found, after_transaction(found, height, tx, txid, decrypted)->Ok_0),
{
    let next = after_transaction(found, height, tx, txid, decrypted)->Ok_0;
    lemma_added_targets(found, height, tx, txid, decrypted);
    assert forall|pool: ShieldedPool, n: Nullifier| #[trigger]
        nullifiers_in(found, pool).dom().contains(n) implies nullifiers_in(next, pool).dom().contains(n) by {
        lemma_added_nullifiers(found, height, tx, txid, decrypted, pool);
    }
    assert forall|pool: ShieldedPool, place: FoundPosition| #[trigger]
        positions_in(found, pool).contains(place) implies positions_in(next, pool).contains(place) by {
        let k = choose|k: int| 0 <= k < positions_in(found, pool).len() && positions_in(found, pool)[k] == place;
        assert(positions_in(next, pool)[k] == place);
    }
}

/// Nothing that is found before the transaction at `t` of the block at `i` is lost before that at `t2` of the one at
/// `i2`.
proof fn lemma_kept(
    start: ShieldedScanView,
    blocks: Seq<CompactBlock>,
    decrypted: &DecryptedOutputs,
    i: int,
    t: int,
    i2: int,
    t2: int,
)
    requires
        0 <= i <= i2 <= blocks.len(),
        0 <= t,
        0 <= t2,
        i == i2 ==> t <= t2,
        i < i2 ==> t <= blocks[i].vtx@.len(),
        state(start, blocks, decrypted, i2, t2) is Ok,
    ensures
        state(start, blocks, decrypted, i, t) is Ok,
        is_kept(state(start, blocks, decrypted, i, t)->Ok_0, state(start, blocks, decrypted, i2, t2)->Ok_0),
    decreases i2, t2,
{
    if i == i2 && t == t2 {
    } else if t2 > 0 {
        lemma_kept(start, blocks, decrypted, i, t, i2, t2 - 1);
        lemma_kept_by_transaction(
            state(start, blocks, decrypted, i2, t2 - 1)->Ok_0,
            blocks[i2].height as u32,
            &blocks[i2].vtx@[t2 - 1],
            txid_at(&blocks[i2], t2 - 1),
            decrypted,
        );
    } else {
        let last = blocks[i2 - 1].vtx@.len() as int;
        assert(after_blocks(start, blocks, decrypted, i2) is Ok);
        assert(state(start, blocks, decrypted, i2 - 1, last) is Ok);
        lemma_kept(start, blocks, decrypted, i, t, i2 - 1, last);
    }
}

// --- payments ---

/// Whether the target is the transaction at `t` of the block at `i`, and its output at `j` of a pool was decrypted.
pub open spec fn is_payment(
    blocks: Seq<CompactBlock>,
    decrypted: &DecryptedOutputs,
    target: ScanTarget,
    pool: ShieldedPool,
    i: int,
    t: int,
    j: int,
) -> bool {
    &&& is_tx(blocks, i, t, target.txid)
    &&& target.block_height == blocks[i].height
    &&& !target.narrow_scan_area
    &&& 0 <= j < output_count(blocks[i].vtx@[t], pool)
    &&& decrypted_in(decrypted, pool).dom().contains(OutputId { txid: target.txid, output_index: j as u32 })
}

/// Every transaction with an output that the wallet's keys decrypt, in whichever pool, is gathered for scanning as a
/// whole.
pub proof fn law_payments_are_gathered(
    blocks: Seq<CompactBlock>,
    initial: &InitialScanData,
    decrypted: &DecryptedOutputs,
    view: ShieldedScanView,
    target: ScanTarget,
    pool: ShieldedPool,
    i: int,
    t: int,
    j: int,
)
    requires
        scanned(blocks, initial, decrypted) == Ok::<ShieldedScanView, ScanError>(view),
        is_payment(blocks, decrypted, target, pool, i, t, j),
    ensures
        view.decrypted_scan_targets.dom().contains(target),
{
    let start = nothing_found(initial.sizes());
    lemma_state_is_found(start, blocks, decrypted, i, t + 1);
    lemma_state_is_found(start, blocks, decrypted, i, t);
    lemma_txid(blocks, i, t, target.txid);
    lemma_added_targets(
        state(start, blocks, decrypted, i, t)->Ok_0,
        blocks[i].height as u32,
        &blocks[i].vtx@[t],
        txid_at(&blocks[i], t),
        decrypted,
    );
    lemma_kept(start, blocks, decrypted, i, t + 1, blocks.len() as int, 0);
}

/// Every transaction that is gathered has an output that the wallet's keys decrypt.
pub proof fn law_only_payments_are_gathered(
    blocks: Seq<CompactBlock>,
    initial: &InitialScanData,
    decrypted: &DecryptedOutputs,
    view: ShieldedScanView,
    target: ScanTarget,
)
    requires
        scanned(blocks, initial, decrypted) == Ok::<ShieldedScanView, ScanError>(view),
        ids_are_ids(blocks),
        view.decrypted_scan_targets.dom().contains(target),
    ensures
        exists|pool: ShieldedPool, i: int, t: int, j: int| #[trigger]
            is_payment(blocks, decrypted, target, pool, i, t, j),
{
    lemma_only_payments(nothing_found(initial.sizes()), blocks, decrypted, target, blocks.len() as int, 0);
}

proof fn lemma_only_payments(
    start: ShieldedScanView,
    blocks: Seq<CompactBlock>,
    decrypted: &DecryptedOutputs,
    target: ScanTarget,
    i: int,
    t: int,
)
    requires
        start.decrypted_scan_targets == Map::<ScanTarget, ()>::empty(),
        ids_are_ids(blocks),
        0 <= i <= blocks.len(),
        0 <= t,
        t > 0 ==> i < blocks.len() && t <= blocks[i].vtx@.len(),
        state(start, blocks, decrypted, i, t) is Ok,
        state(start, blocks, decrypted, i, t)->Ok_0.decrypted_scan_targets.dom().contains(target),
    ensures
        exists|pool: ShieldedPool, k: int, s: int, j: int| #[trigger]
            is_payment(blocks, decrypted, target, pool, k, s, j),
    decreases i, t,
{
    if t > 0 {
        let before = state(start, blocks, decrypted, i, t - 1)->Ok_0;
        let txid = txid_at(&blocks[i], t - 1);
        lemma_added_targets(before, blocks[i].height as u32, &blocks[i].vtx@[t - 1], txid, decrypted);
        if before.decrypted_scan_targets.dom().contains(target) {
            lemma_only_payments(start, blocks, decrypted, target, i, t - 1);
        } else {
            assert(blocks[i].vtx@[t - 1].txid@.len() == 32);
            lemma_array_view(blocks[i].vtx@[t - 1].txid@);
            let (pool, j) = choose|pool: ShieldedPool, j: int|
                0 <= j < output_count(blocks[i].vtx@[t - 1], pool) && #[trigger] decrypted_in(
                    decrypted,
                    pool,
                ).dom().contains(OutputId { txid, output_index: j as u32 });
            assert(is_payment(blocks, decrypted, target, pool, i, t - 1, j));
        }
    } else if i > 0 {
        let last = blocks[i - 1].vtx@.len() as int;
        assert(after_blocks(start, blocks, decrypted, i) is Ok);
        assert(state(start, blocks, decrypted, i - 1, last) is Ok);
        lemma_only_payments(start, blocks, decrypted, target, i - 1, last);
    }
}

// --- nullifiers ---

/// Whether the transaction at `t` of the block at `i` reveals the nullifier, and the target is that transaction.
pub open spec fn is_revealed(
    blocks: Seq<CompactBlock>,
    nullifier: Nullifier,
    target: ScanTarget,
    pool: ShieldedPool,
    i: int,
    t: int,
    j: int,
) -> bool {
    &&& is_tx(blocks, i, t, target.txid)
    &&& target.block_height == blocks[i].height
    &&& !target.narrow_scan_area
    &&& 0 <= j < input_count(blocks[i].vtx@[t], pool)
    &&& nullifier.bytes@ == nullifier_bytes(blocks[i].vtx@[t], pool, j)
}

/// Every nullifier that a transaction reveals is mapped, in the map of its pool.
pub proof fn law_revealed_nullifiers_are_mapped(
    blocks: Seq<CompactBlock>,
    initial: &InitialScanData,
    decrypted: &DecryptedOutputs,
    view: ShieldedScanView,
    nullifier: Nullifier,
    target: ScanTarget,
    pool: ShieldedPool,
    i: int,
    t: int,
    j: int,
)
    requires
        scanned(blocks, initial, decrypted) == Ok::<ShieldedScanView, ScanError>(view),
        is_revealed(blocks, nullifier, target, pool, i, t, j),
    ensures
        nullifiers_in(view, pool).dom().contains(nullifier),
{
    let start = nothing_found(initial.sizes());
    lemma_state_is_found(start, blocks, decrypted, i, t + 1);
    lemma_state_is_found(start, blocks, decrypted, i, t);
    lemma_added_nullifiers(
        state(start, blocks, decrypted, i, t)->Ok_0,
        blocks[i].height as u32,
        &blocks[i].vtx@[t],
        txid_at(&blocks[i], t),
        decrypted,
        pool,
    );
    assert(nullifiers_in(state(start, blocks, decrypted, i, t + 1)->Ok_0, pool).dom().contains(nullifier));
    lemma_kept(start, blocks, decrypted, i, t + 1, blocks.len() as int, 0);
}

/// Every nullifier that is mapped is mapped to a transaction that reveals it in that pool.
pub proof fn law_mapped_nullifiers_are_revealed(
    blocks: Seq<CompactBlock>,
    initial: &InitialScanData,
    decrypted: &DecryptedOutputs,
    view: ShieldedScanView,
    nullifier: Nullifier,
    pool: ShieldedPool,
)
    requires
        scanned(blocks, initial, decrypted) == Ok::<ShieldedScanView, ScanError>(view),
        ids_are_ids(blocks),
        nullifiers_in(view, pool).dom().contains(nullifier),
    ensures
        exists|i: int, t: int, j: int| #[trigger]
            is_revealed(blocks, nullifier, nullifiers_in(view, pool)[nullifier], pool, i, t, j),
{
    lemma_only_revealed(nothing_found(initial.sizes()), blocks, decrypted, nullifier, pool, blocks.len() as int, 0);
}

proof fn lemma_only_revealed(
    start: ShieldedScanView,
    blocks: Seq<CompactBlock>,
    decrypted: &DecryptedOutputs,
    nullifier: Nullifier,
    pool: ShieldedPool,
    i: int,
    t: int,
)
    requires
        nullifiers_in(start, pool) == Map::<Nullifier, ScanTarget>::empty(),
        ids_are_ids(blocks),
        0 <= i <= blocks.len(),
        0 <= t,
        t > 0 ==> i < blocks.len() && t <= blocks[i].vtx@.len(),
        state(start, blocks, decrypted, i, t) is Ok,
        nullifiers_in(state(start, blocks, decrypted, i, t)->Ok_0, pool).dom().contains(nullifier),
    ensures
        exists|k: int, s: int, j: int| #[trigger]
            is_revealed(
                blocks,
                nullifier,
                nullifiers_in(state(start, blocks, decrypted, i, t)->Ok_0, pool)[nullifier],
                pool,
                k,
                s,
                j,
            ),
    decreases i, t,
{
    if t > 0 {
        let before = nullifiers_in(state(start, blocks, decrypted, i, t - 1)->Ok_0, pool);
        let next = nullifiers_in(state(start, blocks, decrypted, i, t)->Ok_0, pool);
        let txid = txid_at(&blocks[i], t - 1);
        lemma_added_nullifiers(
            state(start, blocks, decrypted, i, t - 1)->Ok_0,
            blocks[i].height as u32,
            &blocks[i].vtx@[t - 1],
            txid,
            decrypted,
            pool,
        );
        assert(next.dom().contains(nullifier));
        if before.dom().contains(nullifier) && next[nullifier] == before[nullifier] {
            lemma_only_revealed(start, blocks, decrypted, nullifier, pool, i, t - 1);
        } else {
            assert(blocks[i].vtx@[t - 1].txid@.len() == 32);
            lemma_array_view(blocks[i].vtx@[t - 1].txid@);
            let j = choose|j: int|
                0 <= j < input_count(blocks[i].vtx@[t - 1], pool) && nullifier.bytes@ == #[trigger] nullifier_bytes(
                    blocks[i].vtx@[t - 1],
                    pool,
                    j,
                );
            assert(is_revealed(blocks, nullifier, next[nullifier], pool, i, t - 1, j));
        }
    } else if i > 0 {
        let last = blocks[i - 1].vtx@.len() as int;
        assert(after_blocks(start, blocks, decrypted, i) is Ok);
        assert(state(start, blocks, decrypted, i - 1, last) is Ok);
        lemma_only_revealed(start, blocks, decrypted, nullifier, pool, i - 1, last);
    }
}

// --- leaves and positions ---

proof fn lemma_served_by_block(blocks: Seq<CompactBlock>, pool: ShieldedPool, i: int, t: int)
    requires
        0 <= i < blocks.len(),
        0 <= t <= blocks[i].vtx@.len(),
    ensures
        served(blocks, pool, i, t) == served(blocks, pool, i, 0) + outputs_of(blocks[i].vtx@.take(t), pool),
    decreases t,
{
    let txs = blocks[i].vtx@;
    if t > 0 {
        lemma_served_by_block(blocks, pool, i, t - 1);
        assert(txs.take(t).drop_last() =~= txs.take(t - 1));
        assert(txs.take(t).last() == txs[t - 1]);
    } else {
        assert(txs.take(0) =~= Seq::empty());
    }
}

proof fn lemma_served_by_blocks(blocks: Seq<CompactBlock>, pool: ShieldedPool, i: int)
    requires
        0 <= i <= blocks.len(),
    ensures
        served(blocks, pool, i, 0) == outputs_in_blocks(blocks, i, pool),
    decreases i,
{
    if i > 0 {
        lemma_served_by_blocks(blocks, pool, i - 1);
        let txs = blocks[i - 1].vtx@;
        lemma_served_by_block(blocks, pool, i - 1, txs.len() as int);
        assert(txs.take(txs.len() as int) =~= txs);
    }
}

/// Outputs are only added.
proof fn lemma_served_grows(blocks: Seq<CompactBlock>, pool: ShieldedPool, i: int, t: int, i2: int, t2: int)
    requires
        0 <= i <= i2 <= blocks.len(),
        0 <= t,
        0 <= t2,
        i == i2 ==> t <= t2,
        i < i2 ==> t <= blocks[i].vtx@.len(),
    ensures
        0 <= served(blocks, pool, i, t) <= served(blocks, pool, i2, t2),
    decreases i2, t2,
{
    if i == i2 && t == t2 {
        if t > 0 {
            lemma_served_grows(blocks, pool, i, t - 1, i, t - 1);
        } else if i > 0 {
            lemma_served_grows(
                blocks,
                pool,
                i - 1,
                blocks[i - 1].vtx@.len() as int,
                i - 1,
                blocks[i - 1].vtx@.len() as int,
            );
        }
    } else if t2 > 0 {
        lemma_served_grows(blocks, pool, i, t, i2, t2 - 1);
    } else {
        lemma_served_grows(blocks, pool, i, t, i2 - 1, blocks[i2 - 1].vtx@.len() as int);
    }
}

/// There is a leaf for each output that was served.
proof fn lemma_leaves_served(
    start: ShieldedScanView,
    blocks: Seq<CompactBlock>,
    decrypted: &DecryptedOutputs,
    pool: ShieldedPool,
    i: int,
    t: int,
)
    requires
        leaves_in(start, pool).len() == 0,
        0 <= i <= blocks.len(),
        0 <= t,
        state(start, blocks, decrypted, i, t) is Ok,
    ensures
        leaves_in(state(start, blocks, decrypted, i, t)->Ok_0, pool).len() == served(blocks, pool, i, t),
    decreases i, t,
{
    if t > 0 {
        lemma_leaves_served(start, blocks, decrypted, pool, i, t - 1);
        lemma_added_leaves(
            state(start, blocks, decrypted, i, t - 1)->Ok_0,
            blocks[i].height as u32,
            &blocks[i].vtx@[t - 1],
            txid_at(&blocks[i], t - 1),
            decrypted,
            pool,
        );
    } else if i > 0 {
        let last = blocks[i - 1].vtx@.len() as int;
        assert(after_blocks(start, blocks, decrypted, i) is Ok);
        assert(state(start, blocks, decrypted, i - 1, last) is Ok);
        lemma_leaves_served(start, blocks, decrypted, pool, i - 1, last);
    }
}

/// How long the leaf of an output is kept: with a mark if it was decrypted, and as a checkpoint if it is the last of its
/// block.
pub open spec fn kept_as(decrypted: bool, last_of_block: bool, height: BlockHeight) -> LeafRetention {
    if decrypted && last_of_block {
        LeafRetention::MarkedCheckpoint(height)
    } else if decrypted {
        LeafRetention::Marked
    } else if last_of_block {
        LeafRetention::Checkpoint(height)
    } else {
        LeafRetention::Ephemeral
    }
}

/// The leaf of the output at `j` of the transaction at `t` of the block at `i`, as it is before the transaction at `t2`
/// of the block at `i2`.
proof fn lemma_leaf(
    start: ShieldedScanView,
    blocks: Seq<CompactBlock>,
    decrypted: &DecryptedOutputs,
    pool: ShieldedPool,
    i: int,
    t: int,
    j: int,
    txid: TxId,
    node: [u8; 32],
    i2: int,
    t2: int,
)
    requires
        leaves_in(start, pool).len() == 0,
        0 <= i <= i2 <= blocks.len(),
        is_tx(blocks, i, t, txid),
        0 <= j < output_count(blocks[i].vtx@[t], pool),
        node@ == commitment_bytes(blocks[i].vtx@[t], pool, j),
        0 <= t2,
        i2 < blocks.len() ==> t2 <= blocks[i2].vtx@.len(),
        i2 == blocks.len() ==> t2 == 0,
        i == i2 ==> t < t2,
        state(start, blocks, decrypted, i2, t2) is Ok,
    ensures
        ({
            let k = served(blocks, pool, i, t) + j;
            let leaves = leaves_in(state(start, blocks, decrypted, i2, t2)->Ok_0, pool);
            let end = served(blocks, pool, i, blocks[i].vtx@.len() as int);
            &&& 0 <= k < leaves.len()
            &&& k < end
            &&& leaves[k].node == node
            &&& leaves[k].retention == kept_as(
                decrypted_in(decrypted, pool).dom().contains(OutputId { txid, output_index: j as u32 }),
                i < i2 && k + 1 == end,
                blocks[i].height as u32,
            )
        }),
    decreases i2, t2,
{
    let k = served(blocks, pool, i, t) + j;
    let end = served(blocks, pool, i, blocks[i].vtx@.len() as int);
    lemma_served_grows(blocks, pool, i, t + 1, i, blocks[i].vtx@.len() as int);
    lemma_served_grows(blocks, pool, i, t, i, t);
    lemma_leaves_served(start, blocks, decrypted, pool, i2, t2);
    if t2 > 0 {
        let before = state(start, blocks, decrypted, i2, t2 - 1)->Ok_0;
        let after = state(start, blocks, decrypted, i2, t2)->Ok_0;
        lemma_leaves_served(start, blocks, decrypted, pool, i2, t2 - 1);
        lemma_added_leaves(
            before,
            blocks[i2].height as u32,
            &blocks[i2].vtx@[t2 - 1],
            txid_at(&blocks[i2], t2 - 1),
            decrypted,
            pool,
        );
        if i == i2 && t == t2 - 1 {
            lemma_txid(blocks, i, t, txid);
            assert(leaves_in(after, pool)[leaves_in(before, pool).len() + j].node == node);
        } else {
            lemma_leaf(start, blocks, decrypted, pool, i, t, j, txid, node, i2, t2 - 1);
            assert(leaves_in(after, pool)[k] == leaves_in(after, pool).take(leaves_in(before, pool).len() as int)[k]);
        }
    } else {
        let last = blocks[i2 - 1].vtx@.len() as int;
        assert(after_blocks(start, blocks, decrypted, i2) is Ok);
        assert(state(start, blocks, decrypted, i2 - 1, last) is Ok);
        lemma_leaf(start, blocks, decrypted, pool, i, t, j, txid, node, i2 - 1, last);
        lemma_leaves_served(start, blocks, decrypted, pool, i2 - 1, last);
        if i < i2 - 1 {
            lemma_served_grows(blocks, pool, i, blocks[i].vtx@.len() as int, i2 - 1, last);
        }
    }
}

/// The leaves of a pool are its outputs, in the order in which they were served: each is the commitment of its output,
/// and is marked if the wallet's keys decrypt the output. The last of a block is a checkpoint of the block's height, and
/// no other leaf is one.
pub proof fn law_leaves_are_the_outputs_in_order(
    blocks: Seq<CompactBlock>,
    initial: &InitialScanData,
    decrypted: &DecryptedOutputs,
    view: ShieldedScanView,
    pool: ShieldedPool,
    i: int,
    t: int,
    j: int,
    txid: TxId,
    node: [u8; 32],
)
    requires
        scanned(blocks, initial, decrypted) == Ok::<ShieldedScanView, ScanError>(view),
        is_tx(blocks, i, t, txid),
        0 <= j < output_count(blocks[i].vtx@[t], pool),
        node@ == commitment_bytes(blocks[i].vtx@[t], pool, j),
    ensures
        leaves_in(view, pool).len() == served(blocks, pool, blocks.len() as int, 0),
        0 <= served(blocks, pool, i, t) + j < leaves_in(view, pool).len(),
        leaves_in(view, pool)[served(blocks, pool, i, t) + j].node == node,
        leaves_in(view, pool)[served(blocks, pool, i, t) + j].retention == kept_as(
            decrypted_in(decrypted, pool).dom().contains(OutputId { txid, output_index: j as u32 }),
            served(blocks, pool, i, t) + j + 1 == served(blocks, pool, i, blocks[i].vtx@.len() as int),
            blocks[i].height as u32,
        ),
{
    let start = nothing_found(initial.sizes());
    let n = blocks.len() as int;
    lemma_leaves_served(start, blocks, decrypted, pool, n, 0);
    lemma_leaf(start, blocks, decrypted, pool, i, t, j, txid, node, n, 0);
}

/// The size of a tree before each transaction.
proof fn lemma_size(
    initial: &InitialScanData,
    blocks: Seq<CompactBlock>,
    decrypted: &DecryptedOutputs,
    pool: ShieldedPool,
    i: int,
    t: int,
)
    requires
        has_room_for_blocks(initial.sizes(), blocks),
        0 <= i < blocks.len(),
        0 <= t <= blocks[i].vtx@.len(),
        state(nothing_found(initial.sizes()), blocks, decrypted, i, t) is Ok,
    ensures
        size_in(state(nothing_found(initial.sizes()), blocks, decrypted, i, t)->Ok_0.sizes, pool) == size_before(
            initial,
            pool,
        ) + served(blocks, pool, i, t),
        size_before(initial, pool) + served(blocks, pool, i, blocks[i].vtx@.len() as int) <= u32::MAX,
{
    let start = nothing_found(initial.sizes());
    let block = &blocks[i];
    let before = after_blocks(start, blocks, decrypted, i)->Ok_0;
    law_tree_sizes_count_served_outputs(blocks, initial, decrypted, i);
    lemma_served_by_blocks(blocks, ShieldedPool::Sapling, i);
    lemma_served_by_blocks(blocks, ShieldedPool::Orchard, i);
    lemma_served_by_blocks(blocks, ShieldedPool::Ironwood, i);
    crate::scan::scanning::lemma_block_outputs_grow(blocks, i + 1, blocks.len() as int, ShieldedPool::Sapling);
    crate::scan::scanning::lemma_block_outputs_grow(blocks, i + 1, blocks.len() as int, ShieldedPool::Orchard);
    crate::scan::scanning::lemma_block_outputs_grow(blocks, i + 1, blocks.len() as int, ShieldedPool::Ironwood);
    lemma_sizes_after_transactions(before, block.height as u32, block, decrypted, t);
    lemma_served_by_block(blocks, pool, i, t);
    lemma_served_by_block(blocks, pool, i, block.vtx@.len() as int);
    assert(block.vtx@.take(block.vtx@.len() as int) =~= block.vtx@);
}

/// Whether `place` is that of an output that was decrypted: its position is the size of the tree before the blocks and
/// the number of outputs served before it.
pub open spec fn is_note_place(
    blocks: Seq<CompactBlock>,
    initial: &InitialScanData,
    decrypted: &DecryptedOutputs,
    pool: ShieldedPool,
    place: FoundPosition,
    i: int,
    t: int,
    j: int,
) -> bool {
    &&& is_tx(blocks, i, t, place.output_id.txid)
    &&& 0 <= j < output_count(blocks[i].vtx@[t], pool)
    &&& place.output_id.output_index == j as u32
    &&& decrypted_in(decrypted, pool).dom().contains(place.output_id)
    &&& place.position == size_before(initial, pool) + served(blocks, pool, i, t) + j
}

/// The position of every output that the wallet's keys decrypt is found.
pub proof fn law_notes_have_their_positions(
    blocks: Seq<CompactBlock>,
    initial: &InitialScanData,
    decrypted: &DecryptedOutputs,
    view: ShieldedScanView,
    pool: ShieldedPool,
    place: FoundPosition,
    i: int,
    t: int,
    j: int,
)
    requires
        scanned(blocks, initial, decrypted) == Ok::<ShieldedScanView, ScanError>(view),
        has_room_for_blocks(initial.sizes(), blocks),
        is_note_place(blocks, initial, decrypted, pool, place, i, t, j),
    ensures
        positions_in(view, pool).contains(place),
{
    let start = nothing_found(initial.sizes());
    let tx = blocks[i].vtx@[t];
    lemma_state_is_found(start, blocks, decrypted, i, t + 1);
    lemma_state_is_found(start, blocks, decrypted, i, t);
    lemma_size(initial, blocks, decrypted, pool, i, t);
    lemma_served_grows(blocks, pool, i, t + 1, i, blocks[i].vtx@.len() as int);
    lemma_served_grows(blocks, pool, i, t, i, t);
    let before = state(start, blocks, decrypted, i, t)->Ok_0;
    let after = state(start, blocks, decrypted, i, t + 1)->Ok_0;
    let txid = place.output_id.txid;
    lemma_txid(blocks, i, t, txid);
    let size = size_in(before.sizes, pool) as u32;
    let own = decrypted_in(decrypted, pool);
    lemma_positions_of(output_count(tx, pool), txid, size, own);
    let places = positions_of(output_count(tx, pool), txid, size, own);
    assert(own.dom().contains(OutputId { txid, output_index: j as u32 }));
    assert(has_place(places, txid, own, size as int, j));
    let k = choose|k: int| 0 <= k < places.len() && is_place(#[trigger] places[k], txid, own, size as int, j);
    assert(positions_in(after, pool) == positions_in(before, pool) + places);
    assert(positions_in(after, pool)[positions_in(before, pool).len() + k] == place);
    assert(positions_in(after, pool).contains(place));
    lemma_kept(start, blocks, decrypted, i, t + 1, blocks.len() as int, 0);
}

/// Every position that is found is that of an output that the wallet's keys decrypt.
pub proof fn law_positions_are_those_of_notes(
    blocks: Seq<CompactBlock>,
    initial: &InitialScanData,
    decrypted: &DecryptedOutputs,
    view: ShieldedScanView,
    pool: ShieldedPool,
    place: FoundPosition,
)
    requires
        scanned(blocks, initial, decrypted) == Ok::<ShieldedScanView, ScanError>(view),
        has_room_for_blocks(initial.sizes(), blocks),
        ids_are_ids(blocks),
        positions_in(view, pool).contains(place),
    ensures
        exists|i: int, t: int, j: int| #[trigger]
            is_note_place(blocks, initial, decrypted, pool, place, i, t, j),
{
    lemma_only_places(initial, blocks, decrypted, pool, place, blocks.len() as int, 0);
}

proof fn lemma_only_places(
    initial: &InitialScanData,
    blocks: Seq<CompactBlock>,
    decrypted: &DecryptedOutputs,
    pool: ShieldedPool,
    place: FoundPosition,
    i: int,
    t: int,
)
    requires
        has_room_for_blocks(initial.sizes(), blocks),
        ids_are_ids(blocks),
        0 <= i <= blocks.len(),
        0 <= t,
        t > 0 ==> i < blocks.len() && t <= blocks[i].vtx@.len(),
        state(nothing_found(initial.sizes()), blocks, decrypted, i, t) is Ok,
        positions_in(state(nothing_found(initial.sizes()), blocks, decrypted, i, t)->Ok_0, pool).contains(place),
    ensures
        exists|k: int, s: int, j: int| #[trigger] is_note_place(blocks, initial, decrypted, pool, place, k, s, j),
    decreases i, t,
{
    let start = nothing_found(initial.sizes());
    if t > 0 {
        let before = state(start, blocks, decrypted, i, t - 1)->Ok_0;
        let after = state(start, blocks, decrypted, i, t)->Ok_0;
        if positions_in(before, pool).contains(place) {
            lemma_only_places(initial, blocks, decrypted, pool, place, i, t - 1);
        } else {
            let tx = blocks[i].vtx@[t - 1];
            let txid = txid_at(&blocks[i], t - 1);
            assert(tx.txid@.len() == 32);
            lemma_array_view(tx.txid@);
            lemma_size(initial, blocks, decrypted, pool, i, t - 1);
            lemma_served_grows(blocks, pool, i, t, i, blocks[i].vtx@.len() as int);
            lemma_served_grows(blocks, pool, i, t - 1, i, t - 1);
            let size = size_in(before.sizes, pool) as u32;
            let own = decrypted_in(decrypted, pool);
            lemma_positions_of(output_count(tx, pool), txid, size, own);
            let places = positions_of(output_count(tx, pool), txid, size, own);
            assert(positions_in(after, pool) == positions_in(before, pool) + places);
            let at = choose|at: int| 0 <= at < positions_in(after, pool).len() && positions_in(after, pool)[at] == place;
            let k = at - positions_in(before, pool).len();
            if k < 0 {
                assert(positions_in(before, pool)[at] == place);
            }
            assert(places[k] == place);
            assert(is_some_place(places[k], output_count(tx, pool), txid, own, size as int));
            let j = choose|j: int| 0 <= j < output_count(tx, pool) && #[trigger] is_place(place, txid, own, size as int, j);
            assert(is_note_place(blocks, initial, decrypted, pool, place, i, t - 1, j));
        }
    } else if i > 0 {
        let last = blocks[i - 1].vtx@.len() as int;
        assert(after_blocks(start, blocks, decrypted, i) is Ok);
        assert(state(start, blocks, decrypted, i - 1, last) is Ok);
        lemma_only_places(initial, blocks, decrypted, pool, place, i - 1, last);
    }
}

// --- blocks ---

/// Every block that was scanned is among the blocks found, with its hashes, its time, the ids of its transactions and
/// the sizes of the trees before and after it.
pub proof fn law_scanned_blocks_are_found(
    blocks: Seq<CompactBlock>,
    initial: &InitialScanData,
    decrypted: &DecryptedOutputs,
    view: ShieldedScanView,
    i: int,
)
    requires
        scanned(blocks, initial, decrypted) == Ok::<ShieldedScanView, ScanError>(view),
        has_room_for_blocks(initial.sizes(), blocks),
        ids_are_ids(blocks),
        0 <= i < blocks.len(),
        forall|k: int| i < k < blocks.len() ==> (#[trigger] blocks[k]).height as u32 != blocks[i].height as u32,
    ensures
        view.wallet_blocks.dom().contains(blocks[i].height as u32),
        ({
            let block = view.wallet_blocks[blocks[i].height as u32];
            let end = blocks[i].vtx@.len() as int;
            &&& block.block_height == blocks[i].height as u32
            &&& block.time == blocks[i].time
            &&& block.txids.len() == end
            &&& forall|t: int| 0 <= t < end ==> (#[trigger] block.txids[t]).bytes@ == blocks[i].vtx@[t].txid@
            &&& blocks[i].header@.len() == 0 && blocks[i].hash@.len() == 32 ==> block.block_hash@ == blocks[i].hash@
            &&& blocks[i].header@.len() == 0 && blocks[i].prev_hash@.len() == 32 ==> block.prev_hash@
                == blocks[i].prev_hash@
            &&& block.tree_bounds.sapling_initial_tree_size == initial.sapling_initial_tree_size + served(
                blocks,
                ShieldedPool::Sapling,
                i,
                0,
            )
            &&& block.tree_bounds.sapling_final_tree_size == initial.sapling_initial_tree_size + served(
                blocks,
                ShieldedPool::Sapling,
                i,
                end,
            )
            &&& block.tree_bounds.orchard_initial_tree_size == initial.orchard_initial_tree_size + served(
                blocks,
                ShieldedPool::Orchard,
                i,
                0,
            )
            &&& block.tree_bounds.orchard_final_tree_size == initial.orchard_initial_tree_size + served(
                blocks,
                ShieldedPool::Orchard,
                i,
                end,
            )
            &&& block.tree_bounds.ironwood_initial_tree_size == initial.ironwood_initial_tree_size + served(
                blocks,
                ShieldedPool::Ironwood,
                i,
                0,
            )
            &&& block.tree_bounds.ironwood_final_tree_size == initial.ironwood_initial_tree_size + served(
                blocks,
                ShieldedPool::Ironwood,
                i,
                end,
            )
        }),
{
    let start = nothing_found(initial.sizes());
    let end = blocks[i].vtx@.len() as int;
    let height = blocks[i].height as u32;
    lemma_state_is_found(start, blocks, decrypted, i, end);
    lemma_state_is_found(start, blocks, decrypted, i, 0);
    lemma_size(initial, blocks, decrypted, ShieldedPool::Sapling, i, 0);
    lemma_size(initial, blocks, decrypted, ShieldedPool::Orchard, i, 0);
    lemma_size(initial, blocks, decrypted, ShieldedPool::Ironwood, i, 0);
    lemma_size(initial, blocks, decrypted, ShieldedPool::Sapling, i, end);
    lemma_size(initial, blocks, decrypted, ShieldedPool::Orchard, i, end);
    lemma_size(initial, blocks, decrypted, ShieldedPool::Ironwood, i, end);
    lemma_blocks_before(start, blocks, decrypted, blocks.len() as int, i + 1);
    lemma_block_stays(start, blocks, decrypted, i, blocks.len() as int);
    let block = view.wallet_blocks[height];
    assert(after_blocks(start, blocks, decrypted, i + 1)->Ok_0.wallet_blocks[height] == block);
    assert forall|t: int| 0 <= t < end implies (#[trigger] block.txids[t]).bytes@ == blocks[i].vtx@[t].txid@ by {
        assert(blocks[i].vtx@[t].txid@.len() == 32);
        lemma_array_view(blocks[i].vtx@[t].txid@);
        assert(block.txids[t] == txid_at(&blocks[i], t));
    }
    if blocks[i].hash@.len() == 32 {
        lemma_array_view(blocks[i].hash@);
    }
    if blocks[i].prev_hash@.len() == 32 {
        lemma_array_view(blocks[i].prev_hash@);
    }
}

proof fn lemma_blocks_of_transactions(
    found: ShieldedScanView,
    height: BlockHeight,
    block: &CompactBlock,
    decrypted: &DecryptedOutputs,
    n: int,
)
    requires
        after_transactions(found, height, block, decrypted, n) is Ok,
    ensures
        after_transactions(found, height, block, decrypted, n)->Ok_0.wallet_blocks == found.wallet_blocks,
    decreases n,
{
    if n > 0 {
        lemma_blocks_of_transactions(found, height, block, decrypted, n - 1);
    }
}

proof fn lemma_block_stays(
    start: ShieldedScanView,
    blocks: Seq<CompactBlock>,
    decrypted: &DecryptedOutputs,
    i: int,
    n: int,
)
    requires
        0 <= i < n <= blocks.len(),
        after_blocks(start, blocks, decrypted, n) is Ok,
        forall|k: int| i < k < n ==> (#[trigger] blocks[k]).height as u32 != blocks[i].height as u32,
    ensures
        after_blocks(start, blocks, decrypted, i + 1) is Ok,
        after_blocks(start, blocks, decrypted, n)->Ok_0.wallet_blocks.dom().contains(blocks[i].height as u32),
        after_blocks(start, blocks, decrypted, n)->Ok_0.wallet_blocks[blocks[i].height as u32] == after_blocks(
            start,
            blocks,
            decrypted,
            i + 1,
        )->Ok_0.wallet_blocks[blocks[i].height as u32],
    decreases n,
{
    if i + 1 < n {
        lemma_block_stays(start, blocks, decrypted, i, n - 1);
        let before = after_blocks(start, blocks, decrypted, n - 1)->Ok_0;
        let block = &blocks[n - 1];
        lemma_blocks_of_transactions(before, block.height as u32, block, decrypted, block.vtx@.len() as int);
    }
}

/// The size of the tree of a pool that the chain reports.
pub open spec fn reported_in(block: CompactBlock, pool: ShieldedPool) -> int {
    match pool {
        ShieldedPool::Sapling => block.chain_metadata->0.sapling_commitment_tree_size as int,
        ShieldedPool::Orchard => block.chain_metadata->0.orchard_commitment_tree_size as int,
        ShieldedPool::Ironwood => block.chain_metadata->0.ironwood_commitment_tree_size as int,
    }
}

/// Where a load is scanned, the sizes that the chain reports are those of the outputs that were served, for every pool
/// and every block. A size of zero is not reported.
pub proof fn law_reported_sizes_are_served(
    blocks: Seq<CompactBlock>,
    initial: &InitialScanData,
    decrypted: &DecryptedOutputs,
    view: ShieldedScanView,
    pool: ShieldedPool,
    i: int,
)
    requires
        scanned(blocks, initial, decrypted) == Ok::<ShieldedScanView, ScanError>(view),
        has_room_for_blocks(initial.sizes(), blocks),
        0 <= i < blocks.len(),
        blocks[i].chain_metadata.is_some(),
        reported_in(blocks[i], pool) != 0,
    ensures
        reported_in(blocks[i], pool) == size_before(initial, pool) + served(
            blocks,
            pool,
            i,
            blocks[i].vtx@.len() as int,
        ),
{
    let start = nothing_found(initial.sizes());
    let end = blocks[i].vtx@.len() as int;
    lemma_state_is_found(start, blocks, decrypted, i, end);
    lemma_size(initial, blocks, decrypted, pool, i, end);
    lemma_blocks_before(start, blocks, decrypted, blocks.len() as int, i + 1);
}

proof fn lemma_nullifier_errors_of_spends(
    map: Map<Nullifier, ScanTarget>,
    spends: Seq<CompactSaplingSpend>,
    target: ScanTarget,
)
    requires
        with_spend_nullifiers(map, spends, target) is Err,
    ensures
        !(with_spend_nullifiers(map, spends, target)->Err_0 is IncorrectTreeSize),
        !(with_spend_nullifiers(map, spends, target)->Err_0 is ContinuityError),
    decreases spends.len(),
{
    if spends.len() > 0 && with_spend_nullifiers(map, spends.drop_last(), target) is Err {
        lemma_nullifier_errors_of_spends(map, spends.drop_last(), target);
    }
}

proof fn lemma_nullifier_errors_of_actions(
    map: Map<Nullifier, ScanTarget>,
    actions: Seq<CompactOrchardAction>,
    target: ScanTarget,
)
    requires
        with_action_nullifiers(map, actions, target) is Err,
    ensures
        !(with_action_nullifiers(map, actions, target)->Err_0 is IncorrectTreeSize),
        !(with_action_nullifiers(map, actions, target)->Err_0 is ContinuityError),
    decreases actions.len(),
{
    if actions.len() > 0 && with_action_nullifiers(map, actions.drop_last(), target) is Err {
        lemma_nullifier_errors_of_actions(map, actions.drop_last(), target);
    }
}

proof fn lemma_transaction_errors(
    found: ShieldedScanView,
    height: BlockHeight,
    block: &CompactBlock,
    decrypted: &DecryptedOutputs,
    n: int,
)
    requires
        after_transactions(found, height, block, decrypted, n) is Err,
    ensures
        !(after_transactions(found, height, block, decrypted, n)->Err_0 is IncorrectTreeSize),
        !(after_transactions(found, height, block, decrypted, n)->Err_0 is ContinuityError),
    decreases n,
{
    if after_transactions(found, height, block, decrypted, n - 1) is Err {
        lemma_transaction_errors(found, height, block, decrypted, n - 1);
    } else {
        let before = after_transactions(found, height, block, decrypted, n - 1)->Ok_0;
        let tx = &block.vtx@[n - 1];
        let target = ScanTarget { block_height: height, txid: txid_at(block, n - 1), narrow_scan_area: false };
        if with_spend_nullifiers(before.sapling_nullifiers, tx.spends@, target) is Err {
            lemma_nullifier_errors_of_spends(before.sapling_nullifiers, tx.spends@, target);
        }
        if with_action_nullifiers(before.orchard_nullifiers, tx.actions@, target) is Err {
            lemma_nullifier_errors_of_actions(before.orchard_nullifiers, tx.actions@, target);
        }
        if with_action_nullifiers(before.ironwood_nullifiers, tx.ironwood_actions@, target) is Err {
            lemma_nullifier_errors_of_actions(before.ironwood_nullifiers, tx.ironwood_actions@, target);
        }
    }
}

/// Whether the chain reports another size of the tree of `pool` after the block at `i` than the outputs served make.
pub open spec fn is_wrong_size(
    blocks: Seq<CompactBlock>,
    initial: &InitialScanData,
    pool: ShieldedPool,
    height: BlockHeight,
    reported: u32,
    calculated: u32,
    i: int,
) -> bool {
    &&& 0 <= i < blocks.len()
    &&& blocks[i].height as u32 == height
    &&& blocks[i].chain_metadata.is_some()
    &&& reported_in(blocks[i], pool) == reported
    &&& reported != 0
    &&& reported != calculated
    &&& calculated == size_before(initial, pool) + served(blocks, pool, i, blocks[i].vtx@.len() as int)
}

/// A load is refused for a wrong size of a tree only where the chain reports another size than the outputs served make.
pub proof fn law_wrong_sizes_are_wrong(
    blocks: Seq<CompactBlock>,
    initial: &InitialScanData,
    decrypted: &DecryptedOutputs,
    pool: ShieldedPool,
    height: BlockHeight,
    reported: u32,
    calculated: u32,
)
    requires
        has_room_for_blocks(initial.sizes(), blocks),
        scanned(blocks, initial, decrypted) == Err::<ShieldedScanView, ScanError>(
            ScanError::IncorrectTreeSize {
                shielded_protocol: pool,
                height,
                block_metadata_size: reported,
                calculated_size: calculated,
            },
        ),
    ensures
        exists|i: int| #[trigger] is_wrong_size(blocks, initial, pool, height, reported, calculated, i),
{
    lemma_wrong_size(initial, blocks, decrypted, pool, height, reported, calculated, blocks.len() as int);
}

proof fn lemma_wrong_size(
    initial: &InitialScanData,
    blocks: Seq<CompactBlock>,
    decrypted: &DecryptedOutputs,
    pool: ShieldedPool,
    height: BlockHeight,
    reported: u32,
    calculated: u32,
    n: int,
)
    requires
        has_room_for_blocks(initial.sizes(), blocks),
        0 <= n <= blocks.len(),
        after_blocks(nothing_found(initial.sizes()), blocks, decrypted, n) == Err::<ShieldedScanView, ScanError>(
            ScanError::IncorrectTreeSize {
                shielded_protocol: pool,
                height,
                block_metadata_size: reported,
                calculated_size: calculated,
            },
        ),
    ensures
        exists|i: int| #[trigger] is_wrong_size(blocks, initial, pool, height, reported, calculated, i),
    decreases n,
{
    let start = nothing_found(initial.sizes());
    if n > 0 {
        if after_blocks(start, blocks, decrypted, n - 1) is Err {
            lemma_wrong_size(initial, blocks, decrypted, pool, height, reported, calculated, n - 1);
        } else {
            let before = after_blocks(start, blocks, decrypted, n - 1)->Ok_0;
            let block = &blocks[n - 1];
            let end = block.vtx@.len() as int;
            if after_transactions(before, block.height as u32, block, decrypted, end) is Err {
                lemma_transaction_errors(before, block.height as u32, block, decrypted, end);
            }
            assert(state(start, blocks, decrypted, n - 1, end) is Ok);
            lemma_size(initial, blocks, decrypted, pool, n - 1, end);
            assert(is_wrong_size(blocks, initial, pool, height, reported, calculated, n - 1));
        }
    }
}

// --- sound transactions ---

/// Whether a sapling output has a note commitment, a key and a ciphertext of the right form.
pub open spec fn is_sound_output(output: CompactSaplingOutput) -> bool {
    &&& output.cmu@.len() == 32
    &&& le_value(output.cmu@) < jubjub_base_modulus()
    &&& output.ephemeral_key@.len() == 32
    &&& output.ciphertext@.len() == 52
}

/// Whether the bytes of a nullifier of an action are those of a field element.
pub open spec fn is_sound_nullifier(bytes: Seq<u8>) -> bool {
    bytes.len() == 32 && le_value(bytes) < pallas_modulus()
}

/// Whether an action has a nullifier, a note commitment, a key and a ciphertext of the right form.
pub open spec fn is_sound_action(action: CompactOrchardAction) -> bool {
    &&& is_sound_nullifier(action.nullifier@)
    &&& action.cmx@.len() == 32
    &&& le_value(action.cmx@) < pallas_modulus()
    &&& action.ephemeral_key@.len() == 32
    &&& action.ciphertext@.len() == 52
}

/// Whether all parts of a transaction have the right form.
pub open spec fn is_sound_tx(tx: CompactTx) -> bool {
    &&& forall|j: int| 0 <= j < tx.spends@.len() ==> (#[trigger] tx.spends@[j]).nf@.len() == 32
    &&& forall|j: int| 0 <= j < tx.outputs@.len() ==> is_sound_output(#[trigger] tx.outputs@[j])
    &&& forall|j: int| 0 <= j < tx.actions@.len() ==> is_sound_action(#[trigger] tx.actions@[j])
    &&& forall|j: int| 0 <= j < tx.ironwood_actions@.len() ==> is_sound_action(#[trigger] tx.ironwood_actions@[j])
}

/// Whether `action` is one of the actions of a transaction, in either of the two pools that have them.
pub open spec fn has_action(tx: CompactTx, action: CompactOrchardAction) -> bool {
    tx.actions@.contains(action) || tx.ironwood_actions@.contains(action)
}

/// Whether a transaction has the fault that an error tells.
pub open spec fn has_fault(tx: CompactTx, error: ScanError) -> bool {
    match error {
        ScanError::InvalidSaplingNullifier => exists|j: int|
            0 <= j < tx.spends@.len() && (#[trigger] tx.spends@[j]).nf@.len() != 32,
        ScanError::InvalidOrchardNullifierLength(length) => exists|action: CompactOrchardAction| #[trigger]
            has_action(tx, action) && action.nullifier@.len() == length && length != 32,
        ScanError::InvalidOrchardNullifier => exists|action: CompactOrchardAction| #[trigger]
            has_action(tx, action) && action.nullifier@.len() == 32 && le_value(action.nullifier@) >= pallas_modulus(),
        ScanError::InvalidSaplingOutput => exists|j: int|
            0 <= j < tx.outputs@.len() && !is_sound_output(#[trigger] tx.outputs@[j]),
        ScanError::InvalidOrchardAction => exists|action: CompactOrchardAction| #[trigger]
            has_action(tx, action) && !is_sound_action(action),
        _ => false,
    }
}

proof fn lemma_sound_spends(map: Map<Nullifier, ScanTarget>, spends: Seq<CompactSaplingSpend>, target: ScanTarget)
    ensures
        with_spend_nullifiers(map, spends, target) is Ok <==> forall|j: int|
            0 <= j < spends.len() ==> (#[trigger] spends[j]).nf@.len() == 32,
        with_spend_nullifiers(map, spends, target) is Err ==> with_spend_nullifiers(map, spends, target)->Err_0
            == ScanError::InvalidSaplingNullifier,
    decreases spends.len(),
{
    if spends.len() > 0 {
        let before = spends.drop_last();
        lemma_sound_spends(map, before, target);
        assert forall|j: int| 0 <= j < before.len() implies #[trigger] before[j] == spends[j] by {}
        if forall|j: int| 0 <= j < spends.len() ==> (#[trigger] spends[j]).nf@.len() == 32 {
            assert(spends[spends.len() - 1].nf@.len() == 32);
        } else if with_spend_nullifiers(map, before, target) is Ok {
            let j = choose|j: int| 0 <= j < spends.len() && (#[trigger] spends[j]).nf@.len() != 32;
            if j < before.len() {
                assert(before[j].nf@.len() == 32);
            }
        } else {
            let j = choose|j: int| 0 <= j < before.len() && (#[trigger] before[j]).nf@.len() != 32;
            assert(spends[j].nf@.len() != 32);
        }
    }
}

/// Whether an error tells a fault of the nullifier of one of the actions.
spec fn is_nullifier_fault(actions: Seq<CompactOrchardAction>, error: ScanError) -> bool {
    exists|j: int|
        0 <= j < actions.len() && {
            let bytes = (#[trigger] actions[j]).nullifier@;
            ||| bytes.len() != 32 && error == ScanError::InvalidOrchardNullifierLength(bytes.len() as usize)
            ||| bytes.len() == 32 && le_value(bytes) >= pallas_modulus() && error == ScanError::InvalidOrchardNullifier
        }
}

proof fn lemma_sound_actions(map: Map<Nullifier, ScanTarget>, actions: Seq<CompactOrchardAction>, target: ScanTarget)
    ensures
        with_action_nullifiers(map, actions, target) is Ok <==> forall|j: int|
            0 <= j < actions.len() ==> is_sound_nullifier((#[trigger] actions[j]).nullifier@),
        with_action_nullifiers(map, actions, target) is Err ==> is_nullifier_fault(
            actions,
            with_action_nullifiers(map, actions, target)->Err_0,
        ),
    decreases actions.len(),
{
    if actions.len() > 0 {
        let before = actions.drop_last();
        let last = actions.len() - 1;
        lemma_sound_actions(map, before, target);
        assert forall|j: int| 0 <= j < before.len() implies #[trigger] before[j] == actions[j] by {}
        if with_action_nullifiers(map, before, target) is Err {
            let error = with_action_nullifiers(map, before, target)->Err_0;
            let j = choose|j: int|
                0 <= j < before.len() && {
                    let bytes = (#[trigger] before[j]).nullifier@;
                    ||| bytes.len() != 32 && error == ScanError::InvalidOrchardNullifierLength(bytes.len() as usize)
                    ||| bytes.len() == 32 && le_value(bytes) >= pallas_modulus() && error
                        == ScanError::InvalidOrchardNullifier
                };
            assert(!is_sound_nullifier(actions[j].nullifier@));
        } else {
            assert forall|j: int| 0 <= j < last implies is_sound_nullifier((#[trigger] actions[j]).nullifier@) by {
                assert(is_sound_nullifier(before[j].nullifier@));
            }
            assert(actions[last] == actions.last());
            if with_action_nullifiers(map, actions, target) is Err {
                assert(!is_sound_nullifier(actions[last].nullifier@));
            }
        }
    }
}

proof fn lemma_sound_leaves<T: Committed>(outputs: Seq<T>, txid: TxId, decrypted: Map<OutputId, ()>)
    ensures
        leaves_of(outputs, txid, decrypted).is_some() <==> forall|j: int|
            0 <= j < outputs.len() ==> (#[trigger] outputs[j]).commitment() is Ok,
    decreases outputs.len(),
{
    if outputs.len() > 0 {
        let before = outputs.drop_last();
        let last = outputs.len() - 1;
        lemma_sound_leaves(before, txid, decrypted);
        assert forall|j: int| 0 <= j < before.len() implies #[trigger] before[j] == outputs[j] by {}
        if leaves_of(before, txid, decrypted).is_some() {
            assert forall|j: int| 0 <= j < last implies (#[trigger] outputs[j]).commitment() is Ok by {
                assert(before[j].commitment() is Ok);
            }
            assert(outputs[last] == outputs.last());
        } else {
            let j = choose|j: int| 0 <= j < before.len() && !((#[trigger] before[j]).commitment() is Ok);
            assert(!(outputs[j].commitment() is Ok));
        }
    }
}

/// A transaction is scanned exactly if it is sound, and an error tells a fault that it has.
proof fn lemma_sound_transaction(
    found: ShieldedScanView,
    height: BlockHeight,
    tx: &CompactTx,
    txid: TxId,
    decrypted: &DecryptedOutputs,
)
    ensures
        after_transaction(found, height, tx, txid, decrypted) is Ok <==> is_sound_tx(*tx),
        after_transaction(found, height, tx, txid, decrypted) matches Err(error) ==> has_fault(*tx, error),
{
    let target = ScanTarget { block_height: height, txid, narrow_scan_area: false };
    let r = after_transaction(found, height, tx, txid, decrypted);
    lemma_sound_spends(found.sapling_nullifiers, tx.spends@, target);
    lemma_sound_actions(found.orchard_nullifiers, tx.actions@, target);
    lemma_sound_actions(found.ironwood_nullifiers, tx.ironwood_actions@, target);
    lemma_sound_leaves(tx.outputs@, txid, decrypted.sapling@);
    lemma_sound_leaves(tx.actions@, txid, decrypted.orchard@);
    lemma_sound_leaves(tx.ironwood_actions@, txid, decrypted.ironwood@);
    assert forall|output: CompactSaplingOutput| #[trigger] is_sound_output(output) == output.commitment() is Ok by {}
    assert forall|action: CompactOrchardAction| #[trigger] is_sound_action(action) == action.commitment() is Ok by {}
    if is_sound_tx(*tx) {
        assert forall|j: int| 0 <= j < tx.outputs@.len() implies (#[trigger] tx.outputs@[j]).commitment() is Ok by {
            assert(is_sound_output(tx.outputs@[j]));
        }
        assert forall|j: int| 0 <= j < tx.actions@.len() implies is_sound_nullifier(
            (#[trigger] tx.actions@[j]).nullifier@,
        ) && tx.actions@[j].commitment() is Ok by {
            assert(is_sound_action(tx.actions@[j]));
        }
        assert forall|j: int| 0 <= j < tx.ironwood_actions@.len() implies is_sound_nullifier(
            (#[trigger] tx.ironwood_actions@[j]).nullifier@,
        ) && tx.ironwood_actions@[j].commitment() is Ok by {
            assert(is_sound_action(tx.ironwood_actions@[j]));
        }
        assert(r is Ok);
    }
    if r is Err {
        assert forall|j: int| 0 <= j < tx.actions@.len() implies has_action(*tx, #[trigger] tx.actions@[j])
            && tx.actions@[j].nullifier@.len() <= usize::MAX by {
            assert(tx.actions@[j].nullifier.len() == tx.actions@[j].nullifier@.len());
        }
        assert forall|j: int| 0 <= j < tx.ironwood_actions@.len() implies has_action(
            *tx,
            #[trigger] tx.ironwood_actions@[j],
        ) && tx.ironwood_actions@[j].nullifier@.len() <= usize::MAX by {
            assert(tx.ironwood_actions@[j].nullifier.len() == tx.ironwood_actions@[j].nullifier@.len());
        }
    }
}

proof fn lemma_sound_transactions(
    found: ShieldedScanView,
    height: BlockHeight,
    block: &CompactBlock,
    decrypted: &DecryptedOutputs,
    n: int,
)
    requires
        0 <= n <= block.vtx@.len(),
    ensures
        after_transactions(found, height, block, decrypted, n) is Ok <==> forall|t: int|
            0 <= t < n ==> is_sound_tx(#[trigger] block.vtx@[t]),
        after_transactions(found, height, block, decrypted, n) matches Err(error) ==> exists|t: int|
            0 <= t < block.vtx@.len() && has_fault(#[trigger] block.vtx@[t], error),
    decreases n,
{
    if n > 0 {
        lemma_sound_transactions(found, height, block, decrypted, n - 1);
        if after_transactions(found, height, block, decrypted, n - 1) is Ok {
            let before = after_transactions(found, height, block, decrypted, n - 1)->Ok_0;
            lemma_sound_transaction(before, height, &block.vtx@[n - 1], txid_at(block, n - 1), decrypted);
        }
    }
}

/// Every transaction of a load that was scanned is sound.
pub proof fn law_scanned_transactions_are_sound(
    blocks: Seq<CompactBlock>,
    initial: &InitialScanData,
    decrypted: &DecryptedOutputs,
    view: ShieldedScanView,
    i: int,
    t: int,
)
    requires
        scanned(blocks, initial, decrypted) == Ok::<ShieldedScanView, ScanError>(view),
        0 <= i < blocks.len(),
        0 <= t < blocks[i].vtx@.len(),
    ensures
        is_sound_tx(blocks[i].vtx@[t]),
{
    let start = nothing_found(initial.sizes());
    let end = blocks[i].vtx@.len() as int;
    lemma_state_is_found(start, blocks, decrypted, i, end);
    let before = after_blocks(start, blocks, decrypted, i)->Ok_0;
    lemma_sound_transactions(before, blocks[i].height as u32, &blocks[i], decrypted, end);
}

/// Whether the fault is that of the transaction at `t` of the block at `i`.
pub open spec fn is_fault_of(blocks: Seq<CompactBlock>, error: ScanError, i: int, t: int) -> bool {
    0 <= i < blocks.len() && 0 <= t < blocks[i].vtx@.len() && has_fault(blocks[i].vtx@[t], error)
}

/// Where a load is refused, and its blocks follow each other and have the sizes that the chain reports, one of its
/// transactions has the fault that is told.
pub proof fn law_told_faults_are_there(
    blocks: Seq<CompactBlock>,
    initial: &InitialScanData,
    decrypted: &DecryptedOutputs,
    error: ScanError,
)
    requires
        scanned(blocks, initial, decrypted) == Err::<ShieldedScanView, ScanError>(error),
        !(error is ContinuityError),
        !(error is IncorrectTreeSize),
    ensures
        exists|i: int, t: int| #[trigger] is_fault_of(blocks, error, i, t),
{
    lemma_fault(nothing_found(initial.sizes()), blocks, decrypted, error, blocks.len() as int);
}

proof fn lemma_fault(
    start: ShieldedScanView,
    blocks: Seq<CompactBlock>,
    decrypted: &DecryptedOutputs,
    error: ScanError,
    n: int,
)
    requires
        0 <= n <= blocks.len(),
        after_blocks(start, blocks, decrypted, n) == Err::<ShieldedScanView, ScanError>(error),
        !(error is IncorrectTreeSize),
    ensures
        exists|i: int, t: int| #[trigger] is_fault_of(blocks, error, i, t),
    decreases n,
{
    if n > 0 {
        if after_blocks(start, blocks, decrypted, n - 1) is Err {
            lemma_fault(start, blocks, decrypted, error, n - 1);
        } else {
            let before = after_blocks(start, blocks, decrypted, n - 1)->Ok_0;
            let block = &blocks[n - 1];
            lemma_sound_transactions(before, block.height as u32, block, decrypted, block.vtx@.len() as int);
            let t = choose|t: int| 0 <= t < block.vtx@.len() && has_fault(#[trigger] block.vtx@[t], error);
            assert(is_fault_of(blocks, error, n - 1, t));
        }
    }
}

/// Whether the block at `i` follows the one before it, with hashes of its own.
pub open spec fn follows(blocks: Seq<CompactBlock>, i: int) -> bool {
    &&& blocks[i].header@.len() == 0
    &&& blocks[i].hash@.len() == 32
    &&& blocks[i].prev_hash@.len() == 32
    &&& blocks[i].height <= u32::MAX
    &&& i > 0 ==> blocks[i].height == blocks[i - 1].height + 1 && blocks[i].prev_hash@ == blocks[i - 1].hash@
}

/// Whether the size that the chain reports after the block at `i` is that of the outputs served, or none is reported.
pub open spec fn size_agrees(
    blocks: Seq<CompactBlock>,
    initial: &InitialScanData,
    pool: ShieldedPool,
    i: int,
) -> bool {
    blocks[i].chain_metadata.is_some() && reported_in(blocks[i], pool) != 0 ==> reported_in(blocks[i], pool)
        == size_before(initial, pool) + served(blocks, pool, i, blocks[i].vtx@.len() as int)
}

/// A load is scanned if its blocks follow each other and the blocks of the wallet on both sides, its transactions are
/// sound, and the sizes that the chain reports are those of the outputs served.
pub proof fn law_sound_blocks_are_scanned(
    blocks: Seq<CompactBlock>,
    initial: &InitialScanData,
    decrypted: &DecryptedOutputs,
)
    requires
        blocks.len() > 0,
        has_room_for_blocks(initial.sizes(), blocks),
        forall|i: int| 0 <= i < blocks.len() ==> #[trigger] follows(blocks, i),
        initial.start_seam_block matches Some(start) ==> blocks[0].height == start.block_height + 1
            && blocks[0].prev_hash@ == start.block_hash@,
        initial.end_seam_block matches Some(end) ==> end.block_height == blocks.last().height + 1 && end.prev_hash@
            == blocks.last().hash@,
        forall|i: int, t: int|
            0 <= i < blocks.len() && 0 <= t < blocks[i].vtx@.len() ==> is_sound_tx(#[trigger] blocks[i].vtx@[t]),
        forall|i: int, pool: ShieldedPool| 0 <= i < blocks.len() ==> #[trigger] size_agrees(blocks, initial, pool, i),
    ensures
        scanned(blocks, initial, decrypted) is Ok,
{
    let heads = heads_of(blocks);
    assert forall|i: int| 0 < i < heads.len() implies (#[trigger] heads[i]).height == heads[i - 1].height + 1
        && heads[i].prev_hash == heads[i - 1].hash by {
        assert(follows(blocks, i));
        assert(follows(blocks, i - 1));
    }
    assert(follows(blocks, 0));
    assert(follows(blocks, blocks.len() - 1));
    if let Some(start) = &initial.start_seam_block {
        lemma_array_of(start.block_hash);
    }
    if let Some(end) = &initial.end_seam_block {
        lemma_array_of(end.prev_hash);
    }
    law_a_chain_is_continuous(heads, seam(&initial.start_seam_block), seam(&initial.end_seam_block));
    lemma_sound_blocks(initial, blocks, decrypted, blocks.len() as int);
}

proof fn lemma_sound_blocks(
    initial: &InitialScanData,
    blocks: Seq<CompactBlock>,
    decrypted: &DecryptedOutputs,
    n: int,
)
    requires
        0 <= n <= blocks.len(),
        has_room_for_blocks(initial.sizes(), blocks),
        forall|i: int, t: int|
            0 <= i < blocks.len() && 0 <= t < blocks[i].vtx@.len() ==> is_sound_tx(#[trigger] blocks[i].vtx@[t]),
        forall|i: int, pool: ShieldedPool| 0 <= i < blocks.len() ==> #[trigger] size_agrees(blocks, initial, pool, i),
    ensures
        after_blocks(nothing_found(initial.sizes()), blocks, decrypted, n) is Ok,
    decreases n,
{
    if n > 0 {
        lemma_sound_blocks(initial, blocks, decrypted, n - 1);
        let start = nothing_found(initial.sizes());
        let before = after_blocks(start, blocks, decrypted, n - 1)->Ok_0;
        let block = &blocks[n - 1];
        let end = block.vtx@.len() as int;
        lemma_sound_transactions(before, block.height as u32, block, decrypted, end);
        assert(state(start, blocks, decrypted, n - 1, end) is Ok);
        lemma_size(initial, blocks, decrypted, ShieldedPool::Sapling, n - 1, end);
        lemma_size(initial, blocks, decrypted, ShieldedPool::Orchard, n - 1, end);
        lemma_size(initial, blocks, decrypted, ShieldedPool::Ironwood, n - 1, end);
        assert(size_agrees(blocks, initial, ShieldedPool::Sapling, n - 1));
        assert(size_agrees(blocks, initial, ShieldedPool::Orchard, n - 1));
        assert(size_agrees(blocks, initial, ShieldedPool::Ironwood, n - 1));
    }
}

// --- names ---

/// A block whose header can be read is named by the hashes of the header. One without a header is named by the hashes that
/// come with it, if they have the right length, and else not at all.
pub proof fn law_blocks_are_named_by_their_headers(block: &CompactBlock, hash: [u8; 32], prev_hash: [u8; 32])
    ensures
        block.header@.len() > 0 && (header_hashes(block.header@) matches Some(hashes) && hashes.hash == hash@
            && hashes.prev_hash == prev_hash@) ==> compact_hash(block) == Some(hash) && compact_prev_hash(block) == Some(
            prev_hash,
        ),
        block.header@.len() == 0 && block.hash@ == hash@ ==> compact_hash(block) == Some(hash),
        block.header@.len() == 0 && block.prev_hash@ == prev_hash@ ==> compact_prev_hash(block) == Some(prev_hash),
        block.header@.len() == 0 && block.hash@.len() != 32 ==> compact_hash(block).is_none(),
        block.header@.len() == 0 && block.prev_hash@.len() != 32 ==> compact_prev_hash(block).is_none(),
{
    lemma_array_of(hash);
    lemma_array_of(prev_hash);
}

/// Blocks are refused as unnamed exactly where one has no height that is one, no hashes, or a transaction without an id.
pub proof fn law_unnamed_blocks_are_refused(blocks: Seq<CompactBlock>)
    ensures
        all_named(blocks) <==> forall|i: int|
            0 <= i < blocks.len() ==> {
                &&& (#[trigger] blocks[i]).height <= u32::MAX
                &&& compact_hash(&blocks[i]).is_some()
                &&& compact_prev_hash(&blocks[i]).is_some()
                &&& forall|t: int| 0 <= t < blocks[i].vtx@.len() ==> (#[trigger] blocks[i].vtx@[t]).txid@.len() == 32
            },
{
    if all_named(blocks) {
        assert forall|i: int| 0 <= i < blocks.len() implies {
            &&& (#[trigger] blocks[i]).height <= u32::MAX
            &&& compact_hash(&blocks[i]).is_some()
            &&& compact_prev_hash(&blocks[i]).is_some()
            &&& forall|t: int| 0 <= t < blocks[i].vtx@.len() ==> (#[trigger] blocks[i].vtx@[t]).txid@.len() == 32
        } by {
            assert(is_named(&blocks[i]));
        }
    }
}

// --- breaks ---

/// Whether a block with the given height and hash of the block before it breaks with that block, in the way told.
pub open spec fn is_break(
    prev_height: BlockHeight,
    prev_block_hash: [u8; 32],
    height: BlockHeight,
    prev_hash: [u8; 32],
    error: ContinuityError,
) -> bool {
    match error {
        ContinuityError::HeightDiscontinuity { height: told, previous_block_height } => told == height
            && previous_block_height == prev_height && (prev_height < u32::MAX ==> height != prev_height + 1),
        ContinuityError::HashDiscontinuity { height: told, prev_hash: told_hash, previous_block_hash } => told == height
            && told_hash == prev_hash && previous_block_hash == prev_block_hash && prev_hash != prev_block_hash && (
        prev_height < u32::MAX ==> height == prev_height + 1),
    }
}

/// Whether the block at `i` breaks with the one before it, or with the block of the wallet below all.
pub open spec fn is_break_at(
    heads: Seq<BlockHead>,
    start_seam_block: Option<&WalletBlock>,
    error: ContinuityError,
    i: int,
) -> bool {
    &&& 0 <= i < heads.len()
    &&& if i > 0 {
        is_break(heads[i - 1].height, heads[i - 1].hash, heads[i].height, heads[i].prev_hash, error)
    } else {
        start_seam_block matches Some(start) && is_break(
            start.block_height,
            start.block_hash,
            heads[i].height,
            heads[i].prev_hash,
            error,
        )
    }
}

/// A break that is told is there: some block breaks with the one before it in that way, or the block of the wallet above
/// breaks with the last.
pub proof fn law_told_breaks_are_there(
    heads: Seq<BlockHead>,
    start_seam_block: Option<&WalletBlock>,
    end_seam_block: Option<&WalletBlock>,
    error: ContinuityError,
)
    requires
        heads.len() > 0,
        continuity_error(heads, start_seam_block, end_seam_block) == Some(error),
    ensures
        (exists|i: int| #[trigger] is_break_at(heads, start_seam_block, error, i)) || (end_seam_block matches Some(end)
            && is_break(heads.last().height, heads.last().hash, end.block_height, end.prev_hash, error)),
{
    lemma_break(heads, start_seam_block, error, heads.len() as int);
}

proof fn lemma_break(heads: Seq<BlockHead>, start_seam_block: Option<&WalletBlock>, error: ContinuityError, n: int)
    requires
        0 <= n <= heads.len(),
    ensures
        first_break(link_of(start_seam_block), heads, n) == Some(error) ==> exists|i: int| #[trigger]
            is_break_at(heads, start_seam_block, error, i),
    decreases n,
{
    if n > 0 {
        lemma_break(heads, start_seam_block, error, n - 1);
        if first_break(link_of(start_seam_block), heads, n - 1).is_none() && first_break(
            link_of(start_seam_block),
            heads,
            n,
        ) == Some(error) {
            assert(is_break_at(heads, start_seam_block, error, n - 1));
        }
    }
}

} // verus!
