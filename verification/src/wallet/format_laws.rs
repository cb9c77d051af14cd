//! What the bytes of a wallet file mean, place by place, and what is read from files of earlier versions.
use crate::outside::memo_is_valid;
use crate::primitives::{BlockRange, Nullifier, TxId};
use crate::scan_range::{ScanPriority, ScanRange};
use crate::trees::{CheckpointView, TreeView};
use crate::wallet::codec::{
    le_value, lemma_bytes_round_trip, lemma_list_round_trip, lemma_optional_round_trip, list_encoding, list_storable,
    optional_encoding, parse_compact, parse_number, ReadError, Wire,
};
use crate::wallet::integrity::shards_ordered;
use crate::wallet::note_serialization::{
    key_encoding, lemma_key_round_trip, parse_key, parse_note, parse_output_id, NoteKind,
};
use crate::wallet::nullifier_serialization::{
    map_of_entries, parse_nullifier_map, parse_spend_target, NullifierMapView, OrchardEntry, SaplingEntry, SpendEntry,
};
use crate::wallet::serialization::{
    lemma_array_of, parse_sync_state, parse_tree_bounds, parse_wallet_block, SyncStateView,
};
use crate::wallet::shard_trees::{
    items_list, law_tree_round_trip, parse_shard_trees, tree_encodable, tree_encoding, tree_storable, CheckpointItem,
};
use crate::wallet::status::ConfirmationStatus;
use crate::wallet::sync_state::ScanTarget;
use crate::wallet::transaction::NoteView;
use crate::wallet::transaction_serialization::{parse_address_key, parse_amount, parse_status, parse_transaction_lists};
use vstd::prelude::*;

verus! {

// --- numbers ---

/// The number in the two bytes at a place, the lowest byte first.
pub open spec fn u16_at(b: Seq<u8>, at: int) -> int {
    b[at] + 0x100 * b[at + 1]
}

/// The number in the four bytes at a place, the lowest byte first.
pub open spec fn u32_at(b: Seq<u8>, at: int) -> int {
    u16_at(b, at) + 0x1_0000 * u16_at(b, at + 2)
}

/// The number in the eight bytes at a place, the lowest byte first.
pub open spec fn u64_at(b: Seq<u8>, at: int) -> int {
    u32_at(b, at) + 0x1_0000_0000 * u32_at(b, at + 4)
}

proof fn lemma_value_of_rest(b: Seq<u8>)
    requires
        b.len() > 0,
    ensures
        le_value(b) == b[0] + 256 * le_value(b.skip(1)),
{
}

proof fn lemma_value_of_two(b: Seq<u8>)
    requires
        b.len() >= 2,
    ensures
        le_value(b) == u16_at(b, 0) + 0x1_0000 * le_value(b.skip(2)),
{
    lemma_value_of_rest(b);
    lemma_value_of_rest(b.skip(1));
    assert(b.skip(1).skip(1) =~= b.skip(2));
}

proof fn lemma_value_of_four(b: Seq<u8>)
    requires
        b.len() >= 4,
    ensures
        le_value(b) == u32_at(b, 0) + 0x1_0000_0000 * le_value(b.skip(4)),
{
    lemma_value_of_two(b);
    lemma_value_of_two(b.skip(2));
    assert(b.skip(2).skip(2) =~= b.skip(4));
}

/// Numbers are stored with the lowest byte first, and none is read where bytes are missing.
pub proof fn law_the_lowest_byte_comes_first(b: Seq<u8>)
    ensures
        b.len() >= 2 ==> parse_number(b, 2) == Ok::<(nat, Seq<u8>), ReadError>((u16_at(b, 0) as nat, b.skip(2))),
        b.len() >= 4 ==> parse_number(b, 4) == Ok::<(nat, Seq<u8>), ReadError>((u32_at(b, 0) as nat, b.skip(4))),
        b.len() >= 8 ==> parse_number(b, 8) == Ok::<(nat, Seq<u8>), ReadError>((u64_at(b, 0) as nat, b.skip(8))),
        b.len() < 2 ==> parse_number(b, 2) == Err::<(nat, Seq<u8>), ReadError>(ReadError::UnexpectedEof),
        b.len() < 4 ==> parse_number(b, 4) == Err::<(nat, Seq<u8>), ReadError>(ReadError::UnexpectedEof),
        b.len() < 8 ==> parse_number(b, 8) == Err::<(nat, Seq<u8>), ReadError>(ReadError::UnexpectedEof),
{
    if b.len() >= 2 {
        lemma_value_of_two(b.take(2));
        assert(b.take(2).skip(2) =~= Seq::empty());
    }
    if b.len() >= 4 {
        lemma_value_of_four(b.take(4));
        assert(b.take(4).skip(4) =~= Seq::empty());
    }
    if b.len() >= 8 {
        lemma_value_of_four(b.take(8));
        lemma_value_of_four(b.take(8).skip(4));
        assert(b.take(8).skip(4).skip(4) =~= Seq::empty());
    }
}

/// A length below 253 is one byte. A longer one follows a byte that says whether it has two, four or eight bytes, has no
/// fewer than it needs, and is at most 0x0200_0000.
pub proof fn law_lengths_are_short(b: Seq<u8>)
    ensures
        b.len() == 0 ==> parse_compact(b) == Err::<(nat, Seq<u8>), ReadError>(ReadError::UnexpectedEof),
        b.len() > 0 && b[0] < 253 ==> parse_compact(b) == Ok::<(nat, Seq<u8>), ReadError>((b[0] as nat, b.skip(1))),
        b.len() >= 3 && b[0] == 253 ==> parse_compact(b) == if u16_at(b, 1) >= 253 {
            Ok::<(nat, Seq<u8>), ReadError>((u16_at(b, 1) as nat, b.skip(3)))
        } else {
            Err(ReadError::InvalidInput)
        },
        b.len() >= 5 && b[0] == 254 ==> parse_compact(b) == if 0x1_0000 <= u32_at(b, 1) <= 0x0200_0000 {
            Ok::<(nat, Seq<u8>), ReadError>((u32_at(b, 1) as nat, b.skip(5)))
        } else {
            Err(ReadError::InvalidInput)
        },
        b.len() >= 9 && b[0] == 255 ==> parse_compact(b) == Err::<(nat, Seq<u8>), ReadError>(ReadError::InvalidInput),
{
    if b.len() > 0 {
        law_the_lowest_byte_comes_first(b.skip(1));
        if b.len() >= 3 {
            assert(b.skip(1).skip(2) =~= b.skip(3));
        }
        if b.len() >= 5 {
            assert(b.skip(1).skip(4) =~= b.skip(5));
        }
    }
}

// --- the state of sync ---

/// The bounds of the trees are six numbers behind the version, two for each pool. The first version has none of the
/// third pool.
pub proof fn law_tree_bounds_place_by_place(b: Seq<u8>)
    ensures
        b.len() >= 25 && b[0] != 0 ==> (parse_tree_bounds(b) matches Ok((bounds, rest)) && rest == b.skip(25)
            && bounds.sapling_initial_tree_size == u32_at(b, 1) && bounds.sapling_final_tree_size == u32_at(b, 5)
            && bounds.orchard_initial_tree_size == u32_at(b, 9) && bounds.orchard_final_tree_size == u32_at(b, 13)
            && bounds.ironwood_initial_tree_size == u32_at(b, 17) && bounds.ironwood_final_tree_size == u32_at(b, 21)),
        b.len() >= 17 && b[0] == 0 ==> (parse_tree_bounds(b) matches Ok((bounds, rest)) && rest == b.skip(17)
            && bounds.sapling_initial_tree_size == u32_at(b, 1) && bounds.sapling_final_tree_size == u32_at(b, 5)
            && bounds.orchard_initial_tree_size == u32_at(b, 9) && bounds.orchard_final_tree_size == u32_at(b, 13)
            && bounds.ironwood_initial_tree_size == 0 && bounds.ironwood_final_tree_size == 0),
{
    if b.len() >= 17 {
        law_the_lowest_byte_comes_first(b.skip(1));
        assert(b.skip(1).skip(4) =~= b.skip(5));
        law_the_lowest_byte_comes_first(b.skip(5));
        assert(b.skip(5).skip(4) =~= b.skip(9));
        law_the_lowest_byte_comes_first(b.skip(9));
        assert(b.skip(9).skip(4) =~= b.skip(13));
        law_the_lowest_byte_comes_first(b.skip(13));
        assert(b.skip(13).skip(4) =~= b.skip(17));
    }
    if b.len() >= 25 {
        law_the_lowest_byte_comes_first(b.skip(17));
        assert(b.skip(17).skip(4) =~= b.skip(21));
        law_the_lowest_byte_comes_first(b.skip(21));
        assert(b.skip(21).skip(4) =~= b.skip(25));
    }
}

/// The priority that a number stands for in a version. The first two versions have neither nullifiers to be fetched
/// again nor ranges scanned without mapping; the next has the latter.
pub open spec fn stored_priority(byte: u8, version: u8) -> Option<ScanPriority> {
    if version >= 3 {
        match byte {
            0 => Some(ScanPriority::RefetchingNullifiers),
            1 => Some(ScanPriority::Scanning),
            2 => Some(ScanPriority::Scanned),
            3 => Some(ScanPriority::ScannedWithoutMapping),
            4 => Some(ScanPriority::Historic),
            5 => Some(ScanPriority::OpenAdjacent),
            6 => Some(ScanPriority::FoundNote),
            7 => Some(ScanPriority::ChainTip),
            8 => Some(ScanPriority::Verify),
            _ => None,
        }
    } else if version == 2 {
        match byte {
            0 => Some(ScanPriority::Scanning),
            1 => Some(ScanPriority::Scanned),
            2 => Some(ScanPriority::ScannedWithoutMapping),
            3 => Some(ScanPriority::Historic),
            4 => Some(ScanPriority::OpenAdjacent),
            5 => Some(ScanPriority::FoundNote),
            6 => Some(ScanPriority::ChainTip),
            7 => Some(ScanPriority::Verify),
            _ => None,
        }
    } else {
        match byte {
            0 => Some(ScanPriority::Scanning),
            1 => Some(ScanPriority::Scanned),
            2 => Some(ScanPriority::Historic),
            3 => Some(ScanPriority::OpenAdjacent),
            4 => Some(ScanPriority::FoundNote),
            5 => Some(ScanPriority::ChainTip),
            6 => Some(ScanPriority::Verify),
            _ => None,
        }
    }
}

/// A scan range is its first height, the height behind its last and the number of its priority. It is refused where the
/// version has no such priority, or its end lies below its start.
pub proof fn law_scan_ranges_place_by_place(b: Seq<u8>, version: u8)
    requires
        b.len() >= 9,
    ensures
        match stored_priority(b[8], version) {
            Some(priority) if u32_at(b, 0) <= u32_at(b, 4) => <ScanRange as Wire>::parse(b, version) matches Ok(
                (range, rest),
            ) && rest == b.skip(9) && range.block_range.start == u32_at(b, 0) && range.block_range.end == u32_at(b, 4)
                && range.priority == priority,
            _ => <ScanRange as Wire>::parse(b, version) matches Err(ReadError::InvalidData),
        },
{
    law_the_lowest_byte_comes_first(b);
    law_the_lowest_byte_comes_first(b.skip(4));
    assert(b.skip(4).skip(4) =~= b.skip(8));
    assert(b.skip(8).skip(1) =~= b.skip(9));
}

/// A scan target is a height, the id of a transaction and whether the area around it is narrow, behind a version. The
/// first version of the state has no such flag: its targets have narrow areas, and those of its nullifiers have not.
pub proof fn law_scan_targets_place_by_place(b: Seq<u8>, version: u8)
    ensures
        version >= 1 && b.len() >= 38 ==> (<ScanTarget as Wire>::parse(b, version) matches Ok((target, rest)) && rest
            == b.skip(38) && target.block_height == u32_at(b, 1) && target.txid.bytes@ == b.subrange(5, 37)
            && target.narrow_scan_area == (b[37] != 0)),
        version >= 1 ==> parse_spend_target(b, version) == <ScanTarget as Wire>::parse(b, version),
        version == 0 && b.len() >= 36 ==> (<ScanTarget as Wire>::parse(b, version) matches Ok((target, rest)) && rest
            == b.skip(36) && target.block_height == u32_at(b, 0) && target.txid.bytes@ == b.subrange(4, 36)
            && target.narrow_scan_area),
        version == 0 && b.len() >= 36 ==> (parse_spend_target(b, version) matches Ok((target, rest)) && rest == b.skip(
            36,
        ) && target.block_height == u32_at(b, 0) && target.txid.bytes@ == b.subrange(4, 36)
            && !target.narrow_scan_area),
{
    if b.len() >= 36 {
        law_the_lowest_byte_comes_first(b);
        assert(b.skip(4).take(32) =~= b.subrange(4, 36));
        assert(b.skip(4).skip(32) =~= b.skip(36));
        crate::scan::scan_laws::lemma_array_view(b.subrange(4, 36));
    }
    if b.len() >= 38 {
        law_the_lowest_byte_comes_first(b.skip(1));
        assert(b.skip(1).skip(4) =~= b.skip(5));
        assert(b.skip(5).take(32) =~= b.subrange(5, 37));
        assert(b.skip(5).skip(32) =~= b.skip(37));
        assert(b.skip(37).skip(1) =~= b.skip(38));
        crate::scan::scan_laws::lemma_array_view(b.subrange(5, 37));
    }
}

/// A block begins with its height, its hash, that of the block before it and its time, behind a version.
pub proof fn law_wallet_blocks_place_by_place(b: Seq<u8>)
    requires
        parse_wallet_block(b) is Ok,
    ensures
        b.len() >= 73,
        parse_wallet_block(b)->Ok_0.0.block_height == u32_at(b, 1),
        parse_wallet_block(b)->Ok_0.0.block_hash@ == b.subrange(5, 37),
        parse_wallet_block(b)->Ok_0.0.prev_hash@ == b.subrange(37, 69),
        parse_wallet_block(b)->Ok_0.0.time == u32_at(b, 69),
{
    law_the_lowest_byte_comes_first(b.skip(1));
    assert(b.skip(1).skip(4) =~= b.skip(5));
    assert(b.skip(5).take(32) =~= b.subrange(5, 37));
    assert(b.skip(5).skip(32) =~= b.skip(37));
    assert(b.skip(37).take(32) =~= b.subrange(37, 69));
    assert(b.skip(37).skip(32) =~= b.skip(69));
    law_the_lowest_byte_comes_first(b.skip(69));
    crate::scan::scan_laws::lemma_array_view(b.subrange(5, 37));
    crate::scan::scan_laws::lemma_array_view(b.subrange(37, 69));
}

/// A status is a number and a height, behind a version.
pub proof fn law_statuses_place_by_place(b: Seq<u8>)
    requires
        b.len() >= 6,
    ensures
        b[1] <= 4 ==> (parse_status(b) matches Ok((status, rest)) && rest == b.skip(6) && match status {
            ConfirmationStatus::Calculated(height) => b[1] == 0 && height == u32_at(b, 2),
            ConfirmationStatus::Transmitted(height) => b[1] == 1 && height == u32_at(b, 2),
            ConfirmationStatus::Mempool(height) => b[1] == 2 && height == u32_at(b, 2),
            ConfirmationStatus::Confirmed(height) => b[1] == 3 && height == u32_at(b, 2),
            ConfirmationStatus::Failed(height) => b[1] == 4 && height == u32_at(b, 2),
        }),
        b[1] > 4 ==> (parse_status(b) matches Err(ReadError::InvalidData)),
{
    assert(b.skip(1).skip(1) =~= b.skip(2));
    law_the_lowest_byte_comes_first(b.skip(2));
    assert(b.skip(2).skip(4) =~= b.skip(6));
}

/// The third version of the state holds no shard ranges of the third pool, and all else as the next one does.
pub proof fn law_states_of_the_third_version(
    scan_ranges: Seq<ScanRange>,
    sapling: Seq<BlockRange>,
    orchard: Seq<BlockRange>,
    targets: Seq<ScanTarget>,
    rest: Seq<u8>,
)
    requires
        list_storable::<ScanRange>(scan_ranges, 3),
        list_storable::<BlockRange>(sapling, 0),
        list_storable::<BlockRange>(orchard, 0),
        list_storable::<ScanTarget>(targets, 3),
        crate::scan_range::contiguous(scan_ranges),
        shards_ordered(sapling),
        shards_ordered(orchard),
    ensures
        parse_sync_state(
            seq![3u8] + (list_encoding::<ScanRange>(scan_ranges) + (list_encoding::<BlockRange>(sapling) + (
            list_encoding::<BlockRange>(orchard) + (list_encoding::<ScanTarget>(targets) + rest)))),
        ) == Ok::<(SyncStateView, Seq<u8>), ReadError>(
            (
                SyncStateView {
                    scan_ranges,
                    sapling_shard_ranges: sapling,
                    orchard_shard_ranges: orchard,
                    ironwood_shard_ranges: Seq::empty(),
                    scan_targets: targets.to_set(),
                },
                rest,
            ),
        ),
{
    let b3 = list_encoding::<ScanTarget>(targets) + rest;
    let b2 = list_encoding::<BlockRange>(orchard) + b3;
    let b1 = list_encoding::<BlockRange>(sapling) + b2;
    let b0 = list_encoding::<ScanRange>(scan_ranges) + b1;
    assert((seq![3u8] + b0).skip(1) =~= b0);
    lemma_list_round_trip::<ScanRange>(scan_ranges, 3, b1);
    lemma_list_round_trip::<BlockRange>(sapling, 0, b2);
    lemma_list_round_trip::<BlockRange>(orchard, 0, b3);
    lemma_list_round_trip::<ScanTarget>(targets, 3, rest);
}

/// The first version of a nullifier map that tells areas holds no nullifiers of the third pool.
pub proof fn law_nullifier_maps_of_the_first_version(sapling: Seq<SpendEntry>, orchard: Seq<SpendEntry>, rest: Seq<u8>)
    requires
        list_storable::<SaplingEntry>(sapling, 1),
        list_storable::<OrchardEntry>(orchard, 1),
    ensures
        parse_nullifier_map(
            seq![1u8] + (list_encoding::<SaplingEntry>(sapling) + (list_encoding::<OrchardEntry>(orchard) + rest)),
        ) == Ok::<(NullifierMapView, Seq<u8>), ReadError>(
            (
                NullifierMapView {
                    sapling: map_of_entries(sapling),
                    orchard: map_of_entries(orchard),
                    ironwood: Map::empty(),
                },
                rest,
            ),
        ),
{
    let b1 = list_encoding::<OrchardEntry>(orchard) + rest;
    let b0 = list_encoding::<SaplingEntry>(sapling) + b1;
    assert((seq![1u8] + b0).skip(1) =~= b0);
    lemma_list_round_trip::<SaplingEntry>(sapling, 1, b1);
    lemma_list_round_trip::<OrchardEntry>(orchard, 1, rest);
}

// --- notes and trees ---

/// The index of an output has two bytes in versions below the one that made it wide, and four from there on.
pub proof fn law_output_indices_became_wide(b: Seq<u8>, version: u8, wide_from: u8)
    ensures
        version >= wide_from && b.len() >= 36 ==> (parse_output_id(b, version, wide_from) matches Ok((id, rest)) && rest
            == b.skip(36) && id.txid.bytes@ == b.subrange(0, 32) && id.output_index == u32_at(b, 32)),
        version < wide_from && b.len() >= 34 ==> (parse_output_id(b, version, wide_from) matches Ok((id, rest)) && rest
            == b.skip(34) && id.txid.bytes@ == b.subrange(0, 32) && id.output_index == u16_at(b, 32)),
{
    if b.len() >= 34 {
        assert(b.take(32) =~= b.subrange(0, 32));
        crate::scan::scan_laws::lemma_array_view(b.subrange(0, 32));
        law_the_lowest_byte_comes_first(b.skip(32));
        assert(b.skip(32).skip(2) =~= b.skip(34));
    }
    if b.len() >= 36 {
        assert(b.skip(32).skip(4) =~= b.skip(36));
    }
}

/// Notes of the first two versions have narrow indices, and those of the first say nothing of ranges whose nullifiers
/// are to be fetched again.
#[verifier::rlimit(40)]
pub proof fn law_notes_of_earlier_versions<N: NoteKind>(
    note: NoteView<N>,
    version: u8,
    low: u8,
    high: u8,
    rest: Seq<u8>,
)
    requires
        version <= 1,
        note.output_id.output_index == low + 0x100 * high,
        note.key_id.account_id < 0x8000_0000,
        note.note.sound(),
        note.nullifier matches Some(nullifier) ==> N::nullifier_sound(nullifier.bytes@),
        note.memo.len() == 512,
        memo_is_valid(note.memo),
        list_storable::<BlockRange>(note.refetch_nullifier_ranges, 0),
        version == 0 ==> note.refetch_nullifier_ranges.len() == 0,
    ensures
        parse_note::<N>(
            seq![version] + (note.output_id.txid.bytes@ + (seq![low, high] + (key_encoding(note.key_id) + (
            note.note.parts_encoding() + (optional_encoding::<Nullifier>(note.nullifier) + (optional_encoding::<u64>(
                note.position,
            ) + (note.memo + (optional_encoding::<TxId>(note.spending_transaction) + if version == 0 {
                rest
            } else {
                list_encoding::<BlockRange>(note.refetch_nullifier_ranges) + rest
            })))))))),
        ) == Ok::<(NoteView<N>, Seq<u8>), ReadError>((note, rest)),
{
    let b9 = if version == 0 {
        rest
    } else {
        list_encoding::<BlockRange>(note.refetch_nullifier_ranges) + rest
    };
    let b8 = optional_encoding::<TxId>(note.spending_transaction) + b9;
    let b7 = note.memo + b8;
    let b6 = optional_encoding::<u64>(note.position) + b7;
    let b5 = optional_encoding::<Nullifier>(note.nullifier) + b6;
    let b4 = note.note.parts_encoding() + b5;
    let b3 = key_encoding(note.key_id) + b4;
    let b2 = seq![low, high] + b3;
    let b1 = note.output_id.txid.bytes@ + b2;
    assert((seq![version] + b1).skip(1) =~= b1);
    lemma_bytes_round_trip(note.output_id.txid.bytes@, b2);
    lemma_array_of(note.output_id.txid.bytes);
    law_the_lowest_byte_comes_first(b2);
    assert(b2.skip(2) =~= b3);
    lemma_key_round_trip(note.key_id, b4);
    note.note.parts_round_trip(b5);
    lemma_optional_round_trip::<Nullifier>(note.nullifier, 0, b6);
    lemma_optional_round_trip::<u64>(note.position, 0, b7);
    lemma_bytes_round_trip(note.memo, b8);
    lemma_optional_round_trip::<TxId>(note.spending_transaction, 0, b9);
    if version == 0 {
        assert(note.refetch_nullifier_ranges =~= Seq::empty());
    } else {
        lemma_list_round_trip::<BlockRange>(note.refetch_nullifier_ranges, 0, rest);
    }
}

/// The first version of the trees has none of the third pool, which begins empty with a checkpoint below all blocks.
pub proof fn law_trees_of_the_first_version(
    sapling: TreeView,
    orchard: TreeView,
    sapling_items: Seq<CheckpointItem>,
    orchard_items: Seq<CheckpointItem>,
    rest: Seq<u8>,
)
    requires
        tree_storable(sapling),
        tree_storable(orchard),
        !sapling.orchard,
        orchard.orchard,
        items_list(sapling_items, sapling.checkpoints),
        items_list(orchard_items, orchard.checkpoints),
        tree_encodable(sapling, sapling_items),
        tree_encodable(orchard, orchard_items),
    ensures
        ({
            let r = parse_shard_trees(
                seq![0u8] + (tree_encoding(sapling, sapling_items) + (tree_encoding(orchard, orchard_items) + rest)),
            );
            &&& r is Ok
            &&& r->Ok_0.1 == rest
            &&& r->Ok_0.0.sapling == (TreeView { retained: Set::empty(), ..sapling })
            &&& r->Ok_0.0.orchard == (TreeView { retained: Set::empty(), ..orchard })
            &&& r->Ok_0.0.ironwood.orchard
            &&& r->Ok_0.0.ironwood.shards.len() == 0
            &&& forall|id: u32| #[trigger] r->Ok_0.0.ironwood.checkpoints.contains_key(id) <==> id == 0
            &&& r->Ok_0.0.ironwood.checkpoints[0u32] == (CheckpointView { position: None, marks_removed: Set::empty() })
        }),
{
    let b1 = tree_encoding(orchard, orchard_items) + rest;
    let b0 = tree_encoding(sapling, sapling_items) + b1;
    assert((seq![0u8] + b0).skip(1) =~= b0);
    law_tree_round_trip(sapling, sapling_items, b1);
    law_tree_round_trip(orchard, orchard_items, rest);
}

/// Transactions of the first version hold no notes of the third pool.
pub proof fn law_transactions_of_the_first_version(b: Seq<u8>, version: u8, network: u8)
    requires
        parse_transaction_lists(b, version, network) is Ok,
        version == 0,
    ensures
        parse_transaction_lists(b, version, network)->Ok_0.0.ironwood_notes.len() == 0,
        parse_transaction_lists(b, version, network)->Ok_0.0.outgoing_ironwood_notes.len() == 0,
{
}

// --- keys and amounts ---

/// A key is an account, which is not hardened, and the number of a scope: external or internal.
pub proof fn law_keys_place_by_place(b: Seq<u8>)
    requires
        b.len() >= 5,
    ensures
        u32_at(b, 0) < 0x8000_0000 && b[4] <= 1 ==> (parse_key(b) matches Ok((key, rest)) && rest == b.skip(5)
            && key.account_id == u32_at(b, 0) && (key.scope is External <==> b[4] == 0) && (key.scope is Internal
            <==> b[4] == 1)),
        u32_at(b, 0) >= 0x8000_0000 || b[4] > 1 ==> (parse_key(b) matches Err(ReadError::InvalidData)),
{
    law_the_lowest_byte_comes_first(b);
    assert(b.skip(4).skip(1) =~= b.skip(5));
}

/// The key of a transparent address is an account, the number of a scope, which is external, internal or that of refunds,
/// and an index. Neither account nor index is hardened.
pub proof fn law_address_keys_place_by_place(b: Seq<u8>)
    requires
        b.len() >= 9,
    ensures
        u32_at(b, 0) < 0x8000_0000 && b[4] <= 2 && u32_at(b, 5) < 0x8000_0000 ==> (parse_address_key(b) matches Ok(
            (key, rest),
        ) && rest == b.skip(9) && key.account_id == u32_at(b, 0) && key.address_index == u32_at(b, 5) && (
        key.scope is External <==> b[4] == 0) && (key.scope is Internal <==> b[4] == 1) && (key.scope is Refund <==> b[4]
            == 2)),
        u32_at(b, 0) >= 0x8000_0000 || b[4] > 2 || u32_at(b, 5) >= 0x8000_0000 ==> (parse_address_key(b) matches Err(
            ReadError::InvalidData,
        )),
{
    law_the_lowest_byte_comes_first(b);
    assert(b.skip(4).skip(1) =~= b.skip(5));
    law_the_lowest_byte_comes_first(b.skip(5));
    assert(b.skip(5).skip(4) =~= b.skip(9));
}

/// An amount is refused exactly where it is of more money than there is.
pub proof fn law_amounts_are_of_money_that_there_is(b: Seq<u8>)
    requires
        b.len() >= 8,
    ensures
        u64_at(b, 0) <= 2_100_000_000_000_000 ==> (parse_amount(b) matches Ok((value, rest)) && value == u64_at(b, 0)
            && rest == b.skip(8)),
        u64_at(b, 0) > 2_100_000_000_000_000 ==> (parse_amount(b) matches Err(ReadError::InvalidData)),
{
    law_the_lowest_byte_comes_first(b);
}

} // verus!
