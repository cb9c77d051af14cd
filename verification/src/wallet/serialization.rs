//! Reading and writing the state of sync, the blocks and the nullifiers of a wallet.
use crate::primitives::{BlockRange, ShieldedPool, TxId};
use crate::scan_range::{ScanPriority, ScanRange};
use crate::sorted_map::{has_key, place_of, SortedMap};
use crate::wallet::codec::{
    le_bytes, lemma_bytes_round_trip, lemma_le_bytes, lemma_list_round_trip, lemma_number_round_trip, list_encodable,
    list_encoding, parse_bytes, parse_list, parse_number, parse_u8, read_list, views_of, write_list, write_slice,
    write_u32, write_u64, write_u8, Parsed, ReadError, Reader, Wire, WriteError,
};
use crate::wallet::integrity::upholds_contract;
use crate::wallet::stores::{WalletBlock, WalletBlockView};
use crate::wallet::sync_state::{no_session, InitialSyncState, ScanTarget, ScanTargets, SyncState, TreeBounds};
use vstd::prelude::*;

verus! {

// --- plain values ---

pub proof fn lemma_u32_round_trip(value: u32, rest: Seq<u8>)
    ensures
        parse_number(le_bytes(value as nat, 4) + rest, 4) == Ok::<(nat, Seq<u8>), ReadError>(
            (value as nat, rest),
        ),
        le_bytes(value as nat, 4).len() == 4,
{
    reveal_with_fuel(crate::wallet::codec::byte_values, 5);
    lemma_number_round_trip(value as nat, 4, rest);
    lemma_le_bytes(value as nat, 4);
}

pub proof fn lemma_u64_round_trip(value: u64, rest: Seq<u8>)
    ensures
        parse_number(le_bytes(value as nat, 8) + rest, 8) == Ok::<(nat, Seq<u8>), ReadError>(
            (value as nat, rest),
        ),
        le_bytes(value as nat, 8).len() == 8,
{
    reveal_with_fuel(crate::wallet::codec::byte_values, 9);
    lemma_number_round_trip(value as nat, 8, rest);
    lemma_le_bytes(value as nat, 8);
}

impl Wire for u8 {
    open spec fn parse(b: Seq<u8>, version: u8) -> Parsed<u8> {
        parse_u8(b)
    }

    open spec fn encoding(value: u8) -> Seq<u8> {
        seq![value]
    }

    open spec fn encodable(value: u8) -> bool {
        true
    }

    open spec fn storable(value: u8, context: u8) -> bool {
        true
    }

    proof fn round_trip(value: u8, context: u8, rest: Seq<u8>) {
        assert((seq![value] + rest).skip(1) =~= rest);
    }

    fn read_from(reader: &mut Reader<'_>, version: u8) -> Result<Self, ReadError> {
        reader.read_u8()
    }

    fn write_to(&self, out: &mut Vec<u8>) -> Result<(), WriteError> {
        write_u8(out, *self);
        Ok(())
    }
}

impl Wire for u64 {
    open spec fn parse(b: Seq<u8>, version: u8) -> Parsed<u64> {
        match parse_number(b, 8) {
            Ok((value, rest)) => Ok((value as u64, rest)),
            Err(error) => Err(error),
        }
    }

    open spec fn encoding(value: u64) -> Seq<u8> {
        le_bytes(value as nat, 8)
    }

    open spec fn encodable(value: u64) -> bool {
        true
    }

    open spec fn storable(value: u64, context: u8) -> bool {
        true
    }

    proof fn round_trip(value: u64, context: u8, rest: Seq<u8>) {
        lemma_u64_round_trip(value, rest);
    }

    fn read_from(reader: &mut Reader<'_>, version: u8) -> Result<Self, ReadError> {
        reader.read_u64()
    }

    fn write_to(&self, out: &mut Vec<u8>) -> Result<(), WriteError> {
        write_u64(out, *self);
        Ok(())
    }
}

impl View for BlockRange {
    type V = BlockRange;

    open spec fn view(&self) -> BlockRange {
        *self
    }
}

/// The two heights at the front.
pub open spec fn parse_heights(b: Seq<u8>) -> Parsed<BlockRange> {
    match parse_number(b, 4) {
        Err(error) => Err(error),
        Ok((start, rest)) => match parse_number(rest, 4) {
            Err(error) => Err(error),
            Ok((end, left)) => Ok((BlockRange { start: start as u32, end: end as u32 }, left)),
        },
    }
}

/// The bytes of two heights.
pub open spec fn heights_encoding(range: BlockRange) -> Seq<u8> {
    le_bytes(range.start as nat, 4) + le_bytes(range.end as nat, 4)
}

pub proof fn lemma_heights_round_trip(range: BlockRange, rest: Seq<u8>)
    ensures
        parse_heights(heights_encoding(range) + rest) == Ok::<(BlockRange, Seq<u8>), ReadError>(
            (range, rest),
        ),
{
    let tail = le_bytes(range.end as nat, 4) + rest;
    assert(heights_encoding(range) + rest =~= le_bytes(range.start as nat, 4) + tail);
    lemma_u32_round_trip(range.start, tail);
    lemma_u32_round_trip(range.end, rest);
}

pub(crate) fn read_heights(reader: &mut Reader<'_>) -> (r: Result<BlockRange, ReadError>)
    requires
        old(reader).wf(),
    ensures
        final(reader).wf(),
        match parse_heights(old(reader)@) {
            Ok((value, left)) => r matches Ok(v) && v == value && final(reader)@ == left,
            Err(error) => r matches Err(e) && e == error,
        },
{
    match reader.read_u32() {
        Err(error) => Err(error),
        Ok(start) => match reader.read_u32() {
            Err(error) => Err(error),
            Ok(end) => Ok(BlockRange { start, end }),
        },
    }
}

pub(crate) fn write_heights(range: &BlockRange, out: &mut Vec<u8>)
    ensures
        final(out)@ == old(out)@ + heights_encoding(*range),
{
    let ghost before = out@;
    write_u32(out, range.start);
    write_u32(out, range.end);
    assert(out@ =~= before + heights_encoding(*range));
}

impl Wire for BlockRange {
    open spec fn parse(b: Seq<u8>, version: u8) -> Parsed<BlockRange> {
        parse_heights(b)
    }

    open spec fn encoding(value: BlockRange) -> Seq<u8> {
        heights_encoding(value)
    }

    open spec fn encodable(value: BlockRange) -> bool {
        true
    }

    open spec fn storable(value: BlockRange, context: u8) -> bool {
        true
    }

    proof fn round_trip(value: BlockRange, context: u8, rest: Seq<u8>) {
        lemma_heights_round_trip(value, rest);
    }

    fn read_from(reader: &mut Reader<'_>, version: u8) -> Result<Self, ReadError> {
        read_heights(reader)
    }

    fn write_to(&self, out: &mut Vec<u8>) -> Result<(), WriteError> {
        write_heights(self, out);
        Ok(())
    }
}

/// The 32 bytes at the front as an array.
pub open spec fn parse_array(b: Seq<u8>) -> Parsed<[u8; 32]> {
    match parse_bytes(b, 32) {
        Err(error) => Err(error),
        Ok((bytes, rest)) => Ok((array_of(bytes), rest)),
    }
}

/// The array with the given 32 bytes.
pub open spec fn array_of(bytes: Seq<u8>) -> [u8; 32] {
    choose|a: [u8; 32]| #[trigger] a@ == bytes
}

pub proof fn lemma_array_of(a: [u8; 32])
    ensures
        array_of(a@) == a,
{
    let c = array_of(a@);
    assert(c@ == a@);
    assert(c =~= a);
}

pub proof fn lemma_array_round_trip(a: [u8; 32], rest: Seq<u8>)
    ensures
        parse_array(a@ + rest) == Ok::<([u8; 32], Seq<u8>), ReadError>((a, rest)),
{
    lemma_bytes_round_trip(a@, rest);
    lemma_array_of(a);
}

pub(crate) fn read_array(reader: &mut Reader<'_>) -> (r: Result<[u8; 32], ReadError>)
    requires
        old(reader).wf(),
    ensures
        final(reader).wf(),
        match parse_array(old(reader)@) {
            Ok((value, left)) => r matches Ok(v) && v == value && final(reader)@ == left,
            Err(error) => r matches Err(e) && e == error,
        },
{
    match reader.read_32() {
        Ok(bytes) => {
            proof {
                lemma_array_of(bytes);
            }
            Ok(bytes)
        },
        Err(error) => Err(error),
    }
}

impl View for TxId {
    type V = TxId;

    open spec fn view(&self) -> TxId {
        *self
    }
}

impl Wire for TxId {
    open spec fn parse(b: Seq<u8>, version: u8) -> Parsed<TxId> {
        match parse_array(b) {
            Ok((bytes, rest)) => Ok((TxId { bytes }, rest)),
            Err(error) => Err(error),
        }
    }

    open spec fn encoding(value: TxId) -> Seq<u8> {
        value.bytes@
    }

    open spec fn encodable(value: TxId) -> bool {
        true
    }

    open spec fn storable(value: TxId, context: u8) -> bool {
        true
    }

    proof fn round_trip(value: TxId, context: u8, rest: Seq<u8>) {
        lemma_array_round_trip(value.bytes, rest);
    }

    fn read_from(reader: &mut Reader<'_>, version: u8) -> Result<Self, ReadError> {
        match read_array(reader) {
            Ok(bytes) => Ok(TxId { bytes }),
            Err(error) => Err(error),
        }
    }

    fn write_to(&self, out: &mut Vec<u8>) -> Result<(), WriteError> {
        write_slice(out, &self.bytes);
        Ok(())
    }
}

// --- scan targets ---

impl View for ScanTarget {
    type V = ScanTarget;

    open spec fn view(&self) -> ScanTarget {
        *self
    }
}

/// The height and transaction at the front, as they stood before scan targets had a form of their own.
pub open spec fn parse_bare_target(b: Seq<u8>, narrow_scan_area: bool) -> Parsed<ScanTarget> {
    match parse_number(b, 4) {
        Err(error) => Err(error),
        Ok((height, rest)) => match <TxId as Wire>::parse(rest, 0) {
            Err(error) => Err(error),
            Ok((txid, left)) => Ok(
                (ScanTarget { block_height: height as u32, txid, narrow_scan_area }, left),
            ),
        },
    }
}

/// The scan target at the front: a version, the height, the transaction and whether the scan area is narrow.
pub open spec fn parse_scan_target(b: Seq<u8>) -> Parsed<ScanTarget> {
    match parse_u8(b) {
        Err(error) => Err(error),
        Ok((_, rest)) => match parse_bare_target(rest, false) {
            Err(error) => Err(error),
            Ok((target, after)) => match parse_u8(after) {
                Err(error) => Err(error),
                Ok((narrow, left)) => Ok(
                    (ScanTarget { narrow_scan_area: narrow != 0, ..target }, left),
                ),
            },
        },
    }
}

/// The bytes of a scan target.
pub open spec fn scan_target_encoding(target: ScanTarget) -> Seq<u8> {
    seq![0u8] + le_bytes(target.block_height as nat, 4) + target.txid.bytes@ + seq![
        if target.narrow_scan_area {
            1u8
        } else {
            0u8
        },
    ]
}

/// A scan target that was written is read back.
pub proof fn law_scan_target_round_trip(target: ScanTarget, rest: Seq<u8>)
    ensures
        parse_scan_target(scan_target_encoding(target) + rest) == Ok::<
            (ScanTarget, Seq<u8>),
            ReadError,
        >((target, rest)),
{
    let flag = seq![
        if target.narrow_scan_area {
            1u8
        } else {
            0u8
        },
    ];
    let after_txid = flag + rest;
    let after_height = target.txid.bytes@ + after_txid;
    let after_version = le_bytes(target.block_height as nat, 4) + after_height;
    let all = scan_target_encoding(target) + rest;
    assert(all =~= seq![0u8] + after_version);
    assert(all.skip(1) =~= after_version);
    lemma_u32_round_trip(target.block_height, after_height);
    lemma_array_round_trip(target.txid.bytes, after_txid);
    assert(after_txid.skip(1) =~= rest);
}

pub(crate) fn read_bare_target(reader: &mut Reader<'_>, narrow_scan_area: bool) -> (r: Result<
    ScanTarget,
    ReadError,
>)
    requires
        old(reader).wf(),
    ensures
        final(reader).wf(),
        match parse_bare_target(old(reader)@, narrow_scan_area) {
            Ok((value, left)) => r matches Ok(v) && v == value && final(reader)@ == left,
            Err(error) => r matches Err(e) && e == error,
        },
{
    match reader.read_u32() {
        Err(error) => Err(error),
        Ok(block_height) => match TxId::read_from(reader, 0) {
            Err(error) => Err(error),
            Ok(txid) => Ok(ScanTarget { block_height, txid, narrow_scan_area }),
        },
    }
}

impl ScanTarget {
    /// The version that is written.
    pub fn serialized_version() -> (r: u8)
        ensures
            r == 0,
    {
        0
    }

    /// Reads a scan target.
    pub fn read(reader: &mut Reader<'_>) -> (r: Result<Self, ReadError>)
        requires
            old(reader).wf(),
        ensures
            final(reader).wf(),
            match parse_scan_target(old(reader)@) {
                Ok((value, left)) => r matches Ok(v) && v == value && final(reader)@ == left,
                Err(error) => r matches Err(e) && e == error,
            },
    {
        if let Err(error) = reader.read_u8() {
            return Err(error);
        }
        match read_bare_target(reader, false) {
            Err(error) => Err(error),
            Ok(target) => match reader.read_u8() {
                Err(error) => Err(error),
                Ok(narrow) => Ok(
                    ScanTarget {
                        block_height: target.block_height,
                        txid: target.txid,
                        narrow_scan_area: narrow != 0,
                    },
                ),
            },
        }
    }

    /// Writes the scan target.
    pub fn write(&self, out: &mut Vec<u8>)
        ensures
            final(out)@ == old(out)@ + scan_target_encoding(*self),
    {
        let ghost before = out@;
        write_u8(out, Self::serialized_version());
        write_u32(out, self.block_height);
        write_slice(out, &self.txid.bytes);
        write_u8(
            out,
            if self.narrow_scan_area {
                1
            } else {
                0
            },
        );
        assert(out@ =~= before + scan_target_encoding(*self));
    }
}

/// Scan targets as they stand in the sync state: before version 1 all of them were narrow.
impl Wire for ScanTarget {
    open spec fn parse(b: Seq<u8>, version: u8) -> Parsed<ScanTarget> {
        if version >= 1 {
            parse_scan_target(b)
        } else {
            parse_bare_target(b, true)
        }
    }

    open spec fn encoding(value: ScanTarget) -> Seq<u8> {
        scan_target_encoding(value)
    }

    open spec fn encodable(value: ScanTarget) -> bool {
        true
    }

    open spec fn storable(value: ScanTarget, context: u8) -> bool {
        context >= 1
    }

    proof fn round_trip(value: ScanTarget, context: u8, rest: Seq<u8>) {
        law_scan_target_round_trip(value, rest);
    }

    fn read_from(reader: &mut Reader<'_>, version: u8) -> Result<Self, ReadError> {
        if version >= 1 {
            ScanTarget::read(reader)
        } else {
            read_bare_target(reader, true)
        }
    }

    fn write_to(&self, out: &mut Vec<u8>) -> Result<(), WriteError> {
        self.write(out);
        Ok(())
    }
}

// --- scan ranges ---

/// The priority that a byte stands for in a sync state of the given version.
///
/// Version 2 brought ranges that are scanned without mapping, and version 3 ranges that refetch nullifiers.
pub open spec fn priority_of_byte(byte: u8, version: u8) -> Option<ScanPriority> {
    let in_version_3: int = if version >= 3 {
        byte as int
    } else if version == 2 {
        byte + 1
    } else if byte <= 1 {
        byte + 1
    } else {
        byte + 2
    };
    if in_version_3 == 0 {
        Some(ScanPriority::RefetchingNullifiers)
    } else if in_version_3 == 1 {
        Some(ScanPriority::Scanning)
    } else if in_version_3 == 2 {
        Some(ScanPriority::Scanned)
    } else if in_version_3 == 3 {
        Some(ScanPriority::ScannedWithoutMapping)
    } else if in_version_3 == 4 {
        Some(ScanPriority::Historic)
    } else if in_version_3 == 5 {
        Some(ScanPriority::OpenAdjacent)
    } else if in_version_3 == 6 {
        Some(ScanPriority::FoundNote)
    } else if in_version_3 == 7 {
        Some(ScanPriority::ChainTip)
    } else if in_version_3 == 8 {
        Some(ScanPriority::Verify)
    } else {
        None
    }
}

fn decode_priority(byte: u8, version: u8) -> (r: Option<ScanPriority>)
    ensures
        r == priority_of_byte(byte, version),
{
    if version >= 3 {
        match byte {
            0 => Some(ScanPriority::RefetchingNullifiers),
            1 => Some(ScanPriority::Scanning),
            2 => Some(ScanPriority::Scanned),
            3 => Some(ScanPriority::ScannedWithoutMapping),
            4 => Some(ScanPriority::Historic),
            5 => Some(ScanPriority::OpenAdjacent),
            6 => Some(ScanPriority::FoundNote),
            7 => Some(ScanPriority::ChainTip),
            8 => Some(ScanPriority::Verify),
            _ => None,
        }
    } else if version == 2 {
        match byte {
            0 => Some(ScanPriority::Scanning),
            1 => Some(ScanPriority::Scanned),
            2 => Some(ScanPriority::ScannedWithoutMapping),
            3 => Some(ScanPriority::Historic),
            4 => Some(ScanPriority::OpenAdjacent),
            5 => Some(ScanPriority::FoundNote),
            6 => Some(ScanPriority::ChainTip),
            7 => Some(ScanPriority::Verify),
            _ => None,
        }
    } else {
        match byte {
            0 => Some(ScanPriority::Scanning),
            1 => Some(ScanPriority::Scanned),
            2 => Some(ScanPriority::Historic),
            3 => Some(ScanPriority::OpenAdjacent),
            4 => Some(ScanPriority::FoundNote),
            5 => Some(ScanPriority::ChainTip),
            6 => Some(ScanPriority::Verify),
            _ => None,
        }
    }
}

impl View for ScanRange {
    type V = ScanRange;

    open spec fn view(&self) -> ScanRange {
        *self
    }
}

impl Wire for ScanRange {
    open spec fn parse(b: Seq<u8>, version: u8) -> Parsed<ScanRange> {
        match parse_heights(b) {
            Err(error) => Err(error),
            Ok((block_range, rest)) => match parse_u8(rest) {
                Err(error) => Err(error),
                Ok((byte, left)) => match priority_of_byte(byte, version) {
                    None => Err(ReadError::InvalidData),
                    Some(priority) => if block_range.start > block_range.end {
                        Err(ReadError::InvalidData)
                    } else {
                        Ok((ScanRange { block_range, priority }, left))
                    },
                },
            },
        }
    }

    open spec fn encoding(value: ScanRange) -> Seq<u8> {
        heights_encoding(value.block_range) + seq![value.priority.level() as u8]
    }

    open spec fn encodable(value: ScanRange) -> bool {
        true
    }

    open spec fn storable(value: ScanRange, context: u8) -> bool {
        context >= 3 && value.block_range.start <= value.block_range.end
    }

    proof fn round_trip(value: ScanRange, context: u8, rest: Seq<u8>) {
        let byte = value.priority.level() as u8;
        let tail = seq![byte] + rest;
        assert(Self::encoding(value) + rest =~= heights_encoding(value.block_range) + tail);
        lemma_heights_round_trip(value.block_range, tail);
        assert(tail.skip(1) =~= rest);
        assert(priority_of_byte(byte, context) == Some(value.priority));
    }

    fn read_from(reader: &mut Reader<'_>, version: u8) -> Result<Self, ReadError> {
        match read_heights(reader) {
            Err(error) => Err(error),
            Ok(block_range) => match reader.read_u8() {
                Err(error) => Err(error),
                Ok(byte) => match decode_priority(byte, version) {
                    None => Err(ReadError::InvalidData),
                    Some(priority) => if block_range.start > block_range.end {
                        Err(ReadError::InvalidData)
                    } else {
                        Ok(ScanRange { block_range, priority })
                    },
                },
            },
        }
    }

    fn write_to(&self, out: &mut Vec<u8>) -> Result<(), WriteError> {
        let ghost before = out@;
        write_heights(&self.block_range, out);
        write_u8(out, self.priority.rank());
        assert(out@ =~= before + Self::encoding(*self));
        Ok(())
    }
}

// --- the sync state ---

/// What a wallet file says of the state of sync.
pub struct SyncStateView {
    pub scan_ranges: Seq<ScanRange>,
    pub sapling_shard_ranges: Seq<BlockRange>,
    pub orchard_shard_ranges: Seq<BlockRange>,
    pub ironwood_shard_ranges: Seq<BlockRange>,
    pub scan_targets: Set<ScanTarget>,
}

/// Whether `state` is what a wallet file said, at the beginning of a session.
pub open spec fn restored(state: &SyncState, view: SyncStateView) -> bool {
    &&& state.scan_ranges@ == view.scan_ranges
    &&& state.sapling_shard_ranges@ == view.sapling_shard_ranges
    &&& state.orchard_shard_ranges@ == view.orchard_shard_ranges
    &&& state.ironwood_shard_ranges@ == view.ironwood_shard_ranges
    &&& state.scan_targets.wf()
    &&& state.scan_targets@.dom() == view.scan_targets
    &&& state.initial_sync_state == no_session()
}

/// Whether the ranges uphold the contract of the sync state.
pub open spec fn ranges_uphold_contract(view: SyncStateView) -> bool {
    &&& crate::scan_range::contiguous(view.scan_ranges)
    &&& crate::wallet::integrity::shards_ordered(view.sapling_shard_ranges)
    &&& crate::wallet::integrity::shards_ordered(view.orchard_shard_ranges)
    &&& crate::wallet::integrity::shards_ordered(view.ironwood_shard_ranges)
}

/// The shard ranges at the front, or none in a version that has no such pool.
pub open spec fn parse_pool_ranges(b: Seq<u8>, present: bool) -> Parsed<Seq<BlockRange>> {
    if present {
        parse_list::<BlockRange>(b, 0)
    } else {
        Ok((Seq::empty(), b))
    }
}

/// The lists of a sync state, without a judgement on them.
pub open spec fn parse_state_lists(b: Seq<u8>, version: u8) -> Parsed<SyncStateView> {
    match parse_list::<ScanRange>(b, version) {
        Err(error) => Err(error),
        Ok((scan_ranges, b1)) => match parse_list::<BlockRange>(b1, 0) {
            Err(error) => Err(error),
            Ok((sapling_shard_ranges, b2)) => match parse_list::<BlockRange>(b2, 0) {
                Err(error) => Err(error),
                Ok((orchard_shard_ranges, b3)) => match parse_pool_ranges(b3, version >= 4) {
                    Err(error) => Err(error),
                    Ok((ironwood_shard_ranges, b4)) => match parse_list::<ScanTarget>(b4, version) {
                        Err(error) => Err(error),
                        Ok((targets, left)) => Ok(
                            (
                                SyncStateView {
                                    scan_ranges,
                                    sapling_shard_ranges,
                                    orchard_shard_ranges,
                                    ironwood_shard_ranges,
                                    scan_targets: targets.to_set(),
                                },
                                left,
                            ),
                        ),
                    },
                },
            },
        },
    }
}

/// The sync state at the front. Ranges that break the contract of the sync state are refused.
pub open spec fn parse_sync_state(b: Seq<u8>) -> Parsed<SyncStateView> {
    match parse_u8(b) {
        Err(error) => Err(error),
        Ok((version, rest)) => match parse_state_lists(rest, version) {
            Err(error) => Err(error),
            Ok((view, left)) => if ranges_uphold_contract(view) {
                Ok((view, left))
            } else {
                Err(ReadError::InvalidData)
            },
        },
    }
}

/// The scan targets of a state in their order.
pub open spec fn targets_listed(state: &SyncState) -> Seq<ScanTarget> {
    Seq::new(state.scan_targets.listed().len(), |i: int| state.scan_targets.listed()[i].0)
}

/// Whether no list of the state is too long to be written.
pub open spec fn state_encodable(state: &SyncState) -> bool {
    &&& list_encodable::<ScanRange>(state.scan_ranges@)
    &&& list_encodable::<BlockRange>(state.sapling_shard_ranges@)
    &&& list_encodable::<BlockRange>(state.orchard_shard_ranges@)
    &&& list_encodable::<BlockRange>(state.ironwood_shard_ranges@)
    &&& list_encodable::<ScanTarget>(targets_listed(state))
}

/// The bytes of a sync state.
pub open spec fn state_encoding(state: &SyncState) -> Seq<u8> {
    seq![4u8] + list_encoding::<ScanRange>(state.scan_ranges@) + list_encoding::<BlockRange>(
        state.sapling_shard_ranges@,
    ) + list_encoding::<BlockRange>(state.orchard_shard_ranges@) + list_encoding::<BlockRange>(
        state.ironwood_shard_ranges@,
    ) + list_encoding::<ScanTarget>(targets_listed(state))
}

/// A sync state that upholds its contract is read back as it was written.
#[verifier::rlimit(40)]
pub proof fn law_sync_state_round_trip(state: &SyncState, rest: Seq<u8>)
    requires
        upholds_contract(state),
        state.scan_targets.wf(),
        state_encodable(state),
    ensures
        parse_sync_state(state_encoding(state) + rest) == Ok::<
            (SyncStateView, Seq<u8>),
            ReadError,
        >(
            (
                SyncStateView {
                    scan_ranges: state.scan_ranges@,
                    sapling_shard_ranges: state.sapling_shard_ranges@,
                    orchard_shard_ranges: state.orchard_shard_ranges@,
                    ironwood_shard_ranges: state.ironwood_shard_ranges@,
                    scan_targets: state.scan_targets@.dom(),
                },
                rest,
            ),
        ),
{
    let targets = targets_listed(state);
    let e1 = list_encoding::<ScanRange>(state.scan_ranges@);
    let e2 = list_encoding::<BlockRange>(state.sapling_shard_ranges@);
    let e3 = list_encoding::<BlockRange>(state.orchard_shard_ranges@);
    let e4 = list_encoding::<BlockRange>(state.ironwood_shard_ranges@);
    let e5 = list_encoding::<ScanTarget>(targets);
    let all = state_encoding(state) + rest;
    assert(all =~= seq![4u8] + (e1 + (e2 + (e3 + (e4 + (e5 + rest))))));
    assert(all.skip(1) =~= e1 + (e2 + (e3 + (e4 + (e5 + rest)))));
    assert forall|i: int| 0 <= i < state.scan_ranges@.len() implies <ScanRange as Wire>::storable(
        #[trigger] state.scan_ranges@[i],
        4,
    ) by {
        assert(state.scan_ranges@[i].covers_blocks());
    }
    lemma_list_round_trip::<ScanRange>(state.scan_ranges@, 4, e2 + (e3 + (e4 + (e5 + rest))));
    lemma_list_round_trip::<BlockRange>(state.sapling_shard_ranges@, 0, e3 + (e4 + (e5 + rest)));
    lemma_list_round_trip::<BlockRange>(state.orchard_shard_ranges@, 0, e4 + (e5 + rest));
    lemma_list_round_trip::<BlockRange>(state.ironwood_shard_ranges@, 0, e5 + rest);
    lemma_list_round_trip::<ScanTarget>(targets, 4, rest);
    state.scan_targets.lemma_listed();
    assert(targets.to_set() =~= state.scan_targets@.dom()) by {
        assert forall|t: ScanTarget| targets.to_set().contains(t)
            <==> state.scan_targets@.dom().contains(t) by {
            if targets.contains(t) {
                let i = choose|i: int| 0 <= i < targets.len() && targets[i] == t;
                assert(state.scan_targets.listed()[i].0 == t);
            }
            if state.scan_targets@.dom().contains(t) {
                let p = place_of(state.scan_targets.listed(), t);
                assert(has_key(state.scan_targets.listed(), t));
                assert(targets[p] == t);
            }
        }
    }
    assert(crate::wallet::integrity::shards_ordered(state.shards_of(ShieldedPool::Sapling)));
    assert(crate::wallet::integrity::shards_ordered(state.shards_of(ShieldedPool::Orchard)));
    assert(crate::wallet::integrity::shards_ordered(state.shards_of(ShieldedPool::Ironwood)));
}

/// The set of the listed targets.
fn collect_targets(list: &Vec<ScanTarget>) -> (r: ScanTargets)
    ensures
        r.wf(),
        r@.dom() == list@.to_set(),
{
    let mut targets: ScanTargets = SortedMap::new();
    let mut i: usize = 0;
    assert(targets@.dom() =~= list@.take(0).to_set());
    while i < list.len()
        invariant
            i <= list@.len(),
            targets.wf(),
            targets@.dom() == list@.take(i as int).to_set(),
        decreases list@.len() - i,
    {
        let ghost before = targets@.dom();
        targets.insert(list[i], ());
        proof {
            let next = list@.take(i + 1);
            assert(next =~= list@.take(i as int).push(list@[i as int]));
            assert forall|t: ScanTarget| #[trigger]
                next.to_set().contains(t) == before.insert(list@[i as int]).contains(t) by {
                let had = list@.take(i as int);
                if next.contains(t) {
                    let j = choose|j: int| 0 <= j < next.len() && next[j] == t;
                    if j < i {
                        assert(had[j] == t);
                    }
                }
                if had.contains(t) {
                    let j = choose|j: int| 0 <= j < had.len() && had[j] == t;
                    assert(next[j] == t);
                }
                assert(next[i as int] == list@[i as int]);
            }
            assert(targets@.dom() == before.insert(list@[i as int]));
            assert(before.insert(list@[i as int]) =~= next.to_set());
        }
        i = i + 1;
    }
    assert(list@.take(i as int) =~= list@);
    targets
}

pub proof fn lemma_views_of_ranges(ranges: Seq<BlockRange>)
    ensures
        views_of(ranges) == ranges,
{
    assert(views_of(ranges) =~= ranges);
}

proof fn lemma_views_of_scan_ranges(ranges: Seq<ScanRange>)
    ensures
        views_of(ranges) == ranges,
{
    assert(views_of(ranges) =~= ranges);
}

proof fn lemma_views_of_targets(targets: Seq<ScanTarget>)
    ensures
        views_of(targets) == targets,
{
    assert(views_of(targets) =~= targets);
}

pub(crate) fn read_ranges(reader: &mut Reader<'_>) -> (r: Result<Vec<BlockRange>, ReadError>)
    requires
        old(reader).wf(),
    ensures
        final(reader).wf(),
        match parse_list::<BlockRange>(old(reader)@, 0) {
            Ok((value, left)) => r matches Ok(v) && v@ == value && final(reader)@ == left,
            Err(error) => r matches Err(e) && e == error,
        },
{
    match read_list::<BlockRange>(reader, 0) {
        Ok(list) => {
            proof {
                lemma_views_of_ranges(list@);
            }
            Ok(list)
        },
        Err(error) => Err(error),
    }
}

pub(crate) fn write_ranges(ranges: &Vec<BlockRange>, out: &mut Vec<u8>) -> (r: Result<(), WriteError>)
    ensures
        r.is_ok() == list_encodable::<BlockRange>(ranges@),
        r.is_ok() ==> final(out)@ == old(out)@ + list_encoding::<BlockRange>(ranges@),
{
    proof {
        lemma_views_of_ranges(ranges@);
    }
    write_list(ranges, out)
}

impl SyncState {
    /// The version that is written. Version 4 inserts the ironwood shard ranges after the orchard ones.
    pub fn serialized_version() -> (r: u8)
        ensures
            r == 4,
    {
        4
    }

    /// Reads the state of sync.
    ///
    /// A state that breaks its contract is refused as invalid data.
    pub fn read(reader: &mut Reader<'_>) -> (r: Result<Self, ReadError>)
        requires
            old(reader).wf(),
        ensures
            final(reader).wf(),
            match parse_sync_state(old(reader)@) {
                Ok((view, left)) => r matches Ok(state) && restored(&state, view)
                    && upholds_contract(&state) && final(reader)@ == left,
                Err(error) => r matches Err(e) && e == error,
            },
    {
        let version: u8 = match reader.read_u8() {
            Ok(version) => version,
            Err(error) => {
                return Err(error);
            },
        };
        let scan_ranges = match read_list::<ScanRange>(reader, version) {
            Ok(list) => list,
            Err(error) => {
                return Err(error);
            },
        };
        let sapling_shard_ranges = match read_ranges(reader) {
            Ok(list) => list,
            Err(error) => {
                return Err(error);
            },
        };
        let orchard_shard_ranges = match read_ranges(reader) {
            Ok(list) => list,
            Err(error) => {
                return Err(error);
            },
        };
        let ironwood_shard_ranges = if version >= 4 {
            match read_ranges(reader) {
                Ok(list) => list,
                Err(error) => {
                    return Err(error);
                },
            }
        } else {
            Vec::new()
        };
        let targets = match read_list::<ScanTarget>(reader, version) {
            Ok(list) => list,
            Err(error) => {
                return Err(error);
            },
        };
        proof {
            lemma_views_of_scan_ranges(scan_ranges@);
            lemma_views_of_targets(targets@);
            assert(version < 4 ==> ironwood_shard_ranges@ =~= Seq::empty());
        }
        let state = SyncState {
            scan_ranges,
            sapling_shard_ranges,
            orchard_shard_ranges,
            ironwood_shard_ranges,
            scan_targets: collect_targets(&targets),
            initial_sync_state: InitialSyncState::new(),
        };
        proof {
            let bounds = state.initial_sync_state.wallet_tree_bounds;
            assert forall|pool: ShieldedPool| #[trigger]
                bounds.initial_of(pool) <= bounds.final_of(pool) by {
                match pool {
                    ShieldedPool::Sapling => {},
                    ShieldedPool::Orchard => {},
                    ShieldedPool::Ironwood => {},
                }
            }
            if upholds_contract(&state) {
                assert(crate::wallet::integrity::shards_ordered(
                    state.shards_of(ShieldedPool::Sapling),
                ));
                assert(crate::wallet::integrity::shards_ordered(
                    state.shards_of(ShieldedPool::Orchard),
                ));
                assert(crate::wallet::integrity::shards_ordered(
                    state.shards_of(ShieldedPool::Ironwood),
                ));
            } else {
                assert(!(forall|pool: ShieldedPool|
                    crate::wallet::integrity::shards_ordered(#[trigger] state.shards_of(pool)))
                    || !crate::scan_range::contiguous(state.scan_ranges@));
                if crate::wallet::integrity::shards_ordered(state.sapling_shard_ranges@)
                    && crate::wallet::integrity::shards_ordered(state.orchard_shard_ranges@)
                    && crate::wallet::integrity::shards_ordered(state.ironwood_shard_ranges@) {
                    assert forall|pool: ShieldedPool|
                        crate::wallet::integrity::shards_ordered(
                            #[trigger] state.shards_of(pool),
                        ) by {
                        match pool {
                            ShieldedPool::Sapling => {},
                            ShieldedPool::Orchard => {},
                            ShieldedPool::Ironwood => {},
                        }
                    }
                }
            }
        }
        match state.validate() {
            Ok(()) => Ok(state),
            Err(_) => Err(ReadError::InvalidData),
        }
    }

    /// Writes the state of sync.
    pub fn write(&self, out: &mut Vec<u8>) -> (r: Result<(), WriteError>)
        ensures
            r.is_ok() == state_encodable(self),
            r.is_ok() ==> final(out)@ == old(out)@ + state_encoding(self),
    {
        let ghost before = out@;
        let targets = crate::sync::shards::list_targets(&self.scan_targets);
        proof {
            lemma_views_of_scan_ranges(self.scan_ranges@);
            lemma_views_of_targets(targets@);
            assert(targets@ =~= targets_listed(self));
        }
        write_u8(out, Self::serialized_version());
        if let Err(error) = write_list(&self.scan_ranges, out) {
            return Err(error);
        }
        if let Err(error) = write_ranges(&self.sapling_shard_ranges, out) {
            return Err(error);
        }
        if let Err(error) = write_ranges(&self.orchard_shard_ranges, out) {
            return Err(error);
        }
        if let Err(error) = write_ranges(&self.ironwood_shard_ranges, out) {
            return Err(error);
        }
        if let Err(error) = write_list(&targets, out) {
            return Err(error);
        }
        assert(out@ =~= before + state_encoding(self));
        Ok(())
    }
}

// --- tree bounds ---

/// The two tree sizes at the front.
pub open spec fn parse_sizes(b: Seq<u8>) -> Parsed<(u32, u32)> {
    match parse_heights(b) {
        Err(error) => Err(error),
        Ok((pair, rest)) => Ok(((pair.start, pair.end), rest)),
    }
}

/// The tree bounds at the front. Version 0 has no ironwood sizes.
pub open spec fn parse_tree_bounds(b: Seq<u8>) -> Parsed<TreeBounds> {
    match parse_u8(b) {
        Err(error) => Err(error),
        Ok((version, b0)) => match parse_sizes(b0) {
            Err(error) => Err(error),
            Ok((sapling, b1)) => match parse_sizes(b1) {
                Err(error) => Err(error),
                Ok((orchard, b2)) => {
                    let bounds = TreeBounds {
                        sapling_initial_tree_size: sapling.0,
                        sapling_final_tree_size: sapling.1,
                        orchard_initial_tree_size: orchard.0,
                        orchard_final_tree_size: orchard.1,
                        ironwood_initial_tree_size: 0,
                        ironwood_final_tree_size: 0,
                    };
                    if version == 0 {
                        Ok((bounds, b2))
                    } else {
                        match parse_sizes(b2) {
                            Err(error) => Err(error),
                            Ok((ironwood, left)) => Ok(
                                (
                                    TreeBounds {
                                        ironwood_initial_tree_size: ironwood.0,
                                        ironwood_final_tree_size: ironwood.1,
                                        ..bounds
                                    },
                                    left,
                                ),
                            ),
                        }
                    }
                },
            },
        },
    }
}

/// The bytes of tree bounds.
pub open spec fn tree_bounds_encoding(bounds: TreeBounds) -> Seq<u8> {
    seq![1u8] + le_bytes(bounds.sapling_initial_tree_size as nat, 4) + le_bytes(
        bounds.sapling_final_tree_size as nat,
        4,
    ) + le_bytes(bounds.orchard_initial_tree_size as nat, 4) + le_bytes(
        bounds.orchard_final_tree_size as nat,
        4,
    ) + le_bytes(bounds.ironwood_initial_tree_size as nat, 4) + le_bytes(
        bounds.ironwood_final_tree_size as nat,
        4,
    )
}

/// Tree bounds that were written are read back.
#[verifier::rlimit(40)]
pub proof fn law_tree_bounds_round_trip(bounds: TreeBounds, rest: Seq<u8>)
    ensures
        parse_tree_bounds(tree_bounds_encoding(bounds) + rest) == Ok::<
            (TreeBounds, Seq<u8>),
            ReadError,
        >((bounds, rest)),
{
    let s = BlockRange {
        start: bounds.sapling_initial_tree_size,
        end: bounds.sapling_final_tree_size,
    };
    let o = BlockRange {
        start: bounds.orchard_initial_tree_size,
        end: bounds.orchard_final_tree_size,
    };
    let i = BlockRange {
        start: bounds.ironwood_initial_tree_size,
        end: bounds.ironwood_final_tree_size,
    };
    let b2 = heights_encoding(i) + rest;
    let b1 = heights_encoding(o) + b2;
    let b0 = heights_encoding(s) + b1;
    let all = tree_bounds_encoding(bounds) + rest;
    assert(all =~= seq![1u8] + b0);
    assert(all.skip(1) =~= b0);
    lemma_heights_round_trip(s, b1);
    lemma_heights_round_trip(o, b2);
    lemma_heights_round_trip(i, rest);
}

impl TreeBounds {
    /// The version that is written. Version 1 appends the ironwood tree sizes.
    pub fn serialized_version() -> (r: u8)
        ensures
            r == 1,
    {
        1
    }

    /// Reads tree bounds.
    pub fn read(reader: &mut Reader<'_>) -> (r: Result<Self, ReadError>)
        requires
            old(reader).wf(),
        ensures
            final(reader).wf(),
            match parse_tree_bounds(old(reader)@) {
                Ok((value, left)) => r matches Ok(v) && v == value && final(reader)@ == left,
                Err(error) => r matches Err(e) && e == error,
            },
    {
        let version: u8 = match reader.read_u8() {
            Ok(version) => version,
            Err(error) => {
                return Err(error);
            },
        };
        let sapling = match read_heights(reader) {
            Ok(pair) => pair,
            Err(error) => {
                return Err(error);
            },
        };
        let orchard = match read_heights(reader) {
            Ok(pair) => pair,
            Err(error) => {
                return Err(error);
            },
        };
        let ironwood = if version >= 1 {
            match read_heights(reader) {
                Ok(pair) => pair,
                Err(error) => {
                    return Err(error);
                },
            }
        } else {
            BlockRange { start: 0, end: 0 }
        };
        Ok(
            TreeBounds {
                sapling_initial_tree_size: sapling.start,
                sapling_final_tree_size: sapling.end,
                orchard_initial_tree_size: orchard.start,
                orchard_final_tree_size: orchard.end,
                ironwood_initial_tree_size: ironwood.start,
                ironwood_final_tree_size: ironwood.end,
            },
        )
    }

    /// Writes the tree bounds.
    pub fn write(&self, out: &mut Vec<u8>)
        ensures
            final(out)@ == old(out)@ + tree_bounds_encoding(*self),
    {
        let ghost before = out@;
        write_u8(out, Self::serialized_version());
        write_u32(out, self.sapling_initial_tree_size);
        write_u32(out, self.sapling_final_tree_size);
        write_u32(out, self.orchard_initial_tree_size);
        write_u32(out, self.orchard_final_tree_size);
        write_u32(out, self.ironwood_initial_tree_size);
        write_u32(out, self.ironwood_final_tree_size);
        assert(out@ =~= before + tree_bounds_encoding(*self));
    }
}

// --- wallet blocks ---

/// The wallet block at the front.
pub open spec fn parse_wallet_block(b: Seq<u8>) -> Parsed<WalletBlockView> {
    match parse_u8(b) {
        Err(error) => Err(error),
        Ok((_, b0)) => match parse_number(b0, 4) {
            Err(error) => Err(error),
            Ok((height, b1)) => match parse_array(b1) {
                Err(error) => Err(error),
                Ok((block_hash, b2)) => match parse_array(b2) {
                    Err(error) => Err(error),
                    Ok((prev_hash, b3)) => match parse_number(b3, 4) {
                        Err(error) => Err(error),
                        Ok((time, b4)) => match parse_list::<TxId>(b4, 0) {
                            Err(error) => Err(error),
                            Ok((txids, b5)) => match parse_tree_bounds(b5) {
                                Err(error) => Err(error),
                                Ok((tree_bounds, left)) => Ok(
                                    (
                                        WalletBlockView {
                                            block_height: height as u32,
                                            block_hash,
                                            prev_hash,
                                            time: time as u32,
                                            txids,
                                            tree_bounds,
                                        },
                                        left,
                                    ),
                                ),
                            },
                        },
                    },
                },
            },
        },
    }
}

/// The bytes of a wallet block.
pub open spec fn wallet_block_encoding(block: WalletBlockView) -> Seq<u8> {
    seq![0u8] + le_bytes(block.block_height as nat, 4) + block.block_hash@ + block.prev_hash@
        + le_bytes(block.time as nat, 4) + list_encoding::<TxId>(block.txids)
        + tree_bounds_encoding(block.tree_bounds)
}

proof fn lemma_views_of_txids(txids: Seq<TxId>)
    ensures
        views_of(txids) == txids,
{
    assert(views_of(txids) =~= txids);
}

impl Wire for WalletBlock {
    open spec fn parse(b: Seq<u8>, version: u8) -> Parsed<WalletBlockView> {
        parse_wallet_block(b)
    }

    open spec fn encoding(value: WalletBlockView) -> Seq<u8> {
        wallet_block_encoding(value)
    }

    open spec fn encodable(value: WalletBlockView) -> bool {
        list_encodable::<TxId>(value.txids)
    }

    open spec fn storable(value: WalletBlockView, context: u8) -> bool {
        list_encodable::<TxId>(value.txids)
    }

    proof fn round_trip(value: WalletBlockView, context: u8, rest: Seq<u8>) {
        let b5 = tree_bounds_encoding(value.tree_bounds) + rest;
        let b4 = list_encoding::<TxId>(value.txids) + b5;
        let b3 = le_bytes(value.time as nat, 4) + b4;
        let b2 = value.prev_hash@ + b3;
        let b1 = value.block_hash@ + b2;
        let b0 = le_bytes(value.block_height as nat, 4) + b1;
        let all = wallet_block_encoding(value) + rest;
        assert(all =~= seq![0u8] + b0);
        assert(all.skip(1) =~= b0);
        lemma_u32_round_trip(value.block_height, b1);
        lemma_array_round_trip(value.block_hash, b2);
        lemma_array_round_trip(value.prev_hash, b3);
        lemma_u32_round_trip(value.time, b4);
        lemma_list_round_trip::<TxId>(value.txids, 0, b5);
        law_tree_bounds_round_trip(value.tree_bounds, rest);
    }

    fn read_from(reader: &mut Reader<'_>, version: u8) -> Result<Self, ReadError> {
        WalletBlock::read(reader)
    }

    fn write_to(&self, out: &mut Vec<u8>) -> Result<(), WriteError> {
        self.write(out)
    }
}

/// A wallet block that was written is read back.
pub proof fn law_wallet_block_round_trip(block: WalletBlockView, rest: Seq<u8>)
    requires
        list_encodable::<TxId>(block.txids),
    ensures
        parse_wallet_block(wallet_block_encoding(block) + rest) == Ok::<
            (WalletBlockView, Seq<u8>),
            ReadError,
        >((block, rest)),
{
    <WalletBlock as Wire>::round_trip(block, 0, rest);
}

impl WalletBlock {
    /// The version that is written.
    pub fn serialized_version() -> (r: u8)
        ensures
            r == 0,
    {
        0
    }

    /// Reads a wallet block.
    pub fn read(reader: &mut Reader<'_>) -> (r: Result<Self, ReadError>)
        requires
            old(reader).wf(),
        ensures
            final(reader).wf(),
            match parse_wallet_block(old(reader)@) {
                Ok((value, left)) => r matches Ok(v) && v@ == value && final(reader)@ == left,
                Err(error) => r matches Err(e) && e == error,
            },
    {
        if let Err(error) = reader.read_u8() {
            return Err(error);
        }
        let block_height: u32 = match reader.read_u32() {
            Ok(height) => height,
            Err(error) => {
                return Err(error);
            },
        };
        let block_hash = match read_array(reader) {
            Ok(hash) => hash,
            Err(error) => {
                return Err(error);
            },
        };
        let prev_hash = match read_array(reader) {
            Ok(hash) => hash,
            Err(error) => {
                return Err(error);
            },
        };
        let time: u32 = match reader.read_u32() {
            Ok(time) => time,
            Err(error) => {
                return Err(error);
            },
        };
        let txids = match read_list::<TxId>(reader, 0) {
            Ok(txids) => txids,
            Err(error) => {
                return Err(error);
            },
        };
        proof {
            lemma_views_of_txids(txids@);
        }
        match TreeBounds::read(reader) {
            Ok(tree_bounds) => Ok(
                WalletBlock { block_height, block_hash, prev_hash, time, txids, tree_bounds },
            ),
            Err(error) => Err(error),
        }
    }

    /// Writes the wallet block.
    pub fn write(&self, out: &mut Vec<u8>) -> (r: Result<(), WriteError>)
        ensures
            r.is_ok() == list_encodable::<TxId>(self.txids@),
            r.is_ok() ==> final(out)@ == old(out)@ + wallet_block_encoding(self@),
    {
        let ghost before = out@;
        write_u8(out, Self::serialized_version());
        write_u32(out, self.block_height);
        write_slice(out, &self.block_hash);
        write_slice(out, &self.prev_hash);
        write_u32(out, self.time);
        proof {
            lemma_views_of_txids(self.txids@);
        }
        if let Err(error) = write_list(&self.txids, out) {
            return Err(error);
        }
        self.tree_bounds.write(out);
        assert(out@ =~= before + wallet_block_encoding(self@));
        Ok(())
    }
}

} // verus!
