//! Reading and writing the nullifiers of a wallet.
use crate::outside::{is_orchard_nullifier, orchard_nullifier_is_valid};
use crate::primitives::Nullifier;
use crate::sorted_map::{has_key, place_of, OrderedKey, SortedMap};
use crate::wallet::codec::{
    lemma_list_round_trip, list_encoding, list_storable, parse_list, parse_u8, read_list, views_of, write_list,
    write_slice, write_u8, Parsed, ReadError, Reader, Wire, WriteError, MAX_COMPACT_SIZE,
};
use crate::wallet::serialization::{
    law_scan_target_round_trip, lemma_array_round_trip, parse_array, parse_bare_target, parse_scan_target, read_array,
    read_bare_target, scan_target_encoding,
};
use crate::wallet::stores::NullifierMap;
use crate::wallet::sync_state::ScanTarget;
use vstd::prelude::*;

verus! {

/// A nullifier on chain and the transaction that it is in.
#[derive(Clone, Copy, Debug, PartialEq, Eq)]
pub struct SpendEntry {
    pub nullifier: Nullifier,
    pub target: ScanTarget,
}

/// An entry of the sapling pool as it stands in a file.
#[derive(Clone, Copy, Debug, PartialEq, Eq)]
pub struct SaplingEntry {
    pub entry: SpendEntry,
}

/// An entry of the orchard or ironwood pool as it stands in a file.
#[derive(Clone, Copy, Debug, PartialEq, Eq)]
pub struct OrchardEntry {
    pub entry: SpendEntry,
}

impl View for SaplingEntry {
    type V = SpendEntry;

    open spec fn view(&self) -> SpendEntry {
        self.entry
    }
}

impl View for OrchardEntry {
    type V = SpendEntry;

    open spec fn view(&self) -> SpendEntry {
        self.entry
    }
}

/// The target of a nullifier: before version 1 it had no form of its own and was never narrow.
pub open spec fn parse_spend_target(b: Seq<u8>, version: u8) -> Parsed<ScanTarget> {
    if version >= 1 {
        parse_scan_target(b)
    } else {
        parse_bare_target(b, false)
    }
}

/// The nullifier and its target at the front.
pub open spec fn parse_entry(b: Seq<u8>, version: u8, of_orchard: bool) -> Parsed<SpendEntry> {
    match parse_array(b) {
        Err(error) => Err(error),
        Ok((bytes, rest)) => if of_orchard && !orchard_nullifier_is_valid(bytes@) {
            Err(ReadError::InvalidData)
        } else {
            match parse_spend_target(rest, version) {
                Err(error) => Err(error),
                Ok((target, left)) => Ok(
                    (SpendEntry { nullifier: Nullifier { bytes }, target }, left),
                ),
            }
        },
    }
}

/// The bytes of a nullifier and its target.
pub open spec fn entry_encoding(entry: SpendEntry) -> Seq<u8> {
    entry.nullifier.bytes@ + scan_target_encoding(entry.target)
}

proof fn lemma_entry_round_trip(entry: SpendEntry, version: u8, rest: Seq<u8>, of_orchard: bool)
    requires
        version >= 1,
        of_orchard ==> orchard_nullifier_is_valid(entry.nullifier.bytes@),
    ensures
        parse_entry(entry_encoding(entry) + rest, version, of_orchard) == Ok::<
            (SpendEntry, Seq<u8>),
            ReadError,
        >((entry, rest)),
{
    let tail = scan_target_encoding(entry.target) + rest;
    assert(entry_encoding(entry) + rest =~= entry.nullifier.bytes@ + tail);
    lemma_array_round_trip(entry.nullifier.bytes, tail);
    law_scan_target_round_trip(entry.target, rest);
}

fn read_entry(reader: &mut Reader<'_>, version: u8, of_orchard: bool) -> (r: Result<
    SpendEntry,
    ReadError,
>)
    requires
        old(reader).wf(),
    ensures
        final(reader).wf(),
        match parse_entry(old(reader)@, version, of_orchard) {
            Ok((value, left)) => r matches Ok(v) && v == value && final(reader)@ == left,
            Err(error) => r matches Err(e) && e == error,
        },
{
    let bytes = match read_array(reader) {
        Ok(bytes) => bytes,
        Err(error) => {
            return Err(error);
        },
    };
    if of_orchard && !is_orchard_nullifier(&bytes) {
        return Err(ReadError::InvalidData);
    }
    let target = if version >= 1 {
        ScanTarget::read(reader)
    } else {
        read_bare_target(reader, false)
    };
    match target {
        Ok(target) => Ok(SpendEntry { nullifier: Nullifier { bytes }, target }),
        Err(error) => Err(error),
    }
}

fn write_entry(entry: &SpendEntry, out: &mut Vec<u8>)
    ensures
        final(out)@ == old(out)@ + entry_encoding(*entry),
{
    let ghost before = out@;
    write_slice(out, &entry.nullifier.bytes);
    entry.target.write(out);
    assert(out@ =~= before + entry_encoding(*entry));
}

impl Wire for SaplingEntry {
    open spec fn parse(b: Seq<u8>, version: u8) -> Parsed<SpendEntry> {
        parse_entry(b, version, false)
    }

    open spec fn encoding(value: SpendEntry) -> Seq<u8> {
        entry_encoding(value)
    }

    open spec fn encodable(value: SpendEntry) -> bool {
        true
    }

    open spec fn storable(value: SpendEntry, context: u8) -> bool {
        context >= 1
    }

    proof fn round_trip(value: SpendEntry, context: u8, rest: Seq<u8>) {
        lemma_entry_round_trip(value, context, rest, false);
    }

    fn read_from(reader: &mut Reader<'_>, version: u8) -> Result<Self, ReadError> {
        match read_entry(reader, version, false) {
            Ok(entry) => Ok(SaplingEntry { entry }),
            Err(error) => Err(error),
        }
    }

    fn write_to(&self, out: &mut Vec<u8>) -> Result<(), WriteError> {
        write_entry(&self.entry, out);
        Ok(())
    }
}

impl Wire for OrchardEntry {
    open spec fn parse(b: Seq<u8>, version: u8) -> Parsed<SpendEntry> {
        parse_entry(b, version, true)
    }

    open spec fn encoding(value: SpendEntry) -> Seq<u8> {
        entry_encoding(value)
    }

    open spec fn encodable(value: SpendEntry) -> bool {
        true
    }

    open spec fn storable(value: SpendEntry, context: u8) -> bool {
        context >= 1 && orchard_nullifier_is_valid(value.nullifier.bytes@)
    }

    proof fn round_trip(value: SpendEntry, context: u8, rest: Seq<u8>) {
        lemma_entry_round_trip(value, context, rest, true);
    }

    fn read_from(reader: &mut Reader<'_>, version: u8) -> Result<Self, ReadError> {
        match read_entry(reader, version, true) {
            Ok(entry) => Ok(OrchardEntry { entry }),
            Err(error) => Err(error),
        }
    }

    fn write_to(&self, out: &mut Vec<u8>) -> Result<(), WriteError> {
        write_entry(&self.entry, out);
        Ok(())
    }
}

/// The map of the listed entries. Of two entries with one nullifier the last counts.
pub open spec fn map_of_entries(entries: Seq<SpendEntry>) -> Map<Nullifier, ScanTarget>
    decreases entries.len(),
{
    if entries.len() == 0 {
        Map::empty()
    } else {
        map_of_entries(entries.drop_last()).insert(entries.last().nullifier, entries.last().target)
    }
}

/// The entries of a map in their order.
pub open spec fn entries_of(map: &SortedMap<Nullifier, ScanTarget>) -> Seq<SpendEntry> {
    Seq::new(
        map.listed().len(),
        |i: int| SpendEntry { nullifier: map.listed()[i].0, target: map.listed()[i].1 },
    )
}

proof fn lemma_entries_prefix(map: &SortedMap<Nullifier, ScanTarget>, n: int)
    requires
        map.wf(),
        0 <= n <= map.listed().len(),
    ensures
        forall|k: Nullifier| #[trigger]
            map_of_entries(entries_of(map).take(n)).dom().contains(k) <==> exists|i: int|
                0 <= i < n && (#[trigger] map.listed()[i]).0 == k,
        forall|i: int|
            0 <= i < n ==> map_of_entries(entries_of(map).take(n)).dom().contains(
                (#[trigger] map.listed()[i]).0,
            ) && map_of_entries(entries_of(map).take(n))[map.listed()[i].0] == map.listed()[i].1,
    decreases n,
{
    map.lemma_listed();
    let entries = entries_of(map).take(n);
    if n > 0 {
        lemma_entries_prefix(map, n - 1);
        assert(entries.drop_last() =~= entries_of(map).take(n - 1));
        let before = map_of_entries(entries_of(map).take(n - 1));
        let after = map_of_entries(entries);
        assert forall|k: Nullifier| #[trigger] after.dom().contains(k) <==> exists|i: int|
            0 <= i < n && (#[trigger] map.listed()[i]).0 == k by {
            if after.dom().contains(k) {
                if k == map.listed()[n - 1].0 {
                    assert(map.listed()[n - 1].0 == k);
                } else {
                    assert(before.dom().contains(k));
                    let i = choose|i: int| 0 <= i < n - 1 && (#[trigger] map.listed()[i]).0 == k;
                    assert(map.listed()[i].0 == k);
                }
            }
            if exists|i: int| 0 <= i < n && (#[trigger] map.listed()[i]).0 == k {
                let i = choose|i: int| 0 <= i < n && (#[trigger] map.listed()[i]).0 == k;
                if i < n - 1 {
                    assert(before.dom().contains(map.listed()[i].0));
                }
            }
        }
        assert forall|i: int| 0 <= i < n implies after.dom().contains(
            (#[trigger] map.listed()[i]).0,
        ) && after[map.listed()[i].0] == map.listed()[i].1 by {
            if i < n - 1 {
                assert(map.listed()[i].0.rank() < map.listed()[n - 1].0.rank());
                assert(before.dom().contains(map.listed()[i].0));
            }
        }
    } else {
        assert(map_of_entries(entries) =~= Map::<Nullifier, ScanTarget>::empty());
    }
}

/// The entries of a map give the map again.
proof fn lemma_entries_give_map(map: &SortedMap<Nullifier, ScanTarget>)
    requires
        map.wf(),
    ensures
        map_of_entries(entries_of(map)) == map@,
{
    let n = map.listed().len() as int;
    lemma_entries_prefix(map, n);
    map.lemma_listed();
    assert(entries_of(map).take(n) =~= entries_of(map));
    let built = map_of_entries(entries_of(map));
    assert forall|k: Nullifier| built.dom().contains(k) <==> map@.dom().contains(k) by {
        if map@.dom().contains(k) {
            assert(has_key(map.listed(), k));
            let p = place_of(map.listed(), k);
            assert(map.listed()[p].0 == k);
        }
        if built.dom().contains(k) {
            let i = choose|i: int| 0 <= i < n && (#[trigger] map.listed()[i]).0 == k;
            assert(map@.dom().contains(map.listed()[i].0));
        }
    }
    assert forall|k: Nullifier| built.dom().contains(k) implies built[k] == map@[k] by {
        let i = choose|i: int| 0 <= i < n && (#[trigger] map.listed()[i]).0 == k;
        assert(map@[map.listed()[i].0] == map.listed()[i].1);
    }
    assert(built =~= map@);
}

fn collect_sapling(list: &Vec<SaplingEntry>) -> (r: SortedMap<Nullifier, ScanTarget>)
    ensures
        r.wf(),
        r@ == map_of_entries(views_of(list@)),
{
    let ghost values = views_of(list@);
    let mut map: SortedMap<Nullifier, ScanTarget> = SortedMap::new();
    let mut i: usize = 0;
    while i < list.len()
        invariant
            i <= list@.len(),
            values == views_of(list@),
            map.wf(),
            map@ == map_of_entries(values.take(i as int)),
        decreases list@.len() - i,
    {
        assert(values.take(i + 1).drop_last() =~= values.take(i as int));
        map.insert(list[i].entry.nullifier, list[i].entry.target);
        i = i + 1;
    }
    assert(values.take(i as int) =~= values);
    map
}

fn collect_orchard(list: &Vec<OrchardEntry>) -> (r: SortedMap<Nullifier, ScanTarget>)
    ensures
        r.wf(),
        r@ == map_of_entries(views_of(list@)),
{
    let ghost values = views_of(list@);
    let mut map: SortedMap<Nullifier, ScanTarget> = SortedMap::new();
    let mut i: usize = 0;
    while i < list.len()
        invariant
            i <= list@.len(),
            values == views_of(list@),
            map.wf(),
            map@ == map_of_entries(values.take(i as int)),
        decreases list@.len() - i,
    {
        assert(values.take(i + 1).drop_last() =~= values.take(i as int));
        map.insert(list[i].entry.nullifier, list[i].entry.target);
        i = i + 1;
    }
    assert(values.take(i as int) =~= values);
    map
}

fn list_sapling(map: &SortedMap<Nullifier, ScanTarget>) -> (r: Vec<SaplingEntry>)
    ensures
        views_of(r@) == entries_of(map),
{
    let mut list: Vec<SaplingEntry> = Vec::new();
    let mut i: usize = 0;
    while i < map.len()
        invariant
            i <= map.listed().len(),
            list@.len() == i,
            forall|k: int| 0 <= k < i ==> (#[trigger] list@[k]).entry == entries_of(map)[k],
        decreases map.listed().len() - i,
    {
        let entry = map.entry(i);
        list.push(SaplingEntry { entry: SpendEntry { nullifier: entry.0, target: entry.1 } });
        i = i + 1;
    }
    assert(views_of(list@) =~= entries_of(map));
    list
}

fn list_orchard(map: &SortedMap<Nullifier, ScanTarget>) -> (r: Vec<OrchardEntry>)
    ensures
        views_of(r@) == entries_of(map),
{
    let mut list: Vec<OrchardEntry> = Vec::new();
    let mut i: usize = 0;
    while i < map.len()
        invariant
            i <= map.listed().len(),
            list@.len() == i,
            forall|k: int| 0 <= k < i ==> (#[trigger] list@[k]).entry == entries_of(map)[k],
        decreases map.listed().len() - i,
    {
        let entry = map.entry(i);
        list.push(OrchardEntry { entry: SpendEntry { nullifier: entry.0, target: entry.1 } });
        i = i + 1;
    }
    assert(views_of(list@) =~= entries_of(map));
    list
}

/// The value of a [`NullifierMap`].
pub struct NullifierMapView {
    pub sapling: Map<Nullifier, ScanTarget>,
    pub orchard: Map<Nullifier, ScanTarget>,
    pub ironwood: Map<Nullifier, ScanTarget>,
}

impl View for NullifierMap {
    type V = NullifierMapView;

    open spec fn view(&self) -> NullifierMapView {
        NullifierMapView {
            sapling: self.sapling@,
            orchard: self.orchard@,
            ironwood: self.ironwood@,
        }
    }
}

/// The nullifier map at the front. Version 2 appends the ironwood nullifiers.
pub open spec fn parse_nullifier_map(b: Seq<u8>) -> Parsed<NullifierMapView> {
    match parse_u8(b) {
        Err(error) => Err(error),
        Ok((version, b0)) => match parse_list::<SaplingEntry>(b0, version) {
            Err(error) => Err(error),
            Ok((sapling, b1)) => match parse_list::<OrchardEntry>(b1, version) {
                Err(error) => Err(error),
                Ok((orchard, b2)) => if version < 2 {
                    Ok(
                        (
                            NullifierMapView {
                                sapling: map_of_entries(sapling),
                                orchard: map_of_entries(orchard),
                                ironwood: Map::empty(),
                            },
                            b2,
                        ),
                    )
                } else {
                    match parse_list::<OrchardEntry>(b2, version) {
                        Err(error) => Err(error),
                        Ok((ironwood, left)) => Ok(
                            (
                                NullifierMapView {
                                    sapling: map_of_entries(sapling),
                                    orchard: map_of_entries(orchard),
                                    ironwood: map_of_entries(ironwood),
                                },
                                left,
                            ),
                        ),
                    }
                },
            },
        },
    }
}

/// The bytes of a nullifier map.
pub open spec fn nullifier_map_encoding(map: &NullifierMap) -> Seq<u8> {
    seq![2u8] + list_encoding::<SaplingEntry>(entries_of(&map.sapling)) + list_encoding::<
        OrchardEntry,
    >(entries_of(&map.orchard)) + list_encoding::<OrchardEntry>(entries_of(&map.ironwood))
}

/// Whether no pool has too many nullifiers to be written.
pub open spec fn nullifier_map_encodable(map: &NullifierMap) -> bool {
    &&& map.sapling.listed().len() <= MAX_COMPACT_SIZE
    &&& map.orchard.listed().len() <= MAX_COMPACT_SIZE
    &&& map.ironwood.listed().len() <= MAX_COMPACT_SIZE
}

/// Whether every nullifier of the map is one of its pool.
pub open spec fn nullifiers_valid(map: Map<Nullifier, ScanTarget>) -> bool {
    forall|k: Nullifier| #[trigger] map.dom().contains(k) ==> orchard_nullifier_is_valid(k.bytes@)
}

proof fn lemma_orchard_storable(map: &SortedMap<Nullifier, ScanTarget>)
    requires
        map.wf(),
        nullifiers_valid(map@),
        map.listed().len() <= MAX_COMPACT_SIZE,
    ensures
        list_storable::<OrchardEntry>(entries_of(map), 2),
{
    map.lemma_listed();
    let entries = entries_of(map);
    assert forall|i: int| 0 <= i < entries.len() implies <OrchardEntry as Wire>::storable(
        #[trigger] entries[i],
        2,
    ) by {
        assert(map@.dom().contains(map.listed()[i].0));
    }
}

/// A nullifier map that was written is read back.
pub proof fn law_nullifier_map_round_trip(map: &NullifierMap, rest: Seq<u8>)
    requires
        map.wf(),
        nullifier_map_encodable(map),
        nullifiers_valid(map.orchard@),
        nullifiers_valid(map.ironwood@),
    ensures
        parse_nullifier_map(nullifier_map_encoding(map) + rest) == Ok::<
            (NullifierMapView, Seq<u8>),
            ReadError,
        >((map@, rest)),
{
    let e1 = list_encoding::<SaplingEntry>(entries_of(&map.sapling));
    let e2 = list_encoding::<OrchardEntry>(entries_of(&map.orchard));
    let e3 = list_encoding::<OrchardEntry>(entries_of(&map.ironwood));
    let all = nullifier_map_encoding(map) + rest;
    assert(all =~= seq![2u8] + (e1 + (e2 + (e3 + rest))));
    assert(all.skip(1) =~= e1 + (e2 + (e3 + rest)));
    lemma_list_round_trip::<SaplingEntry>(entries_of(&map.sapling), 2, e2 + (e3 + rest));
    lemma_orchard_storable(&map.orchard);
    lemma_orchard_storable(&map.ironwood);
    lemma_list_round_trip::<OrchardEntry>(entries_of(&map.orchard), 2, e3 + rest);
    lemma_list_round_trip::<OrchardEntry>(entries_of(&map.ironwood), 2, rest);
    lemma_entries_give_map(&map.sapling);
    lemma_entries_give_map(&map.orchard);
    lemma_entries_give_map(&map.ironwood);
}

impl NullifierMap {
    /// The version that is written. Version 2 appends the ironwood nullifiers.
    pub fn serialized_version() -> (r: u8)
        ensures
            r == 2,
    {
        2
    }

    /// Reads a nullifier map.
    pub fn read(reader: &mut Reader<'_>) -> (r: Result<Self, ReadError>)
        requires
            old(reader).wf(),
        ensures
            final(reader).wf(),
            match parse_nullifier_map(old(reader)@) {
                Ok((value, left)) => r matches Ok(v) && v.wf() && v@ == value && final(reader)@
                    == left,
                Err(error) => r matches Err(e) && e == error,
            },
    {
        let version: u8 = match reader.read_u8() {
            Ok(version) => version,
            Err(error) => {
                return Err(error);
            },
        };
        let sapling = match read_list::<SaplingEntry>(reader, version) {
            Ok(list) => collect_sapling(&list),
            Err(error) => {
                return Err(error);
            },
        };
        let orchard = match read_list::<OrchardEntry>(reader, version) {
            Ok(list) => collect_orchard(&list),
            Err(error) => {
                return Err(error);
            },
        };
        let ironwood = if version >= 2 {
            match read_list::<OrchardEntry>(reader, version) {
                Ok(list) => collect_orchard(&list),
                Err(error) => {
                    return Err(error);
                },
            }
        } else {
            SortedMap::new()
        };
        Ok(NullifierMap { sapling, orchard, ironwood })
    }

    /// Writes the nullifier map.
    pub fn write(&self, out: &mut Vec<u8>) -> (r: Result<(), WriteError>)
        ensures
            r.is_ok() == nullifier_map_encodable(self),
            r.is_ok() ==> final(out)@ == old(out)@ + nullifier_map_encoding(self),
    {
        let ghost before = out@;
        write_u8(out, Self::serialized_version());
        if let Err(error) = write_list(&list_sapling(&self.sapling), out) {
            return Err(error);
        }
        if let Err(error) = write_list(&list_orchard(&self.orchard), out) {
            return Err(error);
        }
        if let Err(error) = write_list(&list_orchard(&self.ironwood), out) {
            return Err(error);
        }
        assert(out@ =~= before + nullifier_map_encoding(self));
        Ok(())
    }
}

} // verus!
