//! Reading and writing the coins and notes of a wallet.
use crate::outside::{
    is_jubjub_scalar, is_memo, is_orchard_note, is_orchard_nullifier, is_sapling_address, jubjub_modulus, memo_is_valid,
    orchard_note_is_valid, orchard_nullifier_is_valid, sapling_address_is_valid,
};
use crate::primitives::{BlockRange, Nullifier, OutputId, TxId};
use crate::wallet::codec::{
    le_bytes, le_value, lemma_bytes_round_trip, lemma_five_pieces, lemma_list_length, lemma_list_round_trip,
    lemma_optional_round_trip, list_encoding, optional_encoding, parse_bytes, parse_list, parse_number, parse_optional,
    parse_u8, read_optional, write_optional, write_slice, write_u32, write_u64, write_u8, Parsed, ReadError, Reader,
    Wire, WriteError, MAX_COMPACT_SIZE,
};
use crate::wallet::serialization::{
    array_of, lemma_array_of, lemma_array_round_trip, lemma_u32_round_trip, lemma_u64_round_trip, parse_array,
    read_array, read_ranges, write_ranges,
};
use crate::wallet::transaction::{
    IronwoodNoteData, KeyId, NoteView, OrchardNoteData, Rseed, SaplingNoteData, Scope, WalletNote,
};
use vstd::prelude::*;

verus! {

// --- the parts that coins and notes share ---

/// The number of accounts that a seed has.
pub const ACCOUNTS: u32 = 0x8000_0000;

/// The number of bytes of a memo.
pub const MEMO_LENGTH: usize = 512;

/// The output at the front. Its index took two bytes before version `wide_from`.
pub open spec fn parse_output_id(b: Seq<u8>, version: u8, wide_from: u8) -> Parsed<OutputId> {
    match parse_array(b) {
        Err(error) => Err(error),
        Ok((bytes, b0)) => match parse_number(
            b0,
            if version >= wide_from {
                4
            } else {
                2
            },
        ) {
            Err(error) => Err(error),
            Ok((index, left)) => Ok(
                (OutputId { txid: TxId { bytes }, output_index: index as u32 }, left),
            ),
        },
    }
}

/// The bytes of an output.
pub open spec fn output_id_encoding(output_id: OutputId) -> Seq<u8> {
    output_id.txid.bytes@ + le_bytes(output_id.output_index as nat, 4)
}

pub proof fn lemma_output_id_round_trip(output_id: OutputId, version: u8, wide_from: u8, rest: Seq<u8>)
    requires
        version >= wide_from,
    ensures
        parse_output_id(output_id_encoding(output_id) + rest, version, wide_from) == Ok::<
            (OutputId, Seq<u8>),
            ReadError,
        >((output_id, rest)),
{
    let tail = le_bytes(output_id.output_index as nat, 4) + rest;
    assert(output_id_encoding(output_id) + rest =~= output_id.txid.bytes@ + tail);
    lemma_array_round_trip(output_id.txid.bytes, tail);
    lemma_u32_round_trip(output_id.output_index, rest);
}

pub(crate) fn read_output_id(reader: &mut Reader<'_>, version: u8, wide_from: u8) -> (r: Result<OutputId, ReadError>)
    requires
        old(reader).wf(),
    ensures
        final(reader).wf(),
        match parse_output_id(old(reader)@, version, wide_from) {
            Ok((value, left)) => r matches Ok(v) && v == value && final(reader)@ == left,
            Err(error) => r matches Err(e) && e == error,
        },
{
    let bytes = match read_array(reader) {
        Ok(bytes) => bytes,
        Err(error) => {
            return Err(error);
        },
    };
    let index: Result<u32, ReadError> = if version >= wide_from {
        reader.read_u32()
    } else {
        match reader.read_u16() {
            Ok(index) => Ok(index as u32),
            Err(error) => Err(error),
        }
    };
    match index {
        Ok(output_index) => Ok(OutputId { txid: TxId { bytes }, output_index }),
        Err(error) => Err(error),
    }
}

pub(crate) fn write_output_id(output_id: &OutputId, out: &mut Vec<u8>)
    ensures
        final(out)@ == old(out)@ + output_id_encoding(*output_id),
{
    let ghost before = out@;
    write_slice(out, &output_id.txid.bytes);
    write_u32(out, output_id.output_index);
    assert(out@ =~= before + output_id_encoding(*output_id));
}

/// The account at the front.
pub open spec fn parse_account(b: Seq<u8>) -> Parsed<u32> {
    match parse_number(b, 4) {
        Err(error) => Err(error),
        Ok((account, rest)) => if account < ACCOUNTS {
            Ok((account as u32, rest))
        } else {
            Err(ReadError::InvalidData)
        },
    }
}

pub(crate) fn read_account(reader: &mut Reader<'_>) -> (r: Result<u32, ReadError>)
    requires
        old(reader).wf(),
    ensures
        final(reader).wf(),
        match parse_account(old(reader)@) {
            Ok((value, left)) => r matches Ok(v) && v == value && final(reader)@ == left,
            Err(error) => r matches Err(e) && e == error,
        },
{
    match reader.read_u32() {
        Ok(account) => if account < ACCOUNTS {
            Ok(account)
        } else {
            Err(ReadError::InvalidData)
        },
        Err(error) => Err(error),
    }
}

/// The key at the front.
pub open spec fn parse_key(b: Seq<u8>) -> Parsed<KeyId> {
    match parse_account(b) {
        Err(error) => Err(error),
        Ok((account_id, b0)) => match parse_u8(b0) {
            Err(error) => Err(error),
            Ok((number, left)) => if number == 0 {
                Ok((KeyId { account_id, scope: Scope::External }, left))
            } else if number == 1 {
                Ok((KeyId { account_id, scope: Scope::Internal }, left))
            } else {
                Err(ReadError::InvalidData)
            },
        },
    }
}

/// The bytes of a key.
pub open spec fn key_encoding(key: KeyId) -> Seq<u8> {
    le_bytes(key.account_id as nat, 4) + seq![
        match key.scope {
            Scope::External => 0u8,
            Scope::Internal => 1u8,
        },
    ]
}

pub proof fn lemma_key_round_trip(key: KeyId, rest: Seq<u8>)
    requires
        key.account_id < ACCOUNTS,
    ensures
        parse_key(key_encoding(key) + rest) == Ok::<(KeyId, Seq<u8>), ReadError>((key, rest)),
{
    let number = match key.scope {
        Scope::External => 0u8,
        Scope::Internal => 1u8,
    };
    let tail = seq![number] + rest;
    assert(key_encoding(key) + rest =~= le_bytes(key.account_id as nat, 4) + tail);
    lemma_u32_round_trip(key.account_id, tail);
    assert(tail.skip(1) =~= rest);
}

pub(crate) fn read_key(reader: &mut Reader<'_>) -> (r: Result<KeyId, ReadError>)
    requires
        old(reader).wf(),
    ensures
        final(reader).wf(),
        match parse_key(old(reader)@) {
            Ok((value, left)) => r matches Ok(v) && v == value && final(reader)@ == left,
            Err(error) => r matches Err(e) && e == error,
        },
{
    match read_account(reader) {
        Err(error) => Err(error),
        Ok(account_id) => match reader.read_u8() {
            Err(error) => Err(error),
            Ok(number) => if number == 0 {
                Ok(KeyId { account_id, scope: Scope::External })
            } else if number == 1 {
                Ok(KeyId { account_id, scope: Scope::Internal })
            } else {
                Err(ReadError::InvalidData)
            },
        },
    }
}

pub(crate) fn write_key(key: &KeyId, out: &mut Vec<u8>)
    ensures
        final(out)@ == old(out)@ + key_encoding(*key),
{
    let ghost before = out@;
    write_u32(out, key.account_id);
    match key.scope {
        Scope::External => write_u8(out, 0),
        Scope::Internal => write_u8(out, 1),
    }
    assert(out@ =~= before + key_encoding(*key));
}

/// The memo at the front.
pub open spec fn parse_memo(b: Seq<u8>) -> Parsed<Seq<u8>> {
    match parse_bytes(b, MEMO_LENGTH as nat) {
        Err(error) => Err(error),
        Ok((memo, left)) => if memo_is_valid(memo) {
            Ok((memo, left))
        } else {
            Err(ReadError::InvalidData)
        },
    }
}

pub(crate) fn read_memo(reader: &mut Reader<'_>) -> (r: Result<Vec<u8>, ReadError>)
    requires
        old(reader).wf(),
    ensures
        final(reader).wf(),
        match parse_memo(old(reader)@) {
            Ok((value, left)) => r matches Ok(v) && v@ == value && final(reader)@ == left,
            Err(error) => r matches Err(e) && e == error,
        },
{
    match reader.read_vec(MEMO_LENGTH) {
        Ok(memo) => if is_memo(memo.as_slice()) {
            Ok(memo)
        } else {
            Err(ReadError::InvalidData)
        },
        Err(error) => Err(error),
    }
}

/// The array with the given 43 bytes.
pub open spec fn address_of(bytes: Seq<u8>) -> [u8; 43] {
    choose|a: [u8; 43]| #[trigger] a@ == bytes
}

pub proof fn lemma_address_of(a: [u8; 43])
    ensures
        address_of(a@) == a,
{
    let c = address_of(a@);
    assert(c@ == a@);
    assert(c =~= a);
}

impl View for Nullifier {
    type V = Nullifier;

    open spec fn view(&self) -> Nullifier {
        *self
    }
}

impl Wire for Nullifier {
    open spec fn parse(b: Seq<u8>, version: u8) -> Parsed<Nullifier> {
        match parse_array(b) {
            Ok((bytes, rest)) => Ok((Nullifier { bytes }, rest)),
            Err(error) => Err(error),
        }
    }

    open spec fn encoding(value: Nullifier) -> Seq<u8> {
        value.bytes@
    }

    open spec fn encodable(value: Nullifier) -> bool {
        true
    }

    open spec fn storable(value: Nullifier, context: u8) -> bool {
        true
    }

    proof fn round_trip(value: Nullifier, context: u8, rest: Seq<u8>) {
        lemma_array_round_trip(value.bytes, rest);
    }

    fn read_from(reader: &mut Reader<'_>, version: u8) -> Result<Self, ReadError> {
        match read_array(reader) {
            Ok(bytes) => Ok(Nullifier { bytes }),
            Err(error) => Err(error),
        }
    }

    fn write_to(&self, out: &mut Vec<u8>) -> Result<(), WriteError> {
        write_slice(out, &self.bytes);
        Ok(())
    }
}

// --- what the pools' notes consist of ---

/// The parts of a note of one shielded pool.
pub trait NoteKind: Copy {
    /// What the bytes at the front say.
    spec fn parse_parts(b: Seq<u8>) -> Parsed<Self>;

    /// The bytes of the parts.
    spec fn parts_encoding(&self) -> Seq<u8>;

    /// Whether the parts make a note.
    spec fn sound(&self) -> bool;

    /// Whether the bytes encode a nullifier of the pool.
    spec fn nullifier_sound(bytes: Seq<u8>) -> bool;

    proof fn parts_round_trip(&self, rest: Seq<u8>)
        requires
            self.sound(),
        ensures
            Self::parse_parts(self.parts_encoding() + rest) == Ok::<(Self, Seq<u8>), ReadError>(
                (*self, rest),
            ),
    ;

    fn read_parts(reader: &mut Reader<'_>) -> (r: Result<Self, ReadError>)
        requires
            old(reader).wf(),
        ensures
            final(reader).wf(),
            match Self::parse_parts(old(reader)@) {
                Ok((value, left)) => r matches Ok(v) && v == value && v.sound() && final(reader)@ == left,
                Err(error) => r matches Err(e) && e == error,
            },
    ;

    fn write_parts(&self, out: &mut Vec<u8>)
        ensures
            final(out)@ == old(out)@ + self.parts_encoding(),
    ;

    fn is_nullifier(bytes: &[u8; 32]) -> (r: bool)
        ensures
            r == Self::nullifier_sound(bytes@),
    ;
}

impl NoteKind for SaplingNoteData {
    open spec fn parse_parts(b: Seq<u8>) -> Parsed<Self> {
        match parse_bytes(b, 43) {
            Err(error) => Err(error),
            Ok((recipient, b0)) => if !sapling_address_is_valid(recipient) {
                Err(ReadError::InvalidData)
            } else {
                match parse_number(b0, 8) {
                    Err(error) => Err(error),
                    Ok((value, b1)) => match parse_u8(b1) {
                        Err(error) => Err(error),
                        Ok((flag, b2)) => match parse_bytes(b2, 32) {
                            Err(error) => Err(error),
                            Ok((seed, left)) => if flag == 0 && le_value(seed) < jubjub_modulus() {
                                Ok(
                                    (
                                        SaplingNoteData {
                                            recipient: address_of(recipient),
                                            value: value as u64,
                                            rseed: Rseed::BeforeZip212(array_of(seed)),
                                        },
                                        left,
                                    ),
                                )
                            } else if flag == 1 {
                                Ok(
                                    (
                                        SaplingNoteData {
                                            recipient: address_of(recipient),
                                            value: value as u64,
                                            rseed: Rseed::AfterZip212(array_of(seed)),
                                        },
                                        left,
                                    ),
                                )
                            } else {
                                Err(ReadError::InvalidData)
                            },
                        },
                    },
                }
            },
        }
    }

    open spec fn parts_encoding(&self) -> Seq<u8> {
        self.recipient@ + le_bytes(self.value as nat, 8) + match self.rseed {
            Rseed::BeforeZip212(seed) => seq![0u8] + seed@,
            Rseed::AfterZip212(seed) => seq![1u8] + seed@,
        }
    }

    open spec fn sound(&self) -> bool {
        &&& sapling_address_is_valid(self.recipient@)
        &&& self.rseed matches Rseed::BeforeZip212(seed) ==> le_value(seed@) < jubjub_modulus()
    }

    open spec fn nullifier_sound(bytes: Seq<u8>) -> bool {
        true
    }

    proof fn parts_round_trip(&self, rest: Seq<u8>) {
        let (flag, seed) = match self.rseed {
            Rseed::BeforeZip212(seed) => (0u8, seed),
            Rseed::AfterZip212(seed) => (1u8, seed),
        };
        let b2 = seed@ + rest;
        let b1 = seq![flag] + b2;
        let b0 = le_bytes(self.value as nat, 8) + b1;
        assert(self.parts_encoding() + rest =~= self.recipient@ + b0);
        lemma_bytes_round_trip(self.recipient@, b0);
        lemma_u64_round_trip(self.value, b1);
        assert(b1.skip(1) =~= b2);
        lemma_bytes_round_trip(seed@, rest);
        lemma_address_of(self.recipient);
        lemma_array_of(seed);
    }

    fn read_parts(reader: &mut Reader<'_>) -> Result<Self, ReadError> {
        let recipient = match reader.read_43() {
            Ok(bytes) => bytes,
            Err(error) => {
                return Err(error);
            },
        };
        if !is_sapling_address(&recipient) {
            return Err(ReadError::InvalidData);
        }
        let value: u64 = match reader.read_u64() {
            Ok(value) => value,
            Err(error) => {
                return Err(error);
            },
        };
        let flag: u8 = match reader.read_u8() {
            Ok(flag) => flag,
            Err(error) => {
                return Err(error);
            },
        };
        let seed = match reader.read_32() {
            Ok(seed) => seed,
            Err(error) => {
                return Err(error);
            },
        };
        proof {
            lemma_address_of(recipient);
            lemma_array_of(seed);
        }
        if flag == 0 && is_jubjub_scalar(&seed) {
            Ok(SaplingNoteData { recipient, value, rseed: Rseed::BeforeZip212(seed) })
        } else if flag == 1 {
            Ok(SaplingNoteData { recipient, value, rseed: Rseed::AfterZip212(seed) })
        } else {
            Err(ReadError::InvalidData)
        }
    }

    fn write_parts(&self, out: &mut Vec<u8>) {
        let ghost before = out@;
        write_slice(out, &self.recipient);
        write_u64(out, self.value);
        match &self.rseed {
            Rseed::BeforeZip212(seed) => {
                write_u8(out, 0);
                write_slice(out, seed);
            },
            Rseed::AfterZip212(seed) => {
                write_u8(out, 1);
                write_slice(out, seed);
            },
        }
        assert(out@ =~= before + self.parts_encoding());
    }

    fn is_nullifier(bytes: &[u8; 32]) -> bool {
        true
    }
}

/// The parts of a note of the orchard protocol.
pub struct OrchardParts {
    pub recipient: [u8; 43],
    pub value: u64,
    pub rho: [u8; 32],
    pub rseed: [u8; 32],
}

impl OrchardParts {
    pub open spec fn encoding(&self) -> Seq<u8> {
        self.recipient@ + le_bytes(self.value as nat, 8) + self.rho@ + self.rseed@
    }

    /// Whether the parts make a note of the orchard pool, or of the ironwood pool.
    pub open spec fn sound(&self, ironwood: bool) -> bool {
        orchard_note_is_valid(self.recipient@, self.value, self.rho@, self.rseed@, ironwood)
    }
}

/// The parts of a note of the orchard pool, or of the ironwood pool, at the front.
pub open spec fn parse_orchard_parts(b: Seq<u8>, ironwood: bool) -> Parsed<OrchardParts> {
    match parse_bytes(b, 43) {
        Err(error) => Err(error),
        Ok((recipient, b0)) => match parse_number(b0, 8) {
            Err(error) => Err(error),
            Ok((value, b1)) => match parse_bytes(b1, 32) {
                Err(error) => Err(error),
                Ok((rho, b2)) => match parse_bytes(b2, 32) {
                    Err(error) => Err(error),
                    Ok((rseed, left)) => if orchard_note_is_valid(
                        recipient,
                        value as u64,
                        rho,
                        rseed,
                        ironwood,
                    ) {
                        Ok(
                            (
                                OrchardParts {
                                    recipient: address_of(recipient),
                                    value: value as u64,
                                    rho: array_of(rho),
                                    rseed: array_of(rseed),
                                },
                                left,
                            ),
                        )
                    } else {
                        Err(ReadError::InvalidData)
                    },
                },
            },
        },
    }
}

proof fn lemma_orchard_parts_round_trip(parts: OrchardParts, ironwood: bool, rest: Seq<u8>)
    requires
        parts.sound(ironwood),
    ensures
        parse_orchard_parts(parts.encoding() + rest, ironwood) == Ok::<
            (OrchardParts, Seq<u8>),
            ReadError,
        >((parts, rest)),
{
    let b2 = parts.rseed@ + rest;
    let b1 = parts.rho@ + b2;
    let b0 = le_bytes(parts.value as nat, 8) + b1;
    assert(parts.encoding() + rest =~= parts.recipient@ + b0);
    lemma_bytes_round_trip(parts.recipient@, b0);
    lemma_u64_round_trip(parts.value, b1);
    lemma_bytes_round_trip(parts.rho@, b2);
    lemma_bytes_round_trip(parts.rseed@, rest);
    lemma_address_of(parts.recipient);
    lemma_array_of(parts.rho);
    lemma_array_of(parts.rseed);
}

fn read_orchard_parts(reader: &mut Reader<'_>, ironwood: bool) -> (r: Result<OrchardParts, ReadError>)
    requires
        old(reader).wf(),
    ensures
        final(reader).wf(),
        match parse_orchard_parts(old(reader)@, ironwood) {
            Ok((value, left)) => r matches Ok(v) && v == value && v.sound(ironwood) && final(reader)@ == left,
            Err(error) => r matches Err(e) && e == error,
        },
{
    let recipient = match reader.read_43() {
        Ok(bytes) => bytes,
        Err(error) => {
            return Err(error);
        },
    };
    let value: u64 = match reader.read_u64() {
        Ok(value) => value,
        Err(error) => {
            return Err(error);
        },
    };
    let rho = match reader.read_32() {
        Ok(rho) => rho,
        Err(error) => {
            return Err(error);
        },
    };
    let rseed = match reader.read_32() {
        Ok(rseed) => rseed,
        Err(error) => {
            return Err(error);
        },
    };
    proof {
        lemma_address_of(recipient);
        lemma_array_of(rho);
        lemma_array_of(rseed);
    }
    if is_orchard_note(&recipient, value, &rho, &rseed, ironwood) {
        Ok(OrchardParts { recipient, value, rho, rseed })
    } else {
        Err(ReadError::InvalidData)
    }
}

fn write_orchard_parts(parts: &OrchardParts, out: &mut Vec<u8>)
    ensures
        final(out)@ == old(out)@ + parts.encoding(),
{
    let ghost before = out@;
    write_slice(out, &parts.recipient);
    write_u64(out, parts.value);
    write_slice(out, &parts.rho);
    write_slice(out, &parts.rseed);
    assert(out@ =~= before + parts.encoding());
}

impl OrchardNoteData {
    pub open spec fn parts(&self) -> OrchardParts {
        OrchardParts { recipient: self.recipient, value: self.value, rho: self.rho, rseed: self.rseed }
    }
}

impl NoteKind for OrchardNoteData {
    open spec fn parse_parts(b: Seq<u8>) -> Parsed<Self> {
        match parse_orchard_parts(b, false) {
            Err(error) => Err(error),
            Ok((parts, left)) => Ok(
                (
                    OrchardNoteData {
                        recipient: parts.recipient,
                        value: parts.value,
                        rho: parts.rho,
                        rseed: parts.rseed,
                    },
                    left,
                ),
            ),
        }
    }

    open spec fn parts_encoding(&self) -> Seq<u8> {
        self.parts().encoding()
    }

    open spec fn sound(&self) -> bool {
        self.parts().sound(false)
    }

    open spec fn nullifier_sound(bytes: Seq<u8>) -> bool {
        orchard_nullifier_is_valid(bytes)
    }

    proof fn parts_round_trip(&self, rest: Seq<u8>) {
        lemma_orchard_parts_round_trip(self.parts(), false, rest);
    }

    fn read_parts(reader: &mut Reader<'_>) -> Result<Self, ReadError> {
        match read_orchard_parts(reader, false) {
            Ok(parts) => Ok(
                OrchardNoteData {
                    recipient: parts.recipient,
                    value: parts.value,
                    rho: parts.rho,
                    rseed: parts.rseed,
                },
            ),
            Err(error) => Err(error),
        }
    }

    fn write_parts(&self, out: &mut Vec<u8>) {
        let parts = OrchardParts {
            recipient: self.recipient,
            value: self.value,
            rho: self.rho,
            rseed: self.rseed,
        };
        write_orchard_parts(&parts, out);
    }

    fn is_nullifier(bytes: &[u8; 32]) -> bool {
        is_orchard_nullifier(bytes)
    }
}

impl IronwoodNoteData {
    pub open spec fn parts(&self) -> OrchardParts {
        OrchardParts { recipient: self.recipient, value: self.value, rho: self.rho, rseed: self.rseed }
    }
}

impl NoteKind for IronwoodNoteData {
    open spec fn parse_parts(b: Seq<u8>) -> Parsed<Self> {
        match parse_orchard_parts(b, true) {
            Err(error) => Err(error),
            Ok((parts, left)) => Ok(
                (
                    IronwoodNoteData {
                        recipient: parts.recipient,
                        value: parts.value,
                        rho: parts.rho,
                        rseed: parts.rseed,
                    },
                    left,
                ),
            ),
        }
    }

    open spec fn parts_encoding(&self) -> Seq<u8> {
        self.parts().encoding()
    }

    open spec fn sound(&self) -> bool {
        self.parts().sound(true)
    }

    open spec fn nullifier_sound(bytes: Seq<u8>) -> bool {
        orchard_nullifier_is_valid(bytes)
    }

    proof fn parts_round_trip(&self, rest: Seq<u8>) {
        lemma_orchard_parts_round_trip(self.parts(), true, rest);
    }

    fn read_parts(reader: &mut Reader<'_>) -> Result<Self, ReadError> {
        match read_orchard_parts(reader, true) {
            Ok(parts) => Ok(
                IronwoodNoteData {
                    recipient: parts.recipient,
                    value: parts.value,
                    rho: parts.rho,
                    rseed: parts.rseed,
                },
            ),
            Err(error) => Err(error),
        }
    }

    fn write_parts(&self, out: &mut Vec<u8>) {
        let parts = OrchardParts {
            recipient: self.recipient,
            value: self.value,
            rho: self.rho,
            rseed: self.rseed,
        };
        write_orchard_parts(&parts, out);
    }

    fn is_nullifier(bytes: &[u8; 32]) -> bool {
        is_orchard_nullifier(bytes)
    }
}

// --- received notes ---

/// The nullifier of a note of the pool at the front, where it is there.
pub open spec fn parse_nullifier<N: NoteKind>(b: Seq<u8>) -> Parsed<Option<Nullifier>> {
    match parse_optional::<Nullifier>(b, 0) {
        Err(error) => Err(error),
        Ok((nullifier, left)) => if nullifier matches Some(nullifier) && !N::nullifier_sound(
            nullifier.bytes@,
        ) {
            Err(ReadError::InvalidData)
        } else {
            Ok((nullifier, left))
        },
    }
}

fn read_nullifier<N: NoteKind>(reader: &mut Reader<'_>) -> (r: Result<Option<Nullifier>, ReadError>)
    requires
        old(reader).wf(),
    ensures
        final(reader).wf(),
        match parse_nullifier::<N>(old(reader)@) {
            Ok((value, left)) => r matches Ok(v) && v == value && final(reader)@ == left,
            Err(error) => r matches Err(e) && e == error,
        },
{
    match read_optional::<Nullifier>(reader, 0) {
        Err(error) => Err(error),
        Ok(None) => Ok(None),
        Ok(Some(nullifier)) => if N::is_nullifier(&nullifier.bytes) {
            Ok(Some(nullifier))
        } else {
            Err(ReadError::InvalidData)
        },
    }
}

/// What follows the parts of a note: its nullifier, position, memo, spend and the ranges to fetch again.
pub struct NoteTail {
    pub nullifier: Option<Nullifier>,
    pub position: Option<u64>,
    pub memo: Seq<u8>,
    pub spending_transaction: Option<TxId>,
    pub refetch_nullifier_ranges: Seq<BlockRange>,
}

/// What follows the parts of a note in a note of the given version.
pub open spec fn parse_note_tail<N: NoteKind>(b: Seq<u8>, version: u8) -> Parsed<NoteTail> {
    match parse_nullifier::<N>(b) {
        Err(error) => Err(error),
        Ok((nullifier, b0)) => match parse_optional::<u64>(b0, 0) {
            Err(error) => Err(error),
            Ok((position, b1)) => match parse_memo(b1) {
                Err(error) => Err(error),
                Ok((memo, b2)) => match parse_optional::<TxId>(b2, 0) {
                    Err(error) => Err(error),
                    Ok((spending_transaction, b3)) => if version < 1 {
                        Ok(
                            (
                                NoteTail {
                                    nullifier,
                                    position,
                                    memo,
                                    spending_transaction,
                                    refetch_nullifier_ranges: Seq::empty(),
                                },
                                b3,
                            ),
                        )
                    } else {
                        match parse_list::<BlockRange>(b3, 0) {
                            Err(error) => Err(error),
                            Ok((refetch_nullifier_ranges, left)) => Ok(
                                (
                                    NoteTail {
                                        nullifier,
                                        position,
                                        memo,
                                        spending_transaction,
                                        refetch_nullifier_ranges,
                                    },
                                    left,
                                ),
                            ),
                        }
                    },
                },
            },
        },
    }
}

/// The received note at the front.
pub open spec fn parse_note<N: NoteKind>(b: Seq<u8>) -> Parsed<NoteView<N>> {
    match parse_u8(b) {
        Err(error) => Err(error),
        Ok((version, b0)) => match parse_output_id(b0, version, 2) {
            Err(error) => Err(error),
            Ok((output_id, b1)) => match parse_key(b1) {
                Err(error) => Err(error),
                Ok((key_id, b2)) => match N::parse_parts(b2) {
                    Err(error) => Err(error),
                    Ok((note, b3)) => match parse_note_tail::<N>(b3, version) {
                        Err(error) => Err(error),
                        Ok((tail, left)) => Ok(
                            (
                                NoteView {
                                    output_id,
                                    key_id,
                                    note,
                                    nullifier: tail.nullifier,
                                    position: tail.position,
                                    memo: tail.memo,
                                    spending_transaction: tail.spending_transaction,
                                    refetch_nullifier_ranges: tail.refetch_nullifier_ranges,
                                },
                                left,
                            ),
                        ),
                    },
                },
            },
        },
    }
}

/// The bytes of what follows the parts of a note.
pub open spec fn note_tail_encoding<N>(note: NoteView<N>) -> Seq<u8> {
    optional_encoding::<Nullifier>(note.nullifier) + optional_encoding::<u64>(note.position) + note.memo
        + optional_encoding::<TxId>(note.spending_transaction) + list_encoding::<BlockRange>(
        note.refetch_nullifier_ranges,
    )
}

/// The bytes of a received note.
pub open spec fn note_encoding<N: NoteKind>(note: NoteView<N>) -> Seq<u8> {
    seq![2u8] + output_id_encoding(note.output_id) + key_encoding(note.key_id) + note.note.parts_encoding()
        + note_tail_encoding(note)
}

/// Whether a received note is one that is read back: its account, parts, nullifier and memo are well formed.
pub open spec fn note_storable<N: NoteKind>(note: NoteView<N>) -> bool {
    &&& note.key_id.account_id < ACCOUNTS
    &&& note.note.sound()
    &&& note.nullifier matches Some(nullifier) ==> N::nullifier_sound(nullifier.bytes@)
    &&& note.memo.len() == MEMO_LENGTH
    &&& memo_is_valid(note.memo)
    &&& note.refetch_nullifier_ranges.len() <= MAX_COMPACT_SIZE
}

#[verifier::rlimit(40)]
proof fn lemma_note_tail_round_trip<N: NoteKind>(note: NoteView<N>, rest: Seq<u8>)
    requires
        note_storable(note),
    ensures
        parse_note_tail::<N>(note_tail_encoding(note) + rest, 2) == Ok::<(NoteTail, Seq<u8>), ReadError>(
            (
                NoteTail {
                    nullifier: note.nullifier,
                    position: note.position,
                    memo: note.memo,
                    spending_transaction: note.spending_transaction,
                    refetch_nullifier_ranges: note.refetch_nullifier_ranges,
                },
                rest,
            ),
        ),
{
    let t3 = list_encoding::<BlockRange>(note.refetch_nullifier_ranges) + rest;
    let t2 = optional_encoding::<TxId>(note.spending_transaction) + t3;
    let t1 = note.memo + t2;
    let t0 = optional_encoding::<u64>(note.position) + t1;
    assert(note_tail_encoding(note) + rest =~= optional_encoding::<Nullifier>(note.nullifier) + t0);
    lemma_optional_round_trip::<Nullifier>(note.nullifier, 0, t0);
    lemma_optional_round_trip::<u64>(note.position, 0, t1);
    lemma_bytes_round_trip(note.memo, t2);
    lemma_optional_round_trip::<TxId>(note.spending_transaction, 0, t3);
    lemma_list_round_trip::<BlockRange>(note.refetch_nullifier_ranges, 0, rest);
}

/// A received note that was written is read back.
#[verifier::rlimit(40)]
pub proof fn law_note_round_trip<N: NoteKind>(note: NoteView<N>, rest: Seq<u8>)
    requires
        note_storable(note),
    ensures
        parse_note::<N>(note_encoding(note) + rest) == Ok::<(NoteView<N>, Seq<u8>), ReadError>(
            (note, rest),
        ),
{
    let tail = note_tail_encoding(note) + rest;
    lemma_note_tail_round_trip(note, rest);
    let b2 = note.note.parts_encoding() + tail;
    let b1 = key_encoding(note.key_id) + b2;
    let b0 = output_id_encoding(note.output_id) + b1;
    let all = note_encoding(note) + rest;
    lemma_five_pieces(
        seq![2u8],
        output_id_encoding(note.output_id),
        key_encoding(note.key_id),
        note.note.parts_encoding(),
        note_tail_encoding(note),
        rest,
    );
    assert(all == seq![2u8] + b0);
    assert((seq![2u8] + b0).skip(1) =~= b0);
    lemma_output_id_round_trip(note.output_id, 2, 2, b1);
    lemma_key_round_trip(note.key_id, b2);
    note.note.parts_round_trip(tail);
}

proof fn lemma_head_and_five(
    before: Seq<u8>,
    head: Seq<u8>,
    a: Seq<u8>,
    b: Seq<u8>,
    c: Seq<u8>,
    d: Seq<u8>,
    e: Seq<u8>,
)
    ensures
        before + head + a + b + c + d + e == before + (head + (a + b + c + d + e)),
{
    assert(before + head + a + b + c + d + e =~= before + (head + (a + b + c + d + e)));
}

impl<N: NoteKind> WalletNote<N> {
    /// The version that is written.
    pub fn serialized_version() -> (r: u8)
        ensures
            r == 2,
    {
        2
    }

    /// Reads a received note.
    pub fn read(reader: &mut Reader<'_>) -> (r: Result<Self, ReadError>)
        requires
            old(reader).wf(),
        ensures
            final(reader).wf(),
            match parse_note::<N>(old(reader)@) {
                Ok((value, left)) => r matches Ok(v) && v@ == value && note_storable(v@)
                    && final(reader)@ == left,
                Err(error) => r matches Err(e) && e == error,
            },
    {
        let version: u8 = match reader.read_u8() {
            Ok(version) => version,
            Err(error) => {
                return Err(error);
            },
        };
        let output_id = match read_output_id(reader, version, 2) {
            Ok(output_id) => output_id,
            Err(error) => {
                return Err(error);
            },
        };
        let key_id = match read_key(reader) {
            Ok(key_id) => key_id,
            Err(error) => {
                return Err(error);
            },
        };
        let note = match N::read_parts(reader) {
            Ok(note) => note,
            Err(error) => {
                return Err(error);
            },
        };
        let nullifier = match read_nullifier::<N>(reader) {
            Ok(nullifier) => nullifier,
            Err(error) => {
                return Err(error);
            },
        };
        let position = match read_optional::<u64>(reader, 0) {
            Ok(position) => position,
            Err(error) => {
                return Err(error);
            },
        };
        let memo = match read_memo(reader) {
            Ok(memo) => memo,
            Err(error) => {
                return Err(error);
            },
        };
        let spending_transaction = match read_optional::<TxId>(reader, 0) {
            Ok(txid) => txid,
            Err(error) => {
                return Err(error);
            },
        };
        let refetch_nullifier_ranges = if version >= 1 {
            proof {
                lemma_list_length::<BlockRange>(reader@, 0);
            }
            match read_ranges(reader) {
                Ok(ranges) => ranges,
                Err(error) => {
                    return Err(error);
                },
            }
        } else {
            Vec::new()
        };
        let r = WalletNote {
            output_id,
            key_id,
            note,
            nullifier,
            position,
            memo,
            spending_transaction,
            refetch_nullifier_ranges,
        };
        assert(r@.refetch_nullifier_ranges =~= refetch_nullifier_ranges@);
        Ok(r)
    }

    /// Writes the note.
    pub fn write(&self, out: &mut Vec<u8>) -> (r: Result<(), WriteError>)
        ensures
            r.is_ok() == (self.refetch_nullifier_ranges@.len() <= MAX_COMPACT_SIZE),
            r.is_ok() ==> final(out)@ == old(out)@ + note_encoding(self@),
    {
        let ghost before = out@;
        write_u8(out, Self::serialized_version());
        write_output_id(&self.output_id, out);
        write_key(&self.key_id, out);
        self.note.write_parts(out);
        let ghost head = seq![2u8] + output_id_encoding(self.output_id) + key_encoding(self.key_id)
            + self.note.parts_encoding();
        assert(out@ =~= before + head);
        if let Err(error) = write_optional(&self.nullifier, out) {
            return Err(error);
        }
        if let Err(error) = write_optional(&self.position, out) {
            return Err(error);
        }
        write_slice(out, self.memo.as_slice());
        if let Err(error) = write_optional(&self.spending_transaction, out) {
            return Err(error);
        }
        if let Err(error) = write_ranges(&self.refetch_nullifier_ranges, out) {
            return Err(error);
        }
        proof {
            lemma_head_and_five(
                before,
                head,
                optional_encoding::<Nullifier>(self.nullifier),
                optional_encoding::<u64>(self.position),
                self.memo@,
                optional_encoding::<TxId>(self.spending_transaction),
                list_encoding::<BlockRange>(self.refetch_nullifier_ranges@),
            );
        }
        Ok(())
    }
}

impl<N: NoteKind> Wire for WalletNote<N> {
    open spec fn parse(b: Seq<u8>, context: u8) -> Parsed<NoteView<N>> {
        parse_note::<N>(b)
    }

    open spec fn encoding(value: NoteView<N>) -> Seq<u8> {
        note_encoding(value)
    }

    open spec fn encodable(value: NoteView<N>) -> bool {
        value.refetch_nullifier_ranges.len() <= MAX_COMPACT_SIZE
    }

    open spec fn storable(value: NoteView<N>, context: u8) -> bool {
        note_storable(value)
    }

    proof fn round_trip(value: NoteView<N>, context: u8, rest: Seq<u8>) {
        law_note_round_trip(value, rest);
    }

    fn read_from(reader: &mut Reader<'_>, context: u8) -> Result<Self, ReadError> {
        WalletNote::read(reader)
    }

    fn write_to(&self, out: &mut Vec<u8>) -> Result<(), WriteError> {
        self.write(out)
    }
}

} // verus!
