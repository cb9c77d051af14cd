//! Reading and writing the transactions of a wallet.
use crate::chain::{branch_of, ChainParameters, NetworkType};
use crate::outside::{
    is_transaction, memo_is_valid, read_transaction, transaction_at_front, unified_address, unified_address_form,
};
use crate::primitives::TxId;
use crate::wallet::codec::{
    le_bytes, lemma_bytes_round_trip, lemma_cut, lemma_five_pieces, lemma_list_round_trip, lemma_optional_round_trip,
    lemma_string_round_trip, list_encodable, list_encoding, list_storable, optional_encoding, parse_list, parse_number,
    parse_optional, parse_string, parse_u8, read_list, read_optional, read_string, string_encoding, views_of,
    write_list, write_optional, write_slice, write_string, write_u32, write_u64, write_u8, Parsed, ReadError, Reader,
    Wire, WriteError, MAX_COMPACT_SIZE,
};
use crate::wallet::note_serialization::{
    key_encoding, lemma_key_round_trip, lemma_output_id_round_trip, output_id_encoding, parse_account, parse_key,
    parse_memo, parse_output_id, read_account, read_key, read_memo, read_output_id, write_key, write_output_id,
    NoteKind, ACCOUNTS, MEMO_LENGTH,
};
use crate::wallet::serialization::{lemma_u32_round_trip, lemma_u64_round_trip, parse_array, read_array};
use crate::wallet::status::ConfirmationStatus;
use crate::wallet::transaction::{
    note_views, outgoing_note_views, ChainTransaction, CoinView, IronwoodNote, IronwoodNoteData, NoteView, OrchardNote,
    OrchardNoteData, OutgoingIronwoodNote, OutgoingNote, OutgoingNoteView, OutgoingOrchardNote, OutgoingSaplingNote,
    SaplingNote, SaplingNoteData, TransactionView, TransparentAddressId, TransparentCoin, TransparentScope,
    WalletTransaction,
};
use vstd::prelude::*;
use vstd::utf8::encode_utf8;

verus! {

// --- sent notes ---

/// The unified address of the network at the front, where it is there.
pub open spec fn parse_unified_address(b: Seq<u8>, network: NetworkType) -> Parsed<Option<Seq<char>>> {
    match parse_u8(b) {
        Err(error) => Err(error),
        Ok((flag, b0)) => if flag == 0 {
            Ok((None, b0))
        } else if flag == 1 {
            match parse_string(b0) {
                Err(error) => Err(error),
                Ok((text, left)) => match unified_address_form(text, network) {
                    Some(address) => Ok((Some(address), left)),
                    None => Err(ReadError::InvalidData),
                },
            }
        } else {
            Err(ReadError::InvalidInput)
        },
    }
}

/// The bytes of an address that may be there.
pub open spec fn address_encoding(address: Option<Seq<char>>) -> Seq<u8> {
    match address {
        None => seq![0u8],
        Some(address) => seq![1u8] + string_encoding(address),
    }
}

/// The sent note at the front.
pub open spec fn parse_outgoing_note<N: NoteKind>(b: Seq<u8>, network: NetworkType) -> Parsed<OutgoingNoteView<N>> {
    match parse_u8(b) {
        Err(error) => Err(error),
        Ok((version, b0)) => match parse_output_id(b0, version, 1) {
            Err(error) => Err(error),
            Ok((output_id, b1)) => match parse_key(b1) {
                Err(error) => Err(error),
                Ok((key_id, b2)) => match N::parse_parts(b2) {
                    Err(error) => Err(error),
                    Ok((note, b3)) => match parse_memo(b3) {
                        Err(error) => Err(error),
                        Ok((memo, b4)) => match parse_unified_address(b4, network) {
                            Err(error) => Err(error),
                            Ok((recipient_full_unified_address, left)) => Ok(
                                (
                                    OutgoingNoteView {
                                        output_id,
                                        key_id,
                                        note,
                                        memo,
                                        recipient_full_unified_address,
                                    },
                                    left,
                                ),
                            ),
                        },
                    },
                },
            },
        },
    }
}

/// The bytes of a sent note.
pub open spec fn outgoing_note_encoding<N: NoteKind>(note: OutgoingNoteView<N>) -> Seq<u8> {
    seq![1u8] + output_id_encoding(note.output_id) + key_encoding(note.key_id) + note.note.parts_encoding() + (note.memo
        + address_encoding(note.recipient_full_unified_address))
}

/// Whether a sent note is one that is read back for the network: its account, parts and memo are well formed, and
/// its address is in the form in which an address is written.
pub open spec fn outgoing_note_storable<N: NoteKind>(note: OutgoingNoteView<N>, network: NetworkType) -> bool {
    &&& note.key_id.account_id < ACCOUNTS
    &&& note.note.sound()
    &&& note.memo.len() == MEMO_LENGTH
    &&& memo_is_valid(note.memo)
    &&& note.recipient_full_unified_address matches Some(address) ==> {
        &&& unified_address_form(address, network) == Some(address)
        &&& encode_utf8(address).len() <= u64::MAX
    }
}

/// A sent note that was written is read back.
#[verifier::rlimit(40)]
pub proof fn law_outgoing_note_round_trip<N: NoteKind>(
    note: OutgoingNoteView<N>,
    network: NetworkType,
    rest: Seq<u8>,
)
    requires
        outgoing_note_storable(note, network),
    ensures
        parse_outgoing_note::<N>(outgoing_note_encoding(note) + rest, network) == Ok::<
            (OutgoingNoteView<N>, Seq<u8>),
            ReadError,
        >((note, rest)),
{
    let address = note.recipient_full_unified_address;
    let b4 = address_encoding(address) + rest;
    match address {
        None => {
            assert(b4.skip(1) =~= rest);
        },
        Some(text) => {
            assert(b4.skip(1) =~= string_encoding(text) + rest);
            lemma_string_round_trip(text, rest);
        },
    }
    let b3 = note.memo + address_encoding(address) + rest;
    assert(b3 =~= note.memo + b4);
    lemma_bytes_round_trip(note.memo, b4);
    let b2 = note.note.parts_encoding() + b3;
    let b1 = key_encoding(note.key_id) + b2;
    let b0 = output_id_encoding(note.output_id) + b1;
    lemma_five_pieces(
        seq![1u8],
        output_id_encoding(note.output_id),
        key_encoding(note.key_id),
        note.note.parts_encoding(),
        note.memo + address_encoding(address),
        rest,
    );
    assert(outgoing_note_encoding(note) + rest == seq![1u8] + b0);
    assert((seq![1u8] + b0).skip(1) =~= b0);
    lemma_output_id_round_trip(note.output_id, 1, 1, b1);
    lemma_key_round_trip(note.key_id, b2);
    note.note.parts_round_trip(b3);
}

impl<N: NoteKind> OutgoingNote<N> {
    /// The version that is written.
    pub fn serialized_version() -> (r: u8)
        ensures
            r == 1,
    {
        1
    }

    /// Reads a sent note of the network.
    pub fn read(reader: &mut Reader<'_>, network: NetworkType) -> (r: Result<Self, ReadError>)
        requires
            old(reader).wf(),
        ensures
            final(reader).wf(),
            match parse_outgoing_note::<N>(old(reader)@, network) {
                Ok((value, left)) => r matches Ok(v) && v@ == value && final(reader)@ == left,
                Err(error) => r matches Err(e) && e == error,
            },
    {
        let version: u8 = match reader.read_u8() {
            Ok(version) => version,
            Err(error) => {
                return Err(error);
            },
        };
        let output_id = match read_output_id(reader, version, 1) {
            Ok(output_id) => output_id,
            Err(error) => {
                return Err(error);
            },
        };
        let key_id = match read_key(reader) {
            Ok(key_id) => key_id,
            Err(error) => {
                return Err(error);
            },
        };
        let note = match N::read_parts(reader) {
            Ok(note) => note,
            Err(error) => {
                return Err(error);
            },
        };
        let memo = match read_memo(reader) {
            Ok(memo) => memo,
            Err(error) => {
                return Err(error);
            },
        };
        let flag: u8 = match reader.read_u8() {
            Ok(flag) => flag,
            Err(error) => {
                return Err(error);
            },
        };
        let recipient_full_unified_address = if flag == 0 {
            None
        } else if flag == 1 {
            match read_string(reader) {
                Ok(text) => match unified_address(text.as_str(), network) {
                    Some(address) => Some(address),
                    None => {
                        return Err(ReadError::InvalidData);
                    },
                },
                Err(error) => {
                    return Err(error);
                },
            }
        } else {
            return Err(ReadError::InvalidInput);
        };
        Ok(OutgoingNote { output_id, key_id, note, memo, recipient_full_unified_address })
    }

    /// Writes the note.
    pub fn write(&self, out: &mut Vec<u8>)
        ensures
            final(out)@ == old(out)@ + outgoing_note_encoding(self@),
    {
        let ghost before = out@;
        write_u8(out, Self::serialized_version());
        write_output_id(&self.output_id, out);
        write_key(&self.key_id, out);
        self.note.write_parts(out);
        write_slice(out, self.memo.as_slice());
        match &self.recipient_full_unified_address {
            None => write_u8(out, 0),
            Some(address) => {
                write_u8(out, 1);
                write_string(address.as_str(), out);
            },
        }
        assert(out@ =~= before + outgoing_note_encoding(self@));
    }
}

impl<N: NoteKind> Wire for OutgoingNote<N> {
    open spec fn parse(b: Seq<u8>, network: u8) -> Parsed<OutgoingNoteView<N>> {
        parse_outgoing_note::<N>(b, NetworkType::numbered(network))
    }

    open spec fn encoding(value: OutgoingNoteView<N>) -> Seq<u8> {
        outgoing_note_encoding(value)
    }

    open spec fn encodable(value: OutgoingNoteView<N>) -> bool {
        true
    }

    open spec fn storable(value: OutgoingNoteView<N>, network: u8) -> bool {
        outgoing_note_storable(value, NetworkType::numbered(network))
    }

    proof fn round_trip(value: OutgoingNoteView<N>, network: u8, rest: Seq<u8>) {
        law_outgoing_note_round_trip(value, NetworkType::numbered(network), rest);
    }

    fn read_from(reader: &mut Reader<'_>, network: u8) -> Result<Self, ReadError> {
        OutgoingNote::read(reader, NetworkType::of_number(network))
    }

    fn write_to(&self, out: &mut Vec<u8>) -> Result<(), WriteError> {
        self.write(out);
        Ok(())
    }
}

// --- coins ---

/// The greatest amount of money there is.
pub const MAX_MONEY: u64 = 2_100_000_000_000_000;

/// The number of child keys that are not hardened.
pub const CHILD_KEYS: u32 = 0x8000_0000;

/// The key of a transparent address at the front.
pub open spec fn parse_address_key(b: Seq<u8>) -> Parsed<TransparentAddressId> {
    match parse_account(b) {
        Err(error) => Err(error),
        Ok((account_id, b0)) => match parse_u8(b0) {
            Err(error) => Err(error),
            Ok((number, b1)) => if number > 2 {
                Err(ReadError::InvalidData)
            } else {
                match parse_number(b1, 4) {
                    Err(error) => Err(error),
                    Ok((index, left)) => if index < CHILD_KEYS {
                        Ok(
                            (
                                TransparentAddressId {
                                    account_id,
                                    scope: scope_numbered(number),
                                    address_index: index as u32,
                                },
                                left,
                            ),
                        )
                    } else {
                        Err(ReadError::InvalidData)
                    },
                }
            },
        },
    }
}

/// The scope that a number stands for.
pub open spec fn scope_numbered(number: u8) -> TransparentScope {
    if number == 0 {
        TransparentScope::External
    } else if number == 1 {
        TransparentScope::Internal
    } else {
        TransparentScope::Refund
    }
}

/// The bytes of the key of a transparent address.
pub open spec fn address_key_encoding(key: TransparentAddressId) -> Seq<u8> {
    le_bytes(key.account_id as nat, 4) + seq![key.scope.number()] + le_bytes(key.address_index as nat, 4)
}

proof fn lemma_address_key_round_trip(key: TransparentAddressId, rest: Seq<u8>)
    requires
        key.account_id < ACCOUNTS,
        key.address_index < CHILD_KEYS,
    ensures
        parse_address_key(address_key_encoding(key) + rest) == Ok::<
            (TransparentAddressId, Seq<u8>),
            ReadError,
        >((key, rest)),
{
    let b1 = le_bytes(key.address_index as nat, 4) + rest;
    let b0 = seq![key.scope.number()] + b1;
    assert(address_key_encoding(key) + rest =~= le_bytes(key.account_id as nat, 4) + b0);
    lemma_u32_round_trip(key.account_id, b0);
    assert(b0.skip(1) =~= b1);
    lemma_u32_round_trip(key.address_index, rest);
}

fn read_address_key(reader: &mut Reader<'_>) -> (r: Result<TransparentAddressId, ReadError>)
    requires
        old(reader).wf(),
    ensures
        final(reader).wf(),
        match parse_address_key(old(reader)@) {
            Ok((value, left)) => r matches Ok(v) && v == value && final(reader)@ == left,
            Err(error) => r matches Err(e) && e == error,
        },
{
    let account_id: u32 = match read_account(reader) {
        Ok(account_id) => account_id,
        Err(error) => {
            return Err(error);
        },
    };
    let number: u8 = match reader.read_u8() {
        Ok(number) => number,
        Err(error) => {
            return Err(error);
        },
    };
    let scope = if number == 0 {
        TransparentScope::External
    } else if number == 1 {
        TransparentScope::Internal
    } else if number == 2 {
        TransparentScope::Refund
    } else {
        return Err(ReadError::InvalidData);
    };
    match reader.read_u32() {
        Err(error) => Err(error),
        Ok(address_index) => if address_index < CHILD_KEYS {
            Ok(TransparentAddressId { account_id, scope, address_index })
        } else {
            Err(ReadError::InvalidData)
        },
    }
}

fn write_address_key(key: &TransparentAddressId, out: &mut Vec<u8>)
    ensures
        final(out)@ == old(out)@ + address_key_encoding(*key),
{
    let ghost before = out@;
    write_u32(out, key.account_id);
    write_u8(out, key.scope.to_number());
    write_u32(out, key.address_index);
    assert(out@ =~= before + address_key_encoding(*key));
}

/// The amount of money at the front.
pub open spec fn parse_amount(b: Seq<u8>) -> Parsed<u64> {
    match parse_number(b, 8) {
        Err(error) => Err(error),
        Ok((value, left)) => if value <= MAX_MONEY {
            Ok((value as u64, left))
        } else {
            Err(ReadError::InvalidData)
        },
    }
}

/// The coin at the front.
pub open spec fn parse_coin(b: Seq<u8>) -> Parsed<CoinView> {
    match parse_u8(b) {
        Err(error) => Err(error),
        Ok((version, b0)) => match parse_output_id(b0, version, 1) {
            Err(error) => Err(error),
            Ok((output_id, b1)) => match parse_address_key(b1) {
                Err(error) => Err(error),
                Ok((key_id, b2)) => match parse_string(b2) {
                    Err(error) => Err(error),
                    Ok((address, b3)) => match parse_list::<u8>(b3, 0) {
                        Err(error) => Err(error),
                        Ok((script, b4)) => match parse_amount(b4) {
                            Err(error) => Err(error),
                            Ok((value, b5)) => match parse_optional::<TxId>(b5, 0) {
                                Err(error) => Err(error),
                                Ok((spending_transaction, left)) => Ok(
                                    (
                                        CoinView {
                                            output_id,
                                            key_id,
                                            address,
                                            script,
                                            value,
                                            spending_transaction,
                                        },
                                        left,
                                    ),
                                ),
                            },
                        },
                    },
                },
            },
        },
    }
}

/// The bytes of a coin.
pub open spec fn coin_encoding(coin: CoinView) -> Seq<u8> {
    seq![1u8] + output_id_encoding(coin.output_id) + address_key_encoding(coin.key_id) + string_encoding(coin.address)
        + (list_encoding::<u8>(coin.script) + le_bytes(coin.value as nat, 8) + optional_encoding::<TxId>(
        coin.spending_transaction,
    ))
}

/// Whether a coin is one that is read back: its key and its value are well formed.
pub open spec fn coin_storable(coin: CoinView) -> bool {
    &&& coin.key_id.account_id < ACCOUNTS
    &&& coin.key_id.address_index < CHILD_KEYS
    &&& encode_utf8(coin.address).len() <= u64::MAX
    &&& coin.script.len() <= MAX_COMPACT_SIZE
    &&& coin.value <= MAX_MONEY
}

/// A coin that was written is read back.
#[verifier::rlimit(40)]
pub proof fn law_coin_round_trip(coin: CoinView, rest: Seq<u8>)
    requires
        coin_storable(coin),
    ensures
        parse_coin(coin_encoding(coin) + rest) == Ok::<(CoinView, Seq<u8>), ReadError>((coin, rest)),
{
    let b5 = optional_encoding::<TxId>(coin.spending_transaction) + rest;
    let b4 = le_bytes(coin.value as nat, 8) + b5;
    let tail = list_encoding::<u8>(coin.script) + le_bytes(coin.value as nat, 8) + optional_encoding::<TxId>(
        coin.spending_transaction,
    );
    let b3 = tail + rest;
    assert(b3 =~= list_encoding::<u8>(coin.script) + b4);
    lemma_list_round_trip::<u8>(coin.script, 0, b4);
    lemma_u64_round_trip(coin.value, b5);
    lemma_optional_round_trip::<TxId>(coin.spending_transaction, 0, rest);
    let b2 = string_encoding(coin.address) + b3;
    let b1 = address_key_encoding(coin.key_id) + b2;
    let b0 = output_id_encoding(coin.output_id) + b1;
    lemma_five_pieces(
        seq![1u8],
        output_id_encoding(coin.output_id),
        address_key_encoding(coin.key_id),
        string_encoding(coin.address),
        tail,
        rest,
    );
    assert(coin_encoding(coin) + rest == seq![1u8] + b0);
    assert((seq![1u8] + b0).skip(1) =~= b0);
    lemma_output_id_round_trip(coin.output_id, 1, 1, b1);
    lemma_address_key_round_trip(coin.key_id, b2);
    lemma_string_round_trip(coin.address, b3);
}

proof fn lemma_views_of_bytes(bytes: Seq<u8>)
    ensures
        views_of(bytes) == bytes,
{
    assert(views_of(bytes) =~= bytes);
}

impl TransparentCoin {
    /// The version that is written.
    pub fn serialized_version() -> (r: u8)
        ensures
            r == 1,
    {
        1
    }

    /// Reads a coin.
    pub fn read(reader: &mut Reader<'_>) -> (r: Result<Self, ReadError>)
        requires
            old(reader).wf(),
        ensures
            final(reader).wf(),
            match parse_coin(old(reader)@) {
                Ok((value, left)) => r matches Ok(v) && v@ == value && final(reader)@ == left,
                Err(error) => r matches Err(e) && e == error,
            },
    {
        let version: u8 = match reader.read_u8() {
            Ok(version) => version,
            Err(error) => {
                return Err(error);
            },
        };
        let output_id = match read_output_id(reader, version, 1) {
            Ok(output_id) => output_id,
            Err(error) => {
                return Err(error);
            },
        };
        let key_id = match read_address_key(reader) {
            Ok(key_id) => key_id,
            Err(error) => {
                return Err(error);
            },
        };
        let address = match read_string(reader) {
            Ok(address) => address,
            Err(error) => {
                return Err(error);
            },
        };
        let script = match read_list::<u8>(reader, 0) {
            Ok(script) => script,
            Err(error) => {
                return Err(error);
            },
        };
        proof {
            lemma_views_of_bytes(script@);
        }
        let value: u64 = match reader.read_u64() {
            Ok(value) => value,
            Err(error) => {
                return Err(error);
            },
        };
        if value > MAX_MONEY {
            return Err(ReadError::InvalidData);
        }
        match read_optional::<TxId>(reader, 0) {
            Ok(spending_transaction) => Ok(
                TransparentCoin { output_id, key_id, address, script, value, spending_transaction },
            ),
            Err(error) => Err(error),
        }
    }

    /// Writes the coin.
    pub fn write(&self, out: &mut Vec<u8>) -> (r: Result<(), WriteError>)
        ensures
            r.is_ok() == (self.script@.len() <= MAX_COMPACT_SIZE),
            r.is_ok() ==> final(out)@ == old(out)@ + coin_encoding(self@),
    {
        let ghost before = out@;
        write_u8(out, Self::serialized_version());
        write_output_id(&self.output_id, out);
        write_address_key(&self.key_id, out);
        write_string(self.address.as_str(), out);
        proof {
            lemma_views_of_bytes(self.script@);
        }
        if let Err(error) = write_list(&self.script, out) {
            return Err(error);
        }
        write_u64(out, self.value);
        if let Err(error) = write_optional(&self.spending_transaction, out) {
            return Err(error);
        }
        assert(out@ =~= before + coin_encoding(self@));
        Ok(())
    }
}

impl Wire for TransparentCoin {
    open spec fn parse(b: Seq<u8>, context: u8) -> Parsed<CoinView> {
        parse_coin(b)
    }

    open spec fn encoding(value: CoinView) -> Seq<u8> {
        coin_encoding(value)
    }

    open spec fn encodable(value: CoinView) -> bool {
        value.script.len() <= MAX_COMPACT_SIZE
    }

    open spec fn storable(value: CoinView, context: u8) -> bool {
        coin_storable(value)
    }

    proof fn round_trip(value: CoinView, context: u8, rest: Seq<u8>) {
        law_coin_round_trip(value, rest);
    }

    fn read_from(reader: &mut Reader<'_>, context: u8) -> Result<Self, ReadError> {
        TransparentCoin::read(reader)
    }

    fn write_to(&self, out: &mut Vec<u8>) -> Result<(), WriteError> {
        self.write(out)
    }
}

// --- the status of a transaction ---

/// The status that a number and a height stand for.
pub open spec fn status_numbered(number: u8, height: u32) -> Option<ConfirmationStatus> {
    if number == 0 {
        Some(ConfirmationStatus::Calculated(height))
    } else if number == 1 {
        Some(ConfirmationStatus::Transmitted(height))
    } else if number == 2 {
        Some(ConfirmationStatus::Mempool(height))
    } else if number == 3 {
        Some(ConfirmationStatus::Confirmed(height))
    } else if number == 4 {
        Some(ConfirmationStatus::Failed(height))
    } else {
        None
    }
}

/// The status at the front.
pub open spec fn parse_status(b: Seq<u8>) -> Parsed<ConfirmationStatus> {
    match parse_u8(b) {
        Err(error) => Err(error),
        Ok((_, b0)) => match parse_u8(b0) {
            Err(error) => Err(error),
            Ok((number, b1)) => match parse_number(b1, 4) {
                Err(error) => Err(error),
                Ok((height, left)) => match status_numbered(number, height as u32) {
                    Some(status) => Ok((status, left)),
                    None => Err(ReadError::InvalidData),
                },
            },
        },
    }
}

/// The bytes of a status.
pub open spec fn status_encoding(status: ConfirmationStatus) -> Seq<u8> {
    seq![0u8, status.stage() as u8] + le_bytes(status.height() as nat, 4)
}

/// A status that was written is read back.
pub proof fn law_status_round_trip(status: ConfirmationStatus, rest: Seq<u8>)
    ensures
        parse_status(status_encoding(status) + rest) == Ok::<
            (ConfirmationStatus, Seq<u8>),
            ReadError,
        >((status, rest)),
{
    let b1 = le_bytes(status.height() as nat, 4) + rest;
    let b0 = seq![status.stage() as u8] + b1;
    let all = status_encoding(status) + rest;
    assert(all.skip(1) =~= b0);
    assert(b0.skip(1) =~= b1);
    lemma_u32_round_trip(status.height(), rest);
}

impl ConfirmationStatus {
    /// Reads a status.
    pub fn read(reader: &mut Reader<'_>) -> (r: Result<Self, ReadError>)
        requires
            old(reader).wf(),
        ensures
            final(reader).wf(),
            match parse_status(old(reader)@) {
                Ok((value, left)) => r matches Ok(v) && v == value && final(reader)@ == left,
                Err(error) => r matches Err(e) && e == error,
            },
    {
        if let Err(error) = reader.read_u8() {
            return Err(error);
        }
        let number: u8 = match reader.read_u8() {
            Ok(number) => number,
            Err(error) => {
                return Err(error);
            },
        };
        let height: u32 = match reader.read_u32() {
            Ok(height) => height,
            Err(error) => {
                return Err(error);
            },
        };
        if number == 0 {
            Ok(ConfirmationStatus::Calculated(height))
        } else if number == 1 {
            Ok(ConfirmationStatus::Transmitted(height))
        } else if number == 2 {
            Ok(ConfirmationStatus::Mempool(height))
        } else if number == 3 {
            Ok(ConfirmationStatus::Confirmed(height))
        } else if number == 4 {
            Ok(ConfirmationStatus::Failed(height))
        } else {
            Err(ReadError::InvalidData)
        }
    }

    /// Writes the status.
    pub fn write(&self, out: &mut Vec<u8>)
        ensures
            final(out)@ == old(out)@ + status_encoding(*self),
    {
        let ghost before = out@;
        write_u8(out, 0);
        let number: u8 = match self {
            ConfirmationStatus::Calculated(_) => 0,
            ConfirmationStatus::Transmitted(_) => 1,
            ConfirmationStatus::Mempool(_) => 2,
            ConfirmationStatus::Confirmed(_) => 3,
            ConfirmationStatus::Failed(_) => 4,
        };
        write_u8(out, number);
        write_u32(out, self.get_height());
        assert(out@ =~= before + status_encoding(*self));
    }
}

// --- transactions ---

/// The coins and notes of a transaction.
pub struct TransactionLists {
    pub transparent_coins: Seq<CoinView>,
    pub sapling_notes: Seq<NoteView<SaplingNoteData>>,
    pub orchard_notes: Seq<NoteView<OrchardNoteData>>,
    pub ironwood_notes: Seq<NoteView<IronwoodNoteData>>,
    pub outgoing_sapling_notes: Seq<OutgoingNoteView<SaplingNoteData>>,
    pub outgoing_orchard_notes: Seq<OutgoingNoteView<OrchardNoteData>>,
    pub outgoing_ironwood_notes: Seq<OutgoingNoteView<IronwoodNoteData>>,
}

/// The coins and notes at the front, as version `version` holds them.
pub open spec fn parse_transaction_lists(b: Seq<u8>, version: u8, network: u8) -> Parsed<TransactionLists> {
    match parse_list::<TransparentCoin>(b, 0) {
        Err(error) => Err(error),
        Ok((transparent_coins, b0)) => match parse_list::<SaplingNote>(b0, 0) {
            Err(error) => Err(error),
            Ok((sapling_notes, b1)) => match parse_list::<OrchardNote>(b1, 0) {
                Err(error) => Err(error),
                Ok((orchard_notes, b2)) => match parse_list::<OutgoingSaplingNote>(b2, network) {
                    Err(error) => Err(error),
                    Ok((outgoing_sapling_notes, b3)) => match parse_list::<OutgoingOrchardNote>(
                        b3,
                        network,
                    ) {
                        Err(error) => Err(error),
                        Ok((outgoing_orchard_notes, b4)) => {
                            let without = TransactionLists {
                                transparent_coins,
                                sapling_notes,
                                orchard_notes,
                                ironwood_notes: Seq::empty(),
                                outgoing_sapling_notes,
                                outgoing_orchard_notes,
                                outgoing_ironwood_notes: Seq::empty(),
                            };
                            if version < 1 {
                                Ok((without, b4))
                            } else {
                                match parse_list::<IronwoodNote>(b4, 0) {
                                    Err(error) => Err(error),
                                    Ok((ironwood_notes, b5)) => match parse_list::<OutgoingIronwoodNote>(
                                        b5,
                                        network,
                                    ) {
                                        Err(error) => Err(error),
                                        Ok((outgoing_ironwood_notes, left)) => Ok(
                                            (
                                                TransactionLists {
                                                    ironwood_notes,
                                                    outgoing_ironwood_notes,
                                                    ..without
                                                },
                                                left,
                                            ),
                                        ),
                                    },
                                }
                            }
                        },
                    },
                },
            },
        },
    }
}

/// The transaction at the front. Its body is read by the rules in force at the height of its status.
pub open spec fn parse_transaction(b: Seq<u8>, parameters: ChainParameters) -> Parsed<TransactionView> {
    match parse_u8(b) {
        Err(error) => Err(error),
        Ok((version, b0)) => match parse_array(b0) {
            Err(error) => Err(error),
            Ok((txid, b1)) => match parse_status(b1) {
                Err(error) => Err(error),
                Ok((status, b2)) => match transaction_at_front(
                    b2,
                    branch_of(parameters.newest_in_force(status.height())),
                ) {
                    Err(error) => Err(error),
                    Ok((length, expiry_height)) => {
                        let b3 = b2.skip(length as int);
                        match parse_number(b3, 4) {
                            Err(error) => Err(error),
                            Ok((datetime, b4)) => match parse_transaction_lists(
                                b4,
                                version,
                                parameters.network_type.number(),
                            ) {
                                Err(error) => Err(error),
                                Ok((lists, left)) => Ok(
                                    (
                                        TransactionView {
                                            txid: TxId { bytes: txid },
                                            status,
                                            bytes: b2.take(length as int),
                                            expiry_height,
                                            datetime: datetime as u32,
                                            transparent_coins: lists.transparent_coins,
                                            sapling_notes: lists.sapling_notes,
                                            orchard_notes: lists.orchard_notes,
                                            ironwood_notes: lists.ironwood_notes,
                                            outgoing_sapling_notes: lists.outgoing_sapling_notes,
                                            outgoing_orchard_notes: lists.outgoing_orchard_notes,
                                            outgoing_ironwood_notes: lists.outgoing_ironwood_notes,
                                        },
                                        left,
                                    ),
                                ),
                            },
                        }
                    },
                },
            },
        },
    }
}

/// The bytes of the coins and notes of a transaction.
pub open spec fn transaction_lists_encoding(tx: TransactionView) -> Seq<u8> {
    list_encoding::<TransparentCoin>(tx.transparent_coins) + (list_encoding::<SaplingNote>(tx.sapling_notes)
        + (list_encoding::<OrchardNote>(tx.orchard_notes) + (list_encoding::<OutgoingSaplingNote>(
        tx.outgoing_sapling_notes,
    ) + (list_encoding::<OutgoingOrchardNote>(tx.outgoing_orchard_notes) + (list_encoding::<IronwoodNote>(
        tx.ironwood_notes,
    ) + list_encoding::<OutgoingIronwoodNote>(tx.outgoing_ironwood_notes))))))
}

/// The bytes of a transaction.
pub open spec fn transaction_encoding(tx: TransactionView) -> Seq<u8> {
    seq![1u8] + tx.txid.bytes@ + status_encoding(tx.status) + tx.bytes + (le_bytes(tx.datetime as nat, 4)
        + transaction_lists_encoding(tx))
}

/// Whether a transaction can be written: none of its lists is too long.
pub open spec fn transaction_encodable(tx: TransactionView) -> bool {
    &&& list_encodable::<TransparentCoin>(tx.transparent_coins)
    &&& list_encodable::<SaplingNote>(tx.sapling_notes)
    &&& list_encodable::<OrchardNote>(tx.orchard_notes)
    &&& list_encodable::<OutgoingSaplingNote>(tx.outgoing_sapling_notes)
    &&& list_encodable::<OutgoingOrchardNote>(tx.outgoing_orchard_notes)
    &&& list_encodable::<IronwoodNote>(tx.ironwood_notes)
    &&& list_encodable::<OutgoingIronwoodNote>(tx.outgoing_ironwood_notes)
}

/// Whether the coins and notes of a transaction are read back.
pub open spec fn transaction_lists_storable(tx: TransactionView, network: u8) -> bool {
    &&& list_storable::<TransparentCoin>(tx.transparent_coins, 0)
    &&& list_storable::<SaplingNote>(tx.sapling_notes, 0)
    &&& list_storable::<OrchardNote>(tx.orchard_notes, 0)
    &&& list_storable::<OutgoingSaplingNote>(tx.outgoing_sapling_notes, network)
    &&& list_storable::<OutgoingOrchardNote>(tx.outgoing_orchard_notes, network)
    &&& list_storable::<IronwoodNote>(tx.ironwood_notes, 0)
    &&& list_storable::<OutgoingIronwoodNote>(tx.outgoing_ironwood_notes, network)
}

/// Whether a transaction is read back: its body is a transaction by the rules in force at the height of its status,
/// and so are its coins and notes.
pub open spec fn transaction_storable(tx: TransactionView, parameters: ChainParameters) -> bool {
    &&& is_transaction(
        tx.bytes,
        branch_of(parameters.newest_in_force(tx.status.height())),
        tx.expiry_height,
    )
    &&& transaction_lists_storable(tx, parameters.network_type.number())
}

#[verifier::rlimit(40)]
proof fn lemma_transaction_lists_round_trip(tx: TransactionView, network: u8, rest: Seq<u8>)
    requires
        transaction_lists_storable(tx, network),
    ensures
        parse_transaction_lists(transaction_lists_encoding(tx) + rest, 1, network) == Ok::<
            (TransactionLists, Seq<u8>),
            ReadError,
        >(
            (
                TransactionLists {
                    transparent_coins: tx.transparent_coins,
                    sapling_notes: tx.sapling_notes,
                    orchard_notes: tx.orchard_notes,
                    ironwood_notes: tx.ironwood_notes,
                    outgoing_sapling_notes: tx.outgoing_sapling_notes,
                    outgoing_orchard_notes: tx.outgoing_orchard_notes,
                    outgoing_ironwood_notes: tx.outgoing_ironwood_notes,
                },
                rest,
            ),
        ),
        transaction_encodable(tx),
{
    let e0 = list_encoding::<TransparentCoin>(tx.transparent_coins);
    let e1 = list_encoding::<SaplingNote>(tx.sapling_notes);
    let e2 = list_encoding::<OrchardNote>(tx.orchard_notes);
    let e3 = list_encoding::<OutgoingSaplingNote>(tx.outgoing_sapling_notes);
    let e4 = list_encoding::<OutgoingOrchardNote>(tx.outgoing_orchard_notes);
    let e5 = list_encoding::<IronwoodNote>(tx.ironwood_notes);
    let e6 = list_encoding::<OutgoingIronwoodNote>(tx.outgoing_ironwood_notes);
    let b5 = e6 + rest;
    let b4 = e5 + b5;
    let b3 = e4 + b4;
    let b2 = e3 + b3;
    let b1 = e2 + b2;
    let b0 = e1 + b1;
    lemma_regroup(e5, e6, rest);
    lemma_regroup(e4, e5 + e6, rest);
    lemma_regroup(e3, e4 + (e5 + e6), rest);
    lemma_regroup(e2, e3 + (e4 + (e5 + e6)), rest);
    lemma_regroup(e1, e2 + (e3 + (e4 + (e5 + e6))), rest);
    lemma_regroup(e0, e1 + (e2 + (e3 + (e4 + (e5 + e6)))), rest);
    lemma_list_round_trip::<TransparentCoin>(tx.transparent_coins, 0, b0);
    lemma_list_round_trip::<SaplingNote>(tx.sapling_notes, 0, b1);
    lemma_list_round_trip::<OrchardNote>(tx.orchard_notes, 0, b2);
    lemma_list_round_trip::<OutgoingSaplingNote>(tx.outgoing_sapling_notes, network, b3);
    lemma_list_round_trip::<OutgoingOrchardNote>(tx.outgoing_orchard_notes, network, b4);
    lemma_list_round_trip::<IronwoodNote>(tx.ironwood_notes, 0, b5);
    lemma_list_round_trip::<OutgoingIronwoodNote>(tx.outgoing_ironwood_notes, network, rest);
}

proof fn lemma_regroup(a: Seq<u8>, b: Seq<u8>, rest: Seq<u8>)
    ensures
        (a + b) + rest == a + (b + rest),
{
    assert((a + b) + rest =~= a + (b + rest));
}

proof fn lemma_head_and_tail(before: Seq<u8>, a: Seq<u8>, b: Seq<u8>, c: Seq<u8>)
    ensures
        before + (a + b) + c == before + (a + (b + c)),
{
    assert(before + (a + b) + c =~= before + (a + (b + c)));
}

proof fn lemma_seven_pieces(
    before: Seq<u8>,
    a: Seq<u8>,
    b: Seq<u8>,
    c: Seq<u8>,
    d: Seq<u8>,
    e: Seq<u8>,
    f: Seq<u8>,
    g: Seq<u8>,
)
    ensures
        before + a + b + c + d + e + f + g == before + (a + (b + (c + (d + (e + (f + g)))))),
{
    assert(before + a + b + c + d + e + f + g =~= before + (a + (b + (c + (d + (e + (f + g)))))));
}

/// A transaction that was written is read back.
#[verifier::rlimit(40)]
pub proof fn law_transaction_round_trip(tx: TransactionView, parameters: ChainParameters, rest: Seq<u8>)
    requires
        transaction_storable(tx, parameters),
    ensures
        transaction_encodable(tx),
        parse_transaction(transaction_encoding(tx) + rest, parameters) == Ok::<
            (TransactionView, Seq<u8>),
            ReadError,
        >((tx, rest)),
{
    let network = parameters.network_type.number();
    let b4 = transaction_lists_encoding(tx) + rest;
    let b3 = le_bytes(tx.datetime as nat, 4) + b4;
    let b2 = tx.bytes + b3;
    let b1 = status_encoding(tx.status) + b2;
    let b0 = tx.txid.bytes@ + b1;
    let tail = le_bytes(tx.datetime as nat, 4) + transaction_lists_encoding(tx);
    lemma_five_pieces(seq![1u8], tx.txid.bytes@, status_encoding(tx.status), tx.bytes, tail, rest);
    lemma_regroup(le_bytes(tx.datetime as nat, 4), transaction_lists_encoding(tx), rest);
    assert(transaction_encoding(tx) + rest == seq![1u8] + b0);
    lemma_cut(seq![1u8], b0);
    crate::wallet::serialization::lemma_array_round_trip(tx.txid.bytes, b1);
    law_status_round_trip(tx.status, b2);
    lemma_cut(tx.bytes, b3);
    lemma_u32_round_trip(tx.datetime, b4);
    lemma_transaction_lists_round_trip(tx, network, rest);
}

impl WalletTransaction {
    /// The version that is written.
    pub fn serialized_version() -> (r: u8)
        ensures
            r == 1,
    {
        1
    }

    /// Reads a transaction.
    pub fn read(reader: &mut Reader<'_>, parameters: &ChainParameters) -> (r: Result<Self, ReadError>)
        requires
            old(reader).wf(),
        ensures
            final(reader).wf(),
            match parse_transaction(old(reader)@, *parameters) {
                Ok((value, left)) => r matches Ok(v) && v@ == value && final(reader)@ == left,
                Err(error) => r matches Err(e) && e == error,
            },
    {
        let network: u8 = parameters.network_type.to_number();
        let version: u8 = match reader.read_u8() {
            Ok(version) => version,
            Err(error) => {
                return Err(error);
            },
        };
        let txid = match read_array(reader) {
            Ok(bytes) => TxId { bytes },
            Err(error) => {
                return Err(error);
            },
        };
        let status = match ConfirmationStatus::read(reader) {
            Ok(status) => status,
            Err(error) => {
                return Err(error);
            },
        };
        let rest = reader.rest();
        let (length, expiry_height): (usize, u32) = match read_transaction(
            rest.as_slice(),
            parameters.branch_id(status.get_height()),
        ) {
            Ok(read) => read,
            Err(error) => {
                return Err(error);
            },
        };
        let bytes = match reader.read_vec(length) {
            Ok(bytes) => bytes,
            Err(error) => {
                return Err(error);
            },
        };
        let datetime: u32 = match reader.read_u32() {
            Ok(datetime) => datetime,
            Err(error) => {
                return Err(error);
            },
        };
        let transparent_coins = match read_list::<TransparentCoin>(reader, 0) {
            Ok(coins) => coins,
            Err(error) => {
                return Err(error);
            },
        };
        let sapling_notes = match read_list::<SaplingNote>(reader, 0) {
            Ok(notes) => notes,
            Err(error) => {
                return Err(error);
            },
        };
        let orchard_notes = match read_list::<OrchardNote>(reader, 0) {
            Ok(notes) => notes,
            Err(error) => {
                return Err(error);
            },
        };
        let outgoing_sapling_notes = match read_list::<OutgoingSaplingNote>(reader, network) {
            Ok(notes) => notes,
            Err(error) => {
                return Err(error);
            },
        };
        let outgoing_orchard_notes = match read_list::<OutgoingOrchardNote>(reader, network) {
            Ok(notes) => notes,
            Err(error) => {
                return Err(error);
            },
        };
        let mut ironwood_notes: Vec<IronwoodNote> = Vec::new();
        let mut outgoing_ironwood_notes: Vec<OutgoingIronwoodNote> = Vec::new();
        if version >= 1 {
            ironwood_notes = match read_list::<IronwoodNote>(reader, 0) {
                Ok(notes) => notes,
                Err(error) => {
                    return Err(error);
                },
            };
            outgoing_ironwood_notes = match read_list::<OutgoingIronwoodNote>(reader, network) {
                Ok(notes) => notes,
                Err(error) => {
                    return Err(error);
                },
            };
        }
        let r = WalletTransaction {
            txid,
            status,
            transaction: ChainTransaction { bytes, expiry_height },
            datetime,
            transparent_coins,
            sapling_notes,
            orchard_notes,
            ironwood_notes,
            outgoing_sapling_notes,
            outgoing_orchard_notes,
            outgoing_ironwood_notes,
        };
        proof {
            lemma_views_of_lists(&r);
            assert(version < 1 ==> note_views(ironwood_notes@) =~= Seq::empty());
            assert(version < 1 ==> outgoing_note_views(outgoing_ironwood_notes@) =~= Seq::empty());
        }
        Ok(r)
    }

    /// Writes the coins and notes of the transaction.
    fn write_lists(&self, out: &mut Vec<u8>) -> (r: Result<(), WriteError>)
        ensures
            r.is_ok() == transaction_encodable(self@),
            r.is_ok() ==> final(out)@ == old(out)@ + transaction_lists_encoding(self@),
    {
        let ghost before = out@;
        proof {
            lemma_views_of_lists(self);
        }
        if let Err(error) = write_list(&self.transparent_coins, out) {
            return Err(error);
        }
        if let Err(error) = write_list(&self.sapling_notes, out) {
            return Err(error);
        }
        if let Err(error) = write_list(&self.orchard_notes, out) {
            return Err(error);
        }
        if let Err(error) = write_list(&self.outgoing_sapling_notes, out) {
            return Err(error);
        }
        if let Err(error) = write_list(&self.outgoing_orchard_notes, out) {
            return Err(error);
        }
        if let Err(error) = write_list(&self.ironwood_notes, out) {
            return Err(error);
        }
        if let Err(error) = write_list(&self.outgoing_ironwood_notes, out) {
            return Err(error);
        }
        proof {
            lemma_seven_pieces(
                before,
                list_encoding::<TransparentCoin>(self@.transparent_coins),
                list_encoding::<SaplingNote>(self@.sapling_notes),
                list_encoding::<OrchardNote>(self@.orchard_notes),
                list_encoding::<OutgoingSaplingNote>(self@.outgoing_sapling_notes),
                list_encoding::<OutgoingOrchardNote>(self@.outgoing_orchard_notes),
                list_encoding::<IronwoodNote>(self@.ironwood_notes),
                list_encoding::<OutgoingIronwoodNote>(self@.outgoing_ironwood_notes),
            );
        }
        Ok(())
    }

    /// Writes the transaction.
    pub fn write(&self, out: &mut Vec<u8>) -> (r: Result<(), WriteError>)
        ensures
            r.is_ok() == transaction_encodable(self@),
            r.is_ok() ==> final(out)@ == old(out)@ + transaction_encoding(self@),
    {
        let ghost before = out@;
        write_u8(out, Self::serialized_version());
        write_slice(out, &self.txid.bytes);
        self.status.write(out);
        write_slice(out, self.transaction.bytes.as_slice());
        write_u32(out, self.datetime);
        let ghost head = out@;
        assert(head =~= before + (seq![1u8] + self.txid.bytes@ + status_encoding(self.status) + self@.bytes + le_bytes(
            self.datetime as nat,
            4,
        )));
        if let Err(error) = self.write_lists(out) {
            return Err(error);
        }
        proof {
            lemma_head_and_tail(
                before,
                seq![1u8] + self.txid.bytes@ + status_encoding(self.status) + self@.bytes,
                le_bytes(self.datetime as nat, 4),
                transaction_lists_encoding(self@),
            );
        }
        Ok(())
    }
}

/// The values of the lists of a transaction, as the lists are written.
proof fn lemma_views_of_lists(tx: &WalletTransaction)
    ensures
        views_of(tx.transparent_coins@) == tx@.transparent_coins,
        views_of(tx.sapling_notes@) == tx@.sapling_notes,
        views_of(tx.orchard_notes@) == tx@.orchard_notes,
        views_of(tx.ironwood_notes@) == tx@.ironwood_notes,
        views_of(tx.outgoing_sapling_notes@) == tx@.outgoing_sapling_notes,
        views_of(tx.outgoing_orchard_notes@) == tx@.outgoing_orchard_notes,
        views_of(tx.outgoing_ironwood_notes@) == tx@.outgoing_ironwood_notes,
{
    assert(views_of(tx.transparent_coins@) =~= tx@.transparent_coins);
    assert(views_of(tx.sapling_notes@) =~= tx@.sapling_notes);
    assert(views_of(tx.orchard_notes@) =~= tx@.orchard_notes);
    assert(views_of(tx.ironwood_notes@) =~= tx@.ironwood_notes);
    assert(views_of(tx.outgoing_sapling_notes@) =~= tx@.outgoing_sapling_notes);
    assert(views_of(tx.outgoing_orchard_notes@) =~= tx@.outgoing_orchard_notes);
    assert(views_of(tx.outgoing_ironwood_notes@) =~= tx@.outgoing_ironwood_notes);
}

} // verus!
