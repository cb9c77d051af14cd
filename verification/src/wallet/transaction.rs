//! The transactions of a wallet: its coins and notes, and what it sent.
use crate::primitives::{BlockHeight, BlockRange, Nullifier, OutputId, ShieldedPool, TxId};
use crate::sorted_map::OrderedKey;
use crate::wallet::status::ConfirmationStatus;
use vstd::prelude::*;

verus! {

/// Whether an address is handed out to others or holds change.
#[derive(Clone, Copy, Debug, PartialEq, Eq, PartialOrd, Ord, Hash, Structural)]
pub enum Scope {
    External,
    Internal,
}

/// The purpose of a transparent address.
#[derive(Clone, Copy, Debug, PartialEq, Eq, PartialOrd, Ord, Hash, Structural)]
pub enum TransparentScope {
    /// Addresses handed out to others.
    External,
    /// Change addresses.
    Internal,
    /// Addresses that take a refund.
    Refund,
}

impl TransparentScope {
    /// The number that stands for the scope.
    pub open spec fn number(self) -> u8 {
        match self {
            TransparentScope::External => 0,
            TransparentScope::Internal => 1,
            TransparentScope::Refund => 2,
        }
    }

    /// The number that stands for the scope.
    pub fn to_number(self) -> (r: u8)
        ensures
            r == self.number(),
    {
        match self {
            TransparentScope::External => 0,
            TransparentScope::Internal => 1,
            TransparentScope::Refund => 2,
        }
    }
}

/// The key that a shielded note belongs to.
#[derive(Clone, Copy, Debug, PartialEq, Eq, PartialOrd, Ord, Hash, Structural)]
pub struct KeyId {
    pub account_id: u32,
    pub scope: Scope,
}

/// The key that a transparent address belongs to.
#[derive(Clone, Copy, Debug, PartialEq, Eq, PartialOrd, Ord, Hash, Structural)]
pub struct TransparentAddressId {
    pub account_id: u32,
    pub scope: TransparentScope,
    pub address_index: u32,
}

impl OrderedKey for TransparentAddressId {
    open spec fn rank(&self) -> nat {
        (self.account_id as nat * 3 + self.scope.number() as nat) * 0x1_0000_0000
            + self.address_index as nat
    }

    proof fn rank_is_injective(a: Self, b: Self) {
    }

    fn precedes(&self, other: &Self) -> bool {
        if self.account_id != other.account_id {
            self.account_id < other.account_id
        } else if self.scope.to_number() != other.scope.to_number() {
            self.scope.to_number() < other.scope.to_number()
        } else {
            self.address_index < other.address_index
        }
    }
}

/// The randomness of a sapling note.
#[derive(Clone, Copy, Debug, PartialEq, Eq)]
pub enum Rseed {
    BeforeZip212([u8; 32]),
    AfterZip212([u8; 32]),
}

/// The parts of a sapling note.
#[derive(Clone, Copy, Debug, PartialEq, Eq)]
pub struct SaplingNoteData {
    pub recipient: [u8; 43],
    pub value: u64,
    pub rseed: Rseed,
}

/// The parts of an orchard note.
#[derive(Clone, Copy, Debug, PartialEq, Eq)]
pub struct OrchardNoteData {
    pub recipient: [u8; 43],
    pub value: u64,
    pub rho: [u8; 32],
    pub rseed: [u8; 32],
}

/// The parts of an ironwood note.
#[derive(Clone, Copy, Debug, PartialEq, Eq)]
pub struct IronwoodNoteData {
    pub recipient: [u8; 43],
    pub value: u64,
    pub rho: [u8; 32],
    pub rseed: [u8; 32],
}

/// A shielded note that the wallet received.
#[derive(Debug, PartialEq, Eq)]
pub struct WalletNote<N> {
    pub output_id: OutputId,
    pub key_id: KeyId,
    pub note: N,
    /// Known once the note's position is.
    pub nullifier: Option<Nullifier>,
    /// The place of the note in the commitment tree.
    pub position: Option<u64>,
    pub memo: Vec<u8>,
    /// The transaction that spends the note.
    pub spending_transaction: Option<TxId>,
    /// The block ranges whose nullifiers must be fetched again before the note is known to be unspent.
    pub refetch_nullifier_ranges: Vec<BlockRange>,
}

pub type SaplingNote = WalletNote<SaplingNoteData>;

pub type OrchardNote = WalletNote<OrchardNoteData>;

pub type IronwoodNote = WalletNote<IronwoodNoteData>;

/// A shielded note that the wallet sent.
#[derive(Debug, PartialEq, Eq)]
pub struct OutgoingNote<N> {
    pub output_id: OutputId,
    pub key_id: KeyId,
    pub note: N,
    pub memo: Vec<u8>,
    /// The encoded unified address that the sender chose, where it is known.
    pub recipient_full_unified_address: Option<String>,
}

pub type OutgoingSaplingNote = OutgoingNote<SaplingNoteData>;

pub type OutgoingOrchardNote = OutgoingNote<OrchardNoteData>;

pub type OutgoingIronwoodNote = OutgoingNote<IronwoodNoteData>;

/// A transparent output that the wallet received.
#[derive(Debug, PartialEq, Eq)]
pub struct TransparentCoin {
    pub output_id: OutputId,
    pub key_id: TransparentAddressId,
    pub address: String,
    pub script: Vec<u8>,
    pub value: u64,
    /// The transaction that spends the coin.
    pub spending_transaction: Option<TxId>,
}

/// A transaction as it stands in the chain.
#[derive(Debug, PartialEq, Eq)]
pub struct ChainTransaction {
    /// The serialized transaction.
    pub bytes: Vec<u8>,
    /// The height from which an unconfirmed transaction can no longer be mined, or zero if there is none.
    pub expiry_height: BlockHeight,
}

/// A transaction that is relevant to the wallet.
#[derive(Debug, PartialEq, Eq)]
pub struct WalletTransaction {
    pub txid: TxId,
    pub status: ConfirmationStatus,
    pub transaction: ChainTransaction,
    /// When the status was last updated, or the time of the block of a confirmed transaction.
    pub datetime: u32,
    pub transparent_coins: Vec<TransparentCoin>,
    pub sapling_notes: Vec<SaplingNote>,
    pub orchard_notes: Vec<OrchardNote>,
    pub ironwood_notes: Vec<IronwoodNote>,
    pub outgoing_sapling_notes: Vec<OutgoingSaplingNote>,
    pub outgoing_orchard_notes: Vec<OutgoingOrchardNote>,
    pub outgoing_ironwood_notes: Vec<OutgoingIronwoodNote>,
}

// --- the values that the transactions hold ---

/// The value of a [`WalletNote`].
pub struct NoteView<N> {
    pub output_id: OutputId,
    pub key_id: KeyId,
    pub note: N,
    pub nullifier: Option<Nullifier>,
    pub position: Option<u64>,
    pub memo: Seq<u8>,
    pub spending_transaction: Option<TxId>,
    pub refetch_nullifier_ranges: Seq<BlockRange>,
}

/// The value of an [`OutgoingNote`].
pub struct OutgoingNoteView<N> {
    pub output_id: OutputId,
    pub key_id: KeyId,
    pub note: N,
    pub memo: Seq<u8>,
    pub recipient_full_unified_address: Option<Seq<char>>,
}

/// The value of a [`TransparentCoin`].
pub struct CoinView {
    pub output_id: OutputId,
    pub key_id: TransparentAddressId,
    pub address: Seq<char>,
    pub script: Seq<u8>,
    pub value: u64,
    pub spending_transaction: Option<TxId>,
}

/// The value of a [`WalletTransaction`].
pub struct TransactionView {
    pub txid: TxId,
    pub status: ConfirmationStatus,
    pub bytes: Seq<u8>,
    pub expiry_height: BlockHeight,
    pub datetime: u32,
    pub transparent_coins: Seq<CoinView>,
    pub sapling_notes: Seq<NoteView<SaplingNoteData>>,
    pub orchard_notes: Seq<NoteView<OrchardNoteData>>,
    pub ironwood_notes: Seq<NoteView<IronwoodNoteData>>,
    pub outgoing_sapling_notes: Seq<OutgoingNoteView<SaplingNoteData>>,
    pub outgoing_orchard_notes: Seq<OutgoingNoteView<OrchardNoteData>>,
    pub outgoing_ironwood_notes: Seq<OutgoingNoteView<IronwoodNoteData>>,
}

impl<N> View for WalletNote<N> {
    type V = NoteView<N>;

    open spec fn view(&self) -> NoteView<N> {
        NoteView {
            output_id: self.output_id,
            key_id: self.key_id,
            note: self.note,
            nullifier: self.nullifier,
            position: self.position,
            memo: self.memo@,
            spending_transaction: self.spending_transaction,
            refetch_nullifier_ranges: self.refetch_nullifier_ranges@,
        }
    }
}

impl<N> View for OutgoingNote<N> {
    type V = OutgoingNoteView<N>;

    open spec fn view(&self) -> OutgoingNoteView<N> {
        OutgoingNoteView {
            output_id: self.output_id,
            key_id: self.key_id,
            note: self.note,
            memo: self.memo@,
            recipient_full_unified_address: match self.recipient_full_unified_address {
                Some(address) => Some(address@),
                None => None,
            },
        }
    }
}

impl View for TransparentCoin {
    type V = CoinView;

    open spec fn view(&self) -> CoinView {
        CoinView {
            output_id: self.output_id,
            key_id: self.key_id,
            address: self.address@,
            script: self.script@,
            value: self.value,
            spending_transaction: self.spending_transaction,
        }
    }
}

/// The values of a sequence of coins.
pub open spec fn coin_views(coins: Seq<TransparentCoin>) -> Seq<CoinView> {
    Seq::new(coins.len(), |i: int| coins[i]@)
}

/// The values of a sequence of notes.
pub open spec fn note_views<N>(notes: Seq<WalletNote<N>>) -> Seq<NoteView<N>> {
    Seq::new(notes.len(), |i: int| notes[i]@)
}

/// The values of a sequence of outgoing notes.
pub open spec fn outgoing_note_views<N>(notes: Seq<OutgoingNote<N>>) -> Seq<OutgoingNoteView<N>> {
    Seq::new(notes.len(), |i: int| notes[i]@)
}

impl View for WalletTransaction {
    type V = TransactionView;

    open spec fn view(&self) -> TransactionView {
        TransactionView {
            txid: self.txid,
            status: self.status,
            bytes: self.transaction.bytes@,
            expiry_height: self.transaction.expiry_height,
            datetime: self.datetime,
            transparent_coins: coin_views(self.transparent_coins@),
            sapling_notes: note_views(self.sapling_notes@),
            orchard_notes: note_views(self.orchard_notes@),
            ironwood_notes: note_views(self.ironwood_notes@),
            outgoing_sapling_notes: outgoing_note_views(self.outgoing_sapling_notes@),
            outgoing_orchard_notes: outgoing_note_views(self.outgoing_orchard_notes@),
            outgoing_ironwood_notes: outgoing_note_views(self.outgoing_ironwood_notes@),
        }
    }
}

impl WalletTransaction {
    pub fn txid(&self) -> (r: TxId)
        ensures
            r == self.txid,
    {
        self.txid
    }

    pub fn status(&self) -> (r: ConfirmationStatus)
        ensures
            r == self.status,
    {
        self.status
    }

    /// Whether the transaction holds a note of `pool` for the wallet.
    pub open spec fn has_note_of(&self, pool: ShieldedPool) -> bool {
        match pool {
            ShieldedPool::Sapling => self.sapling_notes@.len() > 0,
            ShieldedPool::Orchard => self.orchard_notes@.len() > 0,
            ShieldedPool::Ironwood => self.ironwood_notes@.len() > 0,
        }
    }

    /// Whether the transaction holds a note of `pool` for the wallet.
    pub fn has_note(&self, pool: ShieldedPool) -> (r: bool)
        ensures
            r == self.has_note_of(pool),
    {
        match pool {
            ShieldedPool::Sapling => self.sapling_notes.len() > 0,
            ShieldedPool::Orchard => self.orchard_notes.len() > 0,
            ShieldedPool::Ironwood => self.ironwood_notes.len() > 0,
        }
    }

    /// Updates the status where `status` may follow the current one.
    ///
    /// A pending transaction only moves forward, and a confirmed or failed one stays, unless `force` is set.
    pub fn update_status(&mut self, status: ConfirmationStatus, datetime: u32, force: bool)
        ensures
            final(self)@ == if status.supersedes(old(self).status, force) {
                (TransactionView { status, datetime, ..old(self)@ })
            } else {
                old(self)@
            },
    {
        if status.may_follow(&self.status, force) {
            self.status = status;
            self.datetime = datetime;
        }
    }
}

} // verus!
