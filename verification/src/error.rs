//! What can go wrong during sync, and what to do about it.
use crate::primitives::{BlockHash, BlockHeight, OutputId, ShieldedPool, TxId};
use crate::text::{
    decimal, pool_name, push_decimal, push_pool, push_reversed_hex, push_text, reversed_hex,
};
use crate::trees::TreeError;
use vstd::prelude::*;
use vstd::string::StringExecFns;

verus! {

// --- the errors ---

/// Any error that may end a sync session. `E` is what the wallet itself fails with.
#[derive(Debug, PartialEq, Eq)]
pub enum SyncError<E> {
    /// Mempool error.
    MempoolError(MempoolError),
    /// Scan error.
    ScanError(ScanError),
    /// Server error.
    ServerError(ServerError),
    /// Sync mode error.
    SyncModeError(SyncModeError),
    /// The wallet is too far ahead of the chain: its height, the blocks allowed, and the height of the chain.
    ChainError(u32, u32, u32),
    /// The birthday and the sapling activation height above it.
    BirthdayBelowSapling(u32, u32),
    /// Shard tree error.
    ShardTreeError(TreeError),
    /// A tree could not be truncated to a height for want of a checkpoint.
    TruncationError(BlockHeight, ShieldedPool),
    /// The recorded history of a pool could not account for the commitment tree that the chain reports, so that the
    /// pool was reopened for rescanning. The session ends here; the next one rescans.
    PoolHistoryReopened {
        pool: ShieldedPool,
        /// The height rescanning restarts from.
        rescan_from: BlockHeight,
        /// The block whose tree sizes disagreed.
        disagreed_at: BlockHeight,
        /// The tree size the chain reports.
        block_metadata_size: u32,
        /// The tree size the wallet's history accounts for.
        calculated_size: u32,
    },
    /// A transparent address could not be derived.
    TransparentAddressDerivationError(String),
    /// Wallet error.
    WalletError(E),
}

/// Sync status errors.
#[derive(Debug, PartialEq, Eq)]
pub enum SyncStatusError<E> {
    /// The wallet has never been synced with the block chain.
    NoSyncData,
    /// Wallet error.
    WalletError(E),
}

/// Mempool errors.
#[derive(Debug, PartialEq, Eq)]
pub enum MempoolError {
    /// Server error.
    ServerError(ServerError),
    /// Timed out fetching the mempool stream during shutdown.
    ShutdownWithoutStream,
}

/// Scan errors.
#[derive(Debug, PartialEq, Eq)]
pub enum ScanError {
    /// Server error.
    ServerError(ServerError),
    /// Continuity error.
    ContinuityError(ContinuityError),
    /// An output was not well formed.
    EncodingError(EncodingInvalid),
    /// A sapling nullifier of the wrong length.
    InvalidSaplingNullifier,
    /// An orchard nullifier of the given length, which is not that of a nullifier.
    InvalidOrchardNullifierLength(usize),
    /// Invalid orchard nullifier.
    InvalidOrchardNullifier,
    /// Invalid sapling output.
    InvalidSaplingOutput,
    /// Invalid orchard action.
    InvalidOrchardAction,
    /// The tree size of a block's metadata is not the one that was calculated.
    IncorrectTreeSize {
        shielded_protocol: ShieldedPool,
        /// The block whose sizes disagreed.
        height: BlockHeight,
        block_metadata_size: u32,
        calculated_size: u32,
    },
    /// The server returned another transaction than the one that was requested.
    IncorrectTxid { txid_requested: TxId, txid_returned: TxId },
    /// The nullifier and position of a decrypted note were not found.
    DecryptedNoteDataNotFound(OutputId),
    /// Invalid memo bytes.
    InvalidMemoBytes(String),
    /// An encoded address could not be parsed.
    AddressParseError(String),
    /// A transparent output of more money than there is.
    TransparentOutputInvalidValue(u64),
    /// Every transparent address of a key is in use.
    AllAddressesInUse,
    /// A transparent address could not be derived.
    TransparentAddressDerivationError(String),
}

/// The encoding of a compact output was invalid.
#[derive(Clone, Copy, Debug, PartialEq, Eq)]
pub struct EncodingInvalid {
    pub at_height: BlockHeight,
    pub txid: TxId,
    pub pool_type: ShieldedPool,
    pub index: usize,
    pub error: CompactFormatError,
}

/// A field of a compact format structure could not be parsed.
#[derive(Clone, Copy, Debug, PartialEq, Eq, Structural)]
pub enum CompactFormatError {
    /// The bytes are not as many as the field has.
    InvalidLength,
    /// The bytes are not a valid protocol element.
    InvalidValue,
}

/// Block continuity errors.
#[derive(Clone, Copy, Debug, PartialEq, Eq)]
pub enum ContinuityError {
    /// A block does not have the height after that of the block before it.
    HeightDiscontinuity { height: BlockHeight, previous_block_height: BlockHeight },
    /// A block does not follow the block before it.
    HashDiscontinuity { height: BlockHeight, prev_hash: BlockHash, previous_block_hash: BlockHash },
}

/// Errors of connecting to the server and of the data that it returned.
#[derive(Debug, PartialEq, Eq)]
pub enum ServerError {
    /// The request failed with the given status.
    RequestFailed(String),
    /// The server returned an invalid frontier.
    InvalidFrontier(String),
    /// The server returned an invalid transaction.
    InvalidTransaction(String),
    /// The server returned an invalid subtree root.
    InvalidSubtreeRoot,
    /// The server returned blocks that could not be verified against the wallet's within the window for that.
    ChainVerificationError,
    /// The fetcher task was dropped.
    FetcherDropped,
    /// The server reports only the genesis block.
    GenesisBlockOnly,
}

/// Sync mode error.
#[derive(Clone, Copy, Debug, PartialEq, Eq, Structural)]
pub enum SyncModeError {
    /// Invalid sync mode.
    InvalidSyncMode(u8),
    /// Sync is already running.
    SyncAlreadyRunning,
    /// Sync is not running.
    SyncNotRunning,
    /// Sync is not paused.
    SyncNotPaused,
}

/// Recommended action when sync fails.
#[derive(Clone, Copy, Debug, PartialEq, Eq, Structural)]
pub enum SyncRecoveryObservables {
    /// The error is transient. Retrying sync with the same server may succeed.
    MaybeRecoverableServer,
    /// The server returned invalid or unverifiable data. A different server should be tried if available.
    ServerUnavailable,
    /// The error is not recoverable by retrying or switching servers.
    Abort,
}

// --- what to do about them ---

impl ServerError {
    /// The recovery action for the error: the same server may work again only where its task was dropped, and no
    /// server helps where there is no chain.
    pub open spec fn recovery(&self) -> SyncRecoveryObservables {
        match self {
            ServerError::FetcherDropped => SyncRecoveryObservables::MaybeRecoverableServer,
            ServerError::GenesisBlockOnly => SyncRecoveryObservables::Abort,
            _ => SyncRecoveryObservables::ServerUnavailable,
        }
    }

    /// Whether the error is likely transient.
    pub fn recommend_same_server(&self) -> (r: bool)
        ensures
            r == (*self is FetcherDropped),
    {
        match self {
            ServerError::FetcherDropped => true,
            ServerError::RequestFailed(_) => false,
            ServerError::InvalidFrontier(_) => false,
            ServerError::InvalidTransaction(_) => false,
            ServerError::InvalidSubtreeRoot => false,
            ServerError::ChainVerificationError => false,
            ServerError::GenesisBlockOnly => false,
        }
    }

    /// The recommended recovery action for the error.
    pub fn recovery_recommendation(&self) -> (r: SyncRecoveryObservables)
        ensures
            r == self.recovery(),
    {
        match self {
            ServerError::FetcherDropped => SyncRecoveryObservables::MaybeRecoverableServer,
            ServerError::RequestFailed(_) => SyncRecoveryObservables::ServerUnavailable,
            ServerError::InvalidFrontier(_) => SyncRecoveryObservables::ServerUnavailable,
            ServerError::InvalidTransaction(_) => SyncRecoveryObservables::ServerUnavailable,
            ServerError::InvalidSubtreeRoot => SyncRecoveryObservables::ServerUnavailable,
            ServerError::ChainVerificationError => SyncRecoveryObservables::ServerUnavailable,
            ServerError::GenesisBlockOnly => SyncRecoveryObservables::Abort,
        }
    }
}

impl<E> SyncError<E> {
    /// The recovery action for the error: that of the server error in it, if there is one. A pool that was reopened
    /// is rescanned by syncing again.
    pub open spec fn recovery(&self) -> SyncRecoveryObservables {
        match self {
            SyncError::ServerError(e) => e.recovery(),
            SyncError::ScanError(ScanError::ServerError(e)) => e.recovery(),
            SyncError::MempoolError(_) => SyncRecoveryObservables::MaybeRecoverableServer,
            SyncError::PoolHistoryReopened { .. } => SyncRecoveryObservables::MaybeRecoverableServer,
            _ => SyncRecoveryObservables::Abort,
        }
    }

    /// Whether the error is likely transient, so that retrying sync may succeed.
    pub fn recommend_same_server(&self) -> (r: bool)
        ensures
            r == match self {
                SyncError::ServerError(e) => *e is FetcherDropped,
                SyncError::MempoolError(_) => true,
                SyncError::PoolHistoryReopened { .. } => true,
                _ => false,
            },
    {
        match self {
            SyncError::ServerError(e) => e.recommend_same_server(),
            SyncError::MempoolError(_) => true,
            SyncError::PoolHistoryReopened { .. } => true,
            SyncError::ScanError(_) => false,
            SyncError::SyncModeError(_) => false,
            SyncError::ChainError(..) => false,
            SyncError::BirthdayBelowSapling(..) => false,
            SyncError::ShardTreeError(_) => false,
            SyncError::TruncationError(..) => false,
            SyncError::TransparentAddressDerivationError(_) => false,
            SyncError::WalletError(_) => false,
        }
    }

    /// The recommended recovery action for the error.
    pub fn recovery_recommendation(&self) -> (r: SyncRecoveryObservables)
        ensures
            r == self.recovery(),
    {
        match self {
            SyncError::ServerError(e) => e.recovery_recommendation(),
            SyncError::MempoolError(_) => SyncRecoveryObservables::MaybeRecoverableServer,
            SyncError::ScanError(ScanError::ServerError(e)) => e.recovery_recommendation(),
            SyncError::ScanError(_) => SyncRecoveryObservables::Abort,
            SyncError::PoolHistoryReopened { .. } => SyncRecoveryObservables::MaybeRecoverableServer,
            SyncError::SyncModeError(_) => SyncRecoveryObservables::Abort,
            SyncError::ChainError(..) => SyncRecoveryObservables::Abort,
            SyncError::BirthdayBelowSapling(..) => SyncRecoveryObservables::Abort,
            SyncError::ShardTreeError(_) => SyncRecoveryObservables::Abort,
            SyncError::TruncationError(..) => SyncRecoveryObservables::Abort,
            SyncError::TransparentAddressDerivationError(_) => SyncRecoveryObservables::Abort,
            SyncError::WalletError(_) => SyncRecoveryObservables::Abort,
        }
    }
}

/// An error for which the same server is recommended is one for which it may be recoverable, unless it came up while
/// scanning.
pub proof fn law_recommendations_agree<E>(error: SyncError<E>)
    ensures
        match error {
            SyncError::ServerError(e) => e is FetcherDropped,
            SyncError::MempoolError(_) => true,
            SyncError::PoolHistoryReopened { .. } => true,
            _ => false,
        } ==> error.recovery() == SyncRecoveryObservables::MaybeRecoverableServer,
        error.recovery() == SyncRecoveryObservables::MaybeRecoverableServer && !(error is ScanError)
            ==> match error {
            SyncError::ServerError(e) => e is FetcherDropped,
            SyncError::MempoolError(_) => true,
            SyncError::PoolHistoryReopened { .. } => true,
            _ => false,
        },
{
}

/// A server that sent what is invalid, or did not answer, is left for another; the same one is tried again only where its
/// task was dropped, the mempool failed, or a pool was reopened. All else is given up.
pub proof fn law_bad_servers_are_left<E>(error: SyncError<E>)
    ensures
        error.recovery() is ServerUnavailable <==> (match error {
            SyncError::ServerError(e) => !(e is FetcherDropped) && !(e is GenesisBlockOnly),
            SyncError::ScanError(ScanError::ServerError(e)) => !(e is FetcherDropped) && !(e is GenesisBlockOnly),
            _ => false,
        }),
        error.recovery() is MaybeRecoverableServer <==> (match error {
            SyncError::ServerError(e) => e is FetcherDropped,
            SyncError::ScanError(ScanError::ServerError(e)) => e is FetcherDropped,
            SyncError::MempoolError(_) => true,
            SyncError::PoolHistoryReopened { .. } => true,
            _ => false,
        }),
{
}

// --- how they read ---

/// What the wallet fails with, as text.
pub trait ErrorText {
    spec fn text(&self) -> Seq<char>;

    fn describe(&self) -> (r: String)
        ensures
            r@ == self.text(),
    ;
}

impl ErrorText for String {
    open spec fn text(&self) -> Seq<char> {
        self@
    }

    fn describe(&self) -> (r: String) {
        String::from_str(self.as_str())
    }
}

impl<E: ErrorText> SyncError<E> {
    /// What the error says of its own layer. What caused it is told apart.
    pub open spec fn text(&self) -> Seq<char> {
        match self {
            SyncError::MempoolError(_) => "mempool error"@,
            SyncError::ScanError(_) => "scan error"@,
            SyncError::ServerError(_) => "server error"@,
            SyncError::SyncModeError(_) => "sync mode error"@,
            SyncError::ChainError(height, allowance, chain) => {
                "wallet height "@ + decimal(height as nat) + " is more than "@ + decimal(allowance as nat)
                + " blocks ahead of best chain height "@ + decimal(chain as nat)
            },
            SyncError::BirthdayBelowSapling(birthday, sapling) => {
                "birthday "@ + decimal(birthday as nat) + " below sapling activation height "@
                + decimal(sapling as nat) + ". pre-sapling wallets are not supported!"@
            },
            SyncError::ShardTreeError(_) => "shard tree error"@,
            SyncError::TruncationError(height, pool) => {
                "critical non-recoverable truncation error at height "@ + decimal(height as nat) + " due to missing "@
                + pool_name(*pool) + " shard tree checkpoints. wallet data cleared. rescan required."@
            },
            SyncError::PoolHistoryReopened { pool, rescan_from, disagreed_at, block_metadata_size, calculated_size } => {
                "RESCAN TRIGGERED: the wallet's "@ + pool_name(*pool) + " records were cleared back to height "@
                + decimal(rescan_from as nat) + " and the next sync rescans from there, because at height "@
                + decimal(disagreed_at as nat) + " the wallet's history accounted for a "@ + pool_name(*pool)
                + " commitment tree of "@ + decimal(calculated_size as nat) + " where the chain reports "@
                + decimal(block_metadata_size as nat)
            },
            SyncError::TransparentAddressDerivationError(detail) => {
                "transparent address derivation error. "@ + detail@
            },
            SyncError::WalletError(error) => "wallet error. "@ + error.text(),
        }
    }

    /// What the error says of its own layer. What caused it is told apart.
    pub fn message(&self) -> (r: String)
        ensures
            r@ == self.text(),
    {
        match self {
            SyncError::MempoolError(_) => {
                let mut out = String::from_str("mempool error");
                out
            },
            SyncError::ScanError(_) => {
                let mut out = String::from_str("scan error");
                out
            },
            SyncError::ServerError(_) => {
                let mut out = String::from_str("server error");
                out
            },
            SyncError::SyncModeError(_) => {
                let mut out = String::from_str("sync mode error");
                out
            },
            SyncError::ChainError(height, allowance, chain) => {
                let mut out = String::from_str("wallet height ");
                push_decimal(&mut out, *height as u64);
                push_text(&mut out, " is more than ");
                push_decimal(&mut out, *allowance as u64);
                push_text(&mut out, " blocks ahead of best chain height ");
                push_decimal(&mut out, *chain as u64);
                out
            },
            SyncError::BirthdayBelowSapling(birthday, sapling) => {
                let mut out = String::from_str("birthday ");
                push_decimal(&mut out, *birthday as u64);
                push_text(&mut out, " below sapling activation height ");
                push_decimal(&mut out, *sapling as u64);
                push_text(&mut out, ". pre-sapling wallets are not supported!");
                out
            },
            SyncError::ShardTreeError(_) => {
                let mut out = String::from_str("shard tree error");
                out
            },
            SyncError::TruncationError(height, pool) => {
                let mut out = String::from_str("critical non-recoverable truncation error at height ");
                push_decimal(&mut out, *height as u64);
                push_text(&mut out, " due to missing ");
                push_pool(&mut out, *pool);
                push_text(&mut out, " shard tree checkpoints. wallet data cleared. rescan required.");
                out
            },
            SyncError::PoolHistoryReopened { pool, rescan_from, disagreed_at, block_metadata_size, calculated_size } => {
                let mut out = String::from_str("RESCAN TRIGGERED: the wallet's ");
                push_pool(&mut out, *pool);
                push_text(&mut out, " records were cleared back to height ");
                push_decimal(&mut out, *rescan_from as u64);
                push_text(&mut out, " and the next sync rescans from there, because at height ");
                push_decimal(&mut out, *disagreed_at as u64);
                push_text(&mut out, " the wallet's history accounted for a ");
                push_pool(&mut out, *pool);
                push_text(&mut out, " commitment tree of ");
                push_decimal(&mut out, *calculated_size as u64);
                push_text(&mut out, " where the chain reports ");
                push_decimal(&mut out, *block_metadata_size as u64);
                out
            },
            SyncError::TransparentAddressDerivationError(detail) => {
                let mut out = String::from_str("transparent address derivation error. ");
                push_text(&mut out, detail.as_str());
                out
            },
            SyncError::WalletError(error) => {
                let mut out = String::from_str("wallet error. ");
                push_text(&mut out, error.describe().as_str());
                out
            },
        }
    }
}

impl<E: ErrorText> SyncStatusError<E> {
    /// What the error says of its own layer. What caused it is told apart.
    pub open spec fn text(&self) -> Seq<char> {
        match self {
            SyncStatusError::NoSyncData => "No sync data. Wallet has never been synced with the block chain."@,
            SyncStatusError::WalletError(error) => "wallet error. "@ + error.text(),
        }
    }

    /// What the error says of its own layer. What caused it is told apart.
    pub fn message(&self) -> (r: String)
        ensures
            r@ == self.text(),
    {
        match self {
            SyncStatusError::NoSyncData => {
                let mut out = String::from_str("No sync data. Wallet has never been synced with the block chain.");
                out
            },
            SyncStatusError::WalletError(error) => {
                let mut out = String::from_str("wallet error. ");
                push_text(&mut out, error.describe().as_str());
                out
            },
        }
    }
}

impl MempoolError {
    /// What the error says of its own layer. What caused it is told apart.
    pub open spec fn text(&self) -> Seq<char> {
        match self {
            MempoolError::ServerError(_) => "server error"@,
            MempoolError::ShutdownWithoutStream => {
                "timed out fetching mempool stream during shutdown.\nNON-CRITICAL: sync completed successfully but may not have scanned transactions in the mempool."@
            },
        }
    }

    /// What the error says of its own layer. What caused it is told apart.
    pub fn message(&self) -> (r: String)
        ensures
            r@ == self.text(),
    {
        match self {
            MempoolError::ServerError(_) => {
                let mut out = String::from_str("server error");
                out
            },
            MempoolError::ShutdownWithoutStream => {
                let mut out = String::from_str("timed out fetching mempool stream during shutdown.\nNON-CRITICAL: sync completed successfully but may not have scanned transactions in the mempool.");
                out
            },
        }
    }
}

impl ScanError {
    /// What the error says of its own layer. What caused it is told apart.
    pub open spec fn text(&self) -> Seq<char> {
        match self {
            ScanError::ServerError(_) => "server error"@,
            ScanError::ContinuityError(_) => "continuity error"@,
            ScanError::EncodingError(error) => error.text(),
            ScanError::InvalidSaplingNullifier => "invalid sapling nullifier"@,
            ScanError::InvalidOrchardNullifierLength(length) => {
                "invalid orchard nullifier length. should be 32 bytes, found "@ + decimal(length as nat)
            },
            ScanError::InvalidOrchardNullifier => "invalid orchard nullifier"@,
            ScanError::InvalidSaplingOutput => "invalid sapling output"@,
            ScanError::InvalidOrchardAction => "invalid orchard action"@,
            ScanError::IncorrectTreeSize { shielded_protocol, height, block_metadata_size, calculated_size } => {
                "incorrect tree size. at height "@ + decimal(height as nat) + ", "@ + pool_name(*shielded_protocol)
                + " tree size recorded in block metadata "@ + decimal(block_metadata_size as nat)
                + " does not match calculated size "@ + decimal(calculated_size as nat)
            },
            ScanError::IncorrectTxid { txid_requested, txid_returned } => {
                "txid of transaction returned by the server does not match requested txid.\ntxid requested: "@
                + reversed_hex(txid_requested.bytes@) + "\ntxid returned: "@ + reversed_hex(txid_returned.bytes@)
            },
            ScanError::DecryptedNoteDataNotFound(output_id) => {
                "decrypted note nullifier and position data not found. output id: OutputId { txid: TxId(\""@
                + reversed_hex(output_id.txid.bytes@) + "\"), output_index: "@
                + decimal(output_id.output_index as nat) + " }"@
            },
            ScanError::InvalidMemoBytes(_) => "invalid memo bytes"@,
            ScanError::AddressParseError(_) => "failed to parse encoded address"@,
            ScanError::TransparentOutputInvalidValue(value) => {
                "transparent output has invalid value "@ + decimal(value as nat)
            },
            ScanError::AllAddressesInUse => "all transparent addresses are in use"@,
            ScanError::TransparentAddressDerivationError(detail) => {
                "transparent address derivation error. "@ + detail@
            },
        }
    }

    /// What the error says of its own layer. What caused it is told apart.
    pub fn message(&self) -> (r: String)
        ensures
            r@ == self.text(),
    {
        match self {
            ScanError::ServerError(_) => {
                let mut out = String::from_str("server error");
                out
            },
            ScanError::ContinuityError(_) => {
                let mut out = String::from_str("continuity error");
                out
            },
            ScanError::EncodingError(error) => {
                error.message()
            },
            ScanError::InvalidSaplingNullifier => {
                let mut out = String::from_str("invalid sapling nullifier");
                out
            },
            ScanError::InvalidOrchardNullifierLength(length) => {
                let mut out = String::from_str("invalid orchard nullifier length. should be 32 bytes, found ");
                push_decimal(&mut out, *length as u64);
                out
            },
            ScanError::InvalidOrchardNullifier => {
                let mut out = String::from_str("invalid orchard nullifier");
                out
            },
            ScanError::InvalidSaplingOutput => {
                let mut out = String::from_str("invalid sapling output");
                out
            },
            ScanError::InvalidOrchardAction => {
                let mut out = String::from_str("invalid orchard action");
                out
            },
            ScanError::IncorrectTreeSize { shielded_protocol, height, block_metadata_size, calculated_size } => {
                let mut out = String::from_str("incorrect tree size. at height ");
                push_decimal(&mut out, *height as u64);
                push_text(&mut out, ", ");
                push_pool(&mut out, *shielded_protocol);
                push_text(&mut out, " tree size recorded in block metadata ");
                push_decimal(&mut out, *block_metadata_size as u64);
                push_text(&mut out, " does not match calculated size ");
                push_decimal(&mut out, *calculated_size as u64);
                out
            },
            ScanError::IncorrectTxid { txid_requested, txid_returned } => {
                let mut out = String::from_str("txid of transaction returned by the server does not match requested txid.\ntxid requested: ");
                push_reversed_hex(&mut out, &txid_requested.bytes);
                push_text(&mut out, "\ntxid returned: ");
                push_reversed_hex(&mut out, &txid_returned.bytes);
                out
            },
            ScanError::DecryptedNoteDataNotFound(output_id) => {
                let mut out = String::from_str("decrypted note nullifier and position data not found. output id: OutputId { txid: TxId(\"");
                push_reversed_hex(&mut out, &output_id.txid.bytes);
                push_text(&mut out, "\"), output_index: ");
                push_decimal(&mut out, output_id.output_index as u64);
                push_text(&mut out, " }");
                out
            },
            ScanError::InvalidMemoBytes(_) => {
                let mut out = String::from_str("invalid memo bytes");
                out
            },
            ScanError::AddressParseError(_) => {
                let mut out = String::from_str("failed to parse encoded address");
                out
            },
            ScanError::TransparentOutputInvalidValue(value) => {
                let mut out = String::from_str("transparent output has invalid value ");
                push_decimal(&mut out, *value);
                out
            },
            ScanError::AllAddressesInUse => {
                let mut out = String::from_str("all transparent addresses are in use");
                out
            },
            ScanError::TransparentAddressDerivationError(detail) => {
                let mut out = String::from_str("transparent address derivation error. ");
                push_text(&mut out, detail.as_str());
                out
            },
        }
    }
}

impl EncodingInvalid {
    /// What the error says.
    pub open spec fn text(&self) -> Seq<char> {
        pool_name(self.pool_type) + " output "@ + decimal(self.index as nat) + " of transaction "@ + reversed_hex(
            self.txid.bytes@,
        ) + " was improperly encoded."@
    }

    /// What the error says.
    pub fn message(&self) -> (r: String)
        ensures
            r@ == self.text(),
    {
        let mut out = String::new();
        push_pool(&mut out, self.pool_type);
        assert(out@ =~= pool_name(self.pool_type));
        push_text(&mut out, " output ");
        push_decimal(&mut out, self.index as u64);
        push_text(&mut out, " of transaction ");
        push_reversed_hex(&mut out, &self.txid.bytes);
        push_text(&mut out, " was improperly encoded.");
        out
    }
}

impl CompactFormatError {
    /// What the error says.
    pub open spec fn text(&self) -> Seq<char> {
        match self {
            CompactFormatError::InvalidLength => "Invalid compact format field: could not convert slice to array"@,
            CompactFormatError::InvalidValue => "Compact format field is not a valid protocol element"@,
        }
    }

    /// What the error says.
    pub fn message(&self) -> (r: String)
        ensures
            r@ == self.text(),
    {
        match self {
            CompactFormatError::InvalidLength => {
                let mut out = String::from_str("Invalid compact format field: could not convert slice to array");
                out
            },
            CompactFormatError::InvalidValue => {
                let mut out = String::from_str("Compact format field is not a valid protocol element");
                out
            },
        }
    }
}

impl ContinuityError {
    /// What the error says.
    pub open spec fn text(&self) -> Seq<char> {
        match self {
            ContinuityError::HeightDiscontinuity { height, previous_block_height } => {
                "height discontinuity. block with height "@ + decimal(height as nat)
                + " is not continuous with previous block height "@ + decimal(previous_block_height as nat)
            },
            ContinuityError::HashDiscontinuity { height, prev_hash, previous_block_hash } => {
                "hash discontinuity. block prev_hash "@ + reversed_hex(prev_hash@) + " with height "@
                + decimal(height as nat) + " does not match previous block hash "@
                + reversed_hex(previous_block_hash@)
            },
        }
    }

    /// What the error says.
    pub fn message(&self) -> (r: String)
        ensures
            r@ == self.text(),
    {
        match self {
            ContinuityError::HeightDiscontinuity { height, previous_block_height } => {
                let mut out = String::from_str("height discontinuity. block with height ");
                push_decimal(&mut out, *height as u64);
                push_text(&mut out, " is not continuous with previous block height ");
                push_decimal(&mut out, *previous_block_height as u64);
                out
            },
            ContinuityError::HashDiscontinuity { height, prev_hash, previous_block_hash } => {
                let mut out = String::from_str("hash discontinuity. block prev_hash ");
                push_reversed_hex(&mut out, prev_hash);
                push_text(&mut out, " with height ");
                push_decimal(&mut out, *height as u64);
                push_text(&mut out, " does not match previous block hash ");
                push_reversed_hex(&mut out, previous_block_hash);
                out
            },
        }
    }
}

impl ServerError {
    /// What the error says of its own layer. What caused it is told apart.
    pub open spec fn text(&self) -> Seq<char> {
        match self {
            ServerError::RequestFailed(_) => "server request failed"@,
            ServerError::InvalidFrontier(detail) => "server returned invalid frontier. "@ + detail@,
            ServerError::InvalidTransaction(detail) => "server returned invalid transaction. "@ + detail@,
            ServerError::InvalidSubtreeRoot => "server returned invalid subtree root."@,
            ServerError::ChainVerificationError => {
                "server returned blocks that could not be verified against wallet block data. exceeded max verification window. wallet data has been cleared as shard tree data cannot be truncated further. wallet rescan required."@
            },
            ServerError::FetcherDropped => "fetcher task was dropped."@,
            ServerError::GenesisBlockOnly => "server reports only the genesis block exists."@,
        }
    }

    /// What the error says of its own layer. What caused it is told apart.
    pub fn message(&self) -> (r: String)
        ensures
            r@ == self.text(),
    {
        match self {
            ServerError::RequestFailed(_) => {
                let mut out = String::from_str("server request failed");
                out
            },
            ServerError::InvalidFrontier(detail) => {
                let mut out = String::from_str("server returned invalid frontier. ");
                push_text(&mut out, detail.as_str());
                out
            },
            ServerError::InvalidTransaction(detail) => {
                let mut out = String::from_str("server returned invalid transaction. ");
                push_text(&mut out, detail.as_str());
                out
            },
            ServerError::InvalidSubtreeRoot => {
                let mut out = String::from_str("server returned invalid subtree root.");
                out
            },
            ServerError::ChainVerificationError => {
                let mut out = String::from_str("server returned blocks that could not be verified against wallet block data. exceeded max verification window. wallet data has been cleared as shard tree data cannot be truncated further. wallet rescan required.");
                out
            },
            ServerError::FetcherDropped => {
                let mut out = String::from_str("fetcher task was dropped.");
                out
            },
            ServerError::GenesisBlockOnly => {
                let mut out = String::from_str("server reports only the genesis block exists.");
                out
            },
        }
    }
}

impl SyncModeError {
    /// What the error says.
    pub open spec fn text(&self) -> Seq<char> {
        match self {
            SyncModeError::InvalidSyncMode(mode) => "invalid sync mode. "@ + decimal(mode as nat),
            SyncModeError::SyncAlreadyRunning => "sync is already running"@,
            SyncModeError::SyncNotRunning => "sync is not running"@,
            SyncModeError::SyncNotPaused => "sync is not paused"@,
        }
    }

    /// What the error says.
    pub fn message(&self) -> (r: String)
        ensures
            r@ == self.text(),
    {
        match self {
            SyncModeError::InvalidSyncMode(mode) => {
                let mut out = String::from_str("invalid sync mode. ");
                push_decimal(&mut out, *mode as u64);
                out
            },
            SyncModeError::SyncAlreadyRunning => {
                let mut out = String::from_str("sync is already running");
                out
            },
            SyncModeError::SyncNotRunning => {
                let mut out = String::from_str("sync is not running");
                out
            },
            SyncModeError::SyncNotPaused => {
                let mut out = String::from_str("sync is not paused");
                out
            },
        }
    }
}

// --- the chain of causes ---

/// The values of texts.
pub open spec fn texts_of(texts: Seq<String>) -> Seq<Seq<char>> {
    Seq::new(texts.len(), |i: int| texts[i]@)
}

/// The texts in one line, with a separator between two of them.
pub open spec fn joined(texts: Seq<Seq<char>>) -> Seq<char>
    decreases texts.len(),
{
    if texts.len() == 0 {
        Seq::empty()
    } else if texts.len() == 1 {
        texts[0]
    } else {
        joined(texts.drop_last()) + ": "@ + texts.last()
    }
}

/// An error and its causes in one line, so that a log message keeps the whole chain.
pub fn cause_chain_text(chain: &Vec<String>) -> (r: String)
    ensures
        r@ == joined(texts_of(chain@)),
{
    let mut out = String::new();
    let count: usize = chain.len();
    let mut i: usize = 0;
    proof {
        reveal_strlit("");
        assert(texts_of(chain@).take(0) =~= Seq::empty());
        assert(out@ =~= Seq::empty());
    }
    while i < count
        invariant
            i <= count == chain@.len(),
            out@ == joined(texts_of(chain@).take(i as int)),
        decreases count - i,
    {
        let ghost before = out@;
        let ghost shown = texts_of(chain@).take(i + 1);
        proof {
            assert(shown.drop_last() =~= texts_of(chain@).take(i as int));
            assert(shown.last() == chain@[i as int]@);
        }
        if i > 0 {
            push_text(&mut out, ": ");
        }
        push_text(&mut out, chain[i].as_str());
        proof {
            if i == 0 {
                assert(before =~= Seq::empty());
                assert(out@ =~= shown[0]);
            }
        }
        i = i + 1;
    }
    assert(texts_of(chain@).take(count as int) =~= texts_of(chain@));
    out
}

impl TreeError {
    /// What the error says.
    pub open spec fn text(&self) -> Seq<char> {
        match self {
            TreeError::Insert => "the nodes to insert conflict with the tree or are malformed"@,
            TreeError::Pruned => {
                "The leaf corresponding to the requested checkpoint is not present in the tree."@
            },
        }
    }

    /// What the error says.
    pub fn message(&self) -> (r: String)
        ensures
            r@ == self.text(),
    {
        match self {
            TreeError::Insert => String::from_str("the nodes to insert conflict with the tree or are malformed"),
            TreeError::Pruned => String::from_str(
                "The leaf corresponding to the requested checkpoint is not present in the tree.",
            ),
        }
    }
}

/// Puts a text before those of its causes.
fn led_by(text: String, causes: Vec<String>) -> (r: Vec<String>)
    ensures
        texts_of(r@) == seq![text@] + texts_of(causes@),
{
    let mut causes = causes;
    let ghost before = causes@;
    causes.insert(0, text);
    assert(texts_of(causes@) =~= seq![text@] + texts_of(before));
    causes
}

/// The text of an error without a cause.
fn alone(text: String) -> (r: Vec<String>)
    ensures
        texts_of(r@) == seq![text@],
{
    let mut r: Vec<String> = Vec::new();
    r.push(text);
    assert(texts_of(r@) =~= seq![text@]);
    r
}

/// The texts of an error and of what caused it.
fn caused_by(text: String, cause: String) -> (r: Vec<String>)
    ensures
        texts_of(r@) == seq![text@, cause@],
{
    let mut r: Vec<String> = Vec::new();
    r.push(text);
    r.push(cause);
    assert(texts_of(r@) =~= seq![text@, cause@]);
    r
}

impl ServerError {
    /// What the error and its causes say, each of its own layer.
    pub open spec fn chain_texts(&self) -> Seq<Seq<char>> {
        match self {
            ServerError::RequestFailed(status) => seq![self.text(), status@],
            _ => seq![self.text()],
        }
    }

    /// What the error and its causes say, each of its own layer.
    pub fn chain(&self) -> (r: Vec<String>)
        ensures
            texts_of(r@) == self.chain_texts(),
    {
        match self {
            ServerError::RequestFailed(status) => caused_by(self.message(), String::from_str(status.as_str())),
            _ => alone(self.message()),
        }
    }
}

impl ScanError {
    /// What the error and its causes say, each of its own layer.
    pub open spec fn chain_texts(&self) -> Seq<Seq<char>> {
        match self {
            ScanError::ServerError(error) => seq![self.text()] + error.chain_texts(),
            ScanError::ContinuityError(error) => seq![self.text(), error.text()],
            ScanError::InvalidSaplingNullifier => seq![self.text(), "could not convert slice to array"@],
            ScanError::InvalidMemoBytes(detail) => seq![self.text(), detail@],
            ScanError::AddressParseError(detail) => seq![self.text(), detail@],
            _ => seq![self.text()],
        }
    }

    /// What the error and its causes say, each of its own layer.
    pub fn chain(&self) -> (r: Vec<String>)
        ensures
            texts_of(r@) == self.chain_texts(),
    {
        match self {
            ScanError::ServerError(error) => led_by(self.message(), error.chain()),
            ScanError::ContinuityError(error) => caused_by(self.message(), error.message()),
            ScanError::InvalidSaplingNullifier => caused_by(
                self.message(),
                String::from_str("could not convert slice to array"),
            ),
            ScanError::InvalidMemoBytes(detail) => caused_by(self.message(), String::from_str(detail.as_str())),
            ScanError::AddressParseError(detail) => caused_by(self.message(), String::from_str(detail.as_str())),
            _ => alone(self.message()),
        }
    }
}

impl MempoolError {
    /// What the error and its causes say, each of its own layer.
    pub open spec fn chain_texts(&self) -> Seq<Seq<char>> {
        match self {
            MempoolError::ServerError(error) => seq![self.text()] + error.chain_texts(),
            MempoolError::ShutdownWithoutStream => seq![self.text()],
        }
    }

    /// What the error and its causes say, each of its own layer.
    pub fn chain(&self) -> (r: Vec<String>)
        ensures
            texts_of(r@) == self.chain_texts(),
    {
        match self {
            MempoolError::ServerError(error) => led_by(self.message(), error.chain()),
            MempoolError::ShutdownWithoutStream => alone(self.message()),
        }
    }
}

impl<E: ErrorText> SyncError<E> {
    /// What the error and its causes say, each of its own layer.
    pub open spec fn chain_texts(&self) -> Seq<Seq<char>> {
        match self {
            SyncError::MempoolError(error) => seq![self.text()] + error.chain_texts(),
            SyncError::ScanError(error) => seq![self.text()] + error.chain_texts(),
            SyncError::ServerError(error) => seq![self.text()] + error.chain_texts(),
            SyncError::SyncModeError(error) => seq![self.text(), error.text()],
            SyncError::ShardTreeError(error) => seq![self.text(), error.text()],
            _ => seq![self.text()],
        }
    }

    /// What the error and its causes say, each of its own layer.
    pub fn chain(&self) -> (r: Vec<String>)
        ensures
            texts_of(r@) == self.chain_texts(),
    {
        match self {
            SyncError::MempoolError(error) => led_by(self.message(), error.chain()),
            SyncError::ScanError(error) => led_by(self.message(), error.chain()),
            SyncError::ServerError(error) => led_by(self.message(), error.chain()),
            SyncError::SyncModeError(error) => caused_by(self.message(), error.message()),
            SyncError::ShardTreeError(error) => caused_by(self.message(), error.message()),
            _ => alone(self.message()),
        }
    }
}

/// A failed request is told once: the layers above it name themselves only, and the status stands at the end.
pub proof fn law_failed_request_is_told_once<E: ErrorText>(error: SyncError<E>, status: String)
    requires
        error == SyncError::<E>::ServerError(ServerError::RequestFailed(status)),
    ensures
        error.chain_texts() == seq!["server error"@, "server request failed"@, status@],
{
    assert(error.chain_texts() =~= seq!["server error"@, "server request failed"@, status@]);
}

// --- errors within errors ---

impl<E> From<MempoolError> for SyncError<E> {
    fn from(error: MempoolError) -> (r: Self) {
        SyncError::MempoolError(error)
    }
}

impl<E> vstd::std_specs::convert::FromSpecImpl<MempoolError> for SyncError<E> {
    open spec fn obeys_from_spec() -> bool {
        true
    }

    open spec fn from_spec(error: MempoolError) -> Self {
        SyncError::MempoolError(error)
    }
}

impl<E> From<ScanError> for SyncError<E> {
    fn from(error: ScanError) -> (r: Self) {
        SyncError::ScanError(error)
    }
}

impl<E> vstd::std_specs::convert::FromSpecImpl<ScanError> for SyncError<E> {
    open spec fn obeys_from_spec() -> bool {
        true
    }

    open spec fn from_spec(error: ScanError) -> Self {
        SyncError::ScanError(error)
    }
}

impl<E> From<ServerError> for SyncError<E> {
    fn from(error: ServerError) -> (r: Self) {
        SyncError::ServerError(error)
    }
}

impl<E> vstd::std_specs::convert::FromSpecImpl<ServerError> for SyncError<E> {
    open spec fn obeys_from_spec() -> bool {
        true
    }

    open spec fn from_spec(error: ServerError) -> Self {
        SyncError::ServerError(error)
    }
}

impl<E> From<SyncModeError> for SyncError<E> {
    fn from(error: SyncModeError) -> (r: Self) {
        SyncError::SyncModeError(error)
    }
}

impl<E> vstd::std_specs::convert::FromSpecImpl<SyncModeError> for SyncError<E> {
    open spec fn obeys_from_spec() -> bool {
        true
    }

    open spec fn from_spec(error: SyncModeError) -> Self {
        SyncError::SyncModeError(error)
    }
}

impl<E> From<TreeError> for SyncError<E> {
    fn from(error: TreeError) -> (r: Self) {
        SyncError::ShardTreeError(error)
    }
}

impl<E> vstd::std_specs::convert::FromSpecImpl<TreeError> for SyncError<E> {
    open spec fn obeys_from_spec() -> bool {
        true
    }

    open spec fn from_spec(error: TreeError) -> Self {
        SyncError::ShardTreeError(error)
    }
}

impl From<ServerError> for MempoolError {
    fn from(error: ServerError) -> (r: Self) {
        MempoolError::ServerError(error)
    }
}

impl vstd::std_specs::convert::FromSpecImpl<ServerError> for MempoolError {
    open spec fn obeys_from_spec() -> bool {
        true
    }

    open spec fn from_spec(error: ServerError) -> Self {
        MempoolError::ServerError(error)
    }
}

impl From<ServerError> for ScanError {
    fn from(error: ServerError) -> (r: Self) {
        ScanError::ServerError(error)
    }
}

impl vstd::std_specs::convert::FromSpecImpl<ServerError> for ScanError {
    open spec fn obeys_from_spec() -> bool {
        true
    }

    open spec fn from_spec(error: ServerError) -> Self {
        ScanError::ServerError(error)
    }
}

impl From<ContinuityError> for ScanError {
    fn from(error: ContinuityError) -> (r: Self) {
        ScanError::ContinuityError(error)
    }
}

impl vstd::std_specs::convert::FromSpecImpl<ContinuityError> for ScanError {
    open spec fn obeys_from_spec() -> bool {
        true
    }

    open spec fn from_spec(error: ContinuityError) -> Self {
        ScanError::ContinuityError(error)
    }
}

impl From<EncodingInvalid> for ScanError {
    fn from(error: EncodingInvalid) -> (r: Self) {
        ScanError::EncodingError(error)
    }
}

impl vstd::std_specs::convert::FromSpecImpl<EncodingInvalid> for ScanError {
    open spec fn obeys_from_spec() -> bool {
        true
    }

    open spec fn from_spec(error: EncodingInvalid) -> Self {
        ScanError::EncodingError(error)
    }
}

} // verus!
