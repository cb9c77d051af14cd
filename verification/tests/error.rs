//! What the errors say and what they recommend.

use pepper_sync::error::{
    cause_chain_text, CompactFormatError, ContinuityError, EncodingInvalid, MempoolError, ScanError, ServerError,
    SyncError, SyncModeError, SyncRecoveryObservables, SyncStatusError,
};
use pepper_sync::primitives::{OutputId, ShieldedPool, TxId};
use pepper_sync::trees::TreeError;

type TestSyncError = SyncError<String>;

fn reopened() -> TestSyncError {
    SyncError::PoolHistoryReopened {
        pool: ShieldedPool::Ironwood,
        rescan_from: 100,
        disagreed_at: 150,
        block_metadata_size: 999,
        calculated_size: 7,
    }
}

fn deadline() -> ServerError {
    ServerError::RequestFailed(tonic::Status::deadline_exceeded("timeout").to_string())
}

fn io_text(text: &str) -> String {
    std::io::Error::other(text).to_string()
}

#[test]
fn a_failed_server_request_renders_its_status_once() {
    const DETAIL: &str = "the indexer refused the block range";
    let failure: TestSyncError =
        ServerError::RequestFailed(tonic::Status::unavailable(DETAIL).to_string()).into();
    let rendered = failure.chain().join("\n");
    assert_eq!(rendered.matches(DETAIL).count(), 1, "the chain rendered was {rendered}");
    assert_eq!(cause_chain_text(&failure.chain()).matches(DETAIL).count(), 1);
}

#[test]
fn the_rescan_announcement_names_the_consequence_and_the_cause() {
    let announcement: TestSyncError = SyncError::PoolHistoryReopened {
        pool: ShieldedPool::Ironwood,
        rescan_from: 3_000_000,
        disagreed_at: 3_100_000,
        block_metadata_size: 999,
        calculated_size: 7,
    };
    let rendered = announcement.message();
    assert!(rendered.starts_with("RESCAN TRIGGERED"), "{rendered}");
    for fact in [
        "cleared back to height 3000000",
        "at height 3100000",
        "commitment tree of 7",
        "the chain reports 999",
    ] {
        assert!(rendered.contains(fact), "missing '{fact}' in: {rendered}");
    }
}

#[test]
fn the_tree_size_refusal_names_the_disagreeing_block() {
    let refusal = ScanError::IncorrectTreeSize {
        shielded_protocol: ShieldedPool::Ironwood,
        height: 3_100_000,
        block_metadata_size: 999,
        calculated_size: 7,
    };
    assert!(refusal.message().contains("at height 3100000"), "{}", refusal.message());
}

#[test]
fn error_fetcher_dropped() {
    assert!(ServerError::FetcherDropped.recommend_same_server());
    assert_eq!(
        ServerError::FetcherDropped.recovery_recommendation(),
        SyncRecoveryObservables::MaybeRecoverableServer
    );
}

#[test]
fn error_mempool_error() {
    let e: TestSyncError = MempoolError::ShutdownWithoutStream.into();
    assert!(e.recommend_same_server());
    assert_eq!(e.recovery_recommendation(), SyncRecoveryObservables::MaybeRecoverableServer);
}

#[test]
fn error_pool_history_reopened() {
    assert!(reopened().recommend_same_server());
    assert_eq!(reopened().recovery_recommendation(), SyncRecoveryObservables::MaybeRecoverableServer);
}

#[test]
fn error_request_failed() {
    assert!(!deadline().recommend_same_server());
    assert_eq!(deadline().recovery_recommendation(), SyncRecoveryObservables::ServerUnavailable);
}

#[test]
fn error_invalid_frontier() {
    let e = ServerError::InvalidFrontier(io_text("bad frontier"));
    assert!(!e.recommend_same_server());
    let e = ServerError::InvalidFrontier(io_text("bad"));
    assert_eq!(e.recovery_recommendation(), SyncRecoveryObservables::ServerUnavailable);
}

#[test]
fn error_invalid_transaction() {
    let e = ServerError::InvalidTransaction(io_text("bad tx"));
    assert!(!e.recommend_same_server());
    let e = ServerError::InvalidTransaction(io_text("bad"));
    assert_eq!(e.recovery_recommendation(), SyncRecoveryObservables::ServerUnavailable);
}

#[test]
fn error_invalid_subtree_root() {
    assert!(!ServerError::InvalidSubtreeRoot.recommend_same_server());
    assert_eq!(
        ServerError::InvalidSubtreeRoot.recovery_recommendation(),
        SyncRecoveryObservables::ServerUnavailable
    );
}

#[test]
fn error_chain_verification_error() {
    assert!(!ServerError::ChainVerificationError.recommend_same_server());
    assert_eq!(
        ServerError::ChainVerificationError.recovery_recommendation(),
        SyncRecoveryObservables::ServerUnavailable
    );
}

#[test]
fn error_genesis_block_only() {
    assert!(!ServerError::GenesisBlockOnly.recommend_same_server());
    assert_eq!(ServerError::GenesisBlockOnly.recovery_recommendation(), SyncRecoveryObservables::Abort);
}

#[test]
fn server_request_failed() {
    let e: TestSyncError = deadline().into();
    assert!(!e.recommend_same_server());
}

#[test]
fn error_sync_mode_error() {
    let e: TestSyncError = SyncModeError::SyncAlreadyRunning.into();
    assert!(!e.recommend_same_server());
    assert_eq!(e.recovery_recommendation(), SyncRecoveryObservables::Abort);
}

#[test]
fn error_chain_error() {
    let e: TestSyncError = SyncError::ChainError(100, 50, 50);
    assert!(!e.recommend_same_server());
    assert_eq!(e.recovery_recommendation(), SyncRecoveryObservables::Abort);
}

#[test]
fn birthday_below_sapling() {
    let e: TestSyncError = SyncError::BirthdayBelowSapling(100, 419200);
    assert!(!e.recommend_same_server());
}

#[test]
fn error_wallet_error() {
    let e: TestSyncError = SyncError::WalletError("db locked".to_string());
    assert!(!e.recommend_same_server());
    assert_eq!(e.recovery_recommendation(), SyncRecoveryObservables::Abort);
}

#[test]
fn sync_error_from_request_failed() {
    let e: TestSyncError =
        ServerError::RequestFailed(tonic::Status::unavailable("down").to_string()).into();
    assert_eq!(e.recovery_recommendation(), SyncRecoveryObservables::ServerUnavailable);
}

#[test]
fn sync_error_from_invalid_frontier() {
    let e: TestSyncError = ServerError::InvalidFrontier(io_text("bad")).into();
    assert_eq!(e.recovery_recommendation(), SyncRecoveryObservables::ServerUnavailable);
}

#[test]
fn scan_error_wrapping_server_error() {
    let e: TestSyncError = ScanError::from(ServerError::InvalidSubtreeRoot).into();
    assert_eq!(e.recovery_recommendation(), SyncRecoveryObservables::ServerUnavailable);
}

/// Trying the same server again is recommended for exactly the errors that are worth a retry there.
#[test]
fn recommendations_agree() {
    let errors: Vec<TestSyncError> = vec![
        SyncError::MempoolError(MempoolError::ShutdownWithoutStream),
        SyncError::MempoolError(MempoolError::ServerError(ServerError::FetcherDropped)),
        SyncError::ScanError(ScanError::ServerError(ServerError::FetcherDropped)),
        SyncError::ScanError(ScanError::InvalidSaplingNullifier),
        SyncError::ServerError(ServerError::FetcherDropped),
        SyncError::ServerError(ServerError::GenesisBlockOnly),
        SyncError::ShardTreeError(TreeError::Insert),
        SyncError::TruncationError(8, ShieldedPool::Orchard),
        reopened(),
    ];
    for error in errors {
        if error.recommend_same_server() {
            assert_eq!(error.recovery_recommendation(), SyncRecoveryObservables::MaybeRecoverableServer);
        }
    }
}

/// The words of each error that carries a value.
#[test]
fn messages_name_their_values() {
    let chain: TestSyncError = SyncError::ChainError(210, 100, 110);
    assert_eq!(chain.message(), "wallet height 210 is more than 100 blocks ahead of best chain height 110");
    let birthday: TestSyncError = SyncError::BirthdayBelowSapling(1, 3);
    let text = birthday.message();
    assert!(text.contains('1') && text.contains('3'), "{text}");
    let truncation: TestSyncError = SyncError::TruncationError(8, ShieldedPool::Orchard);
    let text = truncation.message();
    assert!(text.contains('8') && text.to_lowercase().contains("orchard"), "{text}");
    let txid = TxId::from_bytes([0x0a; 32]);
    let other = TxId::from_bytes([0x0b; 32]);
    let mismatch = ScanError::IncorrectTxid { txid_requested: txid, txid_returned: other };
    let text = mismatch.message();
    assert!(text.contains(&"0a".repeat(32)) && text.contains(&"0b".repeat(32)), "{text}");
    assert!(ScanError::InvalidOrchardNullifierLength(31).message().contains("31"));
    assert!(ScanError::InvalidMemoBytes("odd memo".to_string()).chain().join(" ").contains("odd memo"));
    assert!(ScanError::DecryptedNoteDataNotFound(OutputId::new(txid, 7)).message().contains('7'));
    assert!(SyncModeError::InvalidSyncMode(9).message().contains('9'));
    assert_eq!(SyncModeError::SyncNotPaused.message(), "sync is not paused");
    let heights = ContinuityError::HeightDiscontinuity { height: 12, previous_block_height: 10 };
    let text = heights.message();
    assert!(text.contains("12") && text.contains("10"), "{text}");
    let mut reversed: [u8; 32] = [0; 32];
    reversed[31] = 0xfe;
    let hashes =
        ContinuityError::HashDiscontinuity { height: 12, prev_hash: reversed, previous_block_hash: [0x11; 32] };
    let text = hashes.message();
    assert!(text.contains("fe0000") && text.contains(&"11".repeat(32)), "{text}");
    let encoding = EncodingInvalid {
        at_height: 33,
        txid,
        pool_type: ShieldedPool::Sapling,
        index: 4,
        error: CompactFormatError::InvalidLength,
    };
    let text = encoding.message();
    assert!(text.starts_with("Sapling output 4 of transaction 0a0a"), "{text}");
    let status: SyncStatusError<String> = SyncStatusError::NoSyncData;
    assert!(!status.message().is_empty());
}
