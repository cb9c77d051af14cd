//! The data that the sync engine keeps for a wallet.
pub mod codec;
pub mod data;
pub mod format_laws;
pub mod integrity;
pub mod note_serialization;
pub mod nullifier_serialization;
pub mod serialization;
pub mod shard_trees;
pub mod status;
pub mod stores;
pub mod sync_state;
pub mod transaction;
pub mod transaction_serialization;
