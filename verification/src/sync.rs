//! The sync engine: what is scanned next, and what becomes of what was scanned.
pub mod address_laws;
pub mod cleanup;
pub mod cleanup_laws;
pub mod conditions;
pub mod fetched;
pub mod mark_laws;
pub mod process;
pub mod progress;
pub mod progress_laws;
pub mod range_laws;
pub mod result_laws;
pub mod results;
pub mod roots;
pub mod select;
pub mod session;
pub mod shard_laws;
pub mod shards;
pub mod spend;
pub mod spend_laws;
pub mod spend_update;
pub mod step_laws;
pub mod state;
pub mod targets;
pub mod transparent;
pub mod tree_laws;
pub mod truncate;
pub mod update;
pub mod update_laws;
