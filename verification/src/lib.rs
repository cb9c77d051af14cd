//! A verified sync engine core for light wallets of the Zcash network.
pub mod chain;
pub mod client;
pub mod config;
pub mod error;
pub mod outside;
pub mod primitives;
pub mod scan;
pub mod scan_range;
pub mod shardtree_ext;
pub mod sorted_map;
pub mod sync;
pub mod sync_mode;
pub mod text;
pub mod text_laws;
pub mod trees;
pub mod wallet;
pub mod witness;
