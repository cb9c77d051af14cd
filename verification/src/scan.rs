//! Scanning: what is read from blocks, and in which portions they are fetched.
pub mod compact;
pub mod compact_blocks;
pub mod gap;
pub mod load;
pub mod load_laws;
pub mod scan_laws;
pub mod scanning;
pub mod task;
pub mod task_laws;
