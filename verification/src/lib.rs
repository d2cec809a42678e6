//! A content-addressed object store with Merkle-tree directory hashing
//! and deduplication. Files and directories are ingested, keyed by a
//! digest of their content, stored at most once, and exposed through
//! named links that, once bound, never silently change target.

pub mod angofile;
pub mod commands;
pub mod entries;
pub mod hashing;
pub mod order;

pub use angofile::AngoContext;
pub use angofile::LinkType;
pub use angofile::TypedHash;
