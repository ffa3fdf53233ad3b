//! Storage kernel of a small relational engine: block identifiers, a page
//! codec, the block arithmetic of a file manager and a backward-growing
//! write-ahead log with newest-first replay.
pub mod file_manager;
pub mod logger;
