//! Archival and search core for exported chat conversations.
//!
//! The library splits an ordered message log into fixed-size chunks that can
//! be read back by arbitrary position windows, and prepares the data and the
//! decisions for a two-stage full-text search (exact first, fuzzy fallback)
//! with time-decay re-ranking.  All file and index I/O stays with the caller;
//! the functions here compute plans, transform values, and carry proofs of
//! the properties the design relies on.

pub mod logger;
pub mod message_storage;
pub mod models;
pub mod sapper_core;
pub mod search;
pub mod strutil;
pub mod tokenizer;
pub mod versioning;
