//! An in-memory mutation buffer ("memtable") for a log-structured-merge
//! storage engine: it holds an ordered, versioned view of recently written
//! keys, answers point lookups for the newest visible version of a key as of
//! a given sequence number, and yields an ordered, tombstone-filtered scan of
//! all live entries.

pub mod types;
pub mod order;
pub mod encoding;
pub mod codec;
pub mod lookup_key;
pub mod memtable;
