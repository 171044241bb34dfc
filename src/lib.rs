//! Storage engine of one partition of a log-based message store: a batched,
//! append-only payload log with a fixed-width index of records, an index
//! table rebuilt from the persisted records, and point lookups.

pub mod error;
pub mod offset;
pub mod batch;
pub mod indices;
pub mod storage;
