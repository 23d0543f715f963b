//! The segmented log: records, segments, their recovery, and reading.
pub mod index;
pub mod reader;
pub mod record;
pub mod recovery;
pub mod replay;
pub mod segment;
pub mod select;
pub mod sidecar;
pub mod store;
pub mod system;
pub mod whole;
