//! The service boundary for bindings: plain requests and replies, and the
//! decisions of the sequencer that serves them.
pub mod error;
pub mod types;
pub mod json;
pub mod query;
pub mod page;
pub mod pages;
pub mod feed;
pub mod fold;
pub mod write;
pub mod params;
pub mod projection;
pub mod heal;
pub mod replicate;
pub mod sequencer;
