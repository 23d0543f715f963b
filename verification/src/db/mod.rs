//! The engine: a log with what was appended to it, its branches, and what is
//! durable. It decides; files are read and written elsewhere.
pub mod engine;
pub mod fork;
pub mod read;
pub mod retain;
