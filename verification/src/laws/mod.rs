//! What the operations promise as a whole, stated of what goes in and what
//! comes out.
pub mod agent;
pub mod append;
pub mod branch;
pub mod calls;
pub mod diff;
pub mod digest;
pub mod engine;
pub mod layout;
pub mod log;
pub mod migration;
pub mod projection;
pub mod query;
pub mod replay;
pub mod retention;
pub mod service;
pub mod snapshot;
