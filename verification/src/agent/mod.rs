//! Agent memory over the engine: a vocabulary of events, and the projections
//! that fold it.
pub mod body;
pub mod kv;
pub mod session;
