//! The stable on-disk framing and the engine's event envelope.
pub mod codec;
pub mod derive;
pub mod envelope;
pub mod frame;
pub mod ids;
pub mod metadata;
