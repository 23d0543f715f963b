//! What the command line and the demonstrations decide: which command is meant,
//! what a session's transcript looks like, and how the playground reads a
//! request.
pub mod batches;
pub mod command;
pub mod crash;
pub mod http;
pub mod playground;
pub mod storm;
pub mod transcript;
