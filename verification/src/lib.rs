pub mod agent;
pub mod append;
pub mod binary;
pub mod branch;
pub mod bytes;
pub mod checksum;
pub mod commit;
pub mod db;
pub mod demo;
pub mod error;
pub mod event;
pub mod facade;
pub mod format;
pub mod introspect;
pub mod json;
pub mod laws;
pub mod log;
pub mod migration;
pub mod places;
pub mod projection;
pub mod retention;
pub mod sealed;
pub mod snapshot;
pub mod stream;
pub mod text;
pub mod timeline;
