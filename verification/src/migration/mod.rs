//! Offline migration of databases in older formats.
pub mod branches;
pub mod import;
pub mod legacy;
pub mod marker;
