//! Helpers shared by the servers.
pub mod file_ops;
