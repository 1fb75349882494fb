//! Verified core of the ZeroClaw coordinator: path access control, the
//! change history behind rollback, text edits and the TOML configuration
//! edits that the coordinator's tools perform.

pub mod config;
pub mod history;
pub mod path;
pub mod rpc;
pub mod server;
pub mod text;
pub mod toml;
