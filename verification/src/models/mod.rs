//! Data models: edits, check results and configuration.

pub mod config;
pub mod edit;
