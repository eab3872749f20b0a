//! The decisions behind the `check`, `fix` and `config` commands; reading,
//! writing, the keychain and the network are left to the caller.

pub mod check;
pub mod config;
