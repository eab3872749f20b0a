//! Grammar checking library: the position arithmetic, edit application,
//! chunking, validation and configuration logic of a grammar checker that
//! asks a language model for position-based edit suggestions.

pub mod text;
pub mod services;
pub mod models;
pub mod providers;
pub mod cli;
pub mod commands;
pub mod output;
