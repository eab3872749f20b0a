//! Text services: positions, edit application, chunking and validation.

pub mod chunker;
pub mod diff;
pub mod position;
pub mod validator;
