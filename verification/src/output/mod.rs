//! What the human-readable output shows of each edit.

pub mod human;
