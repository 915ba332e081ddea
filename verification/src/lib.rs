//! A personal command-snippet recorder: snippets persist in a SQLite-backed
//! store and can be browsed, filtered and deleted through an interactive
//! picker state machine.

pub mod filter;
pub mod picker;
pub mod render;
pub mod snippet;
pub mod store;
