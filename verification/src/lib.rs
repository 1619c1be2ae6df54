//! A live diff feed for coding-agent edits.
//!
//! A hook snapshots files around each edit and appends the hook payload to a
//! JSONL spool; the monitor tails the spool, diffs the snapshots and renders
//! the result. This crate is everything the two sides decide and compute; the
//! program around it reads and writes files, runs git and draws the screen.

pub mod app;
pub mod columns;
pub mod diff;
pub mod dump;
pub mod event;
pub mod hook;
pub mod install;
pub mod json;
pub mod linediff;
pub mod paths;
pub mod render;
pub mod session;
pub mod snapshot;
pub mod spool;
pub mod style;
pub mod syntax;
pub mod text;
pub mod ui;
