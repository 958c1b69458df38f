//! Pins the actions that workflow files use to commit hashes.
//!
//! The crate holds the engine only: it reads references out of workflow text,
//! picks the commit that a remote advertises for each of them, and rewrites
//! the text. Reading and writing files, and talking to remotes, is left to
//! the caller, who hands the results in as plain values.

pub mod text;
pub mod action;
pub mod parser;
pub mod git;
pub mod workflow;
