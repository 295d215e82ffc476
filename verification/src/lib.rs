//! Trace tree engine for stack-flow logs.
//!
//! A stack-flow log is a line-oriented text format describing nested function
//! call entry and exit: each line begins with `+` (enter) or `-` (exit),
//! followed by a raw frame token of the shape
//! `FUNCTION@FILE:LINE:COL: LASTLINE:LASTCOL`.
//! This crate parses such a log into a collapsible tree of visible nodes,
//! materializing nodes under depth, size and relevance-pattern constraints,
//! and supports structural edits (delete one node, remove a subtree, and the
//! "all matching" variants) together with a persisted, replayable log of
//! those edits.

pub mod actions;
pub mod config;
pub mod data;
pub mod init;
pub mod tree;
