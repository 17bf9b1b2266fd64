//! Syntax-aware test-case reduction.
//!
//! A reducer takes a program, its syntax tree and a check, and looks for a
//! smaller program that the check still finds interesting.  It keeps a queue of
//! tasks ordered by how many bytes they could remove, tries the edit that each
//! task stands for, and saves every edit that the check accepts.
pub mod config;
pub mod ctx;
pub mod dispatch;
pub mod edits;
pub mod error;
pub mod explore;
pub mod id;
pub mod interesting;
pub mod laws;
pub mod node_types;
pub mod nodes;
pub mod original;
pub mod parse;
pub mod pass;
pub mod stats;
pub mod syntax;
pub mod task;
pub mod tasks;
pub mod text;
pub mod versioned;
pub mod work;
