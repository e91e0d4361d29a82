//! Commit-graph rows and label-scoped text styling.
//!
//! The crate turns a traversal of commits and their edges into display rows
//! (`backend`), and a stream of labelled text fragments into styled runs
//! (`formatter`), resolving each label stack against a table of style rules
//! (`rules`).

pub mod backend;
pub mod formatter;
pub mod graph;
pub mod recorder;
pub mod renderer;
pub mod rules;
pub mod sanitize;
pub mod style;
