//! Collector for parameterized to-do annotations in text files.
//!
//! A configured set of (start, end) delimiter pairs describes how an
//! annotation looks; the parser scans file contents line by line, extracts
//! the annotation's priority, assignee and context-line count, captures the
//! requested context lines, and the pipeline aggregates and sorts the items
//! found across a file tree.

pub mod args;
pub mod codec;
pub mod commands;
pub mod grammar;
pub mod matcher;
pub mod parser;
pub mod sort;
pub mod text;
pub mod types;
