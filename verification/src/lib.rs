//! A line counter for directory trees.
//!
//! The library counts the lines of every file in a directory tree and
//! groups the counts by file extension. Every function is verified
//! against a mathematical model: a file's content is a sequence of bytes,
//! a tally is a map from extensions to counts, and a directory tree is a
//! value of [`tree::Entry`].
//!
//! - [`lines`] counts the lines of a file's content.
//! - [`extension`] finds the extension of a file name.
//! - [`counts`] holds the mathematics of tallies: recording, merging and
//!   totals, with their laws.
//! - [`order`] is the order in which a tally lists its extensions.
//! - [`tally`] is the tally itself.
//! - [`tree`] tallies a directory tree, entry by entry.
//! - [`parallel`] does the same with the entries handled in parallel.
//! - [`report`] writes the tally as a table and centres it.

pub mod counts;
pub mod extension;
pub mod lines;
pub mod order;
pub mod parallel;
pub mod report;
pub mod tally;
pub mod tree;
