//! A parallel substring-occurrence counting engine.
//!
//! Given a byte buffer and a search word, the engine counts non-overlapping
//! occurrences of the word.  The buffer is split into overlapping windows
//! (fragments); each fragment is scanned with the classic failure-table
//! string-search algorithm, and three interchangeable execution strategies
//! (sequential, manually partitioned workers, and a data-parallel reduction)
//! aggregate the per-fragment counts.  All three strategies are proved to
//! return the same total.  A metrics module derives CPU-utilisation and
//! memory figures from samples taken around a run.

pub mod model;
pub mod pattern;
pub mod fragment;
pub mod scanner;
pub mod strategy;
pub mod metrics;
