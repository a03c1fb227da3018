//! A chunked aggregation engine for newline-delimited `<key>;<value>`
//! records: a splitter that realigns byte blocks on record boundaries,
//! a per-chunk scanner that folds each record into a per-key running
//! aggregate (low, high, sum, count), and a reducer that merges the
//! per-chunk aggregate mappings with a commutative, associative rule.
//!
//! Values are fixed-point numbers in tenths; keys are raw byte strings.
//! The embedding program owns the byte source, the task pool and the
//! completion channel, and hands chunks in and partial mappings back.

pub mod records;
pub mod value;
pub mod agg;
pub mod mapping;
pub mod splitter;
pub mod tally;
pub mod pipeline;
