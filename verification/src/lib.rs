//! Columnar execution kernels.
//!
//! Grouping: [`dense`] gives each pair of an integer and a dictionary value a group
//! number by direct addressing, with [`group_values_column`] as its fallback;
//! [`fixed_size_binary`] stores group values of fixed-size binary type.
//!
//! Joining: [`probe_runs`] looks up each run of equal probe keys once, and
//! [`dictionary_compaction`] drops repeated dictionary values of a build side.
//!
//! Functions: [`any_match`] tells whether a predicate holds of any element of a list,
//! and [`approx_distinct`] counts distinct values.
//!
//! Tasks: [`trace`] keeps the tracer of tasks and sees that a task is spawned once.

pub mod any_match;
pub mod approx_distinct;
pub mod arith;
pub mod arrays;
pub mod column_values;
pub mod data_type;
pub mod dense;
pub mod dictionary_compaction;
pub mod dictionary_ids;
pub mod distinct_counter;
pub mod domain;
pub mod error;
pub mod fixed_size_binary;
pub mod group_keys;
pub mod group_values_column;
pub mod hashing;
pub mod hyperloglog;
pub mod null_builder;
pub mod probe_runs;
pub mod routing;
mod shared;
pub mod signature;
pub mod trace;
pub mod value_ids;
