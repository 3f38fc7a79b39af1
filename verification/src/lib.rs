//! Ingestion and model fitting for experiments on choice: grouping the rows
//! of a table into subjects, keeping the least-error instances of candidate
//! theories, and shaping the per-subject answers.

pub mod alt;
pub mod alt_set;
pub mod csv;
pub mod datasets;
pub mod estimation;
pub mod experiment_stats;
pub mod grouping;
pub mod labels;
pub mod model;
pub mod outside;
pub mod rpc_common;
pub mod text;
