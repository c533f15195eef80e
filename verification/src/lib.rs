//! Data-parallel query processing primitives: scans, aggregations, sorts,
//! joins and group-by, each in a sequential form and in parallel forms that
//! are proved to return the same result as the sequential form.

pub mod aggregations;
pub mod group_by;
pub mod joins;
pub mod parallel;
pub mod parser;
pub mod scans;
pub mod sorting;
