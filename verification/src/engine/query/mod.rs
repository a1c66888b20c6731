pub mod group_by;
pub mod aggregation;
pub mod executor;
