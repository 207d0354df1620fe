//! Segment-cache logic: huge-block bucketing and retention, the retained
//! segment stacks, NUMA node selection, and cache telemetry.

pub mod huge_pool;
pub mod numa;
pub mod segment_pool;
pub mod stack;
pub mod stats;
