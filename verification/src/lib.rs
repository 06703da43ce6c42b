//! Summarizes system-log history by boot session: a partitioner groups a
//! chronologically ordered record stream into per-boot batches, an aggregator
//! buckets each batch's records by severity and source identifier, and a
//! renderer collapses consecutive duplicate messages into a compact report.

pub mod analysis;
pub mod entry;
pub mod parse;
pub mod partition;
pub mod priority;
pub mod render;
