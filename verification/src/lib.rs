//! Client-side resilience and routing for a partitioned ingestion service:
//! a retrying executor with exponential backoff and full jitter, and a
//! shard-assignment table with round-robin selection over open shards.

pub mod retry;
pub mod shard_table;
