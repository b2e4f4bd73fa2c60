//! Gaffa: the verified core of a Kafka-like message queue.
//!
//! The modules hold the storage formats (records, offset index, log
//! segments, offsets files), the partitioning and retention policies, the
//! wire framing, the consumer-group, replication and client decisions, and
//! the broker's request handling. Everything here is computation on
//! values, apart from reading the clock; sockets, files and async plumbing
//! live in the application crate.
pub mod error;
mod clock;
pub mod bytes_be;
pub mod text;
pub mod compression;
pub mod messages;
pub mod record;
pub mod index;
pub mod time;
pub mod retention;
pub mod segment;
pub mod partition;
pub mod topic;
pub mod server;
pub mod partitioner;
pub mod cluster;
pub mod coordinator;
pub mod offsets;
pub mod client;
pub mod replication;
pub mod codec;
pub mod config;
pub mod metrics;
