//! A time-scheduled message broker: producers enqueue binary payloads under
//! a 128-bit delivery timestamp into named queues; consumers read, through
//! ephemeral channels, the messages whose delivery time has elapsed.
//! Messages survive restarts through a per-queue write-ahead log of
//! CRC-framed records that is replayed at startup and compacted on line.
//!
//! The crate holds the broker's core: the WAL storage engine ([`storage`]),
//! its byte-level record format ([`codec`]), the in-memory temporal queues
//! ([`temporal_queue`], [`priority_queue`]), the queue pool that keeps log
//! and memory coherent ([`pool`]), the channel manager with its expiry
//! sweeper ([`channels`]), and the scheduling expansion ([`events`]).  File
//! and network plumbing stays outside; the engine models each container's
//! durable log byte for byte, and its owner mirrors those bytes to disk
//! before completing each operation.

pub mod channels;
pub mod clock;
pub mod codec;
pub mod config;
pub mod connections;
pub mod context;
pub mod errors;
pub mod events;
pub mod index;
pub mod models;
pub mod pool;
pub mod priority_queue;
pub mod registry;
pub mod storage;
pub mod temporal_queue;

pub use errors::{MoraError, MoraResult, StorageError};
