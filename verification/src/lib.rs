//! FerrumDB: an embedded key-value store built on an append-only log.
//!
//! This crate holds the verified core: the on-disk record framing, the
//! in-memory offset index, secondary indexes, transactions, encryption
//! framing, command parsing and configuration.

pub mod policy;
pub mod strmap;
pub mod record;
pub mod oplog;
pub mod json;
pub mod secondary;
pub mod engine;
pub mod compaction;
pub mod crypto;
pub mod text;
pub mod error;
pub mod config;
pub mod metrics;
pub mod cli;
pub mod units;
