//! Offset tracking and lag estimation engine for a Kafka consumer-lag
//! exporter.
//!
//! The library holds the sequential core: per-partition bounded histories of
//! watermark observations, the register that aggregates them, the lag join,
//! the Prometheus text rendering and the command-line validation. Async
//! plumbing (pollers, channels, the HTTP server) lives in the surrounding
//! binary, which feeds this core plain values.

pub mod kafka_types;
pub mod tracked_offset;
pub mod errors;
pub mod lag_estimator;
pub mod register;
pub mod text_format;
pub mod lag_register;
pub mod exposition;
pub mod cli;
pub mod cluster_status;
