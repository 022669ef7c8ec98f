//! An in-process metrics registry: collectors register immutable metric
//! descriptors, a `Registry` checks their consistency, and `gather` produces a
//! deterministic, name-sorted snapshot of metric families ready for encoding.

pub mod desc;
pub mod encoder;
pub mod errors;
pub mod family;
pub mod order;
pub mod registry;
