//! Verification-and-measurement engine for benchmarking QR decoders.
pub mod geometry;
pub mod text;
pub mod annotation;
pub mod data;
pub mod decoders;
pub mod benchmark;
pub mod stats;
