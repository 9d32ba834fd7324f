//! Streaming conversion of raw binary scalar streams between numeric formats.

pub mod conversion;
pub mod engine;
pub mod ieee;
pub mod opts;
pub mod order;
pub mod scalar;
