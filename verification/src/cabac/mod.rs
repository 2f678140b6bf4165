//! VVC CABAC: the arithmetic coder and the context-model tables.
pub mod contexts;
pub mod engine;
pub mod roundtrip;
