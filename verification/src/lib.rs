//! A strict codec for the Bencode serialization format: a value model, a
//! single-pass decoder over raw bytes, and a canonical encoder.

pub mod value;
pub mod grammar;
pub mod encoder;
pub mod decoder;
pub mod helper;
pub mod laws;
pub mod canonical;
