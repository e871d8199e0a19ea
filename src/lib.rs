//! Incremental UTF-8 decoding: a byte stream is classified chunk by chunk into
//! valid text, ill-formed sequences and characters split across chunks.
pub mod well_formed;
mod validate;
pub mod decoder;
pub mod laws;

pub use decoder::{decode, DecodeResult, IncompleteChar, InvalidSequence};
