//! A verified VCDIFF binary delta codec.
//!
//! Given a source byte sequence and a target byte sequence, `encode` produces
//! a compact delta stream from which `decode` reconstructs the target
//! exactly, using only the delta and the source.
//!
//! The wire-format meaning of every delta stream is pinned down by the
//! mathematical decoder `model::decode_spec`.  `decode` is proved to return
//! exactly that value for every input, and `encode` is proved to emit bytes
//! that `decode_spec` maps back to its input — together, the round trip
//! `decode(encode(t, s), s) == t` holds for all byte sequences.

pub mod cache;
pub mod checksum;
pub mod decode;
pub mod encode;
pub mod error;
pub mod model;
pub mod table;
pub mod varint;

pub use decode::{decode, decode_with_output_len};
pub use encode::{encode, encode_windowed, encode_with_output_len};
pub use error::Error;
