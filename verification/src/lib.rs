//! A MessagePack codec for the integer and container formats, verified with Verus.
//!
//! Encoding picks the narrowest legal MessagePack frame for a value
//! (`pack`); decoding reads any legal frame back into a requested width
//! (`unpack` over a byte slice, `unpack_iter` over a one-shot byte
//! source), rejecting malformed or out-of-range input. Values wider than
//! 64 bits travel in a private `bin8` frame with a fixed length of 16.
//!
//! Every operation carries a contract that pins its result to a
//! spec-level encoder or decoder, and round-trip, minimality and
//! cross-width laws are proved about those spec functions.

pub mod codec;
pub mod collections;
pub mod error;
pub mod ladder;
pub mod laws;
pub mod nonzero;
pub mod pack;
pub mod source;
pub mod tag;
pub mod unpack;
pub mod wire;

pub use codec::{Packable, Unpackable};
pub use collections::{unpack_array, unpack_array_iter, unpack_map, unpack_map_iter};
pub use error::Error;
pub use nonzero::Nullable;
pub use source::{ByteSource, VecSource};
