use vstd::prelude::*;

verus! {

/// The largest positive-fixint tag: `0x00..=0x7f` encode themselves.
pub const POSITIVE_FIXINT: u8 = 0x7f;
/// The smallest negative-fixint tag: `0xe0..=0xff` encode `-32..=-1`.
pub const NEGATIVE_FIXINT: u8 = 0xe0;
/// The smallest fixmap tag: `0x80..=0x8f` carry the pair count in the low nibble.
pub const FIXMAP: u8 = 0x80;
/// The smallest fixarray tag: `0x90..=0x9f` carry the element count in the low nibble.
pub const FIXARRAY: u8 = 0x90;

pub const UINT8: u8 = 0xcc;
pub const UINT16: u8 = 0xcd;
pub const UINT32: u8 = 0xce;
pub const UINT64: u8 = 0xcf;

pub const INT8: u8 = 0xd0;
pub const INT16: u8 = 0xd1;
pub const INT32: u8 = 0xd2;
pub const INT64: u8 = 0xd3;

/// Carrier of the private 128-bit frame: `BIN8`, a length byte that must
/// be 16, then 16 big-endian payload bytes.
pub const BIN8: u8 = 0xc4;

pub const ARRAY16: u8 = 0xdc;
pub const ARRAY32: u8 = 0xdd;
pub const MAP16: u8 = 0xde;
pub const MAP32: u8 = 0xdf;

} // verus!
