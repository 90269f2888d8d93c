//! The remaining codec laws, stated once and proved: cross-width
//! compatibility (a frame written at a narrow width reads back at any
//! wider width of the same signedness) and minimality (no accepted frame
//! for a value is shorter than the one the encoder picks). The round-trip
//! law itself is `Unpackable::lemma_round_trip`, proved by every
//! implementation, and both decode modalities are pinned by contract to
//! the one `decoding` function, so they agree on every input.

use vstd::prelude::*;

use crate::codec::{Packable, Unpackable};
use crate::error::Error;
use crate::ladder::{
    decode_signed, decode_unsigned, encode_signed, encode_unsigned, lemma_decode_signed_bound,
    lemma_decode_unsigned_bound, lemma_signed_minimal, lemma_signed_round_trip,
    lemma_unsigned_minimal, lemma_unsigned_round_trip, uint_width,
};
use crate::wire::{lemma_pow256_increases, lemma_pow256_values, pow256};

verus! {

/// Zero encodes as the single byte `0x00` on both ladders, so it reads
/// and writes identically at every width.
pub proof fn lemma_zero_encoding()
    ensures
        encode_unsigned(0) =~= seq![0u8],
        encode_signed(0) =~= seq![0u8],
{
}

/// Cross-width, unsigned: a frame written for a value of a narrow width
/// reads back, at any width at least as wide, as the same value.
pub proof fn lemma_cross_width_unsigned(v: nat, narrow: nat, wide: nat, rest: Seq<u8>)
    requires
        uint_width(narrow),
        uint_width(wide),
        narrow <= wide,
        v < pow256(narrow),
    ensures
        decode_unsigned(encode_unsigned(v) + rest, wide) == Ok::<(int, nat), Error>(
            (encode_unsigned(v).len() as int, v),
        ),
{
    lemma_pow256_increases(narrow, wide);
    lemma_unsigned_round_trip(v, wide, rest);
}

/// Cross-width, signed: as for the unsigned ladder.
pub proof fn lemma_cross_width_signed(v: int, narrow: nat, wide: nat, rest: Seq<u8>)
    requires
        uint_width(narrow),
        uint_width(wide),
        narrow <= wide,
        -(pow256(narrow) as int) / 2 <= v < pow256(narrow) / 2,
    ensures
        decode_signed(encode_signed(v) + rest, wide) == Ok::<(int, int), Error>(
            (encode_signed(v).len() as int, v),
        ),
{
    lemma_pow256_values();
    lemma_pow256_increases(narrow, wide);
    lemma_signed_round_trip(v, wide, rest);
}

/// The bytes a `u8` packs to decode at every wider unsigned target as
/// the widened value.
pub proof fn lemma_u8_decodes_wider(v: u8, rest: Seq<u8>)
    ensures
        <u16 as Unpackable>::decoding(v.encoding() + rest) == Ok::<(int, u16), Error>(
            (v.encoding().len() as int, v as u16),
        ),
        <u32 as Unpackable>::decoding(v.encoding() + rest) == Ok::<(int, u32), Error>(
            (v.encoding().len() as int, v as u32),
        ),
        <u64 as Unpackable>::decoding(v.encoding() + rest) == Ok::<(int, u64), Error>(
            (v.encoding().len() as int, v as u64),
        ),
        <u128 as Unpackable>::decoding(v.encoding() + rest) == Ok::<(int, u128), Error>(
            (v.encoding().len() as int, v as u128),
        ),
        <usize as Unpackable>::decoding(v.encoding() + rest) == Ok::<(int, usize), Error>(
            (v.encoding().len() as int, v as usize),
        ),
{
    lemma_pow256_values();
    lemma_unsigned_round_trip(v as nat, 2, rest);
    lemma_unsigned_round_trip(v as nat, 4, rest);
    lemma_unsigned_round_trip(v as nat, 8, rest);
    lemma_unsigned_round_trip(v as nat, 16, rest);
}

/// The bytes an `i8` packs to decode at every wider signed target as
/// the sign-extended value.
pub proof fn lemma_i8_decodes_wider(v: i8, rest: Seq<u8>)
    ensures
        <i16 as Unpackable>::decoding(v.encoding() + rest) == Ok::<(int, i16), Error>(
            (v.encoding().len() as int, v as i16),
        ),
        <i32 as Unpackable>::decoding(v.encoding() + rest) == Ok::<(int, i32), Error>(
            (v.encoding().len() as int, v as i32),
        ),
        <i64 as Unpackable>::decoding(v.encoding() + rest) == Ok::<(int, i64), Error>(
            (v.encoding().len() as int, v as i64),
        ),
        <i128 as Unpackable>::decoding(v.encoding() + rest) == Ok::<(int, i128), Error>(
            (v.encoding().len() as int, v as i128),
        ),
        <isize as Unpackable>::decoding(v.encoding() + rest) == Ok::<(int, isize), Error>(
            (v.encoding().len() as int, v as isize),
        ),
{
    lemma_pow256_values();
    lemma_signed_round_trip(v as int, 2, rest);
    lemma_signed_round_trip(v as int, 4, rest);
    lemma_signed_round_trip(v as int, 8, rest);
    lemma_signed_round_trip(v as int, 16, rest);
}

/// Minimality at `u8`: no accepted frame is shorter than the packed one.
pub proof fn lemma_minimal_u8(s: Seq<u8>, n: int, v: u8)
    requires
        <u8 as Unpackable>::decoding(s) == Ok::<(int, u8), Error>((n, v)),
    ensures
        v.encoding().len() <= n,
{
    lemma_decode_unsigned_bound(s, 1);
    if let Ok((m, u)) = decode_unsigned(s, 1) {
        lemma_unsigned_minimal(s, 1, m, u);
    }
}

/// Minimality at `u16`.
pub proof fn lemma_minimal_u16(s: Seq<u8>, n: int, v: u16)
    requires
        <u16 as Unpackable>::decoding(s) == Ok::<(int, u16), Error>((n, v)),
    ensures
        v.encoding().len() <= n,
{
    lemma_decode_unsigned_bound(s, 2);
    lemma_pow256_values();
    if let Ok((m, u)) = decode_unsigned(s, 2) {
        lemma_unsigned_minimal(s, 2, m, u);
    }
}

/// Minimality at `u32`.
pub proof fn lemma_minimal_u32(s: Seq<u8>, n: int, v: u32)
    requires
        <u32 as Unpackable>::decoding(s) == Ok::<(int, u32), Error>((n, v)),
    ensures
        v.encoding().len() <= n,
{
    lemma_decode_unsigned_bound(s, 4);
    lemma_pow256_values();
    if let Ok((m, u)) = decode_unsigned(s, 4) {
        lemma_unsigned_minimal(s, 4, m, u);
    }
}

/// Minimality at `u64`.
pub proof fn lemma_minimal_u64(s: Seq<u8>, n: int, v: u64)
    requires
        <u64 as Unpackable>::decoding(s) == Ok::<(int, u64), Error>((n, v)),
    ensures
        v.encoding().len() <= n,
{
    lemma_decode_unsigned_bound(s, 8);
    lemma_pow256_values();
    if let Ok((m, u)) = decode_unsigned(s, 8) {
        lemma_unsigned_minimal(s, 8, m, u);
    }
}

/// Minimality at `u128`.
pub proof fn lemma_minimal_u128(s: Seq<u8>, n: int, v: u128)
    requires
        <u128 as Unpackable>::decoding(s) == Ok::<(int, u128), Error>((n, v)),
    ensures
        v.encoding().len() <= n,
{
    lemma_decode_unsigned_bound(s, 16);
    lemma_pow256_values();
    if let Ok((m, u)) = decode_unsigned(s, 16) {
        lemma_unsigned_minimal(s, 16, m, u);
    }
}

/// Minimality at `usize`.
pub proof fn lemma_minimal_usize(s: Seq<u8>, n: int, v: usize)
    requires
        <usize as Unpackable>::decoding(s) == Ok::<(int, usize), Error>((n, v)),
    ensures
        v.encoding().len() <= n,
{
    lemma_decode_unsigned_bound(s, 8);
    lemma_pow256_values();
    if let Ok((m, u)) = decode_unsigned(s, 8) {
        lemma_unsigned_minimal(s, 8, m, u);
    }
}

/// Minimality at `i8`.
pub proof fn lemma_minimal_i8(s: Seq<u8>, n: int, v: i8)
    requires
        <i8 as Unpackable>::decoding(s) == Ok::<(int, i8), Error>((n, v)),
    ensures
        v.encoding().len() <= n,
{
    lemma_decode_signed_bound(s, 1);
    lemma_pow256_values();
    if let Ok((m, u)) = decode_signed(s, 1) {
        lemma_signed_minimal(s, 1, m, u);
    }
}

/// Minimality at `i16`.
pub proof fn lemma_minimal_i16(s: Seq<u8>, n: int, v: i16)
    requires
        <i16 as Unpackable>::decoding(s) == Ok::<(int, i16), Error>((n, v)),
    ensures
        v.encoding().len() <= n,
{
    lemma_decode_signed_bound(s, 2);
    lemma_pow256_values();
    if let Ok((m, u)) = decode_signed(s, 2) {
        lemma_signed_minimal(s, 2, m, u);
    }
}

/// Minimality at `i32`.
pub proof fn lemma_minimal_i32(s: Seq<u8>, n: int, v: i32)
    requires
        <i32 as Unpackable>::decoding(s) == Ok::<(int, i32), Error>((n, v)),
    ensures
        v.encoding().len() <= n,
{
    lemma_decode_signed_bound(s, 4);
    lemma_pow256_values();
    if let Ok((m, u)) = decode_signed(s, 4) {
        lemma_signed_minimal(s, 4, m, u);
    }
}

/// Minimality at `i64`.
pub proof fn lemma_minimal_i64(s: Seq<u8>, n: int, v: i64)
    requires
        <i64 as Unpackable>::decoding(s) == Ok::<(int, i64), Error>((n, v)),
    ensures
        v.encoding().len() <= n,
{
    lemma_decode_signed_bound(s, 8);
    lemma_pow256_values();
    if let Ok((m, u)) = decode_signed(s, 8) {
        lemma_signed_minimal(s, 8, m, u);
    }
}

/// Minimality at `i128`.
pub proof fn lemma_minimal_i128(s: Seq<u8>, n: int, v: i128)
    requires
        <i128 as Unpackable>::decoding(s) == Ok::<(int, i128), Error>((n, v)),
    ensures
        v.encoding().len() <= n,
{
    lemma_decode_signed_bound(s, 16);
    lemma_pow256_values();
    if let Ok((m, u)) = decode_signed(s, 16) {
        lemma_signed_minimal(s, 16, m, u);
    }
}

/// Minimality at `isize`.
pub proof fn lemma_minimal_isize(s: Seq<u8>, n: int, v: isize)
    requires
        <isize as Unpackable>::decoding(s) == Ok::<(int, isize), Error>((n, v)),
    ensures
        v.encoding().len() <= n,
{
    lemma_decode_signed_bound(s, 8);
    lemma_pow256_values();
    if let Ok((m, u)) = decode_signed(s, 8) {
        lemma_signed_minimal(s, 8, m, u);
    }
}

} // verus!
