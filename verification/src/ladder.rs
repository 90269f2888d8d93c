//! The tag-selection ladders, at the spec level: the narrowest frame for
//! a value, the value a frame carries for a target width, and the laws
//! relating the two (round trip, minimality). Each executable codec is
//! proved against these functions, so both input modalities share them.

use vstd::prelude::*;

use crate::error::Error;
use crate::tag;
use crate::wire::{
    be_bytes, be_num, from_unsigned, lemma_be_bytes_len, lemma_be_num_bound,
    lemma_be_num_of_be_bytes, lemma_pow256_increases, lemma_pow256_values, lemma_unsigned_round,
    pow256, to_unsigned,
};

verus! {

/// The payload widths, in bytes, that an integer target can ask for.
pub open spec fn uint_width(w: nat) -> bool {
    w == 1 || w == 2 || w == 4 || w == 8 || w == 16
}

/// The narrowest MessagePack frame carrying the unsigned value `v`.
pub open spec fn encode_unsigned(v: nat) -> Seq<u8> {
    if v <= 0x7f {
        seq![v as u8]
    } else if v <= 0xff {
        seq![tag::UINT8, v as u8]
    } else if v <= 0xffff {
        seq![tag::UINT16] + be_bytes(v, 2)
    } else if v <= 0xffff_ffff {
        seq![tag::UINT32] + be_bytes(v, 4)
    } else if v <= 0xffff_ffff_ffff_ffff {
        seq![tag::UINT64] + be_bytes(v, 8)
    } else {
        seq![tag::BIN8, 16u8] + be_bytes(v, 16)
    }
}

/// The narrowest MessagePack frame carrying the signed value `v`.
///
/// A single byte covers `-32..=127`; `-33` is the first value that needs
/// an `INT8` frame, and positive values never use one, so the signed
/// ladder is asymmetric around zero.
pub open spec fn encode_signed(v: int) -> Seq<u8> {
    if -32 <= v && v <= 0x7f {
        seq![to_unsigned(v, 1) as u8]
    } else if -0x80 <= v && v <= -33 {
        seq![tag::INT8, to_unsigned(v, 1) as u8]
    } else if -0x8000 <= v && v <= 0x7fff {
        seq![tag::INT16] + be_bytes(to_unsigned(v, 2), 2)
    } else if -0x8000_0000 <= v && v <= 0x7fff_ffff {
        seq![tag::INT32] + be_bytes(to_unsigned(v, 4), 4)
    } else if -0x8000_0000_0000_0000 <= v && v <= 0x7fff_ffff_ffff_ffff {
        seq![tag::INT64] + be_bytes(to_unsigned(v, 8), 8)
    } else {
        seq![tag::BIN8, 16u8] + be_bytes(to_unsigned(v, 16), 16)
    }
}

/// What decoding `s` into an unsigned target of payload width `w` yields:
/// the bytes consumed and the value, or the error. The accepted tags are
/// exactly those whose payload always fits the target; a legal but wider
/// tag is `UnexpectedFormatTag` even when its value would fit.
pub open spec fn decode_unsigned(s: Seq<u8>, w: nat) -> Result<(int, nat), Error> {
    if s.len() == 0 {
        Err(Error::BufferTooShort)
    } else {
        let t = s[0];
        if t <= tag::POSITIVE_FIXINT {
            Ok((1, t as nat))
        } else if t == tag::UINT8 {
            if s.len() < 2 {
                Err(Error::BufferTooShort)
            } else {
                Ok((2, s[1] as nat))
            }
        } else if t == tag::UINT16 && w >= 2 {
            if s.len() < 3 {
                Err(Error::BufferTooShort)
            } else {
                Ok((3, be_num(s.subrange(1, 3))))
            }
        } else if t == tag::UINT32 && w >= 4 {
            if s.len() < 5 {
                Err(Error::BufferTooShort)
            } else {
                Ok((5, be_num(s.subrange(1, 5))))
            }
        } else if t == tag::UINT64 && w >= 8 {
            if s.len() < 9 {
                Err(Error::BufferTooShort)
            } else {
                Ok((9, be_num(s.subrange(1, 9))))
            }
        } else if t == tag::BIN8 && w >= 16 {
            if s.len() < 2 {
                Err(Error::BufferTooShort)
            } else if s[1] != 16 {
                Err(Error::UnexpectedBinLength)
            } else if s.len() < 18 {
                Err(Error::BufferTooShort)
            } else {
                Ok((18, be_num(s.subrange(2, 18))))
            }
        } else {
            Err(Error::UnexpectedFormatTag)
        }
    }
}

/// What decoding `s` into a signed target of payload width `w` yields.
/// Both fixint ranges are accepted; a negative fixint is the tag byte
/// reread in two's complement.
pub open spec fn decode_signed(s: Seq<u8>, w: nat) -> Result<(int, int), Error> {
    if s.len() == 0 {
        Err(Error::BufferTooShort)
    } else {
        let t = s[0];
        if t <= tag::POSITIVE_FIXINT {
            Ok((1, t as int))
        } else if t >= tag::NEGATIVE_FIXINT {
            Ok((1, t - 256))
        } else if t == tag::INT8 {
            if s.len() < 2 {
                Err(Error::BufferTooShort)
            } else {
                Ok((2, from_unsigned(s[1] as nat, 1)))
            }
        } else if t == tag::INT16 && w >= 2 {
            if s.len() < 3 {
                Err(Error::BufferTooShort)
            } else {
                Ok((3, from_unsigned(be_num(s.subrange(1, 3)), 2)))
            }
        } else if t == tag::INT32 && w >= 4 {
            if s.len() < 5 {
                Err(Error::BufferTooShort)
            } else {
                Ok((5, from_unsigned(be_num(s.subrange(1, 5)), 4)))
            }
        } else if t == tag::INT64 && w >= 8 {
            if s.len() < 9 {
                Err(Error::BufferTooShort)
            } else {
                Ok((9, from_unsigned(be_num(s.subrange(1, 9)), 8)))
            }
        } else if t == tag::BIN8 && w >= 16 {
            if s.len() < 2 {
                Err(Error::BufferTooShort)
            } else if s[1] != 16 {
                Err(Error::UnexpectedBinLength)
            } else if s.len() < 18 {
                Err(Error::BufferTooShort)
            } else {
                Ok((18, from_unsigned(be_num(s.subrange(2, 18)), 16)))
            }
        } else {
            Err(Error::UnexpectedFormatTag)
        }
    }
}

/// The frame lengths of the unsigned ladder, arm by arm.
pub proof fn lemma_encode_unsigned_len(v: nat)
    ensures
        encode_unsigned(v).len() == if v <= 0x7f {
            1int
        } else if v <= 0xff {
            2
        } else if v <= 0xffff {
            3
        } else if v <= 0xffff_ffff {
            5
        } else if v <= 0xffff_ffff_ffff_ffff {
            9
        } else {
            18
        },
{
    if v > 0xff {
        if v <= 0xffff {
            lemma_be_bytes_len(v, 2);
        } else if v <= 0xffff_ffff {
            lemma_be_bytes_len(v, 4);
        } else if v <= 0xffff_ffff_ffff_ffff {
            lemma_be_bytes_len(v, 8);
        } else {
            lemma_be_bytes_len(v, 16);
        }
    }
}

/// The frame lengths of the signed ladder, arm by arm.
pub proof fn lemma_encode_signed_len(v: int)
    ensures
        encode_signed(v).len() == if -32 <= v && v <= 0x7f {
            1int
        } else if -0x80 <= v && v <= -33 {
            2
        } else if -0x8000 <= v && v <= 0x7fff {
            3
        } else if -0x8000_0000 <= v && v <= 0x7fff_ffff {
            5
        } else if -0x8000_0000_0000_0000 <= v && v <= 0x7fff_ffff_ffff_ffff {
            9
        } else {
            18
        },
{
    if -32 <= v && v <= 0x7f {
    } else if -0x80 <= v && v <= -33 {
    } else if -0x8000 <= v && v <= 0x7fff {
        lemma_be_bytes_len(to_unsigned(v, 2), 2);
    } else if -0x8000_0000 <= v && v <= 0x7fff_ffff {
        lemma_be_bytes_len(to_unsigned(v, 4), 4);
    } else if -0x8000_0000_0000_0000 <= v && v <= 0x7fff_ffff_ffff_ffff {
        lemma_be_bytes_len(to_unsigned(v, 8), 8);
    } else {
        lemma_be_bytes_len(to_unsigned(v, 16), 16);
    }
}

/// A successful unsigned decode consumed at least one byte, at most the
/// whole input, and its value fits the target width.
pub proof fn lemma_decode_unsigned_bound(s: Seq<u8>, w: nat)
    requires
        uint_width(w),
    ensures
        decode_unsigned(s, w) matches Ok((n, v)) ==> 1 <= n <= s.len() && v < pow256(w),
{
    lemma_pow256_values();
    if decode_unsigned(s, w) matches Ok((n, v)) {
        let t = s[0];
        if t <= tag::POSITIVE_FIXINT {
            lemma_pow256_increases(1, w);
        } else if t == tag::UINT8 {
            lemma_pow256_increases(1, w);
        } else if t == tag::UINT16 && w >= 2 {
            lemma_be_num_bound(s.subrange(1, 3));
            lemma_pow256_increases(2, w);
        } else if t == tag::UINT32 && w >= 4 {
            lemma_be_num_bound(s.subrange(1, 5));
            lemma_pow256_increases(4, w);
        } else if t == tag::UINT64 && w >= 8 {
            lemma_be_num_bound(s.subrange(1, 9));
            lemma_pow256_increases(8, w);
        } else {
            lemma_be_num_bound(s.subrange(2, 18));
            lemma_pow256_increases(16, w);
        }
    }
}

/// A successful signed decode consumed at least one byte, at most the
/// whole input, and its value fits the signed range of the target width.
pub proof fn lemma_decode_signed_bound(s: Seq<u8>, w: nat)
    requires
        uint_width(w),
    ensures
        decode_signed(s, w) matches Ok((n, v)) ==> 1 <= n <= s.len()
            && -(pow256(w) as int) / 2 <= v < pow256(w) / 2,
{
    lemma_pow256_values();
    if decode_signed(s, w) matches Ok((n, v)) {
        let t = s[0];
        if t <= tag::POSITIVE_FIXINT || t >= tag::NEGATIVE_FIXINT || t == tag::INT8 {
            lemma_pow256_increases(1, w);
        } else if t == tag::INT16 && w >= 2 {
            lemma_be_num_bound(s.subrange(1, 3));
            lemma_pow256_increases(2, w);
        } else if t == tag::INT32 && w >= 4 {
            lemma_be_num_bound(s.subrange(1, 5));
            lemma_pow256_increases(4, w);
        } else if t == tag::INT64 && w >= 8 {
            lemma_be_num_bound(s.subrange(1, 9));
            lemma_pow256_increases(8, w);
        } else {
            lemma_be_num_bound(s.subrange(2, 18));
        }
    }
}

/// Round trip, unsigned: decoding an encoded value, at any target width
/// that holds it and with anything at all after the frame, yields the
/// value back and consumes exactly the frame.
pub proof fn lemma_unsigned_round_trip(v: nat, w: nat, rest: Seq<u8>)
    requires
        uint_width(w),
        v < pow256(w),
    ensures
        decode_unsigned(encode_unsigned(v) + rest, w) == Ok::<(int, nat), Error>(
            (encode_unsigned(v).len() as int, v),
        ),
{
    lemma_pow256_values();
    lemma_encode_unsigned_len(v);
    let e = encode_unsigned(v);
    let s = e + rest;
    if v <= 0x7f {
        assert(s[0] == v as u8);
    } else if v <= 0xff {
        assert(s[0] == tag::UINT8 && s[1] == v as u8);
    } else if v <= 0xffff {
        lemma_be_bytes_len(v, 2);
        assert(s[0] == tag::UINT16);
        assert(s.subrange(1, 3) =~= be_bytes(v, 2));
        lemma_be_num_of_be_bytes(v, 2);
    } else if v <= 0xffff_ffff {
        lemma_be_bytes_len(v, 4);
        assert(s[0] == tag::UINT32);
        assert(s.subrange(1, 5) =~= be_bytes(v, 4));
        lemma_be_num_of_be_bytes(v, 4);
    } else if v <= 0xffff_ffff_ffff_ffff {
        lemma_be_bytes_len(v, 8);
        assert(s[0] == tag::UINT64);
        assert(s.subrange(1, 9) =~= be_bytes(v, 8));
        lemma_be_num_of_be_bytes(v, 8);
    } else {
        lemma_be_bytes_len(v, 16);
        assert(s[0] == tag::BIN8 && s[1] == 16u8);
        assert(s.subrange(2, 18) =~= be_bytes(v, 16));
        lemma_be_num_of_be_bytes(v, 16);
    }
}

/// Round trip, signed: as for the unsigned ladder, at any signed target
/// width whose range holds the value.
pub proof fn lemma_signed_round_trip(v: int, w: nat, rest: Seq<u8>)
    requires
        uint_width(w),
        -(pow256(w) as int) / 2 <= v < pow256(w) / 2,
    ensures
        decode_signed(encode_signed(v) + rest, w) == Ok::<(int, int), Error>(
            (encode_signed(v).len() as int, v),
        ),
{
    lemma_pow256_values();
    lemma_encode_signed_len(v);
    let e = encode_signed(v);
    let s = e + rest;
    if -32 <= v && v <= 0x7f {
        assert(s[0] == to_unsigned(v, 1) as u8);
    } else if -0x80 <= v && v <= -33 {
        assert(s[0] == tag::INT8 && s[1] == to_unsigned(v, 1) as u8);
        lemma_unsigned_round(v, 1);
    } else if -0x8000 <= v && v <= 0x7fff {
        lemma_unsigned_round(v, 2);
        lemma_be_bytes_len(to_unsigned(v, 2), 2);
        assert(s[0] == tag::INT16);
        assert(s.subrange(1, 3) =~= be_bytes(to_unsigned(v, 2), 2));
        lemma_be_num_of_be_bytes(to_unsigned(v, 2), 2);
    } else if -0x8000_0000 <= v && v <= 0x7fff_ffff {
        lemma_unsigned_round(v, 4);
        lemma_be_bytes_len(to_unsigned(v, 4), 4);
        assert(s[0] == tag::INT32);
        assert(s.subrange(1, 5) =~= be_bytes(to_unsigned(v, 4), 4));
        lemma_be_num_of_be_bytes(to_unsigned(v, 4), 4);
    } else if -0x8000_0000_0000_0000 <= v && v <= 0x7fff_ffff_ffff_ffff {
        lemma_unsigned_round(v, 8);
        lemma_be_bytes_len(to_unsigned(v, 8), 8);
        assert(s[0] == tag::INT64);
        assert(s.subrange(1, 9) =~= be_bytes(to_unsigned(v, 8), 8));
        lemma_be_num_of_be_bytes(to_unsigned(v, 8), 8);
    } else {
        lemma_unsigned_round(v, 16);
        lemma_be_bytes_len(to_unsigned(v, 16), 16);
        assert(s[0] == tag::BIN8 && s[1] == 16u8);
        assert(s.subrange(2, 18) =~= be_bytes(to_unsigned(v, 16), 16));
        lemma_be_num_of_be_bytes(to_unsigned(v, 16), 16);
    }
}

/// Minimality, unsigned: no accepted frame for `v` is shorter than the
/// one the ladder picks.
pub proof fn lemma_unsigned_minimal(s: Seq<u8>, w: nat, n: int, v: nat)
    requires
        decode_unsigned(s, w) == Ok::<(int, nat), Error>((n, v)),
    ensures
        encode_unsigned(v).len() <= n,
{
    lemma_pow256_values();
    lemma_encode_unsigned_len(v);
    let t = s[0];
    if t <= tag::POSITIVE_FIXINT {
    } else if t == tag::UINT8 {
    } else if t == tag::UINT16 && w >= 2 {
        lemma_be_num_bound(s.subrange(1, 3));
    } else if t == tag::UINT32 && w >= 4 {
        lemma_be_num_bound(s.subrange(1, 5));
    } else if t == tag::UINT64 && w >= 8 {
        lemma_be_num_bound(s.subrange(1, 9));
    } else {
        lemma_be_num_bound(s.subrange(2, 18));
    }
}

/// Minimality, signed: no accepted frame for `v` is shorter than the one
/// the ladder picks.
pub proof fn lemma_signed_minimal(s: Seq<u8>, w: nat, n: int, v: int)
    requires
        decode_signed(s, w) == Ok::<(int, int), Error>((n, v)),
    ensures
        encode_signed(v).len() <= n,
{
    lemma_pow256_values();
    lemma_encode_signed_len(v);
    let t = s[0];
    if t <= tag::POSITIVE_FIXINT {
    } else if t >= tag::NEGATIVE_FIXINT {
    } else if t == tag::INT8 {
    } else if t == tag::INT16 && w >= 2 {
        lemma_be_num_bound(s.subrange(1, 3));
    } else if t == tag::INT32 && w >= 4 {
        lemma_be_num_bound(s.subrange(1, 5));
    } else if t == tag::INT64 && w >= 8 {
        lemma_be_num_bound(s.subrange(1, 9));
    } else {
        lemma_be_num_bound(s.subrange(2, 18));
    }
}

} // verus!
