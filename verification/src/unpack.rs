//! The decoders: for each numeric width, a tag-driven reader in both
//! modalities. The accepted tags are exactly those whose payload always
//! fits the target, so a wider tag is rejected even when its value would
//! fit; both modalities are proved against the same spec-level decoder.

use vstd::prelude::*;

use crate::codec::{Packable, Unpackable};
use crate::error::Error;
use crate::ladder::{
    decode_signed, decode_unsigned, lemma_signed_round_trip, lemma_unsigned_round_trip,
};
use crate::source::{be_read_source, ByteSource};
use crate::tag;
use crate::wire::{
    be_read, from_unsigned1, from_unsigned16, from_unsigned2, from_unsigned4, from_unsigned8,
    lemma_pow256_values,
};

verus! {

impl Unpackable for u8 {
    open spec fn decoding(s: Seq<u8>) -> Result<(int, u8), Error> {
        match decode_unsigned(s, 1) {
            Ok((n, v)) => Ok((n, v as u8)),
            Err(e) => Err(e),
        }
    }

    open spec fn round_trippable(&self) -> bool {
        true
    }

    proof fn lemma_round_trip(&self, rest: Seq<u8>) {
        lemma_pow256_values();
        lemma_unsigned_round_trip(*self as nat, 1, rest);
    }

    fn unpack(buf: &[u8]) -> (r: Result<(usize, u8), Error>) {
        let len = buf.len();
        if len < 1 {
            return Err(Error::BufferTooShort);
        }
        let t = buf[0];
        if t <= tag::POSITIVE_FIXINT {
            Ok((1, t))
        } else if t == tag::UINT8 {
            if len < 2 {
                return Err(Error::BufferTooShort);
            }
            Ok((2, buf[1]))
        } else {
            Err(Error::UnexpectedFormatTag)
        }
    }

    fn unpack_iter<S: ByteSource>(src: &mut S) -> (r: Result<(usize, u8), Error>) {
        let t = match src.next_byte() {
            None => {
                return Err(Error::BufferTooShort);
            },
            Some(t) => t,
        };
        if t <= tag::POSITIVE_FIXINT {
            Ok((1, t))
        } else if t == tag::UINT8 {
            match src.next_byte() {
                None => Err(Error::BufferTooShort),
                Some(b) => {
                    proof {
                        assert(old(src).remaining().skip(1).skip(1) =~= old(src).remaining().skip(
                            2,
                        ));
                    }
                    Ok((2, b))
                },
            }
        } else {
            Err(Error::UnexpectedFormatTag)
        }
    }
}

impl Unpackable for u16 {
    open spec fn decoding(s: Seq<u8>) -> Result<(int, u16), Error> {
        match decode_unsigned(s, 2) {
            Ok((n, v)) => Ok((n, v as u16)),
            Err(e) => Err(e),
        }
    }

    open spec fn round_trippable(&self) -> bool {
        true
    }

    proof fn lemma_round_trip(&self, rest: Seq<u8>) {
        lemma_pow256_values();
        lemma_unsigned_round_trip(*self as nat, 2, rest);
    }

    fn unpack(buf: &[u8]) -> (r: Result<(usize, u16), Error>) {
        proof {
            lemma_pow256_values();
        }
        let len = buf.len();
        if len < 1 {
            return Err(Error::BufferTooShort);
        }
        let t = buf[0];
        if t <= tag::POSITIVE_FIXINT {
            Ok((1, t as u16))
        } else if t == tag::UINT8 {
            if len < 2 {
                return Err(Error::BufferTooShort);
            }
            Ok((2, buf[1] as u16))
        } else if t == tag::UINT16 {
            if len < 3 {
                return Err(Error::BufferTooShort);
            }
            let v = be_read(buf, 1, 2);
            Ok((3, v as u16))
        } else {
            Err(Error::UnexpectedFormatTag)
        }
    }

    fn unpack_iter<S: ByteSource>(src: &mut S) -> (r: Result<(usize, u16), Error>) {
        proof {
            lemma_pow256_values();
        }
        let t = match src.next_byte() {
            None => {
                return Err(Error::BufferTooShort);
            },
            Some(t) => t,
        };
        if t <= tag::POSITIVE_FIXINT {
            Ok((1, t as u16))
        } else if t == tag::UINT8 {
            match src.next_byte() {
                None => Err(Error::BufferTooShort),
                Some(b) => {
                    proof {
                        assert(old(src).remaining().skip(1).skip(1) =~= old(src).remaining().skip(
                            2,
                        ));
                    }
                    Ok((2, b as u16))
                },
            }
        } else if t == tag::UINT16 {
            match be_read_source(src, 2) {
                None => Err(Error::BufferTooShort),
                Some(v) => {
                    proof {
                        assert(old(src).remaining().skip(1).take(2) =~= old(
                            src,
                        ).remaining().subrange(1, 3));
                        assert(old(src).remaining().skip(1).skip(2) =~= old(src).remaining().skip(
                            3,
                        ));
                    }
                    Ok((3, v as u16))
                },
            }
        } else {
            Err(Error::UnexpectedFormatTag)
        }
    }
}

impl Unpackable for u32 {
    open spec fn decoding(s: Seq<u8>) -> Result<(int, u32), Error> {
        match decode_unsigned(s, 4) {
            Ok((n, v)) => Ok((n, v as u32)),
            Err(e) => Err(e),
        }
    }

    open spec fn round_trippable(&self) -> bool {
        true
    }

    proof fn lemma_round_trip(&self, rest: Seq<u8>) {
        lemma_pow256_values();
        lemma_unsigned_round_trip(*self as nat, 4, rest);
    }

    fn unpack(buf: &[u8]) -> (r: Result<(usize, u32), Error>) {
        proof {
            lemma_pow256_values();
        }
        let len = buf.len();
        if len < 1 {
            return Err(Error::BufferTooShort);
        }
        let t = buf[0];
        if t <= tag::POSITIVE_FIXINT {
            Ok((1, t as u32))
        } else if t == tag::UINT8 {
            if len < 2 {
                return Err(Error::BufferTooShort);
            }
            Ok((2, buf[1] as u32))
        } else if t == tag::UINT16 {
            if len < 3 {
                return Err(Error::BufferTooShort);
            }
            let v = be_read(buf, 1, 2);
            Ok((3, v as u32))
        } else if t == tag::UINT32 {
            if len < 5 {
                return Err(Error::BufferTooShort);
            }
            let v = be_read(buf, 1, 4);
            Ok((5, v as u32))
        } else {
            Err(Error::UnexpectedFormatTag)
        }
    }

    fn unpack_iter<S: ByteSource>(src: &mut S) -> (r: Result<(usize, u32), Error>) {
        proof {
            lemma_pow256_values();
        }
        let t = match src.next_byte() {
            None => {
                return Err(Error::BufferTooShort);
            },
            Some(t) => t,
        };
        if t <= tag::POSITIVE_FIXINT {
            Ok((1, t as u32))
        } else if t == tag::UINT8 {
            match src.next_byte() {
                None => Err(Error::BufferTooShort),
                Some(b) => {
                    proof {
                        assert(old(src).remaining().skip(1).skip(1) =~= old(src).remaining().skip(
                            2,
                        ));
                    }
                    Ok((2, b as u32))
                },
            }
        } else if t == tag::UINT16 {
            match be_read_source(src, 2) {
                None => Err(Error::BufferTooShort),
                Some(v) => {
                    proof {
                        assert(old(src).remaining().skip(1).take(2) =~= old(
                            src,
                        ).remaining().subrange(1, 3));
                        assert(old(src).remaining().skip(1).skip(2) =~= old(src).remaining().skip(
                            3,
                        ));
                    }
                    Ok((3, v as u32))
                },
            }
        } else if t == tag::UINT32 {
            match be_read_source(src, 4) {
                None => Err(Error::BufferTooShort),
                Some(v) => {
                    proof {
                        assert(old(src).remaining().skip(1).take(4) =~= old(
                            src,
                        ).remaining().subrange(1, 5));
                        assert(old(src).remaining().skip(1).skip(4) =~= old(src).remaining().skip(
                            5,
                        ));
                    }
                    Ok((5, v as u32))
                },
            }
        } else {
            Err(Error::UnexpectedFormatTag)
        }
    }
}

impl Unpackable for u64 {
    open spec fn decoding(s: Seq<u8>) -> Result<(int, u64), Error> {
        match decode_unsigned(s, 8) {
            Ok((n, v)) => Ok((n, v as u64)),
            Err(e) => Err(e),
        }
    }

    open spec fn round_trippable(&self) -> bool {
        true
    }

    proof fn lemma_round_trip(&self, rest: Seq<u8>) {
        lemma_pow256_values();
        lemma_unsigned_round_trip(*self as nat, 8, rest);
    }

    fn unpack(buf: &[u8]) -> (r: Result<(usize, u64), Error>) {
        proof {
            lemma_pow256_values();
        }
        let len = buf.len();
        if len < 1 {
            return Err(Error::BufferTooShort);
        }
        let t = buf[0];
        if t <= tag::POSITIVE_FIXINT {
            Ok((1, t as u64))
        } else if t == tag::UINT8 {
            if len < 2 {
                return Err(Error::BufferTooShort);
            }
            Ok((2, buf[1] as u64))
        } else if t == tag::UINT16 {
            if len < 3 {
                return Err(Error::BufferTooShort);
            }
            let v = be_read(buf, 1, 2);
            Ok((3, v as u64))
        } else if t == tag::UINT32 {
            if len < 5 {
                return Err(Error::BufferTooShort);
            }
            let v = be_read(buf, 1, 4);
            Ok((5, v as u64))
        } else if t == tag::UINT64 {
            if len < 9 {
                return Err(Error::BufferTooShort);
            }
            let v = be_read(buf, 1, 8);
            Ok((9, v as u64))
        } else {
            Err(Error::UnexpectedFormatTag)
        }
    }

    fn unpack_iter<S: ByteSource>(src: &mut S) -> (r: Result<(usize, u64), Error>) {
        proof {
            lemma_pow256_values();
        }
        let t = match src.next_byte() {
            None => {
                return Err(Error::BufferTooShort);
            },
            Some(t) => t,
        };
        if t <= tag::POSITIVE_FIXINT {
            Ok((1, t as u64))
        } else if t == tag::UINT8 {
            match src.next_byte() {
                None => Err(Error::BufferTooShort),
                Some(b) => {
                    proof {
                        assert(old(src).remaining().skip(1).skip(1) =~= old(src).remaining().skip(
                            2,
                        ));
                    }
                    Ok((2, b as u64))
                },
            }
        } else if t == tag::UINT16 {
            match be_read_source(src, 2) {
                None => Err(Error::BufferTooShort),
                Some(v) => {
                    proof {
                        assert(old(src).remaining().skip(1).take(2) =~= old(
                            src,
                        ).remaining().subrange(1, 3));
                        assert(old(src).remaining().skip(1).skip(2) =~= old(src).remaining().skip(
                            3,
                        ));
                    }
                    Ok((3, v as u64))
                },
            }
        } else if t == tag::UINT32 {
            match be_read_source(src, 4) {
                None => Err(Error::BufferTooShort),
                Some(v) => {
                    proof {
                        assert(old(src).remaining().skip(1).take(4) =~= old(
                            src,
                        ).remaining().subrange(1, 5));
                        assert(old(src).remaining().skip(1).skip(4) =~= old(src).remaining().skip(
                            5,
                        ));
                    }
                    Ok((5, v as u64))
                },
            }
        } else if t == tag::UINT64 {
            match be_read_source(src, 8) {
                None => Err(Error::BufferTooShort),
                Some(v) => {
                    proof {
                        assert(old(src).remaining().skip(1).take(8) =~= old(
                            src,
                        ).remaining().subrange(1, 9));
                        assert(old(src).remaining().skip(1).skip(8) =~= old(src).remaining().skip(
                            9,
                        ));
                    }
                    Ok((9, v as u64))
                },
            }
        } else {
            Err(Error::UnexpectedFormatTag)
        }
    }
}

impl Unpackable for u128 {
    open spec fn decoding(s: Seq<u8>) -> Result<(int, u128), Error> {
        match decode_unsigned(s, 16) {
            Ok((n, v)) => Ok((n, v as u128)),
            Err(e) => Err(e),
        }
    }

    open spec fn round_trippable(&self) -> bool {
        true
    }

    proof fn lemma_round_trip(&self, rest: Seq<u8>) {
        lemma_pow256_values();
        lemma_unsigned_round_trip(*self as nat, 16, rest);
    }

    fn unpack(buf: &[u8]) -> (r: Result<(usize, u128), Error>) {
        proof {
            lemma_pow256_values();
        }
        let len = buf.len();
        if len < 1 {
            return Err(Error::BufferTooShort);
        }
        let t = buf[0];
        if t <= tag::POSITIVE_FIXINT {
            Ok((1, t as u128))
        } else if t == tag::UINT8 {
            if len < 2 {
                return Err(Error::BufferTooShort);
            }
            Ok((2, buf[1] as u128))
        } else if t == tag::UINT16 {
            if len < 3 {
                return Err(Error::BufferTooShort);
            }
            let v = be_read(buf, 1, 2);
            Ok((3, v))
        } else if t == tag::UINT32 {
            if len < 5 {
                return Err(Error::BufferTooShort);
            }
            let v = be_read(buf, 1, 4);
            Ok((5, v))
        } else if t == tag::UINT64 {
            if len < 9 {
                return Err(Error::BufferTooShort);
            }
            let v = be_read(buf, 1, 8);
            Ok((9, v))
        } else if t == tag::BIN8 {
            if len < 2 {
                return Err(Error::BufferTooShort);
            }
            if buf[1] != 16 {
                return Err(Error::UnexpectedBinLength);
            }
            if len < 18 {
                return Err(Error::BufferTooShort);
            }
            let v = be_read(buf, 2, 16);
            Ok((18, v))
        } else {
            Err(Error::UnexpectedFormatTag)
        }
    }

    fn unpack_iter<S: ByteSource>(src: &mut S) -> (r: Result<(usize, u128), Error>) {
        proof {
            lemma_pow256_values();
        }
        let t = match src.next_byte() {
            None => {
                return Err(Error::BufferTooShort);
            },
            Some(t) => t,
        };
        if t <= tag::POSITIVE_FIXINT {
            Ok((1, t as u128))
        } else if t == tag::UINT8 {
            match src.next_byte() {
                None => Err(Error::BufferTooShort),
                Some(b) => {
                    proof {
                        assert(old(src).remaining().skip(1).skip(1) =~= old(src).remaining().skip(
                            2,
                        ));
                    }
                    Ok((2, b as u128))
                },
            }
        } else if t == tag::UINT16 {
            match be_read_source(src, 2) {
                None => Err(Error::BufferTooShort),
                Some(v) => {
                    proof {
                        assert(old(src).remaining().skip(1).take(2) =~= old(
                            src,
                        ).remaining().subrange(1, 3));
                        assert(old(src).remaining().skip(1).skip(2) =~= old(src).remaining().skip(
                            3,
                        ));
                    }
                    Ok((3, v))
                },
            }
        } else if t == tag::UINT32 {
            match be_read_source(src, 4) {
                None => Err(Error::BufferTooShort),
                Some(v) => {
                    proof {
                        assert(old(src).remaining().skip(1).take(4) =~= old(
                            src,
                        ).remaining().subrange(1, 5));
                        assert(old(src).remaining().skip(1).skip(4) =~= old(src).remaining().skip(
                            5,
                        ));
                    }
                    Ok((5, v))
                },
            }
        } else if t == tag::UINT64 {
            match be_read_source(src, 8) {
                None => Err(Error::BufferTooShort),
                Some(v) => {
                    proof {
                        assert(old(src).remaining().skip(1).take(8) =~= old(
                            src,
                        ).remaining().subrange(1, 9));
                        assert(old(src).remaining().skip(1).skip(8) =~= old(src).remaining().skip(
                            9,
                        ));
                    }
                    Ok((9, v))
                },
            }
        } else if t == tag::BIN8 {
            match src.next_byte() {
                None => Err(Error::BufferTooShort),
                Some(l) => {
                    if l != 16 {
                        return Err(Error::UnexpectedBinLength);
                    }
                    proof {
                        assert(old(src).remaining().skip(1).skip(1) =~= old(src).remaining().skip(
                            2,
                        ));
                    }
                    match be_read_source(src, 16) {
                        None => Err(Error::BufferTooShort),
                        Some(v) => {
                            proof {
                                assert(old(src).remaining().skip(2).take(16) =~= old(
                                    src,
                                ).remaining().subrange(2, 18));
                                assert(old(src).remaining().skip(2).skip(16) =~= old(
                                    src,
                                ).remaining().skip(18));
                            }
                            Ok((18, v))
                        },
                    }
                },
            }
        } else {
            Err(Error::UnexpectedFormatTag)
        }
    }
}

impl Unpackable for usize {
    /// A `usize` frame is read as a `u64` frame would be — `UINT64`
    /// payloads are always 8 bytes — and the value is then range-checked
    /// into the pointer width.
    open spec fn decoding(s: Seq<u8>) -> Result<(int, usize), Error> {
        match decode_unsigned(s, 8) {
            Ok((n, v)) => if v <= usize::MAX as nat {
                Ok((n, v as usize))
            } else {
                Err(Error::UnexpectedFormatTag)
            },
            Err(e) => Err(e),
        }
    }

    open spec fn round_trippable(&self) -> bool {
        true
    }

    proof fn lemma_round_trip(&self, rest: Seq<u8>) {
        lemma_pow256_values();
        lemma_unsigned_round_trip(*self as nat, 8, rest);
    }

    fn unpack(buf: &[u8]) -> (r: Result<(usize, usize), Error>) {
        proof {
            lemma_pow256_values();
        }
        let len = buf.len();
        if len < 1 {
            return Err(Error::BufferTooShort);
        }
        let t = buf[0];
        if t <= tag::POSITIVE_FIXINT {
            Ok((1, t as usize))
        } else if t == tag::UINT8 {
            if len < 2 {
                return Err(Error::BufferTooShort);
            }
            Ok((2, buf[1] as usize))
        } else if t == tag::UINT16 {
            if len < 3 {
                return Err(Error::BufferTooShort);
            }
            let v = be_read(buf, 1, 2);
            Ok((3, v as usize))
        } else if t == tag::UINT32 {
            if len < 5 {
                return Err(Error::BufferTooShort);
            }
            let v = be_read(buf, 1, 4);
            Ok((5, v as usize))
        } else if t == tag::UINT64 {
            if len < 9 {
                return Err(Error::BufferTooShort);
            }
            let v = be_read(buf, 1, 8);
            if v <= usize::MAX as u128 {
                Ok((9, v as usize))
            } else {
                Err(Error::UnexpectedFormatTag)
            }
        } else {
            Err(Error::UnexpectedFormatTag)
        }
    }

    fn unpack_iter<S: ByteSource>(src: &mut S) -> (r: Result<(usize, usize), Error>) {
        proof {
            lemma_pow256_values();
        }
        let t = match src.next_byte() {
            None => {
                return Err(Error::BufferTooShort);
            },
            Some(t) => t,
        };
        if t <= tag::POSITIVE_FIXINT {
            Ok((1, t as usize))
        } else if t == tag::UINT8 {
            match src.next_byte() {
                None => Err(Error::BufferTooShort),
                Some(b) => {
                    proof {
                        assert(old(src).remaining().skip(1).skip(1) =~= old(src).remaining().skip(
                            2,
                        ));
                    }
                    Ok((2, b as usize))
                },
            }
        } else if t == tag::UINT16 {
            match be_read_source(src, 2) {
                None => Err(Error::BufferTooShort),
                Some(v) => {
                    proof {
                        assert(old(src).remaining().skip(1).take(2) =~= old(
                            src,
                        ).remaining().subrange(1, 3));
                        assert(old(src).remaining().skip(1).skip(2) =~= old(src).remaining().skip(
                            3,
                        ));
                    }
                    Ok((3, v as usize))
                },
            }
        } else if t == tag::UINT32 {
            match be_read_source(src, 4) {
                None => Err(Error::BufferTooShort),
                Some(v) => {
                    proof {
                        assert(old(src).remaining().skip(1).take(4) =~= old(
                            src,
                        ).remaining().subrange(1, 5));
                        assert(old(src).remaining().skip(1).skip(4) =~= old(src).remaining().skip(
                            5,
                        ));
                    }
                    Ok((5, v as usize))
                },
            }
        } else if t == tag::UINT64 {
            match be_read_source(src, 8) {
                None => Err(Error::BufferTooShort),
                Some(v) => {
                    proof {
                        assert(old(src).remaining().skip(1).take(8) =~= old(
                            src,
                        ).remaining().subrange(1, 9));
                        assert(old(src).remaining().skip(1).skip(8) =~= old(src).remaining().skip(
                            9,
                        ));
                    }
                    if v <= usize::MAX as u128 {
                        Ok((9, v as usize))
                    } else {
                        Err(Error::UnexpectedFormatTag)
                    }
                },
            }
        } else {
            Err(Error::UnexpectedFormatTag)
        }
    }
}

impl Unpackable for i8 {
    open spec fn decoding(s: Seq<u8>) -> Result<(int, i8), Error> {
        match decode_signed(s, 1) {
            Ok((n, v)) => Ok((n, v as i8)),
            Err(e) => Err(e),
        }
    }

    open spec fn round_trippable(&self) -> bool {
        true
    }

    proof fn lemma_round_trip(&self, rest: Seq<u8>) {
        lemma_pow256_values();
        lemma_signed_round_trip(*self as int, 1, rest);
    }

    fn unpack(buf: &[u8]) -> (r: Result<(usize, i8), Error>) {
        proof {
            lemma_pow256_values();
        }
        let len = buf.len();
        if len < 1 {
            return Err(Error::BufferTooShort);
        }
        let t = buf[0];
        if t <= tag::POSITIVE_FIXINT {
            Ok((1, t as i8))
        } else if t >= tag::NEGATIVE_FIXINT {
            Ok((1, from_unsigned1(t)))
        } else if t == tag::INT8 {
            if len < 2 {
                return Err(Error::BufferTooShort);
            }
            Ok((2, from_unsigned1(buf[1])))
        } else {
            Err(Error::UnexpectedFormatTag)
        }
    }

    fn unpack_iter<S: ByteSource>(src: &mut S) -> (r: Result<(usize, i8), Error>) {
        proof {
            lemma_pow256_values();
        }
        let t = match src.next_byte() {
            None => {
                return Err(Error::BufferTooShort);
            },
            Some(t) => t,
        };
        if t <= tag::POSITIVE_FIXINT {
            Ok((1, t as i8))
        } else if t >= tag::NEGATIVE_FIXINT {
            Ok((1, from_unsigned1(t)))
        } else if t == tag::INT8 {
            match src.next_byte() {
                None => Err(Error::BufferTooShort),
                Some(b) => {
                    proof {
                        assert(old(src).remaining().skip(1).skip(1) =~= old(src).remaining().skip(
                            2,
                        ));
                    }
                    Ok((2, from_unsigned1(b)))
                },
            }
        } else {
            Err(Error::UnexpectedFormatTag)
        }
    }
}

impl Unpackable for i16 {
    open spec fn decoding(s: Seq<u8>) -> Result<(int, i16), Error> {
        match decode_signed(s, 2) {
            Ok((n, v)) => Ok((n, v as i16)),
            Err(e) => Err(e),
        }
    }

    open spec fn round_trippable(&self) -> bool {
        true
    }

    proof fn lemma_round_trip(&self, rest: Seq<u8>) {
        lemma_pow256_values();
        lemma_signed_round_trip(*self as int, 2, rest);
    }

    fn unpack(buf: &[u8]) -> (r: Result<(usize, i16), Error>) {
        proof {
            lemma_pow256_values();
        }
        let len = buf.len();
        if len < 1 {
            return Err(Error::BufferTooShort);
        }
        let t = buf[0];
        if t <= tag::POSITIVE_FIXINT {
            Ok((1, t as i16))
        } else if t >= tag::NEGATIVE_FIXINT {
            Ok((1, from_unsigned1(t) as i16))
        } else if t == tag::INT8 {
            if len < 2 {
                return Err(Error::BufferTooShort);
            }
            Ok((2, from_unsigned1(buf[1]) as i16))
        } else if t == tag::INT16 {
            if len < 3 {
                return Err(Error::BufferTooShort);
            }
            let u = be_read(buf, 1, 2);
            Ok((3, from_unsigned2(u)))
        } else {
            Err(Error::UnexpectedFormatTag)
        }
    }

    fn unpack_iter<S: ByteSource>(src: &mut S) -> (r: Result<(usize, i16), Error>) {
        proof {
            lemma_pow256_values();
        }
        let t = match src.next_byte() {
            None => {
                return Err(Error::BufferTooShort);
            },
            Some(t) => t,
        };
        if t <= tag::POSITIVE_FIXINT {
            Ok((1, t as i16))
        } else if t >= tag::NEGATIVE_FIXINT {
            Ok((1, from_unsigned1(t) as i16))
        } else if t == tag::INT8 {
            match src.next_byte() {
                None => Err(Error::BufferTooShort),
                Some(b) => {
                    proof {
                        assert(old(src).remaining().skip(1).skip(1) =~= old(src).remaining().skip(
                            2,
                        ));
                    }
                    Ok((2, from_unsigned1(b) as i16))
                },
            }
        } else if t == tag::INT16 {
            match be_read_source(src, 2) {
                None => Err(Error::BufferTooShort),
                Some(u) => {
                    proof {
                        assert(old(src).remaining().skip(1).take(2) =~= old(
                            src,
                        ).remaining().subrange(1, 3));
                        assert(old(src).remaining().skip(1).skip(2) =~= old(src).remaining().skip(
                            3,
                        ));
                    }
                    Ok((3, from_unsigned2(u)))
                },
            }
        } else {
            Err(Error::UnexpectedFormatTag)
        }
    }
}

impl Unpackable for i32 {
    open spec fn decoding(s: Seq<u8>) -> Result<(int, i32), Error> {
        match decode_signed(s, 4) {
            Ok((n, v)) => Ok((n, v as i32)),
            Err(e) => Err(e),
        }
    }

    open spec fn round_trippable(&self) -> bool {
        true
    }

    proof fn lemma_round_trip(&self, rest: Seq<u8>) {
        lemma_pow256_values();
        lemma_signed_round_trip(*self as int, 4, rest);
    }

    fn unpack(buf: &[u8]) -> (r: Result<(usize, i32), Error>) {
        proof {
            lemma_pow256_values();
        }
        let len = buf.len();
        if len < 1 {
            return Err(Error::BufferTooShort);
        }
        let t = buf[0];
        if t <= tag::POSITIVE_FIXINT {
            Ok((1, t as i32))
        } else if t >= tag::NEGATIVE_FIXINT {
            Ok((1, from_unsigned1(t) as i32))
        } else if t == tag::INT8 {
            if len < 2 {
                return Err(Error::BufferTooShort);
            }
            Ok((2, from_unsigned1(buf[1]) as i32))
        } else if t == tag::INT16 {
            if len < 3 {
                return Err(Error::BufferTooShort);
            }
            let u = be_read(buf, 1, 2);
            Ok((3, from_unsigned2(u) as i32))
        } else if t == tag::INT32 {
            if len < 5 {
                return Err(Error::BufferTooShort);
            }
            let u = be_read(buf, 1, 4);
            Ok((5, from_unsigned4(u)))
        } else {
            Err(Error::UnexpectedFormatTag)
        }
    }

    fn unpack_iter<S: ByteSource>(src: &mut S) -> (r: Result<(usize, i32), Error>) {
        proof {
            lemma_pow256_values();
        }
        let t = match src.next_byte() {
            None => {
                return Err(Error::BufferTooShort);
            },
            Some(t) => t,
        };
        if t <= tag::POSITIVE_FIXINT {
            Ok((1, t as i32))
        } else if t >= tag::NEGATIVE_FIXINT {
            Ok((1, from_unsigned1(t) as i32))
        } else if t == tag::INT8 {
            match src.next_byte() {
                None => Err(Error::BufferTooShort),
                Some(b) => {
                    proof {
                        assert(old(src).remaining().skip(1).skip(1) =~= old(src).remaining().skip(
                            2,
                        ));
                    }
                    Ok((2, from_unsigned1(b) as i32))
                },
            }
        } else if t == tag::INT16 {
            match be_read_source(src, 2) {
                None => Err(Error::BufferTooShort),
                Some(u) => {
                    proof {
                        assert(old(src).remaining().skip(1).take(2) =~= old(
                            src,
                        ).remaining().subrange(1, 3));
                        assert(old(src).remaining().skip(1).skip(2) =~= old(src).remaining().skip(
                            3,
                        ));
                    }
                    Ok((3, from_unsigned2(u) as i32))
                },
            }
        } else if t == tag::INT32 {
            match be_read_source(src, 4) {
                None => Err(Error::BufferTooShort),
                Some(u) => {
                    proof {
                        assert(old(src).remaining().skip(1).take(4) =~= old(
                            src,
                        ).remaining().subrange(1, 5));
                        assert(old(src).remaining().skip(1).skip(4) =~= old(src).remaining().skip(
                            5,
                        ));
                    }
                    Ok((5, from_unsigned4(u)))
                },
            }
        } else {
            Err(Error::UnexpectedFormatTag)
        }
    }
}

impl Unpackable for i64 {
    open spec fn decoding(s: Seq<u8>) -> Result<(int, i64), Error> {
        match decode_signed(s, 8) {
            Ok((n, v)) => Ok((n, v as i64)),
            Err(e) => Err(e),
        }
    }

    open spec fn round_trippable(&self) -> bool {
        true
    }

    proof fn lemma_round_trip(&self, rest: Seq<u8>) {
        lemma_pow256_values();
        lemma_signed_round_trip(*self as int, 8, rest);
    }

    fn unpack(buf: &[u8]) -> (r: Result<(usize, i64), Error>) {
        proof {
            lemma_pow256_values();
        }
        let len = buf.len();
        if len < 1 {
            return Err(Error::BufferTooShort);
        }
        let t = buf[0];
        if t <= tag::POSITIVE_FIXINT {
            Ok((1, t as i64))
        } else if t >= tag::NEGATIVE_FIXINT {
            Ok((1, from_unsigned1(t) as i64))
        } else if t == tag::INT8 {
            if len < 2 {
                return Err(Error::BufferTooShort);
            }
            Ok((2, from_unsigned1(buf[1]) as i64))
        } else if t == tag::INT16 {
            if len < 3 {
                return Err(Error::BufferTooShort);
            }
            let u = be_read(buf, 1, 2);
            Ok((3, from_unsigned2(u) as i64))
        } else if t == tag::INT32 {
            if len < 5 {
                return Err(Error::BufferTooShort);
            }
            let u = be_read(buf, 1, 4);
            Ok((5, from_unsigned4(u) as i64))
        } else if t == tag::INT64 {
            if len < 9 {
                return Err(Error::BufferTooShort);
            }
            let u = be_read(buf, 1, 8);
            Ok((9, from_unsigned8(u)))
        } else {
            Err(Error::UnexpectedFormatTag)
        }
    }

    fn unpack_iter<S: ByteSource>(src: &mut S) -> (r: Result<(usize, i64), Error>) {
        proof {
            lemma_pow256_values();
        }
        let t = match src.next_byte() {
            None => {
                return Err(Error::BufferTooShort);
            },
            Some(t) => t,
        };
        if t <= tag::POSITIVE_FIXINT {
            Ok((1, t as i64))
        } else if t >= tag::NEGATIVE_FIXINT {
            Ok((1, from_unsigned1(t) as i64))
        } else if t == tag::INT8 {
            match src.next_byte() {
                None => Err(Error::BufferTooShort),
                Some(b) => {
                    proof {
                        assert(old(src).remaining().skip(1).skip(1) =~= old(src).remaining().skip(
                            2,
                        ));
                    }
                    Ok((2, from_unsigned1(b) as i64))
                },
            }
        } else if t == tag::INT16 {
            match be_read_source(src, 2) {
                None => Err(Error::BufferTooShort),
                Some(u) => {
                    proof {
                        assert(old(src).remaining().skip(1).take(2) =~= old(
                            src,
                        ).remaining().subrange(1, 3));
                        assert(old(src).remaining().skip(1).skip(2) =~= old(src).remaining().skip(
                            3,
                        ));
                    }
                    Ok((3, from_unsigned2(u) as i64))
                },
            }
        } else if t == tag::INT32 {
            match be_read_source(src, 4) {
                None => Err(Error::BufferTooShort),
                Some(u) => {
                    proof {
                        assert(old(src).remaining().skip(1).take(4) =~= old(
                            src,
                        ).remaining().subrange(1, 5));
                        assert(old(src).remaining().skip(1).skip(4) =~= old(src).remaining().skip(
                            5,
                        ));
                    }
                    Ok((5, from_unsigned4(u) as i64))
                },
            }
        } else if t == tag::INT64 {
            match be_read_source(src, 8) {
                None => Err(Error::BufferTooShort),
                Some(u) => {
                    proof {
                        assert(old(src).remaining().skip(1).take(8) =~= old(
                            src,
                        ).remaining().subrange(1, 9));
                        assert(old(src).remaining().skip(1).skip(8) =~= old(src).remaining().skip(
                            9,
                        ));
                    }
                    Ok((9, from_unsigned8(u)))
                },
            }
        } else {
            Err(Error::UnexpectedFormatTag)
        }
    }
}

impl Unpackable for i128 {
    open spec fn decoding(s: Seq<u8>) -> Result<(int, i128), Error> {
        match decode_signed(s, 16) {
            Ok((n, v)) => Ok((n, v as i128)),
            Err(e) => Err(e),
        }
    }

    open spec fn round_trippable(&self) -> bool {
        true
    }

    proof fn lemma_round_trip(&self, rest: Seq<u8>) {
        lemma_pow256_values();
        lemma_signed_round_trip(*self as int, 16, rest);
    }

    fn unpack(buf: &[u8]) -> (r: Result<(usize, i128), Error>) {
        proof {
            lemma_pow256_values();
        }
        let len = buf.len();
        if len < 1 {
            return Err(Error::BufferTooShort);
        }
        let t = buf[0];
        if t <= tag::POSITIVE_FIXINT {
            Ok((1, t as i128))
        } else if t >= tag::NEGATIVE_FIXINT {
            Ok((1, from_unsigned1(t) as i128))
        } else if t == tag::INT8 {
            if len < 2 {
                return Err(Error::BufferTooShort);
            }
            Ok((2, from_unsigned1(buf[1]) as i128))
        } else if t == tag::INT16 {
            if len < 3 {
                return Err(Error::BufferTooShort);
            }
            let u = be_read(buf, 1, 2);
            Ok((3, from_unsigned2(u) as i128))
        } else if t == tag::INT32 {
            if len < 5 {
                return Err(Error::BufferTooShort);
            }
            let u = be_read(buf, 1, 4);
            Ok((5, from_unsigned4(u) as i128))
        } else if t == tag::INT64 {
            if len < 9 {
                return Err(Error::BufferTooShort);
            }
            let u = be_read(buf, 1, 8);
            Ok((9, from_unsigned8(u) as i128))
        } else if t == tag::BIN8 {
            if len < 2 {
                return Err(Error::BufferTooShort);
            }
            if buf[1] != 16 {
                return Err(Error::UnexpectedBinLength);
            }
            if len < 18 {
                return Err(Error::BufferTooShort);
            }
            let u = be_read(buf, 2, 16);
            Ok((18, from_unsigned16(u)))
        } else {
            Err(Error::UnexpectedFormatTag)
        }
    }

    fn unpack_iter<S: ByteSource>(src: &mut S) -> (r: Result<(usize, i128), Error>) {
        proof {
            lemma_pow256_values();
        }
        let t = match src.next_byte() {
            None => {
                return Err(Error::BufferTooShort);
            },
            Some(t) => t,
        };
        if t <= tag::POSITIVE_FIXINT {
            Ok((1, t as i128))
        } else if t >= tag::NEGATIVE_FIXINT {
            Ok((1, from_unsigned1(t) as i128))
        } else if t == tag::INT8 {
            match src.next_byte() {
                None => Err(Error::BufferTooShort),
                Some(b) => {
                    proof {
                        assert(old(src).remaining().skip(1).skip(1) =~= old(src).remaining().skip(
                            2,
                        ));
                    }
                    Ok((2, from_unsigned1(b) as i128))
                },
            }
        } else if t == tag::INT16 {
            match be_read_source(src, 2) {
                None => Err(Error::BufferTooShort),
                Some(u) => {
                    proof {
                        assert(old(src).remaining().skip(1).take(2) =~= old(
                            src,
                        ).remaining().subrange(1, 3));
                        assert(old(src).remaining().skip(1).skip(2) =~= old(src).remaining().skip(
                            3,
                        ));
                    }
                    Ok((3, from_unsigned2(u) as i128))
                },
            }
        } else if t == tag::INT32 {
            match be_read_source(src, 4) {
                None => Err(Error::BufferTooShort),
                Some(u) => {
                    proof {
                        assert(old(src).remaining().skip(1).take(4) =~= old(
                            src,
                        ).remaining().subrange(1, 5));
                        assert(old(src).remaining().skip(1).skip(4) =~= old(src).remaining().skip(
                            5,
                        ));
                    }
                    Ok((5, from_unsigned4(u) as i128))
                },
            }
        } else if t == tag::INT64 {
            match be_read_source(src, 8) {
                None => Err(Error::BufferTooShort),
                Some(u) => {
                    proof {
                        assert(old(src).remaining().skip(1).take(8) =~= old(
                            src,
                        ).remaining().subrange(1, 9));
                        assert(old(src).remaining().skip(1).skip(8) =~= old(src).remaining().skip(
                            9,
                        ));
                    }
                    Ok((9, from_unsigned8(u) as i128))
                },
            }
        } else if t == tag::BIN8 {
            match src.next_byte() {
                None => Err(Error::BufferTooShort),
                Some(l) => {
                    if l != 16 {
                        return Err(Error::UnexpectedBinLength);
                    }
                    proof {
                        assert(old(src).remaining().skip(1).skip(1) =~= old(src).remaining().skip(
                            2,
                        ));
                    }
                    match be_read_source(src, 16) {
                        None => Err(Error::BufferTooShort),
                        Some(u) => {
                            proof {
                                assert(old(src).remaining().skip(2).take(16) =~= old(
                                    src,
                                ).remaining().subrange(2, 18));
                                assert(old(src).remaining().skip(2).skip(16) =~= old(
                                    src,
                                ).remaining().skip(18));
                            }
                            Ok((18, from_unsigned16(u)))
                        },
                    }
                },
            }
        } else {
            Err(Error::UnexpectedFormatTag)
        }
    }
}

impl Unpackable for isize {
    /// An `isize` frame is read as an `i64` frame would be and the value
    /// is then range-checked into the pointer width.
    open spec fn decoding(s: Seq<u8>) -> Result<(int, isize), Error> {
        match decode_signed(s, 8) {
            Ok((n, v)) => if isize::MIN as int <= v <= isize::MAX as int {
                Ok((n, v as isize))
            } else {
                Err(Error::UnexpectedFormatTag)
            },
            Err(e) => Err(e),
        }
    }

    open spec fn round_trippable(&self) -> bool {
        true
    }

    proof fn lemma_round_trip(&self, rest: Seq<u8>) {
        lemma_pow256_values();
        lemma_signed_round_trip(*self as int, 8, rest);
    }

    fn unpack(buf: &[u8]) -> (r: Result<(usize, isize), Error>) {
        proof {
            lemma_pow256_values();
        }
        let len = buf.len();
        if len < 1 {
            return Err(Error::BufferTooShort);
        }
        let t = buf[0];
        if t <= tag::POSITIVE_FIXINT {
            Ok((1, t as isize))
        } else if t >= tag::NEGATIVE_FIXINT {
            Ok((1, from_unsigned1(t) as isize))
        } else if t == tag::INT8 {
            if len < 2 {
                return Err(Error::BufferTooShort);
            }
            Ok((2, from_unsigned1(buf[1]) as isize))
        } else if t == tag::INT16 {
            if len < 3 {
                return Err(Error::BufferTooShort);
            }
            let u = be_read(buf, 1, 2);
            Ok((3, from_unsigned2(u) as isize))
        } else if t == tag::INT32 {
            if len < 5 {
                return Err(Error::BufferTooShort);
            }
            let u = be_read(buf, 1, 4);
            Ok((5, from_unsigned4(u) as isize))
        } else if t == tag::INT64 {
            if len < 9 {
                return Err(Error::BufferTooShort);
            }
            let u = be_read(buf, 1, 8);
            let w = from_unsigned8(u);
            if isize::MIN as i64 <= w && w <= isize::MAX as i64 {
                Ok((9, w as isize))
            } else {
                Err(Error::UnexpectedFormatTag)
            }
        } else {
            Err(Error::UnexpectedFormatTag)
        }
    }

    fn unpack_iter<S: ByteSource>(src: &mut S) -> (r: Result<(usize, isize), Error>) {
        proof {
            lemma_pow256_values();
        }
        let t = match src.next_byte() {
            None => {
                return Err(Error::BufferTooShort);
            },
            Some(t) => t,
        };
        if t <= tag::POSITIVE_FIXINT {
            Ok((1, t as isize))
        } else if t >= tag::NEGATIVE_FIXINT {
            Ok((1, from_unsigned1(t) as isize))
        } else if t == tag::INT8 {
            match src.next_byte() {
                None => Err(Error::BufferTooShort),
                Some(b) => {
                    proof {
                        assert(old(src).remaining().skip(1).skip(1) =~= old(src).remaining().skip(
                            2,
                        ));
                    }
                    Ok((2, from_unsigned1(b) as isize))
                },
            }
        } else if t == tag::INT16 {
            match be_read_source(src, 2) {
                None => Err(Error::BufferTooShort),
                Some(u) => {
                    proof {
                        assert(old(src).remaining().skip(1).take(2) =~= old(
                            src,
                        ).remaining().subrange(1, 3));
                        assert(old(src).remaining().skip(1).skip(2) =~= old(src).remaining().skip(
                            3,
                        ));
                    }
                    Ok((3, from_unsigned2(u) as isize))
                },
            }
        } else if t == tag::INT32 {
            match be_read_source(src, 4) {
                None => Err(Error::BufferTooShort),
                Some(u) => {
                    proof {
                        assert(old(src).remaining().skip(1).take(4) =~= old(
                            src,
                        ).remaining().subrange(1, 5));
                        assert(old(src).remaining().skip(1).skip(4) =~= old(src).remaining().skip(
                            5,
                        ));
                    }
                    Ok((5, from_unsigned4(u) as isize))
                },
            }
        } else if t == tag::INT64 {
            match be_read_source(src, 8) {
                None => Err(Error::BufferTooShort),
                Some(u) => {
                    proof {
                        assert(old(src).remaining().skip(1).take(8) =~= old(
                            src,
                        ).remaining().subrange(1, 9));
                        assert(old(src).remaining().skip(1).skip(8) =~= old(src).remaining().skip(
                            9,
                        ));
                    }
                    let w = from_unsigned8(u);
                    if isize::MIN as i64 <= w && w <= isize::MAX as i64 {
                        Ok((9, w as isize))
                    } else {
                        Err(Error::UnexpectedFormatTag)
                    }
                },
            }
        } else {
            Err(Error::UnexpectedFormatTag)
        }
    }
}

} // verus!
