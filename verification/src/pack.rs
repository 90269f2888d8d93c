//! The encoders: for each numeric width, the ordered ladder of range
//! tests that picks the narrowest frame and appends it. The signed
//! ladders run strictly from most-negative to most-positive, crossing
//! the negative-fixint boundary only in the `-32..=-1` arm. Each ladder
//! is proved to emit exactly what the spec-level ladder says.

use vstd::prelude::*;

use crate::codec::Packable;
use crate::ladder::{
    encode_signed, encode_unsigned, lemma_encode_signed_len, lemma_encode_unsigned_len,
};
use crate::tag;
use crate::wire::{
    be_push, lemma_be_bytes_len, to_unsigned, to_unsigned1, to_unsigned16, to_unsigned2,
    to_unsigned4, to_unsigned8,
};

verus! {

impl Packable for u8 {
    open spec fn encoding(&self) -> Seq<u8> {
        encode_unsigned(*self as nat)
    }

    fn pack(&self, buf: &mut Vec<u8>) -> (n: usize) {
        let v = *self;
        proof {
            lemma_encode_unsigned_len(v as nat);
        }
        if v <= 127 {
            buf.push(v);
            proof {
                assert(buf@ =~= old(buf)@ + self.encoding());
            }
            1
        } else {
            buf.push(tag::UINT8);
            buf.push(v);
            proof {
                assert(buf@ =~= old(buf)@ + self.encoding());
            }
            2
        }
    }
}

impl Packable for u16 {
    open spec fn encoding(&self) -> Seq<u8> {
        encode_unsigned(*self as nat)
    }

    fn pack(&self, buf: &mut Vec<u8>) -> (n: usize) {
        let v = *self;
        proof {
            lemma_encode_unsigned_len(v as nat);
        }
        if v <= 127 {
            buf.push(v as u8);
            proof {
                assert(buf@ =~= old(buf)@ + self.encoding());
            }
            1
        } else if v <= 0xff {
            buf.push(tag::UINT8);
            buf.push(v as u8);
            proof {
                assert(buf@ =~= old(buf)@ + self.encoding());
            }
            2
        } else {
            buf.push(tag::UINT16);
            be_push(buf, v as u128, 2);
            proof {
                lemma_be_bytes_len(v as nat, 2);
                assert(buf@ =~= old(buf)@ + self.encoding());
            }
            3
        }
    }
}

impl Packable for u32 {
    open spec fn encoding(&self) -> Seq<u8> {
        encode_unsigned(*self as nat)
    }

    fn pack(&self, buf: &mut Vec<u8>) -> (n: usize) {
        let v = *self;
        proof {
            lemma_encode_unsigned_len(v as nat);
        }
        if v <= 127 {
            buf.push(v as u8);
            proof {
                assert(buf@ =~= old(buf)@ + self.encoding());
            }
            1
        } else if v <= 0xff {
            buf.push(tag::UINT8);
            buf.push(v as u8);
            proof {
                assert(buf@ =~= old(buf)@ + self.encoding());
            }
            2
        } else if v <= 0xffff {
            buf.push(tag::UINT16);
            be_push(buf, v as u128, 2);
            proof {
                lemma_be_bytes_len(v as nat, 2);
                assert(buf@ =~= old(buf)@ + self.encoding());
            }
            3
        } else {
            buf.push(tag::UINT32);
            be_push(buf, v as u128, 4);
            proof {
                lemma_be_bytes_len(v as nat, 4);
                assert(buf@ =~= old(buf)@ + self.encoding());
            }
            5
        }
    }
}

impl Packable for u64 {
    open spec fn encoding(&self) -> Seq<u8> {
        encode_unsigned(*self as nat)
    }

    fn pack(&self, buf: &mut Vec<u8>) -> (n: usize) {
        let v = *self;
        proof {
            lemma_encode_unsigned_len(v as nat);
        }
        if v <= 127 {
            buf.push(v as u8);
            proof {
                assert(buf@ =~= old(buf)@ + self.encoding());
            }
            1
        } else if v <= 0xff {
            buf.push(tag::UINT8);
            buf.push(v as u8);
            proof {
                assert(buf@ =~= old(buf)@ + self.encoding());
            }
            2
        } else if v <= 0xffff {
            buf.push(tag::UINT16);
            be_push(buf, v as u128, 2);
            proof {
                lemma_be_bytes_len(v as nat, 2);
                assert(buf@ =~= old(buf)@ + self.encoding());
            }
            3
        } else if v <= 0xffff_ffff {
            buf.push(tag::UINT32);
            be_push(buf, v as u128, 4);
            proof {
                lemma_be_bytes_len(v as nat, 4);
                assert(buf@ =~= old(buf)@ + self.encoding());
            }
            5
        } else {
            buf.push(tag::UINT64);
            be_push(buf, v as u128, 8);
            proof {
                lemma_be_bytes_len(v as nat, 8);
                assert(buf@ =~= old(buf)@ + self.encoding());
            }
            9
        }
    }
}

impl Packable for u128 {
    open spec fn encoding(&self) -> Seq<u8> {
        encode_unsigned(*self as nat)
    }

    fn pack(&self, buf: &mut Vec<u8>) -> (n: usize) {
        let v = *self;
        proof {
            lemma_encode_unsigned_len(v as nat);
        }
        if v <= 127 {
            buf.push(v as u8);
            proof {
                assert(buf@ =~= old(buf)@ + self.encoding());
            }
            1
        } else if v <= 0xff {
            buf.push(tag::UINT8);
            buf.push(v as u8);
            proof {
                assert(buf@ =~= old(buf)@ + self.encoding());
            }
            2
        } else if v <= 0xffff {
            buf.push(tag::UINT16);
            be_push(buf, v, 2);
            proof {
                lemma_be_bytes_len(v as nat, 2);
                assert(buf@ =~= old(buf)@ + self.encoding());
            }
            3
        } else if v <= 0xffff_ffff {
            buf.push(tag::UINT32);
            be_push(buf, v, 4);
            proof {
                lemma_be_bytes_len(v as nat, 4);
                assert(buf@ =~= old(buf)@ + self.encoding());
            }
            5
        } else if v <= 0xffff_ffff_ffff_ffff {
            buf.push(tag::UINT64);
            be_push(buf, v, 8);
            proof {
                lemma_be_bytes_len(v as nat, 8);
                assert(buf@ =~= old(buf)@ + self.encoding());
            }
            9
        } else {
            buf.push(tag::BIN8);
            buf.push(16);
            be_push(buf, v, 16);
            proof {
                lemma_be_bytes_len(v as nat, 16);
                assert(buf@ =~= old(buf)@ + self.encoding());
            }
            18
        }
    }
}

impl Packable for usize {
    open spec fn encoding(&self) -> Seq<u8> {
        encode_unsigned(*self as nat)
    }

    fn pack(&self, buf: &mut Vec<u8>) -> (n: usize) {
        let v = *self;
        proof {
            lemma_encode_unsigned_len(v as nat);
        }
        if v <= 127 {
            buf.push(v as u8);
            proof {
                assert(buf@ =~= old(buf)@ + self.encoding());
            }
            1
        } else if v <= 0xff {
            buf.push(tag::UINT8);
            buf.push(v as u8);
            proof {
                assert(buf@ =~= old(buf)@ + self.encoding());
            }
            2
        } else if v <= 0xffff {
            buf.push(tag::UINT16);
            be_push(buf, v as u128, 2);
            proof {
                lemma_be_bytes_len(v as nat, 2);
                assert(buf@ =~= old(buf)@ + self.encoding());
            }
            3
        } else if v <= 0xffff_ffff {
            buf.push(tag::UINT32);
            be_push(buf, v as u128, 4);
            proof {
                lemma_be_bytes_len(v as nat, 4);
                assert(buf@ =~= old(buf)@ + self.encoding());
            }
            5
        } else {
            buf.push(tag::UINT64);
            be_push(buf, v as u128, 8);
            proof {
                lemma_be_bytes_len(v as nat, 8);
                assert(buf@ =~= old(buf)@ + self.encoding());
            }
            9
        }
    }
}

impl Packable for i8 {
    open spec fn encoding(&self) -> Seq<u8> {
        encode_signed(*self as int)
    }

    fn pack(&self, buf: &mut Vec<u8>) -> (n: usize) {
        let v = *self;
        proof {
            lemma_encode_signed_len(v as int);
        }
        if v <= -33 {
            buf.push(tag::INT8);
            buf.push(to_unsigned1(v as i128));
            proof {
                assert(buf@ =~= old(buf)@ + self.encoding());
            }
            2
        } else if v <= -1 {
            buf.push(to_unsigned1(v as i128));
            proof {
                assert(buf@ =~= old(buf)@ + self.encoding());
            }
            1
        } else {
            buf.push(v as u8);
            proof {
                assert(v as u8 == to_unsigned(v as int, 1) as u8);
                assert(buf@ =~= old(buf)@ + self.encoding());
            }
            1
        }
    }
}

impl Packable for i16 {
    open spec fn encoding(&self) -> Seq<u8> {
        encode_signed(*self as int)
    }

    fn pack(&self, buf: &mut Vec<u8>) -> (n: usize) {
        let v = *self;
        proof {
            lemma_encode_signed_len(v as int);
        }
        if v < i8::MIN as i16 {
            buf.push(tag::INT16);
            be_push(buf, to_unsigned2(v as i128), 2);
            proof {
                lemma_be_bytes_len(to_unsigned(v as int, 2), 2);
                assert(buf@ =~= old(buf)@ + self.encoding());
            }
            3
        } else if v <= -33 {
            buf.push(tag::INT8);
            buf.push(to_unsigned1(v as i128));
            proof {
                assert(buf@ =~= old(buf)@ + self.encoding());
            }
            2
        } else if v <= -1 {
            buf.push(to_unsigned1(v as i128));
            proof {
                assert(buf@ =~= old(buf)@ + self.encoding());
            }
            1
        } else if v <= i8::MAX as i16 {
            buf.push(v as u8);
            proof {
                assert(v as u8 == to_unsigned(v as int, 1) as u8);
                assert(buf@ =~= old(buf)@ + self.encoding());
            }
            1
        } else {
            buf.push(tag::INT16);
            be_push(buf, to_unsigned2(v as i128), 2);
            proof {
                lemma_be_bytes_len(to_unsigned(v as int, 2), 2);
                assert(buf@ =~= old(buf)@ + self.encoding());
            }
            3
        }
    }
}

impl Packable for i32 {
    open spec fn encoding(&self) -> Seq<u8> {
        encode_signed(*self as int)
    }

    fn pack(&self, buf: &mut Vec<u8>) -> (n: usize) {
        let v = *self;
        proof {
            lemma_encode_signed_len(v as int);
        }
        if v < i16::MIN as i32 {
            buf.push(tag::INT32);
            be_push(buf, to_unsigned4(v as i128), 4);
            proof {
                lemma_be_bytes_len(to_unsigned(v as int, 4), 4);
                assert(buf@ =~= old(buf)@ + self.encoding());
            }
            5
        } else if v < i8::MIN as i32 {
            buf.push(tag::INT16);
            be_push(buf, to_unsigned2(v as i128), 2);
            proof {
                lemma_be_bytes_len(to_unsigned(v as int, 2), 2);
                assert(buf@ =~= old(buf)@ + self.encoding());
            }
            3
        } else if v <= -33 {
            buf.push(tag::INT8);
            buf.push(to_unsigned1(v as i128));
            proof {
                assert(buf@ =~= old(buf)@ + self.encoding());
            }
            2
        } else if v <= -1 {
            buf.push(to_unsigned1(v as i128));
            proof {
                assert(buf@ =~= old(buf)@ + self.encoding());
            }
            1
        } else if v <= i8::MAX as i32 {
            buf.push(v as u8);
            proof {
                assert(v as u8 == to_unsigned(v as int, 1) as u8);
                assert(buf@ =~= old(buf)@ + self.encoding());
            }
            1
        } else if v <= i16::MAX as i32 {
            buf.push(tag::INT16);
            be_push(buf, to_unsigned2(v as i128), 2);
            proof {
                lemma_be_bytes_len(to_unsigned(v as int, 2), 2);
                assert(buf@ =~= old(buf)@ + self.encoding());
            }
            3
        } else {
            buf.push(tag::INT32);
            be_push(buf, to_unsigned4(v as i128), 4);
            proof {
                lemma_be_bytes_len(to_unsigned(v as int, 4), 4);
                assert(buf@ =~= old(buf)@ + self.encoding());
            }
            5
        }
    }
}

impl Packable for i64 {
    open spec fn encoding(&self) -> Seq<u8> {
        encode_signed(*self as int)
    }

    fn pack(&self, buf: &mut Vec<u8>) -> (n: usize) {
        let v = *self;
        proof {
            lemma_encode_signed_len(v as int);
        }
        if v < i32::MIN as i64 {
            buf.push(tag::INT64);
            be_push(buf, to_unsigned8(v as i128), 8);
            proof {
                lemma_be_bytes_len(to_unsigned(v as int, 8), 8);
                assert(buf@ =~= old(buf)@ + self.encoding());
            }
            9
        } else if v < i16::MIN as i64 {
            buf.push(tag::INT32);
            be_push(buf, to_unsigned4(v as i128), 4);
            proof {
                lemma_be_bytes_len(to_unsigned(v as int, 4), 4);
                assert(buf@ =~= old(buf)@ + self.encoding());
            }
            5
        } else if v < i8::MIN as i64 {
            buf.push(tag::INT16);
            be_push(buf, to_unsigned2(v as i128), 2);
            proof {
                lemma_be_bytes_len(to_unsigned(v as int, 2), 2);
                assert(buf@ =~= old(buf)@ + self.encoding());
            }
            3
        } else if v <= -33 {
            buf.push(tag::INT8);
            buf.push(to_unsigned1(v as i128));
            proof {
                assert(buf@ =~= old(buf)@ + self.encoding());
            }
            2
        } else if v <= -1 {
            buf.push(to_unsigned1(v as i128));
            proof {
                assert(buf@ =~= old(buf)@ + self.encoding());
            }
            1
        } else if v <= i8::MAX as i64 {
            buf.push(v as u8);
            proof {
                assert(v as u8 == to_unsigned(v as int, 1) as u8);
                assert(buf@ =~= old(buf)@ + self.encoding());
            }
            1
        } else if v <= i16::MAX as i64 {
            buf.push(tag::INT16);
            be_push(buf, to_unsigned2(v as i128), 2);
            proof {
                lemma_be_bytes_len(to_unsigned(v as int, 2), 2);
                assert(buf@ =~= old(buf)@ + self.encoding());
            }
            3
        } else if v <= i32::MAX as i64 {
            buf.push(tag::INT32);
            be_push(buf, to_unsigned4(v as i128), 4);
            proof {
                lemma_be_bytes_len(to_unsigned(v as int, 4), 4);
                assert(buf@ =~= old(buf)@ + self.encoding());
            }
            5
        } else {
            buf.push(tag::INT64);
            be_push(buf, to_unsigned8(v as i128), 8);
            proof {
                lemma_be_bytes_len(to_unsigned(v as int, 8), 8);
                assert(buf@ =~= old(buf)@ + self.encoding());
            }
            9
        }
    }
}

impl Packable for i128 {
    open spec fn encoding(&self) -> Seq<u8> {
        encode_signed(*self as int)
    }

    fn pack(&self, buf: &mut Vec<u8>) -> (n: usize) {
        let v = *self;
        proof {
            lemma_encode_signed_len(v as int);
        }
        if v < i64::MIN as i128 {
            buf.push(tag::BIN8);
            buf.push(16);
            be_push(buf, to_unsigned16(v), 16);
            proof {
                lemma_be_bytes_len(to_unsigned(v as int, 16), 16);
                assert(buf@ =~= old(buf)@ + self.encoding());
            }
            18
        } else if v < i32::MIN as i128 {
            buf.push(tag::INT64);
            be_push(buf, to_unsigned8(v), 8);
            proof {
                lemma_be_bytes_len(to_unsigned(v as int, 8), 8);
                assert(buf@ =~= old(buf)@ + self.encoding());
            }
            9
        } else if v < i16::MIN as i128 {
            buf.push(tag::INT32);
            be_push(buf, to_unsigned4(v), 4);
            proof {
                lemma_be_bytes_len(to_unsigned(v as int, 4), 4);
                assert(buf@ =~= old(buf)@ + self.encoding());
            }
            5
        } else if v < i8::MIN as i128 {
            buf.push(tag::INT16);
            be_push(buf, to_unsigned2(v), 2);
            proof {
                lemma_be_bytes_len(to_unsigned(v as int, 2), 2);
                assert(buf@ =~= old(buf)@ + self.encoding());
            }
            3
        } else if v <= -33 {
            buf.push(tag::INT8);
            buf.push(to_unsigned1(v));
            proof {
                assert(buf@ =~= old(buf)@ + self.encoding());
            }
            2
        } else if v <= -1 {
            buf.push(to_unsigned1(v));
            proof {
                assert(buf@ =~= old(buf)@ + self.encoding());
            }
            1
        } else if v <= i8::MAX as i128 {
            buf.push(v as u8);
            proof {
                assert(v as u8 == to_unsigned(v as int, 1) as u8);
                assert(buf@ =~= old(buf)@ + self.encoding());
            }
            1
        } else if v <= i16::MAX as i128 {
            buf.push(tag::INT16);
            be_push(buf, to_unsigned2(v), 2);
            proof {
                lemma_be_bytes_len(to_unsigned(v as int, 2), 2);
                assert(buf@ =~= old(buf)@ + self.encoding());
            }
            3
        } else if v <= i32::MAX as i128 {
            buf.push(tag::INT32);
            be_push(buf, to_unsigned4(v), 4);
            proof {
                lemma_be_bytes_len(to_unsigned(v as int, 4), 4);
                assert(buf@ =~= old(buf)@ + self.encoding());
            }
            5
        } else if v <= i64::MAX as i128 {
            buf.push(tag::INT64);
            be_push(buf, to_unsigned8(v), 8);
            proof {
                lemma_be_bytes_len(to_unsigned(v as int, 8), 8);
                assert(buf@ =~= old(buf)@ + self.encoding());
            }
            9
        } else {
            buf.push(tag::BIN8);
            buf.push(16);
            be_push(buf, to_unsigned16(v), 16);
            proof {
                lemma_be_bytes_len(to_unsigned(v as int, 16), 16);
                assert(buf@ =~= old(buf)@ + self.encoding());
            }
            18
        }
    }
}

impl Packable for isize {
    open spec fn encoding(&self) -> Seq<u8> {
        encode_signed(*self as int)
    }

    fn pack(&self, buf: &mut Vec<u8>) -> (n: usize) {
        let v = *self;
        proof {
            lemma_encode_signed_len(v as int);
        }
        if v < i32::MIN as isize {
            buf.push(tag::INT64);
            be_push(buf, to_unsigned8(v as i128), 8);
            proof {
                lemma_be_bytes_len(to_unsigned(v as int, 8), 8);
                assert(buf@ =~= old(buf)@ + self.encoding());
            }
            9
        } else if v < i16::MIN as isize {
            buf.push(tag::INT32);
            be_push(buf, to_unsigned4(v as i128), 4);
            proof {
                lemma_be_bytes_len(to_unsigned(v as int, 4), 4);
                assert(buf@ =~= old(buf)@ + self.encoding());
            }
            5
        } else if v < i8::MIN as isize {
            buf.push(tag::INT16);
            be_push(buf, to_unsigned2(v as i128), 2);
            proof {
                lemma_be_bytes_len(to_unsigned(v as int, 2), 2);
                assert(buf@ =~= old(buf)@ + self.encoding());
            }
            3
        } else if v <= -33 {
            buf.push(tag::INT8);
            buf.push(to_unsigned1(v as i128));
            proof {
                assert(buf@ =~= old(buf)@ + self.encoding());
            }
            2
        } else if v <= -1 {
            buf.push(to_unsigned1(v as i128));
            proof {
                assert(buf@ =~= old(buf)@ + self.encoding());
            }
            1
        } else if v <= i8::MAX as isize {
            buf.push(v as u8);
            proof {
                assert(v as u8 == to_unsigned(v as int, 1) as u8);
                assert(buf@ =~= old(buf)@ + self.encoding());
            }
            1
        } else if v <= i16::MAX as isize {
            buf.push(tag::INT16);
            be_push(buf, to_unsigned2(v as i128), 2);
            proof {
                lemma_be_bytes_len(to_unsigned(v as int, 2), 2);
                assert(buf@ =~= old(buf)@ + self.encoding());
            }
            3
        } else if v <= i32::MAX as isize {
            buf.push(tag::INT32);
            be_push(buf, to_unsigned4(v as i128), 4);
            proof {
                lemma_be_bytes_len(to_unsigned(v as int, 4), 4);
                assert(buf@ =~= old(buf)@ + self.encoding());
            }
            5
        } else {
            buf.push(tag::INT64);
            be_push(buf, to_unsigned8(v as i128), 8);
            proof {
                lemma_be_bytes_len(to_unsigned(v as int, 8), 8);
                assert(buf@ =~= old(buf)@ + self.encoding());
            }
            9
        }
    }
}

} // verus!
