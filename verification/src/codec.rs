//! The two codec traits. `Packable` ties a value to its encoding;
//! `Unpackable` ties both decode modalities — byte slice and one-shot
//! byte source — to one spec-level decoder, so that the two forms agree
//! on every input by contract, and carries the round-trip law every
//! implementation must prove.

use vstd::prelude::*;

use crate::error::Error;
use crate::source::ByteSource;

verus! {

/// A value with a MessagePack encoding.
pub trait Packable: Sized {
    /// The bytes the value encodes to: the narrowest legal frame.
    spec fn encoding(&self) -> Seq<u8>;

    /// Appends the encoding of `self` to `buf` and returns the number of
    /// bytes appended. Never fails.
    fn pack(&self, buf: &mut Vec<u8>) -> (n: usize)
        ensures
            final(buf)@ == old(buf)@ + self.encoding(),
            n == self.encoding().len(),
    ;
}

/// A value that can be decoded from a MessagePack frame.
pub trait Unpackable: Packable {
    /// What decoding `s` into this target yields: the bytes consumed and
    /// the value, or the error.
    spec fn decoding(s: Seq<u8>) -> Result<(int, Self), Error>;

    /// Whether decoding this value's own encoding gives it back. False
    /// only where a type folds distinct values onto one wire image, as
    /// the optional integer does with the absent value and zero.
    spec fn round_trippable(&self) -> bool;

    /// Round trip: decoding an encoded value, with anything at all after
    /// the frame, yields the value back and consumes exactly the frame.
    proof fn lemma_round_trip(&self, rest: Seq<u8>)
        requires
            self.round_trippable(),
        ensures
            Self::decoding(self.encoding() + rest) == Ok::<(int, Self), Error>(
                (self.encoding().len() as int, *self),
            ),
    ;

    /// Decodes one value from the head of `buf`, returning the bytes
    /// consumed and the value.
    fn unpack(buf: &[u8]) -> (r: Result<(usize, Self), Error>)
        ensures
            match r {
                Ok((n, v)) => Self::decoding(buf@) == Ok::<(int, Self), Error>((n as int, v))
                    && n <= buf@.len(),
                Err(e) => Self::decoding(buf@) == Err::<(int, Self), Error>(e),
            },
    ;

    /// Decodes one value from a one-shot byte source. On success exactly
    /// the frame is consumed; on failure the bytes already pulled are
    /// gone, since the source cannot be rewound.
    fn unpack_iter<S: ByteSource>(src: &mut S) -> (r: Result<(usize, Self), Error>)
        ensures
            match r {
                Ok((n, v)) => Self::decoding(old(src).remaining()) == Ok::<(int, Self), Error>(
                    (n as int, v),
                ) && n <= old(src).remaining().len() && final(src).remaining() == old(
                    src,
                ).remaining().skip(n as int),
                Err(e) => Self::decoding(old(src).remaining()) == Err::<(int, Self), Error>(e),
            },
    ;
}

} // verus!
