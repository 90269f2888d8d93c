//! The nullable adapter: an optional non-zero value of any numeric width
//! packs as the integer zero when absent and as its own frame when
//! present; on decode, a value of zero materializes as absent. Zero is
//! the sentinel, so the adapter is a bijection between optional non-zero
//! values and plain values of the width.

use vstd::prelude::*;

use crate::codec::{Packable, Unpackable};
use crate::error::Error;
use crate::source::ByteSource;

verus! {

/// A width whose codec can host the zero-as-absent adapter: the
/// sentinel is recognizable, and its frame is the single byte `0x00`.
pub trait Nullable: Unpackable {
    /// Whether the value is the sentinel zero.
    spec fn spec_is_zero(&self) -> bool;

    /// Tests the sentinel.
    fn is_zero(&self) -> (r: bool)
        ensures
            r == self.spec_is_zero(),
    ;

    /// The single byte `0x00` decodes, at this width, to the sentinel in
    /// one consumed byte, whatever follows it.
    proof fn lemma_zero_frame(rest: Seq<u8>)
        ensures
            Self::decoding(seq![0u8] + rest) matches Ok((n, z)) && n == 1 && z.spec_is_zero(),
    ;
}

impl<X: Nullable> Packable for Option<X> {
    open spec fn encoding(&self) -> Seq<u8> {
        match self {
            Some(v) => v.encoding(),
            None => seq![0u8],
        }
    }

    fn pack(&self, buf: &mut Vec<u8>) -> (n: usize) {
        match self {
            Some(v) => v.pack(buf),
            None => {
                buf.push(0u8);
                proof {
                    assert(buf@ =~= old(buf)@ + self.encoding());
                }
                1
            },
        }
    }
}

impl<X: Nullable> Unpackable for Option<X> {
    open spec fn decoding(s: Seq<u8>) -> Result<(int, Option<X>), Error> {
        match X::decoding(s) {
            Ok((n, v)) => Ok(
                (
                    n,
                    if v.spec_is_zero() {
                        None
                    } else {
                        Some(v)
                    },
                ),
            ),
            Err(e) => Err(e),
        }
    }

    open spec fn round_trippable(&self) -> bool {
        match self {
            Some(v) => !v.spec_is_zero() && v.round_trippable(),
            None => true,
        }
    }

    proof fn lemma_round_trip(&self, rest: Seq<u8>) {
        match self {
            Some(v) => {
                v.lemma_round_trip(rest);
            },
            None => {
                X::lemma_zero_frame(rest);
            },
        }
    }

    fn unpack(buf: &[u8]) -> (r: Result<(usize, Option<X>), Error>) {
        match X::unpack(buf) {
            Ok((n, v)) => if v.is_zero() {
                Ok((n, None))
            } else {
                Ok((n, Some(v)))
            },
            Err(e) => Err(e),
        }
    }

    fn unpack_iter<S: ByteSource>(src: &mut S) -> (r: Result<(usize, Option<X>), Error>) {
        match X::unpack_iter(src) {
            Ok((n, v)) => if v.is_zero() {
                Ok((n, None))
            } else {
                Ok((n, Some(v)))
            },
            Err(e) => Err(e),
        }
    }
}

impl Nullable for u8 {
    open spec fn spec_is_zero(&self) -> bool {
        *self == 0
    }

    fn is_zero(&self) -> (r: bool) {
        *self == 0
    }

    proof fn lemma_zero_frame(rest: Seq<u8>) {
        assert((seq![0u8] + rest)[0] == 0u8);
    }
}

impl Nullable for u16 {
    open spec fn spec_is_zero(&self) -> bool {
        *self == 0
    }

    fn is_zero(&self) -> (r: bool) {
        *self == 0
    }

    proof fn lemma_zero_frame(rest: Seq<u8>) {
        assert((seq![0u8] + rest)[0] == 0u8);
    }
}

impl Nullable for u32 {
    open spec fn spec_is_zero(&self) -> bool {
        *self == 0
    }

    fn is_zero(&self) -> (r: bool) {
        *self == 0
    }

    proof fn lemma_zero_frame(rest: Seq<u8>) {
        assert((seq![0u8] + rest)[0] == 0u8);
    }
}

impl Nullable for u64 {
    open spec fn spec_is_zero(&self) -> bool {
        *self == 0
    }

    fn is_zero(&self) -> (r: bool) {
        *self == 0
    }

    proof fn lemma_zero_frame(rest: Seq<u8>) {
        assert((seq![0u8] + rest)[0] == 0u8);
    }
}

impl Nullable for u128 {
    open spec fn spec_is_zero(&self) -> bool {
        *self == 0
    }

    fn is_zero(&self) -> (r: bool) {
        *self == 0
    }

    proof fn lemma_zero_frame(rest: Seq<u8>) {
        assert((seq![0u8] + rest)[0] == 0u8);
    }
}

impl Nullable for usize {
    open spec fn spec_is_zero(&self) -> bool {
        *self == 0
    }

    fn is_zero(&self) -> (r: bool) {
        *self == 0
    }

    proof fn lemma_zero_frame(rest: Seq<u8>) {
        assert((seq![0u8] + rest)[0] == 0u8);
    }
}

impl Nullable for i8 {
    open spec fn spec_is_zero(&self) -> bool {
        *self == 0
    }

    fn is_zero(&self) -> (r: bool) {
        *self == 0
    }

    proof fn lemma_zero_frame(rest: Seq<u8>) {
        assert((seq![0u8] + rest)[0] == 0u8);
    }
}

impl Nullable for i16 {
    open spec fn spec_is_zero(&self) -> bool {
        *self == 0
    }

    fn is_zero(&self) -> (r: bool) {
        *self == 0
    }

    proof fn lemma_zero_frame(rest: Seq<u8>) {
        assert((seq![0u8] + rest)[0] == 0u8);
    }
}

impl Nullable for i32 {
    open spec fn spec_is_zero(&self) -> bool {
        *self == 0
    }

    fn is_zero(&self) -> (r: bool) {
        *self == 0
    }

    proof fn lemma_zero_frame(rest: Seq<u8>) {
        assert((seq![0u8] + rest)[0] == 0u8);
    }
}

impl Nullable for i64 {
    open spec fn spec_is_zero(&self) -> bool {
        *self == 0
    }

    fn is_zero(&self) -> (r: bool) {
        *self == 0
    }

    proof fn lemma_zero_frame(rest: Seq<u8>) {
        assert((seq![0u8] + rest)[0] == 0u8);
    }
}

impl Nullable for i128 {
    open spec fn spec_is_zero(&self) -> bool {
        *self == 0
    }

    fn is_zero(&self) -> (r: bool) {
        *self == 0
    }

    proof fn lemma_zero_frame(rest: Seq<u8>) {
        assert((seq![0u8] + rest)[0] == 0u8);
    }
}

impl Nullable for isize {
    open spec fn spec_is_zero(&self) -> bool {
        *self == 0
    }

    fn is_zero(&self) -> (r: bool) {
        *self == 0
    }

    proof fn lemma_zero_frame(rest: Seq<u8>) {
        assert((seq![0u8] + rest)[0] == 0u8);
    }
}

/// The sentinel property: at every width, the absent value encodes as
/// the single byte `0x00` — the encoding of zero itself.
pub proof fn lemma_sentinel<X: Nullable>()
    ensures
        (None::<X>).encoding() =~= seq![0u8],
{
}

} // verus!
