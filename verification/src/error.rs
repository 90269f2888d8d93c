use vstd::prelude::*;

verus! {

/// The ways a decode can fail. Encoding never fails.
#[derive(Clone, Copy, Debug, PartialEq, Eq, Structural)]
pub enum Error {
    /// The byte source could not yield the next byte or the next payload.
    BufferTooShort,
    /// The tag byte is not in the set the requested operation and target
    /// width accept.
    UnexpectedFormatTag,
    /// A 128-bit decode read a `bin8` frame whose length byte is not 16.
    UnexpectedBinLength,
}

} // verus!
