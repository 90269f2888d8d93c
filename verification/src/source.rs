//! The streaming input modality: a one-shot byte producer, the vector-
//! backed producer the library provides, and the shared big-endian
//! reader over any producer.

use vstd::prelude::*;

use crate::wire::{be_num, lemma_pow256_increases, lemma_pow256_values, pow256};

verus! {

/// A one-shot producer of bytes. Each `next_byte` hands out the first
/// byte still remaining, or `None` once the source is exhausted; it
/// cannot be rewound, so bytes taken before a failure are gone.
pub trait ByteSource: Sized {
    /// The bytes the source has not yet handed out.
    spec fn remaining(&self) -> Seq<u8>;

    /// Takes the next byte.
    fn next_byte(&mut self) -> (r: Option<u8>)
        ensures
            match r {
                Some(b) => old(self).remaining().len() > 0 && b == old(self).remaining()[0]
                    && final(self).remaining() == old(self).remaining().skip(1),
                None => old(self).remaining().len() == 0 && final(self).remaining() == old(
                    self,
                ).remaining(),
            },
    ;
}

/// A byte source over an owned vector, consumed front to back.
pub struct VecSource {
    bytes: Vec<u8>,
    cursor: usize,
}

impl VecSource {
    #[verifier::type_invariant]
    spec fn wf(self) -> bool {
        self.cursor <= self.bytes@.len()
    }

    /// Wraps `bytes` as a source that will yield them in order.
    pub fn new(bytes: Vec<u8>) -> (s: Self)
        ensures
            s.remaining() == bytes@,
    {
        let s = VecSource { bytes, cursor: 0 };
        proof {
            assert(s.remaining() =~= s.bytes@);
        }
        s
    }
}

impl ByteSource for VecSource {
    closed spec fn remaining(&self) -> Seq<u8> {
        self.bytes@.skip(self.cursor as int)
    }

    fn next_byte(&mut self) -> (r: Option<u8>) {
        proof {
            use_type_invariant(&*self);
        }
        if self.cursor < self.bytes.len() {
            let b = self.bytes[self.cursor];
            self.cursor = self.cursor + 1;
            proof {
                assert(self.bytes@.skip(self.cursor as int) =~= old(self).bytes@.skip(
                    old(self).cursor as int,
                ).skip(1));
            }
            Some(b)
        } else {
            None
        }
    }
}

/// Reads an `n`-byte big-endian integer from the source. `None` means the
/// source ran out first; everything it still held has then been taken.
pub fn be_read_source<S: ByteSource>(src: &mut S, n: usize) -> (r: Option<u128>)
    requires
        n <= 16,
    ensures
        match r {
            Some(v) => old(src).remaining().len() >= n && v as nat == be_num(
                old(src).remaining().take(n as int),
            ) && (v as nat) < pow256(n as nat) && final(src).remaining() == old(
                src,
            ).remaining().skip(n as int),
            None => old(src).remaining().len() < n && final(src).remaining().len() == 0,
        },
{
    let mut v: u128 = 0;
    let mut i: usize = 0;
    proof {
        assert(old(src).remaining().take(0) =~= Seq::<u8>::empty());
        assert(old(src).remaining().skip(0) =~= old(src).remaining());
    }
    while i < n
        invariant
            n <= 16,
            i <= n,
            old(src).remaining().len() >= i,
            src.remaining() == old(src).remaining().skip(i as int),
            v as nat == be_num(old(src).remaining().take(i as int)),
            (v as nat) < pow256(i as nat),
        decreases n - i,
    {
        proof {
            lemma_pow256_values();
            lemma_pow256_increases(i as nat, 15);
        }
        match src.next_byte() {
            None => {
                return None;
            },
            Some(b) => {
                proof {
                    let whole = old(src).remaining().take(i as int + 1);
                    assert(whole.drop_last() =~= old(src).remaining().take(i as int));
                    assert(whole.last() == old(src).remaining()[i as int]);
                    assert(old(src).remaining().skip(i as int).skip(1) =~= old(
                        src,
                    ).remaining().skip(i as int + 1));
                }
                v = v * 256 + b as u128;
                i = i + 1;
            },
        }
    }
    Some(v)
}

} // verus!
