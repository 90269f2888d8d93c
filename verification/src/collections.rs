//! The container codec: array and map length headers, element-recursive
//! decoding in both modalities, and the container laws — decoding an
//! encoded sequence of elements or pairs yields them back in wire order.

use vstd::prelude::*;

use crate::codec::{Packable, Unpackable};
use crate::error::Error;
use crate::source::{be_read_source, ByteSource};
use crate::tag;
use crate::wire::{be_bytes, be_num, be_read, lemma_be_bytes_len, lemma_be_num_of_be_bytes,
    lemma_pow256_values};

verus! {

/// What reading an array header from `s` yields: the header bytes
/// consumed and the declared element count.
pub open spec fn decode_array_header(s: Seq<u8>) -> Result<(int, nat), Error> {
    if s.len() == 0 {
        Err(Error::BufferTooShort)
    } else {
        let t = s[0];
        if tag::FIXARRAY <= t && t <= 0x9f {
            Ok((1, (t - tag::FIXARRAY) as nat))
        } else if t == tag::ARRAY16 {
            if s.len() < 3 {
                Err(Error::BufferTooShort)
            } else {
                Ok((3, be_num(s.subrange(1, 3))))
            }
        } else if t == tag::ARRAY32 {
            if s.len() < 5 {
                Err(Error::BufferTooShort)
            } else {
                Ok((5, be_num(s.subrange(1, 5))))
            }
        } else {
            Err(Error::UnexpectedFormatTag)
        }
    }
}

/// What reading a map header from `s` yields: the header bytes consumed
/// and the declared pair count.
pub open spec fn decode_map_header(s: Seq<u8>) -> Result<(int, nat), Error> {
    if s.len() == 0 {
        Err(Error::BufferTooShort)
    } else {
        let t = s[0];
        if tag::FIXMAP <= t && t <= 0x8f {
            Ok((1, (t - tag::FIXMAP) as nat))
        } else if t == tag::MAP16 {
            if s.len() < 3 {
                Err(Error::BufferTooShort)
            } else {
                Ok((3, be_num(s.subrange(1, 3))))
            }
        } else if t == tag::MAP32 {
            if s.len() < 5 {
                Err(Error::BufferTooShort)
            } else {
                Ok((5, be_num(s.subrange(1, 5))))
            }
        } else {
            Err(Error::UnexpectedFormatTag)
        }
    }
}

/// What decoding `count` consecutive values from `s` yields: the bytes
/// consumed and the values in wire order, or the first error.
pub open spec fn decode_elems<V: Unpackable>(s: Seq<u8>, count: nat) -> Result<
    (int, Seq<V>),
    Error,
>
    decreases count,
{
    if count == 0 {
        Ok((0, Seq::empty()))
    } else {
        match V::decoding(s) {
            Ok((n, v)) => match decode_elems::<V>(s.skip(n), (count - 1) as nat) {
                Ok((m, vs)) => Ok((n + m, seq![v] + vs)),
                Err(e) => Err(e),
            },
            Err(e) => Err(e),
        }
    }
}

/// What decoding `count` consecutive key-value pairs from `s` yields, in
/// wire order, key before value within each pair.
pub open spec fn decode_pairs<K: Unpackable, V: Unpackable>(s: Seq<u8>, count: nat) -> Result<
    (int, Seq<(K, V)>),
    Error,
>
    decreases count,
{
    if count == 0 {
        Ok((0, Seq::empty()))
    } else {
        match K::decoding(s) {
            Ok((nk, k)) => match V::decoding(s.skip(nk)) {
                Ok((nv, v)) => match decode_pairs::<K, V>(
                    s.skip(nk).skip(nv),
                    (count - 1) as nat,
                ) {
                    Ok((m, ps)) => Ok((nk + nv + m, seq![(k, v)] + ps)),
                    Err(e) => Err(e),
                },
                Err(e) => Err(e),
            },
            Err(e) => Err(e),
        }
    }
}

/// What decoding a whole array frame from `s` yields.
pub open spec fn decode_array<V: Unpackable>(s: Seq<u8>) -> Result<(int, Seq<V>), Error> {
    match decode_array_header(s) {
        Ok((h, count)) => match decode_elems::<V>(s.skip(h), count) {
            Ok((m, vs)) => Ok((h + m, vs)),
            Err(e) => Err(e),
        },
        Err(e) => Err(e),
    }
}

/// What decoding a whole map frame from `s` yields.
pub open spec fn decode_map<K: Unpackable, V: Unpackable>(s: Seq<u8>) -> Result<
    (int, Seq<(K, V)>),
    Error,
> {
    match decode_map_header(s) {
        Ok((h, count)) => match decode_pairs::<K, V>(s.skip(h), count) {
            Ok((m, ps)) => Ok((h + m, ps)),
            Err(e) => Err(e),
        },
        Err(e) => Err(e),
    }
}

/// Unpacks an array from the head of `buf`, returning the bytes read and
/// the elements in wire order.
pub fn unpack_array<V: Unpackable>(buf: &[u8]) -> (r: Result<(usize, Vec<V>), Error>)
    ensures
        match r {
            Ok((n, vs)) => decode_array::<V>(buf@) == Ok::<(int, Seq<V>), Error>((n as int, vs@))
                && n <= buf@.len(),
            Err(e) => decode_array::<V>(buf@) == Err::<(int, Seq<V>), Error>(e),
        },
{
    proof {
        lemma_pow256_values();
    }
    let len = buf.len();
    if len < 1 {
        return Err(Error::BufferTooShort);
    }
    let t = buf[0];
    let (h, count): (usize, u32) = if tag::FIXARRAY <= t && t <= 0x9f {
        (1, (t - tag::FIXARRAY) as u32)
    } else if t == tag::ARRAY16 {
        if len < 3 {
            return Err(Error::BufferTooShort);
        }
        (3, be_read(buf, 1, 2) as u32)
    } else if t == tag::ARRAY32 {
        if len < 5 {
            return Err(Error::BufferTooShort);
        }
        (5, be_read(buf, 1, 4) as u32)
    } else {
        return Err(Error::UnexpectedFormatTag);
    };
    let mut out: Vec<V> = Vec::new();
    let mut pos: usize = h;
    let mut i: u32 = 0;
    proof {
        assert(decode_array_header(buf@) == Ok::<(int, nat), Error>((h as int, count as nat)));
        match decode_elems::<V>(buf@.skip(h as int), count as nat) {
            Ok((m, vs)) => {
                assert(Seq::<V>::empty() + vs =~= vs);
            },
            Err(e) => {},
        }
        assert(out@ =~= Seq::<V>::empty());
    }
    while i < count
        invariant
            len == buf@.len(),
            h <= pos <= len,
            i <= count,
            decode_array_header(buf@) == Ok::<(int, nat), Error>((h as int, count as nat)),
            decode_elems::<V>(buf@.skip(h as int), count as nat) == (match decode_elems::<V>(
                buf@.skip(pos as int),
                (count - i) as nat,
            ) {
                Ok((m, vs)) => Ok::<(int, Seq<V>), Error>((pos - h + m, out@ + vs)),
                Err(e) => Err::<(int, Seq<V>), Error>(e),
            }),
        decreases count - i,
    {
        let sub = vstd::slice::slice_subrange(buf, pos, len);
        proof {
            assert(sub@ =~= buf@.skip(pos as int));
        }
        match V::unpack(sub) {
            Ok((c, v)) => {
                proof {
                    assert(buf@.skip(pos as int).skip(c as int) =~= buf@.skip(pos + c));
                    assert(decode_elems::<V>(buf@.skip(pos as int), (count - i) as nat) == (
                    match decode_elems::<V>(buf@.skip(pos as int).skip(c as int), (count - i
                        - 1) as nat) {
                        Ok((m, vs)) => Ok::<(int, Seq<V>), Error>((c + m, seq![v] + vs)),
                        Err(e) => Err::<(int, Seq<V>), Error>(e),
                    }));
                    assert(out@.push(v) =~= out@ + seq![v]);
                    match decode_elems::<V>(buf@.skip(pos + c), (count - i - 1) as nat) {
                        Ok((m, vs)) => {
                            assert((out@ + seq![v]) + vs =~= out@ + (seq![v] + vs));
                        },
                        Err(e) => {},
                    }
                }
                out.push(v);
                pos = pos + c;
                i = i + 1;
            },
            Err(e) => {
                return Err(e);
            },
        }
    }
    proof {
        match decode_elems::<V>(buf@.skip(h as int), count as nat) {
            Ok((m, vs)) => {
                assert(out@ + Seq::<V>::empty() =~= out@);
            },
            Err(e) => {},
        }
    }
    Ok((pos, out))
}

/// Unpacks a map from the head of `buf`, returning the bytes read and
/// the key-value pairs in wire order.
pub fn unpack_map<K: Unpackable, V: Unpackable>(buf: &[u8]) -> (r: Result<
    (usize, Vec<(K, V)>),
    Error,
>)
    ensures
        match r {
            Ok((n, ps)) => decode_map::<K, V>(buf@) == Ok::<(int, Seq<(K, V)>), Error>(
                (n as int, ps@),
            ) && n <= buf@.len(),
            Err(e) => decode_map::<K, V>(buf@) == Err::<(int, Seq<(K, V)>), Error>(e),
        },
{
    proof {
        lemma_pow256_values();
    }
    let len = buf.len();
    if len < 1 {
        return Err(Error::BufferTooShort);
    }
    let t = buf[0];
    let (h, count): (usize, u32) = if tag::FIXMAP <= t && t <= 0x8f {
        (1, (t - tag::FIXMAP) as u32)
    } else if t == tag::MAP16 {
        if len < 3 {
            return Err(Error::BufferTooShort);
        }
        (3, be_read(buf, 1, 2) as u32)
    } else if t == tag::MAP32 {
        if len < 5 {
            return Err(Error::BufferTooShort);
        }
        (5, be_read(buf, 1, 4) as u32)
    } else {
        return Err(Error::UnexpectedFormatTag);
    };
    let mut out: Vec<(K, V)> = Vec::new();
    let mut pos: usize = h;
    let mut i: u32 = 0;
    proof {
        assert(decode_map_header(buf@) == Ok::<(int, nat), Error>((h as int, count as nat)));
        match decode_pairs::<K, V>(buf@.skip(h as int), count as nat) {
            Ok((m, ps)) => {
                assert(Seq::<(K, V)>::empty() + ps =~= ps);
            },
            Err(e) => {},
        }
        assert(out@ =~= Seq::<(K, V)>::empty());
    }
    while i < count
        invariant
            len == buf@.len(),
            h <= pos <= len,
            i <= count,
            decode_map_header(buf@) == Ok::<(int, nat), Error>((h as int, count as nat)),
            decode_pairs::<K, V>(buf@.skip(h as int), count as nat) == (match decode_pairs::<K, V>(
                buf@.skip(pos as int),
                (count - i) as nat,
            ) {
                Ok((m, ps)) => Ok::<(int, Seq<(K, V)>), Error>((pos - h + m, out@ + ps)),
                Err(e) => Err::<(int, Seq<(K, V)>), Error>(e),
            }),
        decreases count - i,
    {
        let sub = vstd::slice::slice_subrange(buf, pos, len);
        proof {
            assert(sub@ =~= buf@.skip(pos as int));
        }
        let (ck, k) = match K::unpack(sub) {
            Ok(p) => p,
            Err(e) => {
                return Err(e);
            },
        };
        let sub2 = vstd::slice::slice_subrange(buf, pos + ck, len);
        proof {
            assert(sub2@ =~= buf@.skip(pos as int).skip(ck as int));
        }
        let (cv, v) = match V::unpack(sub2) {
            Ok(p) => p,
            Err(e) => {
                return Err(e);
            },
        };
        proof {
            assert(buf@.skip(pos as int).skip(ck as int).skip(cv as int) =~= buf@.skip(
                pos + ck + cv,
            ));
            assert(decode_pairs::<K, V>(buf@.skip(pos as int), (count - i) as nat) == (
            match decode_pairs::<K, V>(buf@.skip(pos as int).skip(ck as int).skip(cv as int), (
            count - i - 1) as nat) {
                Ok((m, ps)) => Ok::<(int, Seq<(K, V)>), Error>((ck + cv + m, seq![(k, v)] + ps)),
                Err(e) => Err::<(int, Seq<(K, V)>), Error>(e),
            }));
            assert(out@.push((k, v)) =~= out@ + seq![(k, v)]);
            match decode_pairs::<K, V>(buf@.skip(pos + ck + cv), (count - i - 1) as nat) {
                Ok((m, ps)) => {
                    assert((out@ + seq![(k, v)]) + ps =~= out@ + (seq![(k, v)] + ps));
                },
                Err(e) => {},
            }
        }
        out.push((k, v));
        pos = pos + ck + cv;
        i = i + 1;
    }
    proof {
        match decode_pairs::<K, V>(buf@.skip(h as int), count as nat) {
            Ok((m, ps)) => {
                assert(out@ + Seq::<(K, V)>::empty() =~= out@);
            },
            Err(e) => {},
        }
    }
    Ok((pos, out))
}

/// Unpacks an array from a one-shot byte source, returning the bytes
/// read and the elements in wire order. On failure the bytes already
/// pulled are gone. The source must not hold more bytes than a byte
/// count can measure.
pub fn unpack_array_iter<S: ByteSource, V: Unpackable>(src: &mut S) -> (r: Result<
    (usize, Vec<V>),
    Error,
>)
    requires
        old(src).remaining().len() <= usize::MAX,
    ensures
        match r {
            Ok((n, vs)) => decode_array::<V>(old(src).remaining()) == Ok::<(int, Seq<V>), Error>(
                (n as int, vs@),
            ) && n <= old(src).remaining().len() && final(src).remaining() == old(
                src,
            ).remaining().skip(n as int),
            Err(e) => decode_array::<V>(old(src).remaining()) == Err::<(int, Seq<V>), Error>(e),
        },
{
    proof {
        lemma_pow256_values();
    }
    let t = match src.next_byte() {
        None => {
            return Err(Error::BufferTooShort);
        },
        Some(t) => t,
    };
    let (h, count): (usize, u32) = if tag::FIXARRAY <= t && t <= 0x9f {
        (1, (t - tag::FIXARRAY) as u32)
    } else if t == tag::ARRAY16 {
        match be_read_source(src, 2) {
            None => {
                return Err(Error::BufferTooShort);
            },
            Some(c) => {
                proof {
                    assert(old(src).remaining().skip(1).take(2) =~= old(src).remaining().subrange(
                        1,
                        3,
                    ));
                    assert(old(src).remaining().skip(1).skip(2) =~= old(src).remaining().skip(3));
                }
                (3, c as u32)
            },
        }
    } else if t == tag::ARRAY32 {
        match be_read_source(src, 4) {
            None => {
                return Err(Error::BufferTooShort);
            },
            Some(c) => {
                proof {
                    assert(old(src).remaining().skip(1).take(4) =~= old(src).remaining().subrange(
                        1,
                        5,
                    ));
                    assert(old(src).remaining().skip(1).skip(4) =~= old(src).remaining().skip(5));
                }
                (5, c as u32)
            },
        }
    } else {
        return Err(Error::UnexpectedFormatTag);
    };
    let mut out: Vec<V> = Vec::new();
    let mut n: usize = h;
    let mut i: u32 = 0;
    proof {
        assert(decode_array_header(old(src).remaining()) == Ok::<(int, nat), Error>(
            (h as int, count as nat),
        ));
        assert(src.remaining() == old(src).remaining().skip(h as int));
        match decode_elems::<V>(old(src).remaining().skip(h as int), count as nat) {
            Ok((m, vs)) => {
                assert(Seq::<V>::empty() + vs =~= vs);
            },
            Err(e) => {},
        }
        assert(out@ =~= Seq::<V>::empty());
    }
    while i < count
        invariant
            old(src).remaining().len() <= usize::MAX,
            i <= count,
            h <= n <= old(src).remaining().len(),
            src.remaining() == old(src).remaining().skip(n as int),
            decode_array_header(old(src).remaining()) == Ok::<(int, nat), Error>(
                (h as int, count as nat),
            ),
            decode_elems::<V>(old(src).remaining().skip(h as int), count as nat) == (
            match decode_elems::<V>(src.remaining(), (count - i) as nat) {
                Ok((m, vs)) => Ok::<(int, Seq<V>), Error>((n - h + m, out@ + vs)),
                Err(e) => Err::<(int, Seq<V>), Error>(e),
            }),
        decreases count - i,
    {
        match V::unpack_iter(src) {
            Ok((c, v)) => {
                proof {
                    assert(old(src).remaining().skip(n as int).skip(c as int) =~= old(
                        src,
                    ).remaining().skip(n + c));
                    assert(decode_elems::<V>(old(src).remaining().skip(n as int), (count
                        - i) as nat) == (match decode_elems::<V>(
                        old(src).remaining().skip(n as int).skip(c as int),
                        (count - i - 1) as nat,
                    ) {
                        Ok((m, vs)) => Ok::<(int, Seq<V>), Error>((c + m, seq![v] + vs)),
                        Err(e) => Err::<(int, Seq<V>), Error>(e),
                    }));
                    assert(out@.push(v) =~= out@ + seq![v]);
                    match decode_elems::<V>(old(src).remaining().skip(n + c), (count - i
                        - 1) as nat) {
                        Ok((m, vs)) => {
                            assert((out@ + seq![v]) + vs =~= out@ + (seq![v] + vs));
                        },
                        Err(e) => {},
                    }
                }
                out.push(v);
                n = n + c;
                i = i + 1;
            },
            Err(e) => {
                proof {
                    assert(decode_elems::<V>(old(src).remaining().skip(n as int), (count
                        - i) as nat) == Err::<(int, Seq<V>), Error>(e));
                }
                return Err(e);
            },
        }
    }
    proof {
        match decode_elems::<V>(old(src).remaining().skip(h as int), count as nat) {
            Ok((m, vs)) => {
                assert(out@ + Seq::<V>::empty() =~= out@);
            },
            Err(e) => {},
        }
    }
    Ok((n, out))
}

/// Unpacks a map from a one-shot byte source, returning the bytes read
/// and the key-value pairs in wire order. On failure the bytes already
/// pulled are gone. The source must not hold more bytes than a byte
/// count can measure.
pub fn unpack_map_iter<S: ByteSource, K: Unpackable, V: Unpackable>(src: &mut S) -> (r: Result<
    (usize, Vec<(K, V)>),
    Error,
>)
    requires
        old(src).remaining().len() <= usize::MAX,
    ensures
        match r {
            Ok((n, ps)) => decode_map::<K, V>(old(src).remaining()) == Ok::<
                (int, Seq<(K, V)>),
                Error,
            >((n as int, ps@)) && n <= old(src).remaining().len() && final(src).remaining() == old(
                src,
            ).remaining().skip(n as int),
            Err(e) => decode_map::<K, V>(old(src).remaining()) == Err::<(int, Seq<(K, V)>), Error>(
                e,
            ),
        },
{
    proof {
        lemma_pow256_values();
    }
    let t = match src.next_byte() {
        None => {
            return Err(Error::BufferTooShort);
        },
        Some(t) => t,
    };
    let (h, count): (usize, u32) = if tag::FIXMAP <= t && t <= 0x8f {
        (1, (t - tag::FIXMAP) as u32)
    } else if t == tag::MAP16 {
        match be_read_source(src, 2) {
            None => {
                return Err(Error::BufferTooShort);
            },
            Some(c) => {
                proof {
                    assert(old(src).remaining().skip(1).take(2) =~= old(src).remaining().subrange(
                        1,
                        3,
                    ));
                    assert(old(src).remaining().skip(1).skip(2) =~= old(src).remaining().skip(3));
                }
                (3, c as u32)
            },
        }
    } else if t == tag::MAP32 {
        match be_read_source(src, 4) {
            None => {
                return Err(Error::BufferTooShort);
            },
            Some(c) => {
                proof {
                    assert(old(src).remaining().skip(1).take(4) =~= old(src).remaining().subrange(
                        1,
                        5,
                    ));
                    assert(old(src).remaining().skip(1).skip(4) =~= old(src).remaining().skip(5));
                }
                (5, c as u32)
            },
        }
    } else {
        return Err(Error::UnexpectedFormatTag);
    };
    let mut out: Vec<(K, V)> = Vec::new();
    let mut n: usize = h;
    let mut i: u32 = 0;
    proof {
        assert(decode_map_header(old(src).remaining()) == Ok::<(int, nat), Error>(
            (h as int, count as nat),
        ));
        assert(src.remaining() == old(src).remaining().skip(h as int));
        match decode_pairs::<K, V>(old(src).remaining().skip(h as int), count as nat) {
            Ok((m, ps)) => {
                assert(Seq::<(K, V)>::empty() + ps =~= ps);
            },
            Err(e) => {},
        }
        assert(out@ =~= Seq::<(K, V)>::empty());
    }
    while i < count
        invariant
            old(src).remaining().len() <= usize::MAX,
            i <= count,
            h <= n <= old(src).remaining().len(),
            src.remaining() == old(src).remaining().skip(n as int),
            decode_map_header(old(src).remaining()) == Ok::<(int, nat), Error>(
                (h as int, count as nat),
            ),
            decode_pairs::<K, V>(old(src).remaining().skip(h as int), count as nat) == (
            match decode_pairs::<K, V>(src.remaining(), (count - i) as nat) {
                Ok((m, ps)) => Ok::<(int, Seq<(K, V)>), Error>((n - h + m, out@ + ps)),
                Err(e) => Err::<(int, Seq<(K, V)>), Error>(e),
            }),
        decreases count - i,
    {
        let (ck, k) = match K::unpack_iter(src) {
            Ok(p) => p,
            Err(e) => {
                proof {
                    assert(decode_pairs::<K, V>(old(src).remaining().skip(n as int), (count
                        - i) as nat) == Err::<(int, Seq<(K, V)>), Error>(e));
                }
                return Err(e);
            },
        };
        let (cv, v) = match V::unpack_iter(src) {
            Ok(p) => p,
            Err(e) => {
                proof {
                    assert(decode_pairs::<K, V>(old(src).remaining().skip(n as int), (count
                        - i) as nat) == Err::<(int, Seq<(K, V)>), Error>(e));
                }
                return Err(e);
            },
        };
        proof {
            assert(old(src).remaining().skip(n as int).skip(ck as int).skip(cv as int) =~= old(
                src,
            ).remaining().skip(n + ck + cv));
            assert(decode_pairs::<K, V>(old(src).remaining().skip(n as int), (count - i) as nat)
                == (match decode_pairs::<K, V>(
                old(src).remaining().skip(n as int).skip(ck as int).skip(cv as int),
                (count - i - 1) as nat,
            ) {
                Ok((m, ps)) => Ok::<(int, Seq<(K, V)>), Error>((ck + cv + m, seq![(k, v)] + ps)),
                Err(e) => Err::<(int, Seq<(K, V)>), Error>(e),
            }));
            assert(out@.push((k, v)) =~= out@ + seq![(k, v)]);
            match decode_pairs::<K, V>(old(src).remaining().skip(n + ck + cv), (count - i
                - 1) as nat) {
                Ok((m, ps)) => {
                    assert((out@ + seq![(k, v)]) + ps =~= out@ + (seq![(k, v)] + ps));
                },
                Err(e) => {},
            }
        }
        out.push((k, v));
        n = n + ck + cv;
        i = i + 1;
    }
    proof {
        match decode_pairs::<K, V>(old(src).remaining().skip(h as int), count as nat) {
            Ok((m, ps)) => {
                assert(out@ + Seq::<(K, V)>::empty() =~= out@);
            },
            Err(e) => {},
        }
    }
    Ok((n, out))
}

/// The narrowest header for an array of `count` elements.
pub open spec fn encode_array_header(count: nat) -> Seq<u8> {
    if count < 16 {
        seq![(tag::FIXARRAY + count) as u8]
    } else if count <= 0xffff {
        seq![tag::ARRAY16] + be_bytes(count, 2)
    } else {
        seq![tag::ARRAY32] + be_bytes(count, 4)
    }
}

/// The narrowest header for a map of `count` pairs.
pub open spec fn encode_map_header(count: nat) -> Seq<u8> {
    if count < 16 {
        seq![(tag::FIXMAP + count) as u8]
    } else if count <= 0xffff {
        seq![tag::MAP16] + be_bytes(count, 2)
    } else {
        seq![tag::MAP32] + be_bytes(count, 4)
    }
}

/// The concatenated encodings of a sequence of values.
pub open spec fn encode_elems<V: Packable>(vs: Seq<V>) -> Seq<u8>
    decreases vs.len(),
{
    if vs.len() == 0 {
        Seq::empty()
    } else {
        vs[0].encoding() + encode_elems(vs.skip(1))
    }
}

/// The concatenated encodings of a sequence of pairs, key before value.
pub open spec fn encode_pairs<K: Packable, V: Packable>(ps: Seq<(K, V)>) -> Seq<u8>
    decreases ps.len(),
{
    if ps.len() == 0 {
        Seq::empty()
    } else {
        ps[0].0.encoding() + ps[0].1.encoding() + encode_pairs(ps.skip(1))
    }
}

/// The encoding of a whole array: header, then the elements in order.
pub open spec fn encode_array<V: Packable>(vs: Seq<V>) -> Seq<u8> {
    encode_array_header(vs.len()) + encode_elems(vs)
}

/// The encoding of a whole map: header, then the pairs in order.
pub open spec fn encode_map<K: Packable, V: Packable>(ps: Seq<(K, V)>) -> Seq<u8> {
    encode_map_header(ps.len()) + encode_pairs(ps)
}

/// An encoded array header reads back as its own count, whatever follows.
pub proof fn lemma_array_header_round_trip(count: nat, rest: Seq<u8>)
    requires
        count < 0x1_0000_0000,
    ensures
        encode_array_header(count).len() == if count < 16 {
            1int
        } else if count <= 0xffff {
            3
        } else {
            5
        },
        decode_array_header(encode_array_header(count) + rest) == Ok::<(int, nat), Error>(
            (encode_array_header(count).len() as int, count),
        ),
{
    lemma_pow256_values();
    let s = encode_array_header(count) + rest;
    if count < 16 {
        assert(s[0] == (tag::FIXARRAY + count) as u8);
    } else if count <= 0xffff {
        lemma_be_bytes_len(count, 2);
        assert(s[0] == tag::ARRAY16);
        assert(s.subrange(1, 3) =~= be_bytes(count, 2));
        lemma_be_num_of_be_bytes(count, 2);
    } else {
        lemma_be_bytes_len(count, 4);
        assert(s[0] == tag::ARRAY32);
        assert(s.subrange(1, 5) =~= be_bytes(count, 4));
        lemma_be_num_of_be_bytes(count, 4);
    }
}

/// An encoded map header reads back as its own count, whatever follows.
pub proof fn lemma_map_header_round_trip(count: nat, rest: Seq<u8>)
    requires
        count < 0x1_0000_0000,
    ensures
        encode_map_header(count).len() == if count < 16 {
            1int
        } else if count <= 0xffff {
            3
        } else {
            5
        },
        decode_map_header(encode_map_header(count) + rest) == Ok::<(int, nat), Error>(
            (encode_map_header(count).len() as int, count),
        ),
{
    lemma_pow256_values();
    let s = encode_map_header(count) + rest;
    if count < 16 {
        assert(s[0] == (tag::FIXMAP + count) as u8);
    } else if count <= 0xffff {
        lemma_be_bytes_len(count, 2);
        assert(s[0] == tag::MAP16);
        assert(s.subrange(1, 3) =~= be_bytes(count, 2));
        lemma_be_num_of_be_bytes(count, 2);
    } else {
        lemma_be_bytes_len(count, 4);
        assert(s[0] == tag::MAP32);
        assert(s.subrange(1, 5) =~= be_bytes(count, 4));
        lemma_be_num_of_be_bytes(count, 4);
    }
}

/// Encoded elements read back as themselves, in order, whatever follows.
pub proof fn lemma_elems_round_trip<V: Unpackable>(vs: Seq<V>, rest: Seq<u8>)
    requires
        forall|j: int| 0 <= j < vs.len() ==> (#[trigger] vs[j]).round_trippable(),
    ensures
        decode_elems::<V>(encode_elems(vs) + rest, vs.len()) == Ok::<(int, Seq<V>), Error>(
            (encode_elems(vs).len() as int, vs),
        ),
    decreases vs.len(),
{
    if vs.len() == 0 {
        assert(encode_elems(vs) + rest =~= rest);
        assert(vs =~= Seq::<V>::empty());
    } else {
        let v0 = vs[0];
        let tail = vs.skip(1);
        let etail = encode_elems(tail);
        assert(encode_elems(vs) == v0.encoding() + etail);
        assert((v0.encoding() + etail) + rest =~= v0.encoding() + (etail + rest));
        v0.lemma_round_trip(etail + rest);
        assert((v0.encoding() + (etail + rest)).skip(v0.encoding().len() as int) =~= etail + rest);
        assert(forall|j: int| 0 <= j < tail.len() ==> (#[trigger] tail[j]).round_trippable()) by {
            assert(forall|j: int| 0 <= j < tail.len() ==> tail[j] == vs[j + 1]);
        }
        lemma_elems_round_trip::<V>(tail, rest);
        assert(seq![v0] + tail =~= vs);
    }
}

/// Encoded pairs read back as themselves, in order, whatever follows.
pub proof fn lemma_pairs_round_trip<K: Unpackable, V: Unpackable>(ps: Seq<(K, V)>, rest: Seq<u8>)
    requires
        forall|j: int|
            0 <= j < ps.len() ==> (#[trigger] ps[j]).0.round_trippable()
                && ps[j].1.round_trippable(),
    ensures
        decode_pairs::<K, V>(encode_pairs(ps) + rest, ps.len()) == Ok::<(int, Seq<(K, V)>), Error>(
            (encode_pairs(ps).len() as int, ps),
        ),
    decreases ps.len(),
{
    if ps.len() == 0 {
        assert(encode_pairs(ps) + rest =~= rest);
        assert(ps =~= Seq::<(K, V)>::empty());
    } else {
        let k0 = ps[0].0;
        let v0 = ps[0].1;
        let tail = ps.skip(1);
        let etail = encode_pairs(tail);
        assert(encode_pairs(ps) == k0.encoding() + v0.encoding() + etail);
        assert((k0.encoding() + v0.encoding() + etail) + rest =~= k0.encoding() + (v0.encoding() + (
        etail + rest)));
        k0.lemma_round_trip(v0.encoding() + (etail + rest));
        assert((k0.encoding() + (v0.encoding() + (etail + rest))).skip(
            k0.encoding().len() as int,
        ) =~= v0.encoding() + (etail + rest));
        v0.lemma_round_trip(etail + rest);
        assert((v0.encoding() + (etail + rest)).skip(v0.encoding().len() as int) =~= etail + rest);
        assert(forall|j: int|
            0 <= j < tail.len() ==> (#[trigger] tail[j]).0.round_trippable()
                && tail[j].1.round_trippable()) by {
            assert(forall|j: int| 0 <= j < tail.len() ==> tail[j] == ps[j + 1]);
        }
        lemma_pairs_round_trip::<K, V>(tail, rest);
        assert(seq![(k0, v0)] + tail =~= ps);
        assert((k0, v0) == ps[0]);
    }
}

/// Array round trip: decoding an encoded array of round-trippable
/// elements yields exactly those elements, in wire order, and consumes
/// exactly the frame.
pub proof fn lemma_array_round_trip<V: Unpackable>(vs: Seq<V>, rest: Seq<u8>)
    requires
        vs.len() < 0x1_0000_0000,
        forall|j: int| 0 <= j < vs.len() ==> (#[trigger] vs[j]).round_trippable(),
    ensures
        decode_array::<V>(encode_array(vs) + rest) == Ok::<(int, Seq<V>), Error>(
            (encode_array(vs).len() as int, vs),
        ),
{
    let head = encode_array_header(vs.len());
    lemma_array_header_round_trip(vs.len(), encode_elems(vs) + rest);
    assert(encode_array(vs) + rest =~= head + (encode_elems(vs) + rest));
    assert((head + (encode_elems(vs) + rest)).skip(head.len() as int) =~= encode_elems(vs) + rest);
    lemma_elems_round_trip::<V>(vs, rest);
}

/// Map round trip and ordering: decoding an encoded map of
/// round-trippable pairs yields exactly those pairs, preserving the pair
/// ordering, and consumes exactly the frame.
pub proof fn lemma_map_round_trip<K: Unpackable, V: Unpackable>(ps: Seq<(K, V)>, rest: Seq<u8>)
    requires
        ps.len() < 0x1_0000_0000,
        forall|j: int|
            0 <= j < ps.len() ==> (#[trigger] ps[j]).0.round_trippable()
                && ps[j].1.round_trippable(),
    ensures
        decode_map::<K, V>(encode_map(ps) + rest) == Ok::<(int, Seq<(K, V)>), Error>(
            (encode_map(ps).len() as int, ps),
        ),
{
    let head = encode_map_header(ps.len());
    lemma_map_header_round_trip(ps.len(), encode_pairs(ps) + rest);
    assert(encode_map(ps) + rest =~= head + (encode_pairs(ps) + rest));
    assert((head + (encode_pairs(ps) + rest)).skip(head.len() as int) =~= encode_pairs(ps) + rest);
    lemma_pairs_round_trip::<K, V>(ps, rest);
}

} // verus!
