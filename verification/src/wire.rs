//! Big-endian payloads: spec-level conversions between numbers and byte
//! sequences, their laws, and the executable readers and writers every
//! codec shares.

use vstd::prelude::*;

verus! {

/// 256 raised to `n`: how many values an `n`-byte payload can hold.
pub open spec fn pow256(n: nat) -> nat
    decreases n,
{
    if n == 0 {
        1
    } else {
        256 * pow256((n - 1) as nat)
    }
}

/// The `n`-byte big-endian representation of `v` (of `v` modulo 256^n,
/// for an oversized `v`).
pub open spec fn be_bytes(v: nat, n: nat) -> Seq<u8>
    decreases n,
{
    if n == 0 {
        Seq::empty()
    } else {
        be_bytes(v / 256, (n - 1) as nat) + seq![(v % 256) as u8]
    }
}

/// The number a big-endian byte sequence stands for.
pub open spec fn be_num(s: Seq<u8>) -> nat
    decreases s.len(),
{
    if s.len() == 0 {
        0
    } else {
        256 * be_num(s.drop_last()) + s.last() as nat
    }
}

/// The two's-complement reading of `v` as an `n`-byte unsigned payload.
pub open spec fn to_unsigned(v: int, n: nat) -> nat {
    if v >= 0 {
        v as nat
    } else {
        (v + pow256(n)) as nat
    }
}

/// The signed value an `n`-byte unsigned payload stands for, in
/// two's complement.
pub open spec fn from_unsigned(u: nat, n: nat) -> int {
    if u < pow256(n) / 2 {
        u as int
    } else {
        u - pow256(n)
    }
}

/// The powers of 256 the codec meets, written out.
pub proof fn lemma_pow256_values()
    ensures
        pow256(1) == 0x100,
        pow256(2) == 0x1_0000,
        pow256(4) == 0x1_0000_0000,
        pow256(8) == 0x1_0000_0000_0000_0000,
        pow256(16) == 0x1_0000_0000_0000_0000_0000_0000_0000_0000,
{
    reveal_with_fuel(pow256, 17);
}

pub proof fn lemma_pow256_increases(a: nat, b: nat)
    requires
        a <= b,
    ensures
        pow256(a) <= pow256(b),
    decreases b,
{
    if a < b {
        lemma_pow256_increases(a, (b - 1) as nat);
    }
}

pub proof fn lemma_be_bytes_len(v: nat, n: nat)
    ensures
        be_bytes(v, n).len() == n,
    decreases n,
{
    if n > 0 {
        lemma_be_bytes_len(v / 256, (n - 1) as nat);
    }
}

pub proof fn lemma_be_num_bound(s: Seq<u8>)
    ensures
        be_num(s) < pow256(s.len()),
    decreases s.len(),
{
    if s.len() > 0 {
        lemma_be_num_bound(s.drop_last());
    }
}

/// Reading back the big-endian representation of `v` recovers `v`.
pub proof fn lemma_be_num_of_be_bytes(v: nat, n: nat)
    requires
        v < pow256(n),
    ensures
        be_num(be_bytes(v, n)) == v,
    decreases n,
{
    if n > 0 {
        let m = (n - 1) as nat;
        lemma_be_bytes_len(v / 256, m);
        let s = be_bytes(v, n);
        assert(s.drop_last() =~= be_bytes(v / 256, m));
        vstd::arithmetic::div_mod::lemma_fundamental_div_mod(v as int, 256);
        assert(v / 256 < pow256(m));
        lemma_be_num_of_be_bytes(v / 256, m);
    }
}

/// A two's-complement payload of `n` bytes carries `v` exactly when `v`
/// lies in the signed `n`-byte range.
pub proof fn lemma_unsigned_round(v: int, n: nat)
    requires
        -(pow256(n) as int) / 2 <= v < pow256(n) / 2,
    ensures
        to_unsigned(v, n) < pow256(n),
        from_unsigned(to_unsigned(v, n), n) == v,
{
}

/// Appends the `n`-byte big-endian representation of `v`.
pub fn be_push(buf: &mut Vec<u8>, v: u128, n: usize)
    requires
        n <= 16,
    ensures
        final(buf)@ == old(buf)@ + be_bytes(v as nat, n as nat),
    decreases n,
{
    if n == 0 {
        assert(old(buf)@ + be_bytes(v as nat, 0) =~= old(buf)@);
    } else {
        be_push(buf, v / 256, n - 1);
        buf.push((v % 256) as u8);
        assert(buf@ =~= old(buf)@ + be_bytes(v as nat, n as nat));
    }
}

/// The 1-byte two's-complement payload of `v`.
pub fn to_unsigned1(v: i128) -> (u: u8)
    requires
        -0x80 <= v < 0x80,
    ensures
        u as nat == to_unsigned(v as int, 1),
{
    proof {
        lemma_pow256_values();
    }
    if v >= 0 {
        v as u8
    } else {
        (v + 0x100) as u8
    }
}

/// The 2-byte two's-complement payload of `v`.
pub fn to_unsigned2(v: i128) -> (u: u128)
    requires
        -0x8000 <= v < 0x8000,
    ensures
        u as nat == to_unsigned(v as int, 2),
{
    proof {
        lemma_pow256_values();
    }
    if v >= 0 {
        v as u128
    } else {
        (v + 0x1_0000) as u128
    }
}

/// The 4-byte two's-complement payload of `v`.
pub fn to_unsigned4(v: i128) -> (u: u128)
    requires
        -0x8000_0000 <= v < 0x8000_0000,
    ensures
        u as nat == to_unsigned(v as int, 4),
{
    proof {
        lemma_pow256_values();
    }
    if v >= 0 {
        v as u128
    } else {
        (v + 0x1_0000_0000) as u128
    }
}

/// The 8-byte two's-complement payload of `v`.
pub fn to_unsigned8(v: i128) -> (u: u128)
    requires
        -0x8000_0000_0000_0000 <= v < 0x8000_0000_0000_0000,
    ensures
        u as nat == to_unsigned(v as int, 8),
{
    proof {
        lemma_pow256_values();
    }
    if v >= 0 {
        v as u128
    } else {
        (v + 0x1_0000_0000_0000_0000) as u128
    }
}

/// The 16-byte two's-complement payload of `v`.
pub fn to_unsigned16(v: i128) -> (u: u128)
    ensures
        u as nat == to_unsigned(v as int, 16),
{
    proof {
        lemma_pow256_values();
    }
    if v >= 0 {
        v as u128
    } else {
        let w = (-(v + 1)) as u128;
        u128::MAX - w
    }
}

/// The signed value a 1-byte payload stands for.
pub fn from_unsigned1(u: u8) -> (v: i8)
    ensures
        v as int == from_unsigned(u as nat, 1),
{
    proof {
        lemma_pow256_values();
    }
    if u < 0x80 {
        u as i8
    } else {
        ((u as i16) - 0x100) as i8
    }
}

/// The signed value a 2-byte payload stands for.
pub fn from_unsigned2(u: u128) -> (v: i16)
    requires
        u < 0x1_0000,
    ensures
        v as int == from_unsigned(u as nat, 2),
{
    proof {
        lemma_pow256_values();
    }
    if u < 0x8000 {
        u as i16
    } else {
        ((u as i32) - 0x1_0000) as i16
    }
}

/// The signed value a 4-byte payload stands for.
pub fn from_unsigned4(u: u128) -> (v: i32)
    requires
        u < 0x1_0000_0000,
    ensures
        v as int == from_unsigned(u as nat, 4),
{
    proof {
        lemma_pow256_values();
    }
    if u < 0x8000_0000 {
        u as i32
    } else {
        ((u as i64) - 0x1_0000_0000) as i32
    }
}

/// The signed value an 8-byte payload stands for.
pub fn from_unsigned8(u: u128) -> (v: i64)
    requires
        u < 0x1_0000_0000_0000_0000,
    ensures
        v as int == from_unsigned(u as nat, 8),
{
    proof {
        lemma_pow256_values();
    }
    if u < 0x8000_0000_0000_0000 {
        u as i64
    } else {
        ((u as i128) - 0x1_0000_0000_0000_0000) as i64
    }
}

/// The signed value a 16-byte payload stands for.
pub fn from_unsigned16(u: u128) -> (v: i128)
    ensures
        v as int == from_unsigned(u as nat, 16),
{
    proof {
        lemma_pow256_values();
    }
    if u < 0x8000_0000_0000_0000_0000_0000_0000_0000 {
        u as i128
    } else {
        let w = u128::MAX - u;
        -(w as i128) - 1
    }
}

/// Reads the `n`-byte big-endian integer at `start`.
pub fn be_read(buf: &[u8], start: usize, n: usize) -> (v: u128)
    requires
        n <= 16,
        start + n <= buf@.len(),
    ensures
        v as nat == be_num(buf@.subrange(start as int, start + n)),
        (v as nat) < pow256(n as nat),
{
    let len = buf.len();
    let mut v: u128 = 0;
    let mut i: usize = 0;
    proof {
        assert(buf@.subrange(start as int, start as int) =~= Seq::<u8>::empty());
    }
    while i < n
        invariant
            n <= 16,
            len == buf@.len(),
            start + n <= buf@.len(),
            i <= n,
            v as nat == be_num(buf@.subrange(start as int, start + i)),
            (v as nat) < pow256(i as nat),
        decreases n - i,
    {
        proof {
            lemma_pow256_values();
            lemma_pow256_increases(i as nat, 15);
            let whole = buf@.subrange(start as int, start + i + 1);
            assert(whole.drop_last() =~= buf@.subrange(start as int, start + i));
            assert(whole.last() == buf@[start + i]);
        }
        let b = buf[start + i];
        v = v * 256 + b as u128;
        i += 1;
    }
    v
}

} // verus!
