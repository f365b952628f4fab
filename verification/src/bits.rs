//! Bit-level vocabulary: binary bit length and the
//! most-significant-bit-first bit expansion of an integer, together with the
//! executable bit-length function used to size parent-index fields.

use vstd::prelude::*;
use vstd::arithmetic::power2::{pow2, lemma_pow2_adds, lemma2_to64, lemma2_to64_rest};

verus! {

/// The number of binary digits of `n`: the position of its highest set bit
/// plus one, with `bitlen(0) == 0`.
pub open spec fn bitlen(n: nat) -> nat
    decreases n,
{
    if n == 0 {
        0
    } else {
        1 + bitlen(n / 2)
    }
}

/// The low `w` bits of `v`, most significant bit first.
pub open spec fn bits_of(v: nat, w: nat) -> Seq<bool>
    decreases w,
{
    if w == 0 {
        Seq::empty()
    } else {
        bits_of(v / 2, (w - 1) as nat).push(v % 2 == 1)
    }
}

/// The eight bits of a byte, most significant first.
pub open spec fn byte_bits(b: u8) -> Seq<bool> {
    bits_of(b as nat, 8)
}

/// The bits of a byte sequence in order, each byte most significant bit first.
pub open spec fn bytes_bits(bs: Seq<u8>) -> Seq<bool>
    decreases bs.len(),
{
    if bs.len() == 0 {
        Seq::empty()
    } else {
        byte_bits(bs[0]) + bytes_bits(bs.drop_first())
    }
}

pub proof fn lemma_pow2_double(k: nat)
    ensures
        pow2(k + 1) == 2 * pow2(k),
{
    lemma_pow2_adds(1, k);
    lemma2_to64();
}

pub proof fn lemma_bits_of_len(v: nat, w: nat)
    ensures
        bits_of(v, w).len() == w,
    decreases w,
{
    if w > 0 {
        lemma_bits_of_len(v / 2, (w - 1) as nat);
    }
}

pub proof fn lemma_bytes_bits_len(bs: Seq<u8>)
    ensures
        bytes_bits(bs).len() == 8 * bs.len(),
    decreases bs.len(),
{
    if bs.len() > 0 {
        lemma_bits_of_len(bs[0] as nat, 8);
        lemma_bytes_bits_len(bs.drop_first());
    }
}

/// Anything that fits below `pow2(k)` has bit length at most `k`.
pub proof fn lemma_bitlen_le(n: nat, k: nat)
    requires
        n < pow2(k),
    ensures
        bitlen(n) <= k,
    decreases n,
{
    lemma2_to64();
    if n > 0 {
        lemma_pow2_double((k - 1) as nat);
        lemma_bitlen_le(n / 2, (k - 1) as nat);
    }
}

/// The number of bits needed to represent `number` in binary; 0 for 0.
pub fn log2(number: usize) -> (r: u32)
    ensures
        r == bitlen(number as nat),
{
    proof {
        lemma2_to64();
        lemma2_to64_rest();
        lemma_bitlen_le(number as nat, 64);
    }
    let mut n: usize = number;
    let mut r: u32 = 0;
    while n > 0
        invariant
            r + bitlen(n as nat) == bitlen(number as nat),
            bitlen(number as nat) <= 64,
        decreases n,
    {
        n = n / 2;
        r = r + 1;
    }
    r
}

} // verus!
