//! Bit strings, read most significant bit first.
use vstd::arithmetic::power2;
use vstd::prelude::*;

verus! {

/// The weight of bit `k` of a byte, bit 0 being the least significant.
pub open spec fn place(k: int) -> nat {
    if k == 0 {
        1
    } else if k == 1 {
        2
    } else if k == 2 {
        4
    } else if k == 3 {
        8
    } else if k == 4 {
        16
    } else if k == 5 {
        32
    } else if k == 6 {
        64
    } else {
        128
    }
}

/// Bit `i` of `data`. Every bit past the end is zero.
pub open spec fn bit_at(data: Seq<u8>, i: int) -> nat {
    if 0 <= i < 8 * data.len() {
        ((data[i / 8] as nat) / place(7 - i % 8)) % 2
    } else {
        0
    }
}

/// The number that the `n` bits from `pos` on spell.
pub open spec fn bits(data: Seq<u8>, pos: int, n: nat) -> nat
    decreases n,
{
    if n == 0 {
        0
    } else {
        2 * bits(data, pos, (n - 1) as nat) + bit_at(data, pos + n - 1)
    }
}

/// Where a cursor at `pos` stands after `n` more bits: it stops at the end.
pub open spec fn advance(data: Seq<u8>, pos: nat, n: nat) -> nat {
    if pos + n <= 8 * data.len() {
        pos + n
    } else {
        8 * data.len()
    }
}

/// `n` bits spell a number below `2^n`.
pub proof fn lemma_bits_bound(data: Seq<u8>, pos: int, n: nat)
    ensures
        bits(data, pos, n) < power2::pow2(n),
    decreases n,
{
    power2::lemma2_to64();
    if n > 0 {
        lemma_bits_bound(data, pos, (n - 1) as nat);
        power2::lemma_pow2_unfold(n);
    }
}

/// The number that two adjacent runs of bits spell together.
pub proof fn lemma_bits_split(data: Seq<u8>, pos: int, a: nat, b: nat)
    ensures
        bits(data, pos, a + b) == bits(data, pos, a) * power2::pow2(b) + bits(data, pos + a, b),
    decreases b,
{
    power2::lemma2_to64();
    if b == 0 {
        assert(bits(data, pos, a) * 1 == bits(data, pos, a)) by (nonlinear_arith);
    } else {
        let c = (b - 1) as nat;
        lemma_bits_split(data, pos, a, c);
        power2::lemma_pow2_unfold(b);
        let high = bits(data, pos, a);
        let p = power2::pow2(c);
        assert(2 * (high * p) == high * (2 * p)) by (nonlinear_arith);
        assert((a + b - 1) as nat == a + c);
        assert(pos + (a + b) - 1 == pos + a + b - 1);
    }
}

/// Bits past the end are all zero.
pub proof fn lemma_bits_past_end(data: Seq<u8>, pos: int, n: nat)
    requires
        pos >= 8 * data.len(),
    ensures
        bits(data, pos, n) == 0,
    decreases n,
{
    if n > 0 {
        lemma_bits_past_end(data, pos, (n - 1) as nat);
    }
}

/// The bits of a prefix are the bits of the whole.
pub proof fn lemma_bits_same(a: Seq<u8>, b: Seq<u8>, pos: int, n: nat)
    requires
        forall|i: int| pos <= i < pos + n ==> bit_at(a, i) == bit_at(b, i),
    ensures
        bits(a, pos, n) == bits(b, pos, n),
    decreases n,
{
    if n > 0 {
        lemma_bits_same(a, b, pos, (n - 1) as nat);
    }
}

/// The weight of bit `k` of a byte.
pub fn place_of(k: usize) -> (p: u8)
    requires
        k < 8,
    ensures
        p == place(k as int),
{
    match k {
        0 => 1,
        1 => 2,
        2 => 4,
        3 => 8,
        4 => 16,
        5 => 32,
        6 => 64,
        _ => 128,
    }
}

/// `2^n`.
pub fn power_of_two(n: u32) -> (p: u32)
    requires
        n < 32,
    ensures
        p == power2::pow2(n as nat),
        p > 0,
{
    proof {
        power2::lemma2_to64();
    }
    let mut p: u32 = 1;
    let mut i: u32 = 0;
    while i < n
        invariant
            i <= n < 32,
            p == power2::pow2(i as nat),
            p > 0,
        decreases n - i,
    {
        proof {
            power2::lemma_pow2_unfold((i + 1) as nat);
            power2::lemma2_to64();
            if i + 1 < 32 {
                power2::lemma_pow2_strictly_increases((i + 1) as nat, 32);
            }
        }
        p = p * 2;
        i = i + 1;
    }
    p
}

} // verus!
