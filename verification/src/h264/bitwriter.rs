//! Writing bits, most significant first, and wrapping them in NAL units.
use crate::bits;
use crate::bits::place_of;
use vstd::arithmetic::power2;
use vstd::prelude::*;

pub mod nal_type;

verus! {

/// The `n` low binary digits of `v`, most significant first.
pub open spec fn digits(v: nat, n: nat) -> Seq<bool> {
    Seq::new(n, |i: int| (v / power2::pow2((n - 1 - i) as nat)) % 2 == 1)
}

/// How many binary digits `v` takes.
pub open spec fn digit_count(v: nat) -> nat
    decreases v,
{
    if v == 0 {
        0
    } else {
        1 + digit_count(v / 2)
    }
}

/// `n` zero bits.
pub open spec fn zeros(n: nat) -> Seq<bool> {
    Seq::new(n, |i: int| false)
}

/// The unsigned Exp-Golomb code of `v`: the digits of `v + 1`, behind as many zeros
/// as there are digits after the first.
pub open spec fn ue_code(v: nat) -> Seq<bool> {
    let n = digit_count(v + 1);
    zeros((n - 1) as nat) + digits(v + 1, n)
}

/// The number that stands for `v` in a signed Exp-Golomb code: the positive numbers
/// take the odd places, the others the even ones.
pub open spec fn signed_index(v: int) -> nat {
    if v > 0 {
        (2 * v - 1) as nat
    } else {
        (-2 * v) as nat
    }
}

/// The signed Exp-Golomb code of `v`.
pub open spec fn se_code(v: int) -> Seq<bool> {
    ue_code(signed_index(v))
}

/// One bit.
pub open spec fn bit(b: bool) -> Seq<bool> {
    seq![b]
}

/// How many zeros it takes to fill up the last byte behind `n` bits.
pub open spec fn alignment(n: nat) -> nat {
    if n % 8 == 0 {
        0
    } else {
        (8 - n % 8) as nat
    }
}

/// The bits that close an RBSP of `n` bits: a one, and zeros up to the next byte.
pub open spec fn trailing(n: nat) -> Seq<bool> {
    bit(true) + zeros(alignment(n + 1))
}

/// The weight that bit `i` of `bits` has in its byte.
pub open spec fn bit_weight(bits: Seq<bool>, i: int) -> nat {
    if 0 <= i < bits.len() && bits[i] {
        bits::place(7 - i % 8)
    } else {
        0
    }
}

/// Byte `k` of a bit string.
pub open spec fn packed_byte(bits: Seq<bool>, k: int) -> nat {
    bit_weight(bits, 8 * k) + bit_weight(bits, 8 * k + 1) + bit_weight(bits, 8 * k + 2)
        + bit_weight(bits, 8 * k + 3) + bit_weight(bits, 8 * k + 4) + bit_weight(bits, 8 * k + 5)
        + bit_weight(bits, 8 * k + 6) + bit_weight(bits, 8 * k + 7)
}

/// The bytes of a bit string, the last one filled up with zeros.
pub open spec fn packed(bits: Seq<bool>) -> Seq<u8> {
    Seq::new((bits.len() + 7) / 8, |k: int| packed_byte(bits, k) as u8)
}

/// A buffer that bits are appended to.
pub struct BitWriter {
    bytes: Vec<u8>,
    /// Bits of the last byte in use, or none where it is full.
    used: usize,
}

impl View for BitWriter {
    type V = Seq<bool>;

    /// The bits written so far.
    closed spec fn view(&self) -> Seq<bool> {
        Seq::new(self.bit_len(), |i: int| bits::bit_at(self.bytes@, i) == 1)
    }
}

impl BitWriter {
    spec fn bit_len(&self) -> nat {
        if self.used == 0 {
            8 * self.bytes@.len()
        } else {
            (8 * (self.bytes@.len() - 1) + self.used) as nat
        }
    }

    /// The bits of the last byte that are not in use are zero.
    pub closed spec fn wf(&self) -> bool {
        &&& self.used < 8
        &&& self.used > 0 ==> self.bytes@.len() > 0
        &&& forall|i: int|
            self.bit_len() <= i < 8 * self.bytes@.len() ==> #[trigger] bits::bit_at(
                self.bytes@,
                i,
            ) == 0
    }

    /// The weight of a bit is the bit's in its byte.
    proof fn lemma_weight(&self, k: int, j: int)
        requires
            self.wf(),
            0 <= k < self.bytes@.len(),
            0 <= j < 8,
        ensures
            bit_weight(self@, 8 * k + j) == (((self.bytes@[k] as nat) / bits::place(7 - j)) % 2)
                * bits::place(7 - j),
    {
        let i = 8 * k + j;
        assert(i / 8 == k && i % 8 == j);
        let b = bits::bit_at(self.bytes@, i);
        let p = bits::place(7 - j);
        assert(b == 0 || b == 1);
        assert(0 * p == 0 && 1 * p == p);
    }

    pub fn new() -> (w: Self)
        ensures
            w.wf(),
            w@ == Seq::<bool>::empty(),
    {
        let w = BitWriter { bytes: Vec::new(), used: 0 };
        assert(w@ =~= Seq::empty());
        w
    }

    pub fn with_capacity(capacity: usize) -> (w: Self)
        ensures
            w.wf(),
            w@ == Seq::<bool>::empty(),
    {
        let w = BitWriter { bytes: Vec::with_capacity(capacity), used: 0 };
        assert(w@ =~= Seq::empty());
        w
    }

    /// Forget everything written.
    pub fn clear(&mut self)
        ensures
            final(self).wf(),
            final(self)@ == Seq::<bool>::empty(),
    {
        self.bytes.clear();
        self.used = 0;
        assert(self@ =~= Seq::empty());
    }

    /// Append one bit.
    pub fn flag(&mut self, value: bool)
        requires
            old(self).wf(),
        ensures
            final(self).wf(),
            final(self)@ == old(self)@ + bit(value),
    {
        let ghost before = self.bytes@;
        let ghost count = self.bit_len() as int;
        if self.used == 0 {
            let byte: u8 = if value {
                128
            } else {
                0
            };
            self.bytes.push(byte);
            self.used = 1;
            proof {
                lemma_bit_set(0, 7);
            }
        } else {
            let last: usize = self.bytes.len() - 1;
            proof {
                lemma_bit_set(self.bytes@[last as int], 7 - self.used as int);
            }
            if value {
                self.bytes[last] = self.bytes[last] | place_of(7 - self.used);
            }
            self.used = if self.used == 7 {
                0
            } else {
                self.used + 1
            };
        }
        proof {
            assert(self.bit_len() == count + 1);
            assert forall|i: int| 0 <= i < 8 * self.bytes@.len() implies #[trigger] bits::bit_at(
                self.bytes@,
                i,
            ) == if i == count {
                if value {
                    1nat
                } else {
                    0nat
                }
            } else {
                bits::bit_at(before, i)
            } by {
                if before.len() < self.bytes@.len() && i / 8 == before.len() {
                    assert(bits::bit_at(before, i) == 0);
                }
            }
            assert(self@ =~= old(self)@ + bit(value));
        }
    }

    /// Append the `n` low bits of `value`.
    pub fn u(&mut self, n: u32, value: u32)
        requires
            old(self).wf(),
            n <= 32,
        ensures
            final(self).wf(),
            final(self)@ == old(self)@ + digits(value as nat, n as nat),
    {
        let mut i: u32 = 0;
        assert(self@ =~= old(self)@ + digits(value as nat, n as nat).take(0));
        while i < n
            invariant
                i <= n <= 32,
                self.wf(),
                self@ == old(self)@ + digits(value as nat, n as nat).take(i as int),
            decreases n - i,
        {
            let shift: u32 = n - 1 - i;
            proof {
                vstd::bits::lemma_u32_shr_is_div(value, shift);
            }
            let one: bool = (value >> shift) % 2 == 1;
            self.flag(one);
            proof {
                let all = digits(value as nat, n as nat);
                assert(all[i as int] == one);
                assert(all.take(i as int) + bit(one) =~= all.take(i + 1));
                assert(self@ =~= old(self)@ + all.take(i + 1));
            }
            i = i + 1;
        }
        assert(digits(value as nat, n as nat).take(n as int) =~= digits(value as nat, n as nat));
    }

    /// Append `n` zero bits.
    fn pad(&mut self, n: u32)
        requires
            old(self).wf(),
        ensures
            final(self).wf(),
            final(self)@ == old(self)@ + zeros(n as nat),
    {
        let mut i: u32 = 0;
        assert(self@ =~= old(self)@ + zeros(0));
        while i < n
            invariant
                i <= n,
                self.wf(),
                self@ == old(self)@ + zeros(i as nat),
            decreases n - i,
        {
            self.flag(false);
            i = i + 1;
            assert(self@ =~= old(self)@ + zeros(i as nat));
        }
    }

    /// Append the unsigned Exp-Golomb code of `value`.
    pub fn ue(&mut self, value: u32)
        requires
            old(self).wf(),
            value < u32::MAX,
        ensures
            final(self).wf(),
            final(self)@ == old(self)@ + ue_code(value as nat),
    {
        let n: u32 = count_digits(value + 1);
        self.pad(n - 1);
        self.u(n, value + 1);
        assert(self@ =~= old(self)@ + ue_code(value as nat));
    }

    /// Append the signed Exp-Golomb code of `value`.
    pub fn se(&mut self, value: i32)
        requires
            old(self).wf(),
            i32::MIN < value,
        ensures
            final(self).wf(),
            final(self)@ == old(self)@ + se_code(value as int),
    {
        if value > 0 {
            self.ue((value as u32 - 1) + value as u32);
        } else {
            let magnitude: u32 = (-value) as u32;
            self.ue(magnitude + magnitude);
        }
    }

    /// Close the RBSP: a one, and zeros up to the next byte.
    pub fn rbsp_trailing_bits(&mut self)
        requires
            old(self).wf(),
        ensures
            final(self).wf(),
            final(self)@ == old(self)@ + trailing(old(self)@.len()),
            final(self)@.len() % 8 == 0,
    {
        self.flag(true);
        let rest: u32 = if self.used == 0 {
            0
        } else {
            8 - self.used as u32
        };
        assert(self@.len() % 8 == self.used);
        self.pad(rest);
        assert(self@ =~= old(self)@ + trailing(old(self)@.len()));
    }

    /// The bytes written, the last one filled up with zeros.
    pub fn bytes(&self) -> (bytes: &[u8])
        requires
            self.wf(),
        ensures
            bytes@ == packed(self@),
    {
        proof {
            let n = self.bytes@.len();
            assert((self@.len() + 7) / 8 == n);
            assert forall|k: int| 0 <= k < n implies #[trigger] self.bytes@[k] == packed_byte(
                self@,
                k,
            ) by {
                let b = self.bytes@[k] as nat;
                lemma_byte_is_its_bits(self.bytes@[k]);
                self.lemma_weight(k, 0);
                self.lemma_weight(k, 1);
                self.lemma_weight(k, 2);
                self.lemma_weight(k, 3);
                self.lemma_weight(k, 4);
                self.lemma_weight(k, 5);
                self.lemma_weight(k, 6);
                self.lemma_weight(k, 7);
            }
            assert(self.bytes@ =~= packed(self@));
        }
        self.bytes.as_slice()
    }
}

/// A byte is the sum of the weights of its bits.
proof fn lemma_byte_is_its_bits(b: u8)
    ensures
        b == ((b / 128) % 2) * 128 + ((b / 64) % 2) * 64 + ((b / 32) % 2) * 32 + ((b / 16) % 2)
            * 16 + ((b / 8) % 2) * 8 + ((b / 4) % 2) * 4 + ((b / 2) % 2) * 2 + b % 2,
{
    assert(b == ((b / 128) % 2) * 128 + ((b / 64) % 2) * 64 + ((b / 32) % 2) * 32 + ((b / 16) % 2)
        * 16 + ((b / 8) % 2) * 8 + ((b / 4) % 2) * 4 + ((b / 2) % 2) * 2 + b % 2) by (bit_vector);
}

/// Setting a bit of a byte sets that bit and no other.
proof fn lemma_bit_set(b: u8, k: int)
    requires
        0 <= k < 8,
    ensures
        forall|j: int|
            0 <= j < 8 ==> ((#[trigger] (b | bits::place(k) as u8) as nat) / bits::place(j)) % 2
                == if j == k {
                1nat
            } else {
                ((b as nat) / bits::place(j)) % 2
            },
{
    let s = k as u8;
    assert(bits::place(k) as u8 == 1u8 << s) by {
        assert(1u8 << 0u8 == 1 && 1u8 << 1u8 == 2 && 1u8 << 2u8 == 4 && 1u8 << 3u8 == 8 && 1u8
            << 4u8 == 16 && 1u8 << 5u8 == 32 && 1u8 << 6u8 == 64 && 1u8 << 7u8 == 128)
            by (bit_vector);
    }
    let c = b | (1u8 << s);
    assert forall|j: int| 0 <= j < 8 implies ((#[trigger] (b | bits::place(k) as u8) as nat)
        / bits::place(j)) % 2 == if j == k {
        1nat
    } else {
        ((b as nat) / bits::place(j)) % 2
    } by {
        let t = j as u8;
        assert(((b | (1u8 << s)) >> t) & 1 == if s == t {
            1u8
        } else {
            (b >> t) & 1
        }) by (bit_vector)
            requires
                s < 8,
                t < 8,
        ;
        lemma_bit_shift(c, j);
        lemma_bit_shift(b, j);
    }
}

/// Taking a bit by shifting and by dividing is the same.
proof fn lemma_bit_shift(b: u8, k: int)
    requires
        0 <= k < 8,
    ensures
        ((b as nat) / bits::place(k)) % 2 == (b >> (k as u8)) & 1,
{
    assert((b / 1) % 2 == (b >> 0u8) & 1 && (b / 2) % 2 == (b >> 1u8) & 1 && (b / 4) % 2 == (b
        >> 2u8) & 1 && (b / 8) % 2 == (b >> 3u8) & 1 && (b / 16) % 2 == (b >> 4u8) & 1 && (b / 32)
        % 2 == (b >> 5u8) & 1 && (b / 64) % 2 == (b >> 6u8) & 1 && (b / 128) % 2 == (b >> 7u8) & 1)
        by (bit_vector);
}

/// How many binary digits `value` takes.
fn count_digits(value: u32) -> (n: u32)
    requires
        value > 0,
    ensures
        n == digit_count(value as nat),
        1 <= n <= 32,
{
    let mut n: u32 = 0;
    let mut rest: u32 = value;
    proof {
        power2::lemma2_to64();
    }
    while rest > 0
        invariant
            n + digit_count(rest as nat) == digit_count(value as nat),
            n <= 32,
            rest * power2::pow2(n as nat) <= value,
            rest > 0 ==> n < 32,
            value > 0,
            n == 0 ==> rest == value,
        decreases rest,
    {
        proof {
            let half = rest as int / 2;
            let p = power2::pow2(n as nat) as int;
            power2::lemma_pow2_unfold((n + 1) as nat);
            assert(half * (2 * p) <= rest * p) by (nonlinear_arith)
                requires
                    2 * half <= rest,
                    p >= 0,
            ;
            if n + 1 == 32 && half > 0 {
                power2::lemma2_to64();
                let q = power2::pow2(32) as int;
                assert(half * q >= q) by (nonlinear_arith)
                    requires
                        half >= 1,
                        q >= 0,
                ;
            }
        }
        rest = rest / 2;
        n = n + 1;
    }
    n
}

} // verus!
