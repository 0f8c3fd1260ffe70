//! Big-endian numbers, and boxes around them.
use vstd::prelude::*;

verus! {

/// A 16-bit number, most significant byte first.
pub open spec fn be16(v: u16) -> Seq<u8> {
    seq![(v / 256) as u8, (v % 256) as u8]
}

/// The low 24 bits of a number, most significant byte first.
pub open spec fn be24(v: u32) -> Seq<u8> {
    seq![((v / 0x1_0000) % 256) as u8, ((v / 256) % 256) as u8, (v % 256) as u8]
}

/// A 32-bit number, most significant byte first.
pub open spec fn be32(v: u32) -> Seq<u8> {
    seq![
        (v / 0x100_0000) as u8,
        ((v / 0x1_0000) % 256) as u8,
        ((v / 256) % 256) as u8,
        (v % 256) as u8,
    ]
}

/// A 64-bit number, most significant byte first.
pub open spec fn be64(v: u64) -> Seq<u8> {
    be32((v / 0x1_0000_0000) as u32) + be32((v % 0x1_0000_0000) as u32)
}

/// `n` zero bytes.
pub open spec fn zeros(n: nat) -> Seq<u8> {
    Seq::new(n, |i: int| 0u8)
}

/// A length as far as 32 bits hold it.
pub open spec fn low32(n: nat) -> u32 {
    (n % 0x1_0000_0000) as u32
}

/// A payload in a box: a 32-bit size, then the four-character type.
pub open spec fn boxed_bytes(kind: Seq<u8>, payload: Seq<u8>) -> Seq<u8> {
    be32(low32(8 + payload.len())) + kind + payload
}

/// A box whose payload begins with a version byte and 24 flag bits.
pub open spec fn full_box_bytes(kind: Seq<u8>, version: u8, flags: u32, payload: Seq<u8>) -> Seq<
    u8,
> {
    boxed_bytes(kind, Seq::<u8>::empty() + seq![version] + be24(flags) + payload)
}

/// A length as far as 32 bits hold it, plus `more`.
pub fn truncated(n: usize, more: u32) -> (v: u32)
    ensures
        v == low32(n as nat + more as nat),
{
    let wide: u64 = n as u64;
    assert(wide as u32 == wide % 0x1_0000_0000) by (bit_vector);
    let low: u32 = wide as u32;
    proof {
        let m = 0x1_0000_0000int;
        vstd::arithmetic::div_mod::lemma_mod_adds(n as int, more as int, m);
        vstd::arithmetic::div_mod::lemma_add_mod_noop(n as int, more as int, m);
    }
    low.wrapping_add(more)
}

/// Two lengths as far as 32 bits hold them make their sum as far as 32 bits hold
/// it.
pub proof fn lemma_low32_sum(a: nat, b: nat)
    ensures
        low32(a).wrapping_add(low32(b)) == low32(a + b),
{
    let m = 0x1_0000_0000int;
    vstd::arithmetic::div_mod::lemma_mod_adds(a as int, b as int, m);
    vstd::arithmetic::div_mod::lemma_add_mod_noop(a as int, b as int, m);
    vstd::arithmetic::div_mod::lemma_mod_adds(a as int % m, b as int % m, m);
    assert(0 <= a % 0x1_0000_0000 < 0x1_0000_0000);
    assert(0 <= b % 0x1_0000_0000 < 0x1_0000_0000);
}

/// A growable big-endian byte buffer, which is all the box writer needs.
pub struct Buf(pub Vec<u8>);

impl View for Buf {
    type V = Seq<u8>;

    open spec fn view(&self) -> Seq<u8> {
        self.0@
    }
}

impl Buf {
    pub fn new() -> (buf: Self)
        ensures
            buf@ == Seq::<u8>::empty(),
    {
        Buf(Vec::new())
    }

    pub fn u8(&mut self, value: u8)
        ensures
            final(self)@ == old(self)@ + seq![value],
    {
        self.0.push(value);
        assert(self@ =~= old(self)@ + seq![value]);
    }

    pub fn u16(&mut self, value: u16)
        ensures
            final(self)@ == old(self)@ + be16(value),
    {
        self.0.push((value / 256) as u8);
        self.0.push((value % 256) as u8);
        assert(self@ =~= old(self)@ + be16(value));
    }

    pub fn u24(&mut self, value: u32)
        ensures
            final(self)@ == old(self)@ + be24(value),
    {
        self.0.push(((value / 0x1_0000) % 256) as u8);
        self.0.push(((value / 256) % 256) as u8);
        self.0.push((value % 256) as u8);
        assert(self@ =~= old(self)@ + be24(value));
    }

    pub fn u32(&mut self, value: u32)
        ensures
            final(self)@ == old(self)@ + be32(value),
    {
        self.0.push((value / 0x100_0000) as u8);
        self.0.push(((value / 0x1_0000) % 256) as u8);
        self.0.push(((value / 256) % 256) as u8);
        self.0.push((value % 256) as u8);
        assert(self@ =~= old(self)@ + be32(value));
    }

    pub fn u64(&mut self, value: u64)
        ensures
            final(self)@ == old(self)@ + be64(value),
    {
        self.u32((value / 0x1_0000_0000) as u32);
        self.u32((value % 0x1_0000_0000) as u32);
        assert(self@ =~= old(self)@ + be64(value));
    }

    pub fn bytes(&mut self, value: &[u8])
        ensures
            final(self)@ == old(self)@ + value@,
    {
        self.0.extend_from_slice(value);
        assert(self@ =~= old(self)@ + value@);
    }

    pub fn zeros(&mut self, count: usize)
        ensures
            final(self)@ == old(self)@ + zeros(count as nat),
    {
        let mut i: usize = 0;
        assert(self@ =~= old(self)@ + zeros(0));
        while i < count
            invariant
                i <= count,
                self@ == old(self)@ + zeros(i as nat),
            decreases count - i,
        {
            self.0.push(0);
            i = i + 1;
            assert(self@ =~= old(self)@ + zeros(i as nat));
        }
    }

    pub fn into_vec(self) -> (bytes: Vec<u8>)
        ensures
            bytes@ == self@,
    {
        self.0
    }
}

/// Wrap a payload in a box header: a 32-bit size then the four-character type.
pub fn boxed(kind: &[u8; 4], payload: &[u8]) -> (bytes: Vec<u8>)
    ensures
        bytes@ == boxed_bytes(kind@, payload@),
{
    let mut out = Buf::new();
    out.u32(truncated(payload.len(), 8));
    assert(out@ =~= be32(low32(8 + payload@.len())));
    out.bytes(kind);
    out.bytes(payload);
    out.into_vec()
}

/// A box whose payload begins with a version byte and 24 flag bits.
pub fn full_box(kind: &[u8; 4], version: u8, flags: u32, payload: &[u8]) -> (bytes: Vec<u8>)
    ensures
        bytes@ == full_box_bytes(kind@, version, flags, payload@),
{
    let mut body = Buf::new();
    body.u8(version);
    body.u24(flags);
    body.bytes(payload);
    boxed(kind, &body.into_vec())
}

/// A box says its own length in front, and its type behind that.
pub proof fn law_box_carries_its_length(kind: Seq<u8>, payload: Seq<u8>)
    requires
        kind.len() == 4,
        payload.len() + 8 <= u32::MAX,
    ensures
        ({
            let b = boxed_bytes(kind, payload);
            &&& b.len() == 8 + payload.len()
            &&& b.take(4) == be32(b.len() as u32)
            &&& b.subrange(4, 8) == kind
            &&& b.skip(8) == payload
        }),
{
    let b = boxed_bytes(kind, payload);
    assert(b.len() == 8 + payload.len());
    assert(b.take(4) =~= be32(b.len() as u32));
    assert(b.subrange(4, 8) =~= kind);
    assert(b.skip(8) =~= payload);
}

} // verus!
