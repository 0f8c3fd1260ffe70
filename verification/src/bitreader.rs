//! Reading bits, most significant first, and finding start codes.
use crate::bits;
use crate::bits::place_of;
use crate::error::Error;
use vstd::arithmetic::power2;
use vstd::prelude::*;

verus! {

/// A cursor over the bits of a buffer.
///
/// Bits past the end of the buffer read as zero, and the cursor never moves past
/// the end.
pub struct BitReader<'a> {
    data: &'a [u8],
    pos: usize,
}

impl<'a> BitReader<'a> {
    /// The buffer the cursor runs over.
    pub closed spec fn data(&self) -> Seq<u8> {
        self.data@
    }

    /// The bit the cursor stands at.
    pub closed spec fn at(&self) -> nat {
        self.pos as nat
    }

    /// The cursor lies inside the buffer, and every bit of it has an address.
    pub open spec fn wf(&self) -> bool {
        self.at() <= 8 * self.data().len() <= usize::MAX
    }

    /// A cursor at the first bit of `data`.
    pub fn new(data: &'a [u8]) -> (r: BitReader<'a>)
        requires
            8 * data@.len() <= usize::MAX,
        ensures
            r.wf(),
            r.data() == data@,
            r.at() == 0,
    {
        BitReader { data, pos: 0 }
    }

    /// A cursor at bit `bit` of `data`, or at the end where `bit` lies past it.
    pub fn at_bit(data: &'a [u8], bit: usize) -> (r: BitReader<'a>)
        requires
            8 * data@.len() <= usize::MAX,
        ensures
            r.wf(),
            r.data() == data@,
            r.at() == bits::advance(data@, 0, bit as nat),
    {
        let end: usize = data.len() * 8;
        BitReader { data, pos: if bit <= end { bit } else { end } }
    }

    /// Move the cursor to bit `bit`, or to the end where `bit` lies past it.
    pub fn set_bit_pos(&mut self, bit: usize)
        requires
            old(self).wf(),
        ensures
            final(self).wf(),
            final(self).data() == old(self).data(),
            final(self).at() == bits::advance(old(self).data(), 0, bit as nat),
    {
        let end: usize = self.data.len() * 8;
        self.pos = if bit <= end { bit } else { end };
    }

    /// The bit the cursor stands at.
    pub fn bit_pos(&self) -> (pos: usize)
        ensures
            pos == self.at(),
    {
        self.pos
    }

    /// The next `n` bits as a number, without moving the cursor.
    pub fn peek(&self, n: u32) -> (value: u32)
        requires
            self.wf(),
            n <= 32,
        ensures
            value == bits::bits(self.data(), self.at() as int, n as nat),
    {
        let end: usize = self.data.len() * 8;
        let mut value: u64 = 0;
        let mut i: u32 = 0;
        proof {
            power2::lemma2_to64();
        }
        while i < n
            invariant
                self.wf(),
                end == 8 * self.data().len(),
                i <= n <= 32,
                value == bits::bits(self.data(), self.at() as int, i as nat),
                value < power2::pow2(i as nat) <= 0x1_0000_0000,
            decreases n - i,
        {
            let left: usize = end - self.pos;
            let bit: u64 = if (i as usize) < left {
                let at: usize = self.pos + i as usize;
                ((self.data[at / 8] / place_of(7 - at % 8)) % 2) as u64
            } else {
                0
            };
            value = value * 2 + bit;
            i = i + 1;
            proof {
                bits::lemma_bits_bound(self.data(), self.at() as int, i as nat);
                power2::lemma2_to64();
                if i < 32 {
                    power2::lemma_pow2_strictly_increases(i as nat, 32);
                }
            }
        }
        value as u32
    }

    /// Move the cursor `n` bits on, or to the end where fewer are left.
    pub fn skip(&mut self, n: usize)
        requires
            old(self).wf(),
        ensures
            final(self).wf(),
            final(self).data() == old(self).data(),
            final(self).at() == bits::advance(old(self).data(), old(self).at(), n as nat),
    {
        let end: usize = self.data.len() * 8;
        let left: usize = end - self.pos;
        self.pos = if n <= left { self.pos + n } else { end };
    }

    /// Read the next `n` bits as a number.
    pub fn u(&mut self, n: u32) -> (value: u32)
        requires
            old(self).wf(),
            n <= 32,
        ensures
            final(self).wf(),
            final(self).data() == old(self).data(),
            final(self).at() == bits::advance(old(self).data(), old(self).at(), n as nat),
            value == bits::bits(old(self).data(), old(self).at() as int, n as nat),
            value < power2::pow2(n as nat),
    {
        let value: u32 = self.peek(n);
        proof {
            bits::lemma_bits_bound(self.data(), self.at() as int, n as nat);
        }
        self.skip(n as usize);
        value
    }

    /// Read one bit as a flag.
    pub fn flag(&mut self) -> (value: bool)
        requires
            old(self).wf(),
        ensures
            final(self).wf(),
            final(self).data() == old(self).data(),
            final(self).at() == bits::advance(old(self).data(), old(self).at(), 1),
            value == (bits::bits(old(self).data(), old(self).at() as int, 1) == 1),
    {
        self.u(1) == 1
    }

    /// Read a marker bit, which has to be one.
    pub fn marker(&mut self) -> (result: Result<(), Error>)
        requires
            old(self).wf(),
        ensures
            final(self).wf(),
            final(self).data() == old(self).data(),
            final(self).at() == bits::advance(old(self).data(), old(self).at(), 1),
            result == (if bits::bits(old(self).data(), old(self).at() as int, 1) == 1 {
                Ok::<(), Error>(())
            } else {
                Err::<(), Error>(Error::MissingMarker)
            }),
    {
        if self.flag() {
            Ok(())
        } else {
            Err(Error::MissingMarker)
        }
    }
}

/// A start code: where its prefix begins, its last byte, and where what it
/// introduces begins.
#[derive(Clone, Copy, Debug, PartialEq, Eq, Structural)]
pub struct StartCode {
    pub offset: usize,
    pub code: u8,
    pub payload_offset: usize,
}

/// Whether the three-byte start code prefix and a code byte stand at `at`.
pub open spec fn is_start_code(data: Seq<u8>, at: int) -> bool {
    0 <= at && at + 3 < data.len() && data[at] == 0 && data[at + 1] == 0 && data[at + 2] == 1
}

/// The start codes of `data` from `at` on, in order.
pub open spec fn start_codes(data: Seq<u8>, at: int) -> Seq<StartCode>
    decreases data.len() - at,
{
    if at < 0 || at + 3 >= data.len() {
        Seq::empty()
    } else if is_start_code(data, at) {
        seq![
            StartCode {
                offset: at as usize,
                code: data[at + 3],
                payload_offset: (at + 4) as usize,
            },
        ] + start_codes(data, at + 3)
    } else {
        start_codes(data, at + 1)
    }
}

/// Every start code of `data`, in the order they stand.
pub fn find_start_codes(data: &[u8]) -> (codes: Vec<StartCode>)
    ensures
        codes@ == start_codes(data@, 0),
{
    let mut codes: Vec<StartCode> = Vec::new();
    let mut at: usize = 0;
    while at < data.len() && data.len() - at > 3
        invariant
            at <= data@.len(),
            codes@ + start_codes(data@, at as int) == start_codes(data@, 0),
        decreases data@.len() - at,
    {
        if data[at] == 0 && data[at + 1] == 0 && data[at + 2] == 1 {
            let ghost before = codes@;
            let code = StartCode { offset: at, code: data[at + 3], payload_offset: at + 4 };
            codes.push(code);
            assert(before + (seq![code] + start_codes(data@, at + 3)) =~= codes@ + start_codes(
                data@,
                at + 3,
            ));
            at = at + 3;
        } else {
            at = at + 1;
        }
    }
    assert(codes@ + start_codes(data@, at as int) =~= codes@);
    codes
}

} // verus!
