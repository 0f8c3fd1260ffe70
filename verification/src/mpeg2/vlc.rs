//! Decoding of variable length codes.
use crate::bitreader::BitReader;
use crate::bits;
use crate::error::Error;
use crate::mpeg2::vlc_tables;
use crate::mpeg2::vlc_tables::{
    CODED_BLOCK_PATTERN, DCT_COEFF_TABLE0, DCT_COEFF_TABLE1, DCT_DC_SIZE_CHROMA, DCT_DC_SIZE_LUMA,
    DMVECTOR, MB_ADDR_INCREMENT, MB_TYPE_B, MB_TYPE_I, MB_TYPE_P, MOTION_CODE,
};
use vstd::arithmetic::power2;
use vstd::prelude::*;

verus! {

/// The longest code of any table.
pub const MAX_CODE_LENGTH: u32 = 16;

/// Every code of `table` has between one and [`MAX_CODE_LENGTH`] bits.
pub open spec fn lengths_fit(table: Seq<(u32, u32, i32)>) -> bool {
    forall|i: int| 0 <= i < table.len() ==> 1 <= (#[trigger] table[i]).1 <= MAX_CODE_LENGTH
}

/// No code of `table` consists of zeros alone.
pub open spec fn no_zero_code(table: Seq<(u32, u32, i32)>) -> bool {
    forall|i: int| 0 <= i < table.len() ==> (#[trigger] table[i]).0 != 0
}

/// Every symbol of `table` lies between `low` and `high`.
pub open spec fn symbols_within(table: Seq<(u32, u32, i32)>, low: int, high: int) -> bool {
    forall|i: int| 0 <= i < table.len() ==> low <= (#[trigger] table[i]).2 <= high
}

/// Whether the code of `row` stands at `pos`.
pub open spec fn code_stands(row: (u32, u32, i32), data: Seq<u8>, pos: nat) -> bool {
    bits::bits(data, pos as int, row.1 as nat) == row.0
}

/// The row of `table`, from row `i` on, whose code stands at `pos`.
pub open spec fn find_row(
    table: Seq<(u32, u32, i32)>,
    data: Seq<u8>,
    pos: nat,
    i: int,
) -> Option<int>
    decreases table.len() - i,
{
    if i < 0 || i >= table.len() {
        None
    } else if code_stands(table[i], data, pos) {
        Some(i)
    } else {
        find_row(table, data, pos, i + 1)
    }
}

/// What decoding one symbol gives, and where it leaves the cursor. A cursor that
/// no code stands at does not move.
pub open spec fn decoded(
    table: Seq<(u32, u32, i32)>,
    data: Seq<u8>,
    pos: nat,
) -> (nat, Result<i32, Error>) {
    match find_row(table, data, pos, 0) {
        Some(i) => (bits::advance(data, pos, table[i].1 as nat), Ok(table[i].2)),
        None => (pos, Err(Error::InvalidCode)),
    }
}

/// A row that is found is a row of the table, and its code stands there.
pub proof fn lemma_find_row(table: Seq<(u32, u32, i32)>, data: Seq<u8>, pos: nat, i: int)
    requires
        0 <= i,
    ensures
        match find_row(table, data, pos, i) {
            Some(k) => i <= k < table.len() && code_stands(table[k], data, pos),
            None => true,
        },
    decreases table.len() - i,
{
    if i < table.len() && !code_stands(table[i], data, pos) {
        lemma_find_row(table, data, pos, i + 1);
    }
}

/// Decoding a symbol of a table without an all-zero code moves the cursor on, and
/// fails at the end of the data.
proof fn lemma_decoded_progress(table: Seq<(u32, u32, i32)>, data: Seq<u8>, pos: nat)
    requires
        lengths_fit(table),
        no_zero_code(table),
    ensures
        decoded(table, data, pos).1 is Ok ==> pos < decoded(table, data, pos).0 <= 8 * data.len(),
{
    lemma_find_row(table, data, pos, 0);
    if pos >= 8 * data.len() {
        match find_row(table, data, pos, 0) {
            Some(k) => {
                bits::lemma_bits_past_end(data, pos as int, table[k].1 as nat);
            },
            None => {},
        }
    }
}

/// The first `n` of 24 bits are the 24 bits shifted down.
proof fn lemma_window(data: Seq<u8>, pos: int, n: nat, window: u32)
    requires
        n <= 24,
        window == bits::bits(data, pos, 24),
    ensures
        bits::bits(data, pos, n) == window >> (24 - n) as u32,
{
    let low = (24 - n) as nat;
    bits::lemma_bits_split(data, pos, n, low);
    bits::lemma_bits_bound(data, pos + n, low);
    power2::lemma_pow2_pos(low);
    vstd::bits::lemma_u32_shr_is_div(window, low as u32);
    let head = bits::bits(data, pos, n) as int;
    let tail = bits::bits(data, pos + n, low) as int;
    let p = power2::pow2(low) as int;
    assert(n + low == 24);
    vstd::arithmetic::div_mod::lemma_fundamental_div_mod_converse(window as int, p, head, tail);
}

/// Decode one symbol of the rows `table`.
fn decode_rows(table: &[(u32, u32, i32)], r: &mut BitReader<'_>) -> (result: Result<i32, Error>)
    requires
        old(r).wf(),
        lengths_fit(table@),
    ensures
        final(r).wf(),
        final(r).data() == old(r).data(),
        (final(r).at(), result) == decoded(table@, old(r).data(), old(r).at()),
{
    let window: u32 = r.peek(24);
    let mut i: usize = 0;
    while i < table.len()
        invariant
            *r == *old(r),
            r.wf(),
            lengths_fit(table@),
            i <= table@.len(),
            window == bits::bits(r.data(), r.at() as int, 24),
            find_row(table@, r.data(), r.at(), i as int) == find_row(
                table@,
                r.data(),
                r.at(),
                0,
            ),
        decreases table@.len() - i,
    {
        let (code, length, symbol) = table[i];
        assert(1 <= table@[i as int].1 <= MAX_CODE_LENGTH);
        proof {
            lemma_window(r.data(), r.at() as int, length as nat, window);
        }
        if window >> (24 - length) == code {
            r.skip(length as usize);
            return Ok(symbol);
        }
        i = i + 1;
    }
    Err(Error::InvalidCode)
}

/// A table of the macroblock layer.
#[derive(Clone, Copy, Debug, PartialEq, Eq, Structural)]
pub enum VlcTable {
    /// `macroblock_address_increment`.
    AddressIncrement,
    /// `macroblock_type` of I pictures.
    TypeI,
    /// `macroblock_type` of P pictures.
    TypeP,
    /// `macroblock_type` of B pictures.
    TypeB,
    /// `coded_block_pattern`.
    CodedBlockPattern,
    /// `motion_code`.
    MotionCode,
    /// `dmvector`.
    Dmvector,
    /// `dct_dc_size_luminance`.
    DcSizeLuma,
    /// `dct_dc_size_chrominance`.
    DcSizeChroma,
    /// The first table of DCT coefficients.
    Coefficients0,
    /// The second table of DCT coefficients.
    Coefficients1,
}

impl VlcTable {
    /// The rows of the table.
    #[verifier::opaque]
    pub open spec fn rows(self) -> Seq<(u32, u32, i32)> {
        match self {
            VlcTable::AddressIncrement => MB_ADDR_INCREMENT@,
            VlcTable::TypeI => MB_TYPE_I@,
            VlcTable::TypeP => MB_TYPE_P@,
            VlcTable::TypeB => MB_TYPE_B@,
            VlcTable::CodedBlockPattern => CODED_BLOCK_PATTERN@,
            VlcTable::MotionCode => MOTION_CODE@,
            VlcTable::Dmvector => DMVECTOR@,
            VlcTable::DcSizeLuma => DCT_DC_SIZE_LUMA@,
            VlcTable::DcSizeChroma => DCT_DC_SIZE_CHROMA@,
            VlcTable::Coefficients0 => DCT_COEFF_TABLE0@,
            VlcTable::Coefficients1 => DCT_COEFF_TABLE1@,
        }
    }

    /// The least symbol of the table.
    pub open spec fn low(self) -> int {
        match self {
            VlcTable::AddressIncrement => 1,
            VlcTable::MotionCode => -16,
            VlcTable::Dmvector => -1,
            VlcTable::Coefficients0 => -2,
            VlcTable::Coefficients1 => -2,
            _ => 0,
        }
    }

    /// The greatest symbol of the table.
    pub open spec fn high(self) -> int {
        match self {
            VlcTable::AddressIncrement => 34,
            VlcTable::TypeI => 31,
            VlcTable::TypeP => 31,
            VlcTable::TypeB => 31,
            VlcTable::CodedBlockPattern => 63,
            VlcTable::MotionCode => 16,
            VlcTable::Dmvector => 1,
            VlcTable::DcSizeLuma => 11,
            VlcTable::DcSizeChroma => 11,
            VlcTable::Coefficients0 => 7937,
            VlcTable::Coefficients1 => 7937,
        }
    }

    /// Whether no code of the table consists of zeros alone, so that decoding
    /// comes to an end where the data does.
    pub open spec fn ends_with_data(self) -> bool {
        self is AddressIncrement || self is Coefficients0 || self is Coefficients1
    }

    /// What decoding one symbol at `pos` gives, and where it leaves the cursor.
    pub open spec fn decoded(self, data: Seq<u8>, pos: nat) -> (nat, Result<i32, Error>) {
        decoded(self.rows(), data, pos)
    }

    /// As [`VlcTable::decoded`], but with nothing decoded where 23 zero bits stand
    /// in front.
    pub open spec fn decoded_or_stuffing(self, data: Seq<u8>, pos: nat) -> (
        nat,
        Result<Option<i32>, Error>,
    ) {
        if bits::bits(data, pos as int, 23) == 0 {
            (pos, Ok(None))
        } else {
            match self.decoded(data, pos) {
                (next, Ok(symbol)) => (next, Ok(Some(symbol))),
                (next, Err(e)) => (next, Err(e)),
            }
        }
    }

    /// Every table is one: its codes have a length, its symbols are in range.
    pub proof fn lemma_rows(self)
        ensures
            lengths_fit(self.rows()),
            symbols_within(self.rows(), self.low(), self.high()),
            self.ends_with_data() ==> no_zero_code(self.rows()),
    {
        reveal(VlcTable::rows);
        match self {
            VlcTable::AddressIncrement => vlc_tables::lemma_mb_addr_increment(),
            VlcTable::TypeI => vlc_tables::lemma_mb_type_i(),
            VlcTable::TypeP => vlc_tables::lemma_mb_type_p(),
            VlcTable::TypeB => vlc_tables::lemma_mb_type_b(),
            VlcTable::CodedBlockPattern => vlc_tables::lemma_coded_block_pattern(),
            VlcTable::MotionCode => vlc_tables::lemma_motion_code(),
            VlcTable::Dmvector => vlc_tables::lemma_dmvector(),
            VlcTable::DcSizeLuma => vlc_tables::lemma_dct_dc_size_luma(),
            VlcTable::DcSizeChroma => vlc_tables::lemma_dct_dc_size_chroma(),
            VlcTable::Coefficients0 => vlc_tables::lemma_dct_coeff_table0(),
            VlcTable::Coefficients1 => vlc_tables::lemma_dct_coeff_table1(),
        }
    }

    /// Decoding gives a symbol of the table, moves the cursor forward, and where
    /// the table has no all-zero code moves it on by a bit or more.
    pub proof fn lemma_decoded(self, data: Seq<u8>, pos: nat)
        ensures
            pos <= 8 * data.len() ==> pos <= self.decoded(data, pos).0 <= 8 * data.len(),
            self.ends_with_data() && self.decoded(data, pos).1 is Ok ==> pos < self.decoded(
                data,
                pos,
            ).0 <= 8 * data.len(),
            match self.decoded(data, pos).1 {
                Ok(symbol) => self.low() <= symbol <= self.high(),
                Err(e) => e == Error::InvalidCode,
            },
    {
        self.lemma_rows();
        lemma_find_row(self.rows(), data, pos, 0);
        if self.ends_with_data() {
            lemma_decoded_progress(self.rows(), data, pos);
        }
    }

    /// Decode one symbol.
    pub fn decode(self, r: &mut BitReader<'_>) -> (result: Result<i32, Error>)
        requires
            old(r).wf(),
        ensures
            final(r).wf(),
            final(r).data() == old(r).data(),
            old(r).at() <= final(r).at(),
            (final(r).at(), result) == self.decoded(old(r).data(), old(r).at()),
            result is Ok ==> self.low() <= result->Ok_0 <= self.high(),
    {
        proof {
            self.lemma_rows();
            self.lemma_decoded(r.data(), r.at());
            reveal(VlcTable::rows);
        }
        match self {
            VlcTable::AddressIncrement => decode_rows(&MB_ADDR_INCREMENT, r),
            VlcTable::TypeI => decode_rows(&MB_TYPE_I, r),
            VlcTable::TypeP => decode_rows(&MB_TYPE_P, r),
            VlcTable::TypeB => decode_rows(&MB_TYPE_B, r),
            VlcTable::CodedBlockPattern => decode_rows(&CODED_BLOCK_PATTERN, r),
            VlcTable::MotionCode => decode_rows(&MOTION_CODE, r),
            VlcTable::Dmvector => decode_rows(&DMVECTOR, r),
            VlcTable::DcSizeLuma => decode_rows(&DCT_DC_SIZE_LUMA, r),
            VlcTable::DcSizeChroma => decode_rows(&DCT_DC_SIZE_CHROMA, r),
            VlcTable::Coefficients0 => decode_rows(&DCT_COEFF_TABLE0, r),
            VlcTable::Coefficients1 => decode_rows(&DCT_COEFF_TABLE1, r),
        }
    }

    /// Decode one symbol, unless 23 zero bits stand in front, which end the
    /// macroblocks of a slice.
    pub fn decode_or_zero_stuffing(self, r: &mut BitReader<'_>) -> (result: Result<
        Option<i32>,
        Error,
    >)
        requires
            old(r).wf(),
        ensures
            final(r).wf(),
            final(r).data() == old(r).data(),
            old(r).at() <= final(r).at(),
            (final(r).at(), result) == self.decoded_or_stuffing(old(r).data(), old(r).at()),
    {
        if r.peek(23) == 0 {
            return Ok(None);
        }
        match self.decode(r) {
            Ok(symbol) => Ok(Some(symbol)),
            Err(e) => Err(e),
        }
    }
}

} // verus!
