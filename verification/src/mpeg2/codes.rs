//! The codes that stand for types, sizes and vectors, and what each decodes to.
use crate::bits;
use crate::mpeg2::vlc;
use crate::mpeg2::vlc::VlcTable;
use crate::mpeg2::vlc_tables::{
    CODED_BLOCK_PATTERN, DCT_DC_SIZE_CHROMA, DCT_DC_SIZE_LUMA, DMVECTOR, MB_ADDR_INCREMENT, MB_TYPE_B, MB_TYPE_I,
    MB_TYPE_P, MOTION_CODE,
};
use vstd::arithmetic::div_mod;
use vstd::arithmetic::power2;
use vstd::prelude::*;

verus! {

/// Whether the code of `n` bits at `pos` decodes to `symbol`, and leaves the cursor behind it.
pub open spec fn reads(
    table: VlcTable,
    data: Seq<u8>,
    pos: nat,
    n: nat,
    symbol: int,
) -> bool {
    &&& table.decoded(data, pos).0 == pos + n
    &&& table.decoded(data, pos).1 is Ok
    &&& table.decoded(data, pos).1->Ok_0 == symbol
}

/// The first bits of some are the higher part of their number.
proof fn lemma_front(data: Seq<u8>, pos: int, n: nat, m: nat)
    requires
        n <= m,
    ensures
        bits::bits(data, pos, n) == bits::bits(data, pos, m) as int / power2::pow2(
            (m - n) as nat,
        ) as int,
{
    let k = (m - n) as nat;
    bits::lemma_bits_split(data, pos, n, k);
    bits::lemma_bits_bound(data, pos + n, k);
    power2::lemma_pow2_pos(k);
    let head = bits::bits(data, pos, n) as int;
    let tail = bits::bits(data, pos + n, k) as int;
    let p = power2::pow2(k) as int;
    assert(n + k == m);
    div_mod::lemma_fundamental_div_mod_converse(bits::bits(data, pos, m) as int, p, head, tail);
}

/// Nothing stands above the lowest three bits of a number below eight.
proof fn lemma_small(w: int)
    requires
        0 <= w < 8,
    ensures
        w / 32 == 0,
        w / 16 == 0,
        w / 8 == 0,
{
}

/// The types of macroblocks in I pictures: intra, without and with a quantiser scale of their own.
pub proof fn law_types_of_i_pictures(data: Seq<u8>, pos: nat)
    requires
        pos + 2 <= 8 * data.len(),
    ensures
        bits::bits(data, pos as int, 1) == 0b1 ==> reads(VlcTable::TypeI, data, pos, 1, 1),
        bits::bits(data, pos as int, 2) == 0b01 ==> reads(VlcTable::TypeI, data, pos, 2, 17),
{
    reveal(VlcTable::rows);
    reveal_with_fuel(vlc::find_row, 3);
    power2::lemma2_to64();
    bits::lemma_bits_bound(data, pos as int, 2);
    lemma_front(data, pos as int, 1, 2);
    let w = bits::bits(data, pos as int, 2);
    let table = MB_TYPE_I@;
    assert(table.len() == 2);
    assert(bits::bits(data, pos as int, 1) == w as int / 2);
}

/// The types of macroblocks in P pictures: moved with blocks, with blocks alone, moved alone, intra,
/// and those of them that bring a quantiser scale.
pub proof fn law_types_of_p_pictures(data: Seq<u8>, pos: nat)
    requires
        pos + 6 <= 8 * data.len(),
    ensures
        bits::bits(data, pos as int, 1) == 0b1 ==> reads(VlcTable::TypeP, data, pos, 1, 10),
        bits::bits(data, pos as int, 2) == 0b01 ==> reads(VlcTable::TypeP, data, pos, 2, 2),
        bits::bits(data, pos as int, 3) == 0b001 ==> reads(VlcTable::TypeP, data, pos, 3, 8),
        bits::bits(data, pos as int, 5) == 0b00011 ==> reads(VlcTable::TypeP, data, pos, 5, 1),
        bits::bits(data, pos as int, 5) == 0b00010 ==> reads(VlcTable::TypeP, data, pos, 5, 26),
        bits::bits(data, pos as int, 5) == 0b00001 ==> reads(VlcTable::TypeP, data, pos, 5, 18),
        bits::bits(data, pos as int, 6) == 0b000001 ==> reads(VlcTable::TypeP, data, pos, 6, 17),
{
    reveal(VlcTable::rows);
    reveal_with_fuel(vlc::find_row, 12);
    power2::lemma2_to64();
    bits::lemma_bits_bound(data, pos as int, 6);
    lemma_front(data, pos as int, 1, 6);
    lemma_front(data, pos as int, 2, 6);
    lemma_front(data, pos as int, 3, 6);
    lemma_front(data, pos as int, 5, 6);
    let w = bits::bits(data, pos as int, 6);
    let table = MB_TYPE_P@;
    assert(table.len() == 7);
    assert(bits::bits(data, pos as int, 1) == w as int / 32);
    assert(bits::bits(data, pos as int, 2) == w as int / 16);
    assert(bits::bits(data, pos as int, 3) == w as int / 8);
    assert(bits::bits(data, pos as int, 5) == w as int / 2);
    assert(VlcTable::TypeP.rows() == table);
    if w < 8 {
        lemma_small(w as int);
        assert(table[0] == (1u32, 1u32, 10i32) && table[1] == (1u32, 2u32, 2i32));
        assert(table[2] == (1u32, 3u32, 8i32));
        assert(!vlc::code_stands(table[0], data, pos));
        assert(!vlc::code_stands(table[1], data, pos));
        assert(!vlc::code_stands(table[2], data, pos));
        assert(vlc::find_row(table, data, pos, 0) == vlc::find_row(table, data, pos, 3));
        assert(table[3] == (3u32, 5u32, 1i32) && table[4] == (2u32, 5u32, 26i32));
        assert(table[5] == (1u32, 5u32, 18i32) && table[6] == (1u32, 6u32, 17i32));
    }
}

/// The types of macroblocks in B pictures: moved from both sides, from behind or from before, each
/// alone and with blocks, intra, and those of them that bring a quantiser scale.
pub proof fn law_types_of_b_pictures(data: Seq<u8>, pos: nat)
    requires
        pos + 6 <= 8 * data.len(),
    ensures
        bits::bits(data, pos as int, 2) == 0b10 ==> reads(VlcTable::TypeB, data, pos, 2, 12),
        bits::bits(data, pos as int, 2) == 0b11 ==> reads(VlcTable::TypeB, data, pos, 2, 14),
        bits::bits(data, pos as int, 3) == 0b010 ==> reads(VlcTable::TypeB, data, pos, 3, 4),
        bits::bits(data, pos as int, 3) == 0b011 ==> reads(VlcTable::TypeB, data, pos, 3, 6),
        bits::bits(data, pos as int, 4) == 0b0010 ==> reads(VlcTable::TypeB, data, pos, 4, 8),
        bits::bits(data, pos as int, 4) == 0b0011 ==> reads(VlcTable::TypeB, data, pos, 4, 10),
        bits::bits(data, pos as int, 5) == 0b00011 ==> reads(VlcTable::TypeB, data, pos, 5, 1),
        bits::bits(data, pos as int, 5) == 0b00010 ==> reads(VlcTable::TypeB, data, pos, 5, 30),
        bits::bits(data, pos as int, 6) == 0b000011 ==> reads(VlcTable::TypeB, data, pos, 6, 26),
        bits::bits(data, pos as int, 6) == 0b000010 ==> reads(VlcTable::TypeB, data, pos, 6, 22),
        bits::bits(data, pos as int, 6) == 0b000001 ==> reads(VlcTable::TypeB, data, pos, 6, 17),
{
    reveal(VlcTable::rows);
    reveal_with_fuel(vlc::find_row, 12);
    power2::lemma2_to64();
    bits::lemma_bits_bound(data, pos as int, 6);
    lemma_front(data, pos as int, 2, 6);
    lemma_front(data, pos as int, 3, 6);
    lemma_front(data, pos as int, 4, 6);
    lemma_front(data, pos as int, 5, 6);
    let w = bits::bits(data, pos as int, 6);
    let table = MB_TYPE_B@;
    assert(table.len() == 11);
    assert(bits::bits(data, pos as int, 2) == w as int / 16);
    assert(bits::bits(data, pos as int, 3) == w as int / 8);
    assert(bits::bits(data, pos as int, 4) == w as int / 4);
    assert(bits::bits(data, pos as int, 5) == w as int / 2);
}

/// The components of the small vectors of dual prime: nothing, one forward, one back.
pub proof fn law_small_vectors(data: Seq<u8>, pos: nat)
    requires
        pos + 2 <= 8 * data.len(),
    ensures
        bits::bits(data, pos as int, 1) == 0b0 ==> reads(VlcTable::Dmvector, data, pos, 1, 0),
        bits::bits(data, pos as int, 2) == 0b10 ==> reads(VlcTable::Dmvector, data, pos, 2, 1),
        bits::bits(data, pos as int, 2) == 0b11 ==> reads(VlcTable::Dmvector, data, pos, 2, -1),
{
    reveal(VlcTable::rows);
    reveal_with_fuel(vlc::find_row, 4);
    power2::lemma2_to64();
    bits::lemma_bits_bound(data, pos as int, 2);
    lemma_front(data, pos as int, 1, 2);
    let w = bits::bits(data, pos as int, 2);
    let table = DMVECTOR@;
    assert(table.len() == 3);
    assert(bits::bits(data, pos as int, 1) == w as int / 2);
}

/// The sizes of luma DC differences.
pub proof fn law_sizes_of_luma_differences(data: Seq<u8>, pos: nat)
    requires
        pos + 9 <= 8 * data.len(),
    ensures
        bits::bits(data, pos as int, 3) == 0b100 ==> reads(VlcTable::DcSizeLuma, data, pos, 3, 0),
        bits::bits(data, pos as int, 2) == 0b00 ==> reads(VlcTable::DcSizeLuma, data, pos, 2, 1),
        bits::bits(data, pos as int, 2) == 0b01 ==> reads(VlcTable::DcSizeLuma, data, pos, 2, 2),
        bits::bits(data, pos as int, 3) == 0b101 ==> reads(VlcTable::DcSizeLuma, data, pos, 3, 3),
        bits::bits(data, pos as int, 3) == 0b110 ==> reads(VlcTable::DcSizeLuma, data, pos, 3, 4),
        bits::bits(data, pos as int, 4) == 0b1110 ==> reads(VlcTable::DcSizeLuma, data, pos, 4, 5),
        bits::bits(data, pos as int, 5) == 0b11110 ==> reads(VlcTable::DcSizeLuma, data, pos, 5, 6),
        bits::bits(data, pos as int, 6) == 0b111110 ==> reads(VlcTable::DcSizeLuma, data, pos, 6, 7),
        bits::bits(data, pos as int, 7) == 0b1111110 ==> reads(VlcTable::DcSizeLuma, data, pos, 7, 8),
        bits::bits(data, pos as int, 8) == 0b11111110 ==> reads(VlcTable::DcSizeLuma, data, pos, 8, 9),
        bits::bits(data, pos as int, 9) == 0b111111110 ==> reads(VlcTable::DcSizeLuma, data, pos, 9, 10),
        bits::bits(data, pos as int, 9) == 0b111111111 ==> reads(VlcTable::DcSizeLuma, data, pos, 9, 11),
{
    reveal(VlcTable::rows);
    reveal_with_fuel(vlc::find_row, 13);
    power2::lemma2_to64();
    bits::lemma_bits_bound(data, pos as int, 9);
    lemma_front(data, pos as int, 2, 9);
    lemma_front(data, pos as int, 3, 9);
    lemma_front(data, pos as int, 4, 9);
    lemma_front(data, pos as int, 5, 9);
    lemma_front(data, pos as int, 6, 9);
    lemma_front(data, pos as int, 7, 9);
    lemma_front(data, pos as int, 8, 9);
    let w = bits::bits(data, pos as int, 9);
    let table = DCT_DC_SIZE_LUMA@;
    assert(table.len() == 12);
    assert(bits::bits(data, pos as int, 2) == w as int / 128);
    assert(bits::bits(data, pos as int, 3) == w as int / 64);
    assert(bits::bits(data, pos as int, 4) == w as int / 32);
    assert(bits::bits(data, pos as int, 5) == w as int / 16);
    assert(bits::bits(data, pos as int, 6) == w as int / 8);
    assert(bits::bits(data, pos as int, 7) == w as int / 4);
    assert(bits::bits(data, pos as int, 8) == w as int / 2);
}

/// The sizes of chroma DC differences.
pub proof fn law_sizes_of_chroma_differences(data: Seq<u8>, pos: nat)
    requires
        pos + 10 <= 8 * data.len(),
    ensures
        bits::bits(data, pos as int, 2) == 0b00 ==> reads(VlcTable::DcSizeChroma, data, pos, 2, 0),
        bits::bits(data, pos as int, 2) == 0b01 ==> reads(VlcTable::DcSizeChroma, data, pos, 2, 1),
        bits::bits(data, pos as int, 2) == 0b10 ==> reads(VlcTable::DcSizeChroma, data, pos, 2, 2),
        bits::bits(data, pos as int, 3) == 0b110 ==> reads(VlcTable::DcSizeChroma, data, pos, 3, 3),
        bits::bits(data, pos as int, 4) == 0b1110 ==> reads(VlcTable::DcSizeChroma, data, pos, 4, 4),
        bits::bits(data, pos as int, 5) == 0b11110 ==> reads(VlcTable::DcSizeChroma, data, pos, 5, 5),
        bits::bits(data, pos as int, 6) == 0b111110 ==> reads(VlcTable::DcSizeChroma, data, pos, 6, 6),
        bits::bits(data, pos as int, 7) == 0b1111110 ==> reads(VlcTable::DcSizeChroma, data, pos, 7, 7),
        bits::bits(data, pos as int, 8) == 0b11111110 ==> reads(VlcTable::DcSizeChroma, data, pos, 8, 8),
        bits::bits(data, pos as int, 9) == 0b111111110 ==> reads(VlcTable::DcSizeChroma, data, pos, 9, 9),
        bits::bits(data, pos as int, 10) == 0b1111111110 ==> reads(VlcTable::DcSizeChroma, data, pos, 10, 10),
        bits::bits(data, pos as int, 10) == 0b1111111111 ==> reads(VlcTable::DcSizeChroma, data, pos, 10, 11),
{
    reveal(VlcTable::rows);
    reveal_with_fuel(vlc::find_row, 13);
    power2::lemma2_to64();
    bits::lemma_bits_bound(data, pos as int, 10);
    lemma_front(data, pos as int, 2, 10);
    lemma_front(data, pos as int, 3, 10);
    lemma_front(data, pos as int, 4, 10);
    lemma_front(data, pos as int, 5, 10);
    lemma_front(data, pos as int, 6, 10);
    lemma_front(data, pos as int, 7, 10);
    lemma_front(data, pos as int, 8, 10);
    lemma_front(data, pos as int, 9, 10);
    let w = bits::bits(data, pos as int, 10);
    let table = DCT_DC_SIZE_CHROMA@;
    assert(table.len() == 12);
    assert(bits::bits(data, pos as int, 2) == w as int / 256);
    assert(bits::bits(data, pos as int, 3) == w as int / 128);
    assert(bits::bits(data, pos as int, 4) == w as int / 64);
    assert(bits::bits(data, pos as int, 5) == w as int / 32);
    assert(bits::bits(data, pos as int, 6) == w as int / 16);
    assert(bits::bits(data, pos as int, 7) == w as int / 8);
    assert(bits::bits(data, pos as int, 8) == w as int / 4);
    assert(bits::bits(data, pos as int, 9) == w as int / 2);
}

/// Address increments and motion codes are spelt alike: the code of the increments `2 * m` and
/// `2 * m + 1` are those of the motions `m` back and `m` forward, which differ in their last bit
/// alone. The one bit that is left is an increment of one, and no motion.
pub proof fn law_increments_and_motions_are_spelt_alike(m: int)
    requires
        1 <= m <= 16,
    ensures
        ({
            let even = MB_ADDR_INCREMENT@[2 * m - 1];
            let odd = MB_ADDR_INCREMENT@[2 * m];
            let forward = MOTION_CODE@[2 * m - 1];
            let back = MOTION_CODE@[2 * m];
            &&& even.2 == 2 * m && odd.2 == 2 * m + 1
            &&& forward.2 == m && back.2 == -m
            &&& even.0 == back.0 && even.1 == back.1
            &&& odd.0 == forward.0 && odd.1 == forward.1
            &&& forward.0 % 2 == 0 && back.0 == forward.0 + 1 && back.1 == forward.1
        }),
        MB_ADDR_INCREMENT@[0] == (1u32, 1u32, 1i32),
        MOTION_CODE@[0] == (1u32, 1u32, 0i32),
        MB_ADDR_INCREMENT@[33] == (8u32, 11u32, 34i32),
{
}

/// The codes of greater motions are longer, and of the same length lower.
pub proof fn law_longer_motions_have_longer_codes(m: int)
    requires
        1 <= m < 16,
    ensures
        ({
            let a = MOTION_CODE@[2 * m - 1];
            let b = MOTION_CODE@[2 * m + 1];
            &&& a.1 <= b.1 <= 11
            &&& a.1 == b.1 ==> b.0 == a.0 - 2
        }),
        MOTION_CODE@[1] == (2u32, 3u32, 1i32),
        MOTION_CODE@[31] == (24u32, 11u32, 16i32),
{
}

/// Where the code of each pattern stands among all of them, in the order of the patterns.
pub open spec fn pattern_order() -> Seq<int> {
    seq![
        63, 13, 15, 19, 1, 21, 25, 29, 2, 22, 26, 30, 5, 33, 37, 41,
        3, 23, 27, 31, 7, 35, 39, 43, 17, 45, 47, 61, 9, 49, 53, 57,
        4, 24, 28, 32, 18, 46, 48, 62, 8, 36, 40, 44, 10, 50, 54, 58,
        6, 34, 38, 42, 11, 51, 55, 59, 12, 52, 56, 60, 0, 14, 16, 20,
    ]
}

/// What a code is worth with zeros behind it up to nine bits.
pub open spec fn worth(row: (u32, u32, i32)) -> int {
    row.0 * room(row)
}

/// How many runs of nine bits begin with a code.
pub open spec fn room(row: (u32, u32, i32)) -> int {
    if row.1 == 3 {
        64
    } else if row.1 == 4 {
        32
    } else if row.1 == 5 {
        16
    } else if row.1 == 6 {
        8
    } else if row.1 == 7 {
        4
    } else if row.1 == 8 {
        2
    } else {
        1
    }
}

/// Every pattern has one code.
pub proof fn law_every_pattern_has_its_code(cbp: int)
    requires
        0 <= cbp < 64,
    ensures
        CODED_BLOCK_PATTERN@.len() == 64,
        0 <= pattern_order()[cbp] < 64,
        CODED_BLOCK_PATTERN@[pattern_order()[cbp]].2 == cbp,
{
}

/// The codes of the patterns follow one another without a gap, from nine ones down, the longer
/// ones behind: nine bits that are not all zero begin with exactly one of them.
pub proof fn law_pattern_codes_leave_no_gap(i: int)
    requires
        0 <= i < 64,
    ensures
        ({
            let row = CODED_BLOCK_PATTERN@[i];
            &&& 3 <= row.1 <= 9
            &&& i == 0 ==> worth(row) + room(row) == 512 && row.1 == 3
            &&& i > 0 ==> worth(row) + room(row) == worth(CODED_BLOCK_PATTERN@[i - 1])
                && CODED_BLOCK_PATTERN@[i - 1].1 <= row.1
            &&& i == 63 ==> worth(row) == 1
        }),
{
}

} // verus!
