//! The variable length code tables of the macroblock layer.
//!
//! Every row is a code, its length in bits, and the symbol it stands for. A
//! coefficient symbol is `256 * run + level`; its sign bit follows the code.
use crate::mpeg2::vlc;
use vstd::prelude::*;

verus! {

/// The symbol of the macroblock address escape.
pub const MB_ADDR_ESCAPE: i32 = 34;

/// The symbol that ends a block.
pub const EOB: i32 = -1;

/// The symbol that announces a run and a level written out in full.
pub const ESCAPE: i32 = -2;

/// `macroblock_address_increment`, 1 to 33 and the escape.
pub const MB_ADDR_INCREMENT: [(u32, u32, i32); 34] = [
    (0b1, 1, 1),
    (0b011, 3, 2),
    (0b010, 3, 3),
    (0b0011, 4, 4),
    (0b0010, 4, 5),
    (0b00011, 5, 6),
    (0b00010, 5, 7),
    (0b0000111, 7, 8),
    (0b0000110, 7, 9),
    (0b00001011, 8, 10),
    (0b00001010, 8, 11),
    (0b00001001, 8, 12),
    (0b00001000, 8, 13),
    (0b00000111, 8, 14),
    (0b00000110, 8, 15),
    (0b0000010111, 10, 16),
    (0b0000010110, 10, 17),
    (0b0000010101, 10, 18),
    (0b0000010100, 10, 19),
    (0b0000010011, 10, 20),
    (0b0000010010, 10, 21),
    (0b00000100011, 11, 22),
    (0b00000100010, 11, 23),
    (0b00000100001, 11, 24),
    (0b00000100000, 11, 25),
    (0b00000011111, 11, 26),
    (0b00000011110, 11, 27),
    (0b00000011101, 11, 28),
    (0b00000011100, 11, 29),
    (0b00000011011, 11, 30),
    (0b00000011010, 11, 31),
    (0b00000011001, 11, 32),
    (0b00000011000, 11, 33),
    (0b00000001000, 11, 34),
];

/// `macroblock_type` of I pictures.
pub const MB_TYPE_I: [(u32, u32, i32); 2] = [
    (0b1, 1, 1),
    (0b01, 2, 17),
];

/// `macroblock_type` of P pictures.
pub const MB_TYPE_P: [(u32, u32, i32); 7] = [
    (0b1, 1, 10),
    (0b01, 2, 2),
    (0b001, 3, 8),
    (0b00011, 5, 1),
    (0b00010, 5, 26),
    (0b00001, 5, 18),
    (0b000001, 6, 17),
];

/// `macroblock_type` of B pictures.
pub const MB_TYPE_B: [(u32, u32, i32); 11] = [
    (0b10, 2, 12),
    (0b11, 2, 14),
    (0b010, 3, 4),
    (0b011, 3, 6),
    (0b0010, 4, 8),
    (0b0011, 4, 10),
    (0b00011, 5, 1),
    (0b00010, 5, 30),
    (0b000011, 6, 26),
    (0b000010, 6, 22),
    (0b000001, 6, 17),
];

/// `coded_block_pattern`.
pub const CODED_BLOCK_PATTERN: [(u32, u32, i32); 64] = [
    (0b111, 3, 60),
    (0b1101, 4, 4),
    (0b1100, 4, 8),
    (0b1011, 4, 16),
    (0b1010, 4, 32),
    (0b10011, 5, 12),
    (0b10010, 5, 48),
    (0b10001, 5, 20),
    (0b10000, 5, 40),
    (0b01111, 5, 28),
    (0b01110, 5, 44),
    (0b01101, 5, 52),
    (0b01100, 5, 56),
    (0b01011, 5, 1),
    (0b01010, 5, 61),
    (0b01001, 5, 2),
    (0b01000, 5, 62),
    (0b001111, 6, 24),
    (0b001110, 6, 36),
    (0b001101, 6, 3),
    (0b001100, 6, 63),
    (0b0010111, 7, 5),
    (0b0010110, 7, 9),
    (0b0010101, 7, 17),
    (0b0010100, 7, 33),
    (0b0010011, 7, 6),
    (0b0010010, 7, 10),
    (0b0010001, 7, 18),
    (0b0010000, 7, 34),
    (0b00011111, 8, 7),
    (0b00011110, 8, 11),
    (0b00011101, 8, 19),
    (0b00011100, 8, 35),
    (0b00011011, 8, 13),
    (0b00011010, 8, 49),
    (0b00011001, 8, 21),
    (0b00011000, 8, 41),
    (0b00010111, 8, 14),
    (0b00010110, 8, 50),
    (0b00010101, 8, 22),
    (0b00010100, 8, 42),
    (0b00010011, 8, 15),
    (0b00010010, 8, 51),
    (0b00010001, 8, 23),
    (0b00010000, 8, 43),
    (0b00001111, 8, 25),
    (0b00001110, 8, 37),
    (0b00001101, 8, 26),
    (0b00001100, 8, 38),
    (0b00001011, 8, 29),
    (0b00001010, 8, 45),
    (0b00001001, 8, 53),
    (0b00001000, 8, 57),
    (0b00000111, 8, 30),
    (0b00000110, 8, 46),
    (0b00000101, 8, 54),
    (0b00000100, 8, 58),
    (0b000000111, 9, 31),
    (0b000000110, 9, 47),
    (0b000000101, 9, 55),
    (0b000000100, 9, 59),
    (0b000000011, 9, 27),
    (0b000000010, 9, 39),
    (0b000000001, 9, 0),
];

/// `motion_code`, -16 to 16.
pub const MOTION_CODE: [(u32, u32, i32); 33] = [
    (0b1, 1, 0),
    (0b010, 3, 1),
    (0b011, 3, -1),
    (0b0010, 4, 2),
    (0b0011, 4, -2),
    (0b00010, 5, 3),
    (0b00011, 5, -3),
    (0b0000110, 7, 4),
    (0b0000111, 7, -4),
    (0b00001010, 8, 5),
    (0b00001011, 8, -5),
    (0b00001000, 8, 6),
    (0b00001001, 8, -6),
    (0b00000110, 8, 7),
    (0b00000111, 8, -7),
    (0b0000010110, 10, 8),
    (0b0000010111, 10, -8),
    (0b0000010100, 10, 9),
    (0b0000010101, 10, -9),
    (0b0000010010, 10, 10),
    (0b0000010011, 10, -10),
    (0b00000100010, 11, 11),
    (0b00000100011, 11, -11),
    (0b00000100000, 11, 12),
    (0b00000100001, 11, -12),
    (0b00000011110, 11, 13),
    (0b00000011111, 11, -13),
    (0b00000011100, 11, 14),
    (0b00000011101, 11, -14),
    (0b00000011010, 11, 15),
    (0b00000011011, 11, -15),
    (0b00000011000, 11, 16),
    (0b00000011001, 11, -16),
];

/// `dmvector`, -1 to 1.
pub const DMVECTOR: [(u32, u32, i32); 3] = [
    (0b0, 1, 0),
    (0b10, 2, 1),
    (0b11, 2, -1),
];

/// `dct_dc_size_luminance`, 0 to 11.
pub const DCT_DC_SIZE_LUMA: [(u32, u32, i32); 12] = [
    (0b100, 3, 0),
    (0b00, 2, 1),
    (0b01, 2, 2),
    (0b101, 3, 3),
    (0b110, 3, 4),
    (0b1110, 4, 5),
    (0b11110, 5, 6),
    (0b111110, 6, 7),
    (0b1111110, 7, 8),
    (0b11111110, 8, 9),
    (0b111111110, 9, 10),
    (0b111111111, 9, 11),
];

/// `dct_dc_size_chrominance`, 0 to 11.
pub const DCT_DC_SIZE_CHROMA: [(u32, u32, i32); 12] = [
    (0b00, 2, 0),
    (0b01, 2, 1),
    (0b10, 2, 2),
    (0b110, 3, 3),
    (0b1110, 4, 4),
    (0b11110, 5, 5),
    (0b111110, 6, 6),
    (0b1111110, 7, 7),
    (0b11111110, 8, 8),
    (0b111111110, 9, 9),
    (0b1111111110, 10, 10),
    (0b1111111111, 10, 11),
];

/// DCT coefficients, the table of every non-intra block.
pub const DCT_COEFF_TABLE0: [(u32, u32, i32); 113] = [
    (0b10, 2, -1),
    (0b000001, 6, -2),
    (0b11, 2, 1),
    (0b011, 3, 257),
    (0b0100, 4, 2),
    (0b0101, 4, 513),
    (0b00101, 5, 3),
    (0b00111, 5, 769),
    (0b00110, 5, 1025),
    (0b000110, 6, 258),
    (0b000111, 6, 1281),
    (0b000101, 6, 1537),
    (0b000100, 6, 1793),
    (0b0000110, 7, 4),
    (0b0000100, 7, 514),
    (0b0000111, 7, 2049),
    (0b0000101, 7, 2305),
    (0b00100110, 8, 5),
    (0b00100001, 8, 6),
    (0b00100101, 8, 259),
    (0b00100100, 8, 770),
    (0b00100111, 8, 2561),
    (0b00100011, 8, 2817),
    (0b00100010, 8, 3073),
    (0b00100000, 8, 3329),
    (0b0000001010, 10, 7),
    (0b0000001100, 10, 260),
    (0b0000001011, 10, 515),
    (0b0000001111, 10, 1026),
    (0b0000001001, 10, 1282),
    (0b0000001110, 10, 3585),
    (0b0000001101, 10, 3841),
    (0b0000001000, 10, 4097),
    (0b000000011101, 12, 8),
    (0b000000011000, 12, 9),
    (0b000000010011, 12, 10),
    (0b000000010000, 12, 11),
    (0b000000011011, 12, 261),
    (0b000000010100, 12, 516),
    (0b000000011100, 12, 771),
    (0b000000010010, 12, 1027),
    (0b000000011110, 12, 1538),
    (0b000000010101, 12, 1794),
    (0b000000010001, 12, 2050),
    (0b000000011111, 12, 4353),
    (0b000000011010, 12, 4609),
    (0b000000011001, 12, 4865),
    (0b000000010111, 12, 5121),
    (0b000000010110, 12, 5377),
    (0b0000000011010, 13, 12),
    (0b0000000011001, 13, 13),
    (0b0000000011000, 13, 14),
    (0b0000000010111, 13, 15),
    (0b0000000010110, 13, 262),
    (0b0000000010101, 13, 263),
    (0b0000000010100, 13, 517),
    (0b0000000010011, 13, 772),
    (0b0000000010010, 13, 1283),
    (0b0000000010001, 13, 2306),
    (0b0000000010000, 13, 2562),
    (0b0000000011111, 13, 5633),
    (0b0000000011110, 13, 5889),
    (0b0000000011101, 13, 6145),
    (0b0000000011100, 13, 6401),
    (0b0000000011011, 13, 6657),
    (0b00000000011111, 14, 16),
    (0b00000000011110, 14, 17),
    (0b00000000011101, 14, 18),
    (0b00000000011100, 14, 19),
    (0b00000000011011, 14, 20),
    (0b00000000011010, 14, 21),
    (0b00000000011001, 14, 22),
    (0b00000000011000, 14, 23),
    (0b00000000010111, 14, 24),
    (0b00000000010110, 14, 25),
    (0b00000000010101, 14, 26),
    (0b00000000010100, 14, 27),
    (0b00000000010011, 14, 28),
    (0b00000000010010, 14, 29),
    (0b00000000010001, 14, 30),
    (0b00000000010000, 14, 31),
    (0b000000000011000, 15, 32),
    (0b000000000010111, 15, 33),
    (0b000000000010110, 15, 34),
    (0b000000000010101, 15, 35),
    (0b000000000010100, 15, 36),
    (0b000000000010011, 15, 37),
    (0b000000000010010, 15, 38),
    (0b000000000010001, 15, 39),
    (0b000000000010000, 15, 40),
    (0b000000000011111, 15, 264),
    (0b000000000011110, 15, 265),
    (0b000000000011101, 15, 266),
    (0b000000000011100, 15, 267),
    (0b000000000011011, 15, 268),
    (0b000000000011010, 15, 269),
    (0b000000000011001, 15, 270),
    (0b0000000000010011, 16, 271),
    (0b0000000000010010, 16, 272),
    (0b0000000000010001, 16, 273),
    (0b0000000000010000, 16, 274),
    (0b0000000000010100, 16, 1539),
    (0b0000000000011010, 16, 2818),
    (0b0000000000011001, 16, 3074),
    (0b0000000000011000, 16, 3330),
    (0b0000000000010111, 16, 3586),
    (0b0000000000010110, 16, 3842),
    (0b0000000000010101, 16, 4098),
    (0b0000000000011111, 16, 6913),
    (0b0000000000011110, 16, 7169),
    (0b0000000000011101, 16, 7425),
    (0b0000000000011100, 16, 7681),
    (0b0000000000011011, 16, 7937),
];

/// DCT coefficients, the table intra blocks use where `intra_vlc_format` is set.
pub const DCT_COEFF_TABLE1: [(u32, u32, i32); 113] = [
    (0b0110, 4, -1),
    (0b000001, 6, -2),
    (0b10, 2, 1),
    (0b110, 3, 2),
    (0b0111, 4, 3),
    (0b11100, 5, 4),
    (0b11101, 5, 5),
    (0b000101, 6, 6),
    (0b000100, 6, 7),
    (0b1111011, 7, 8),
    (0b1111100, 7, 9),
    (0b00100011, 8, 10),
    (0b00100010, 8, 11),
    (0b11111010, 8, 12),
    (0b11111011, 8, 13),
    (0b11111110, 8, 14),
    (0b11111111, 8, 15),
    (0b00000000011111, 14, 16),
    (0b00000000011110, 14, 17),
    (0b00000000011101, 14, 18),
    (0b00000000011100, 14, 19),
    (0b00000000011011, 14, 20),
    (0b00000000011010, 14, 21),
    (0b00000000011001, 14, 22),
    (0b00000000011000, 14, 23),
    (0b00000000010111, 14, 24),
    (0b00000000010110, 14, 25),
    (0b00000000010101, 14, 26),
    (0b00000000010100, 14, 27),
    (0b00000000010011, 14, 28),
    (0b00000000010010, 14, 29),
    (0b00000000010001, 14, 30),
    (0b00000000010000, 14, 31),
    (0b000000000011000, 15, 32),
    (0b000000000010111, 15, 33),
    (0b000000000010110, 15, 34),
    (0b000000000010101, 15, 35),
    (0b000000000010100, 15, 36),
    (0b000000000010011, 15, 37),
    (0b000000000010010, 15, 38),
    (0b000000000010001, 15, 39),
    (0b000000000010000, 15, 40),
    (0b010, 3, 257),
    (0b00110, 5, 258),
    (0b1111001, 7, 259),
    (0b00100111, 8, 260),
    (0b00100000, 8, 261),
    (0b0000000010110, 13, 262),
    (0b0000000010101, 13, 263),
    (0b000000000011111, 15, 264),
    (0b000000000011110, 15, 265),
    (0b000000000011101, 15, 266),
    (0b000000000011100, 15, 267),
    (0b000000000011011, 15, 268),
    (0b000000000011010, 15, 269),
    (0b000000000011001, 15, 270),
    (0b0000000000010011, 16, 271),
    (0b0000000000010010, 16, 272),
    (0b0000000000010001, 16, 273),
    (0b0000000000010000, 16, 274),
    (0b00101, 5, 513),
    (0b0000111, 7, 514),
    (0b11111100, 8, 515),
    (0b0000001100, 10, 516),
    (0b0000000010100, 13, 517),
    (0b00111, 5, 769),
    (0b00100110, 8, 770),
    (0b000000011100, 12, 771),
    (0b0000000010011, 13, 772),
    (0b000110, 6, 1025),
    (0b11111101, 8, 1026),
    (0b000000010010, 12, 1027),
    (0b000111, 6, 1281),
    (0b000000100, 9, 1282),
    (0b0000000010010, 13, 1283),
    (0b0000110, 7, 1537),
    (0b000000011110, 12, 1538),
    (0b0000000000010100, 16, 1539),
    (0b0000100, 7, 1793),
    (0b000000010101, 12, 1794),
    (0b0000101, 7, 2049),
    (0b000000010001, 12, 2050),
    (0b1111000, 7, 2305),
    (0b0000000010001, 13, 2306),
    (0b1111010, 7, 2561),
    (0b0000000010000, 13, 2562),
    (0b00100001, 8, 2817),
    (0b0000000000011010, 16, 2818),
    (0b00100101, 8, 3073),
    (0b0000000000011001, 16, 3074),
    (0b00100100, 8, 3329),
    (0b0000000000011000, 16, 3330),
    (0b000000101, 9, 3585),
    (0b0000000000010111, 16, 3586),
    (0b000000111, 9, 3841),
    (0b0000000000010110, 16, 3842),
    (0b0000001101, 10, 4097),
    (0b0000000000010101, 16, 4098),
    (0b000000011111, 12, 4353),
    (0b000000011010, 12, 4609),
    (0b000000011001, 12, 4865),
    (0b000000010111, 12, 5121),
    (0b000000010110, 12, 5377),
    (0b0000000011111, 13, 5633),
    (0b0000000011110, 13, 5889),
    (0b0000000011101, 13, 6145),
    (0b0000000011100, 13, 6401),
    (0b0000000011011, 13, 6657),
    (0b0000000000011111, 16, 6913),
    (0b0000000000011110, 16, 7169),
    (0b0000000000011101, 16, 7425),
    (0b0000000000011100, 16, 7681),
    (0b0000000000011011, 16, 7937),
];

/// Every row of [`MB_ADDR_INCREMENT`] is a code of a table, for a symbol of its range.
pub proof fn lemma_mb_addr_increment()
    ensures
        vlc::lengths_fit(MB_ADDR_INCREMENT@),
        vlc::symbols_within(MB_ADDR_INCREMENT@, 1, 34),
        vlc::no_zero_code(MB_ADDR_INCREMENT@),
{
}

/// Every row of [`MB_TYPE_I`] is a code of a table, for a symbol of its range.
pub proof fn lemma_mb_type_i()
    ensures
        vlc::lengths_fit(MB_TYPE_I@),
        vlc::symbols_within(MB_TYPE_I@, 0, 31),
{
}

/// Every row of [`MB_TYPE_P`] is a code of a table, for a symbol of its range.
pub proof fn lemma_mb_type_p()
    ensures
        vlc::lengths_fit(MB_TYPE_P@),
        vlc::symbols_within(MB_TYPE_P@, 0, 31),
{
}

/// Every row of [`MB_TYPE_B`] is a code of a table, for a symbol of its range.
pub proof fn lemma_mb_type_b()
    ensures
        vlc::lengths_fit(MB_TYPE_B@),
        vlc::symbols_within(MB_TYPE_B@, 0, 31),
{
}

/// Every row of [`CODED_BLOCK_PATTERN`] is a code of a table, for a symbol of its range.
pub proof fn lemma_coded_block_pattern()
    ensures
        vlc::lengths_fit(CODED_BLOCK_PATTERN@),
        vlc::symbols_within(CODED_BLOCK_PATTERN@, 0, 63),
{
}

/// Every row of [`MOTION_CODE`] is a code of a table, for a symbol of its range.
pub proof fn lemma_motion_code()
    ensures
        vlc::lengths_fit(MOTION_CODE@),
        vlc::symbols_within(MOTION_CODE@, -16, 16),
{
}

/// Every row of [`DMVECTOR`] is a code of a table, for a symbol of its range.
pub proof fn lemma_dmvector()
    ensures
        vlc::lengths_fit(DMVECTOR@),
        vlc::symbols_within(DMVECTOR@, -1, 1),
{
}

/// Every row of [`DCT_DC_SIZE_LUMA`] is a code of a table, for a symbol of its range.
pub proof fn lemma_dct_dc_size_luma()
    ensures
        vlc::lengths_fit(DCT_DC_SIZE_LUMA@),
        vlc::symbols_within(DCT_DC_SIZE_LUMA@, 0, 11),
{
}

/// Every row of [`DCT_DC_SIZE_CHROMA`] is a code of a table, for a symbol of its range.
pub proof fn lemma_dct_dc_size_chroma()
    ensures
        vlc::lengths_fit(DCT_DC_SIZE_CHROMA@),
        vlc::symbols_within(DCT_DC_SIZE_CHROMA@, 0, 11),
{
}

/// Every row of [`DCT_COEFF_TABLE0`] is a code of a table, for a symbol of its range.
pub proof fn lemma_dct_coeff_table0()
    ensures
        vlc::lengths_fit(DCT_COEFF_TABLE0@),
        vlc::symbols_within(DCT_COEFF_TABLE0@, -2, 7937),
        vlc::no_zero_code(DCT_COEFF_TABLE0@),
{
}

/// Every row of [`DCT_COEFF_TABLE1`] is a code of a table, for a symbol of its range.
pub proof fn lemma_dct_coeff_table1()
    ensures
        vlc::lengths_fit(DCT_COEFF_TABLE1@),
        vlc::symbols_within(DCT_COEFF_TABLE1@, -2, 7937),
        vlc::no_zero_code(DCT_COEFF_TABLE1@),
{
}

} // verus!
