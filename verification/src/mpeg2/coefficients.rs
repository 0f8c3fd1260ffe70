//! The codes of coefficients: which run and level each stands for, and that none begins another;
//! and the matrices that they are quantised by.
use crate::mpeg2::constants::{DEFAULT_INTRA_QUANT, DEFAULT_NON_INTRA_QUANT};
use crate::mpeg2::vlc_tables::{DCT_COEFF_TABLE0, DCT_COEFF_TABLE1};
use vstd::prelude::*;

verus! {

/// The runs and levels that have codes of their own, run by run: those of no zeros in front
/// up to level 40, of one up to 18, of two up to 5, of three up to 4, of four to six up to 3,
/// of seven to sixteen up to 2, and of seventeen to thirty-one the first level alone.
pub open spec fn coded_pair(k: int) -> (int, int) {
    if k < 40 {
        (0, k + 1)
    } else if k < 58 {
        (1, k - 39)
    } else if k < 63 {
        (2, k - 57)
    } else if k < 67 {
        (3, k - 62)
    } else if k < 76 {
        (4 + (k - 67) / 3, 1 + (k - 67) % 3)
    } else if k < 96 {
        (7 + (k - 76) / 2, 1 + (k - 76) % 2)
    } else {
        (17 + k - 96, 1)
    }
}

/// How many runs of sixteen bits begin with a code.
pub open spec fn room(row: (u32, u32, i32)) -> int {
    if row.1 == 2 {
        16384
    } else if row.1 == 3 {
        8192
    } else if row.1 == 4 {
        4096
    } else if row.1 == 5 {
        2048
    } else if row.1 == 6 {
        1024
    } else if row.1 == 7 {
        512
    } else if row.1 == 8 {
        256
    } else if row.1 == 9 {
        128
    } else if row.1 == 10 {
        64
    } else if row.1 == 11 {
        32
    } else if row.1 == 12 {
        16
    } else if row.1 == 13 {
        8
    } else if row.1 == 14 {
        4
    } else if row.1 == 15 {
        2
    } else {
        1
    }
}

/// What a code is worth with zeros behind it up to sixteen bits.
pub open spec fn worth(row: (u32, u32, i32)) -> int {
    row.0 * room(row)
}

/// Where the pairs stand in the first table.
pub open spec fn first_places() -> Seq<int> {
    seq![
        2, 4, 6, 13, 17, 18, 25, 33, 34, 35, 36, 49, 50, 51, 52, 65, 66, 67,
        68, 69, 70, 71, 72, 73, 74, 75, 76, 77, 78, 79, 80, 81, 82, 83, 84, 85,
        86, 87, 88, 89, 3, 9, 19, 26, 37, 53, 54, 90, 91, 92, 93, 94, 95, 96,
        97, 98, 99, 100, 5, 14, 27, 38, 55, 7, 20, 39, 56, 8, 28, 40, 10, 29,
        57, 11, 41, 101, 12, 42, 15, 43, 16, 58, 21, 59, 22, 102, 23, 103, 24, 104,
        30, 105, 31, 106, 32, 107, 44, 45, 46, 47, 48, 60, 61, 62, 63, 64, 108, 109,
        110, 111, 112,
    ]
}

/// The rows of the first table, the highest code first.
pub open spec fn first_order() -> Seq<int> {
    seq![
        2, 0, 3, 5, 4, 7, 8, 6, 21, 17, 19, 20, 22, 23, 18, 24, 10, 9,
        11, 12, 15, 13, 16, 14, 1, 28, 30, 31, 26, 27, 25, 29, 32, 44, 41, 33,
        39, 37, 45, 46, 34, 47, 48, 42, 38, 35, 40, 43, 36, 60, 61, 62, 63, 64,
        49, 50, 51, 52, 53, 54, 55, 56, 57, 58, 59, 65, 66, 67, 68, 69, 70, 71,
        72, 73, 74, 75, 76, 77, 78, 79, 80, 90, 91, 92, 93, 94, 95, 96, 81, 82,
        83, 84, 85, 86, 87, 88, 89, 108, 109, 110, 111, 112, 102, 103, 104, 105, 106, 107,
        101, 97, 98, 99, 100,
    ]
}

/// Every run and level that has a code has one in the first table.
#[verifier::spinoff_prover]
#[verifier::rlimit(60)]
pub proof fn law_pairs_have_codes_in_the_first_table(k: int)
    requires
        0 <= k < 111,
    ensures
        ({
            let (run, level) = coded_pair(k);
            &&& 2 <= first_places()[k] < 113
            &&& DCT_COEFF_TABLE0@[first_places()[k]].2 == 256 * run + level
        }),
{
}

/// The codes of the first table follow one another without a gap, from sixteen ones down to
/// those that begin with twelve zeros.
#[verifier::spinoff_prover]
#[verifier::rlimit(60)]
pub proof fn law_codes_of_the_first_table_part(i: int)
    requires
        0 <= i < 113,
    ensures
        ({
            let row = DCT_COEFF_TABLE0@[first_order()[i]];
            &&& 0 <= first_order()[i] < 113
            &&& 2 <= row.1 <= 16
            &&& i == 0 ==> worth(row) + room(row) == 0x1_0000
            &&& i > 0 ==> worth(row) + room(row) == worth(DCT_COEFF_TABLE0@[first_order()[i - 1]])
            &&& worth(row) >= 16
        }),
{
}

/// Where the pairs stand in the second table.
pub open spec fn second_places() -> Seq<int> {
    seq![
        2, 3, 4, 5, 6, 7, 8, 9, 10, 11, 12, 13, 14, 15, 16, 17, 18, 19,
        20, 21, 22, 23, 24, 25, 26, 27, 28, 29, 30, 31, 32, 33, 34, 35, 36, 37,
        38, 39, 40, 41, 42, 43, 44, 45, 46, 47, 48, 49, 50, 51, 52, 53, 54, 55,
        56, 57, 58, 59, 60, 61, 62, 63, 64, 65, 66, 67, 68, 69, 70, 71, 72, 73,
        74, 75, 76, 77, 78, 79, 80, 81, 82, 83, 84, 85, 86, 87, 88, 89, 90, 91,
        92, 93, 94, 95, 96, 97, 98, 99, 100, 101, 102, 103, 104, 105, 106, 107, 108, 109,
        110, 111, 112,
    ]
}

/// The rows of the second table, the highest code first.
pub open spec fn second_order() -> Seq<int> {
    seq![
        16, 15, 70, 62, 14, 13, 10, 9, 84, 44, 82, 6, 5, 3, 2, 4, 0, 42,
        65, 43, 60, 45, 66, 88, 90, 11, 12, 86, 46, 72, 69, 7, 8, 61, 75, 80,
        78, 1, 94, 96, 63, 92, 73, 98, 76, 67, 99, 100, 101, 102, 79, 71, 81, 103,
        104, 105, 106, 107, 47, 48, 64, 68, 74, 83, 85, 17, 18, 19, 20, 21, 22, 23,
        24, 25, 26, 27, 28, 29, 30, 31, 32, 49, 50, 51, 52, 53, 54, 55, 33, 34,
        35, 36, 37, 38, 39, 40, 41, 108, 109, 110, 111, 112, 87, 89, 91, 93, 95, 97,
        77, 56, 57, 58, 59,
    ]
}

/// Every run and level that has a code has one in the second table.
#[verifier::spinoff_prover]
#[verifier::rlimit(60)]
pub proof fn law_pairs_have_codes_in_the_second_table(k: int)
    requires
        0 <= k < 111,
    ensures
        ({
            let (run, level) = coded_pair(k);
            &&& 2 <= second_places()[k] < 113
            &&& DCT_COEFF_TABLE1@[second_places()[k]].2 == 256 * run + level
        }),
{
}

/// No code of the second table begins another: each ends before the one above it.
#[verifier::spinoff_prover]
#[verifier::rlimit(60)]
pub proof fn law_codes_of_the_second_table_part(i: int)
    requires
        0 <= i < 113,
    ensures
        ({
            let row = DCT_COEFF_TABLE1@[second_order()[i]];
            &&& 0 <= second_order()[i] < 113
            &&& 2 <= row.1 <= 16
            &&& i == 0 ==> worth(row) + room(row) <= 0x1_0000
            &&& i > 0 ==> worth(row) + room(row) <= worth(DCT_COEFF_TABLE1@[second_order()[i - 1]])
            &&& worth(row) >= 16
        }),
{
}

/// The end of a block is two bits in the first table and four in the second; six bits announce
/// a run and a level that are spelt out, in both.
pub proof fn law_blocks_end_and_escape()
    ensures
        DCT_COEFF_TABLE0@[0] == (0b10u32, 2u32, -1i32),
        DCT_COEFF_TABLE1@[0] == (0b0110u32, 4u32, -1i32),
        DCT_COEFF_TABLE0@[1] == (1u32, 6u32, -2i32),
        DCT_COEFF_TABLE1@[1] == (1u32, 6u32, -2i32),
{
}

/// How coarsely intra blocks are quantised where nothing is loaded, row by row.
pub open spec fn intra_figure() -> Seq<int> {
    seq![
        8, 16, 19, 22, 26, 27, 29, 34,
        16, 16, 22, 24, 27, 29, 34, 37,
        19, 22, 26, 27, 29, 34, 34, 38,
        22, 22, 26, 27, 29, 34, 37, 40,
        22, 26, 27, 29, 32, 35, 40, 48,
        26, 27, 29, 32, 35, 40, 48, 58,
        26, 27, 29, 34, 38, 46, 56, 69,
        27, 29, 35, 38, 46, 56, 69, 83,
    ]
}

/// Where no matrices are loaded intra blocks are quantised by the figure, the more coarsely
/// the further a coefficient is from the first, and all others evenly.
pub proof fn law_unloaded_matrices_are_the_figure(k: int)
    requires
        0 <= k < 64,
    ensures
        DEFAULT_INTRA_QUANT@[k] == intra_figure()[k],
        DEFAULT_NON_INTRA_QUANT@[k] == 16,
        k % 8 > 0 ==> DEFAULT_INTRA_QUANT@[k - 1] <= DEFAULT_INTRA_QUANT@[k],
        k >= 8 ==> DEFAULT_INTRA_QUANT@[k - 8] <= DEFAULT_INTRA_QUANT@[k],
{
}

} // verus!
