//! How macroblocks are predicted.
use vstd::prelude::*;

pub mod b_mb_type;

verus! {

/// Which lists a part of a macroblock is predicted from.
#[derive(Clone, Copy, PartialEq, Eq, Debug, Structural)]
pub enum PredictionMode {
    L0,
    L1,
    Bi,
}

impl PredictionMode {
    /// The lists that a whole macroblock of this type is predicted from.
    pub open spec fn of_mb_type(mb_type: u32) -> PredictionMode {
        if mb_type == b_mb_type::L0_16X16 {
            PredictionMode::L0
        } else if mb_type == b_mb_type::L1_16X16 {
            PredictionMode::L1
        } else {
            PredictionMode::Bi
        }
    }

    pub fn from_mb_type(mb_type: u32) -> (mode: Self)
        ensures
            mode == PredictionMode::of_mb_type(mb_type),
    {
        if mb_type == b_mb_type::L0_16X16 {
            PredictionMode::L0
        } else if mb_type == b_mb_type::L1_16X16 {
            PredictionMode::L1
        } else {
            PredictionMode::Bi
        }
    }
}

/// The type of a macroblock whose upper and lower halves are predicted apart
/// (Table 7-14).
pub open spec fn halves_mb_type(upper: PredictionMode, lower: PredictionMode) -> u32 {
    match (upper, lower) {
        (PredictionMode::L0, PredictionMode::L0) => 4,
        (PredictionMode::L1, PredictionMode::L1) => 6,
        (PredictionMode::L0, PredictionMode::L1) => 8,
        (PredictionMode::L1, PredictionMode::L0) => 10,
        (PredictionMode::L0, PredictionMode::Bi) => 12,
        (PredictionMode::L1, PredictionMode::Bi) => 14,
        (PredictionMode::Bi, PredictionMode::L0) => 16,
        (PredictionMode::Bi, PredictionMode::L1) => 18,
        (PredictionMode::Bi, PredictionMode::Bi) => 20,
    }
}

pub fn b16x8_mb_type(upper: PredictionMode, lower: PredictionMode) -> (mb_type: u32)
    ensures
        mb_type == halves_mb_type(upper, lower),
{
    match (upper, lower) {
        (PredictionMode::L0, PredictionMode::L0) => 4,
        (PredictionMode::L1, PredictionMode::L1) => 6,
        (PredictionMode::L0, PredictionMode::L1) => 8,
        (PredictionMode::L1, PredictionMode::L0) => 10,
        (PredictionMode::L0, PredictionMode::Bi) => 12,
        (PredictionMode::L1, PredictionMode::Bi) => 14,
        (PredictionMode::Bi, PredictionMode::L0) => 16,
        (PredictionMode::Bi, PredictionMode::L1) => 18,
        (PredictionMode::Bi, PredictionMode::Bi) => 20,
    }
}

/// How the upper and the lower half of a macroblock of this type are predicted.
pub open spec fn modes_of_halves(mb_type: u32) -> (PredictionMode, PredictionMode) {
    if mb_type == 4 {
        (PredictionMode::L0, PredictionMode::L0)
    } else if mb_type == 6 {
        (PredictionMode::L1, PredictionMode::L1)
    } else if mb_type == 8 {
        (PredictionMode::L0, PredictionMode::L1)
    } else if mb_type == 10 {
        (PredictionMode::L1, PredictionMode::L0)
    } else if mb_type == 12 {
        (PredictionMode::L0, PredictionMode::Bi)
    } else if mb_type == 14 {
        (PredictionMode::L1, PredictionMode::Bi)
    } else if mb_type == 16 {
        (PredictionMode::Bi, PredictionMode::L0)
    } else if mb_type == 18 {
        (PredictionMode::Bi, PredictionMode::L1)
    } else {
        (PredictionMode::Bi, PredictionMode::Bi)
    }
}

/// The type of a macroblock tells how either half is predicted.
pub proof fn law_types_tell_the_halves(upper: PredictionMode, lower: PredictionMode)
    ensures
        modes_of_halves(halves_mb_type(upper, lower)) == (upper, lower),
{
}

/// The references and vectors that a part of a macroblock leaves behind for its
/// neighbours to be predicted from. A list that is not used has index -1.
#[derive(Clone, Copy, PartialEq, Eq, Debug, Structural)]
pub struct MbMotion {
    pub ref_idx_l0: i32,
    pub ref_idx_l1: i32,
    pub mv_l0x: i32,
    pub mv_l0y: i32,
    pub mv_l1x: i32,
    pub mv_l1y: i32,
}

/// The references of a part of a macroblock, and how its vectors differ from what
/// its neighbours predict.
#[derive(Clone, Copy, PartialEq, Eq, Debug, Structural)]
pub struct MotionPartition {
    pub ref_idx_l0: i32,
    pub ref_idx_l1: i32,
    pub mvd_l0x: i32,
    pub mvd_l0y: i32,
    pub mvd_l1x: i32,
    pub mvd_l1y: i32,
}

/// What the syntax of an inter macroblock says beside its coefficients.
#[derive(Clone, Copy, PartialEq, Eq, Debug)]
pub struct InterMacroblock {
    pub mb_x: usize,
    pub mb_y: usize,
    pub p_slice: bool,
    pub mb_type: u32,
    pub ref_idx_l0: i32,
    pub ref_idx_l1: i32,
    pub mvd_l0x: i32,
    pub mvd_l0y: i32,
    pub mvd_l1x: i32,
    pub mvd_l1y: i32,
    /// The upper and the lower half, where they are predicted apart.
    pub partitions: Option<[MotionPartition; 2]>,
    pub num_ref_idx_l0_minus1: i32,
    pub num_ref_idx_l1_minus1: i32,
    pub qp: i32,
    pub prev_qp: i32,
}

} // verus!
