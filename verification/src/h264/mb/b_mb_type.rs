//! The `mb_type` of a macroblock of a B slice predicted whole (Table 7-14).
use vstd::prelude::*;

verus! {

pub const L0_16X16: u32 = 1;

pub const L1_16X16: u32 = 2;

pub const BI_16X16: u32 = 3;

} // verus!
