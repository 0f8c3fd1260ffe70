//! The bits of `macroblock_type`.
use vstd::prelude::*;

verus! {

/// The macroblock carries its own quantiser scale.
pub const QUANT: i32 = 16;

pub const MOTION_FORWARD: i32 = 8;

pub const MOTION_BACKWARD: i32 = 4;

/// The macroblock carries a coded block pattern.
pub const PATTERN: i32 = 2;

pub const INTRA: i32 = 1;

} // verus!
