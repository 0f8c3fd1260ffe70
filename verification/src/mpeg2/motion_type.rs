//! `frame_motion_type` / `field_motion_type` values (Tables 6-17, 6-18).
use vstd::prelude::*;

verus! {

pub const NONE: i32 = 0;

pub const FIELD: i32 = 1;

/// Frame-based in frame pictures; 16x8 MC in field pictures.
pub const FRAME_OR_16X8: i32 = 2;

pub const DUAL_PRIME: i32 = 3;

} // verus!
