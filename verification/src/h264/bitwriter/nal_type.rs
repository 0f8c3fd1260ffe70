//! Values of `nal_unit_type`.
use vstd::prelude::*;

verus! {

pub const SLICE_NON_IDR: u8 = 1;

pub const SLICE_IDR: u8 = 5;

pub const SEI: u8 = 6;

pub const SPS: u8 = 7;

pub const PPS: u8 = 8;

pub const AUD: u8 = 9;

} // verus!
