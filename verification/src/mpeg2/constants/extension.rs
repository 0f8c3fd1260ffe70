//! Values of `extension_start_code_identifier`.
use vstd::prelude::*;

verus! {

pub const SEQUENCE: u32 = 1;

pub const QUANT_MATRIX: u32 = 3;

pub const PICTURE_CODING: u32 = 8;

} // verus!
