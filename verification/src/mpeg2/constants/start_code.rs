//! The last byte of each start code.
use vstd::prelude::*;

verus! {

pub const PICTURE: u8 = 0x00;

pub const SLICE_MIN: u8 = 0x01;

pub const SLICE_MAX: u8 = 0xaf;

pub const SEQUENCE_HEADER: u8 = 0xb3;

pub const EXTENSION: u8 = 0xb5;

pub const GROUP: u8 = 0xb8;

} // verus!
