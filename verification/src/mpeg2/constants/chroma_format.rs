//! Values of `chroma_format`.
use vstd::prelude::*;

verus! {

pub const C420: u32 = 1;

} // verus!
