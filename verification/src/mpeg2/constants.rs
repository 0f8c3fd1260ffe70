//! Codes, enumerations and tables of the MPEG-1 and MPEG-2 video syntax.
use vstd::prelude::*;

pub mod chroma_format;
pub mod extension;
pub mod mb_flag;
pub mod start_code;

verus! {

/// `picture_coding_type`.
#[derive(Clone, Copy, Debug, PartialEq, Eq, Structural)]
pub enum PictureType {
    I,
    P,
    B,
    /// A DC-only picture or a code the syntax leaves undefined.
    Other,
}

impl PictureType {
    /// The type that `code` stands for.
    pub open spec fn of_code(code: int) -> PictureType {
        if code == 1 {
            PictureType::I
        } else if code == 2 {
            PictureType::P
        } else if code == 3 {
            PictureType::B
        } else {
            PictureType::Other
        }
    }

    /// The type that `code` stands for.
    pub fn from_code(code: u32) -> (kind: PictureType)
        ensures
            kind == PictureType::of_code(code as int),
    {
        match code {
            1 => PictureType::I,
            2 => PictureType::P,
            3 => PictureType::B,
            _ => PictureType::Other,
        }
    }

    /// Whether this is one of the three types that carry a whole picture.
    pub fn is_ipb(self) -> (yes: bool)
        ensures
            yes == !(self is Other),
    {
        match self {
            PictureType::Other => false,
            _ => true,
        }
    }
}

/// `picture_structure`.
#[derive(Clone, Copy, Debug, PartialEq, Eq, Structural)]
pub enum PictureStructure {
    Reserved,
    TopField,
    BottomField,
    Frame,
}

impl PictureStructure {
    /// The structure that `code` stands for.
    pub open spec fn of_code(code: int) -> PictureStructure {
        if code == 1 {
            PictureStructure::TopField
        } else if code == 2 {
            PictureStructure::BottomField
        } else if code == 3 {
            PictureStructure::Frame
        } else {
            PictureStructure::Reserved
        }
    }

    /// The structure that `code` stands for.
    pub fn from_code(code: u32) -> (structure: PictureStructure)
        ensures
            structure == PictureStructure::of_code(code as int),
    {
        match code {
            1 => PictureStructure::TopField,
            2 => PictureStructure::BottomField,
            3 => PictureStructure::Frame,
            _ => PictureStructure::Reserved,
        }
    }
}

/// The zigzag scan: the raster position of each coefficient in coded order.
pub const ZIGZAG_SCAN: [usize; 64] = [
    0, 1, 8, 16, 9, 2, 3, 10, 17, 24, 32, 25, 18, 11, 4, 5,
    12, 19, 26, 33, 40, 48, 41, 34, 27, 20, 13, 6, 7, 14, 21, 28,
    35, 42, 49, 56, 57, 50, 43, 36, 29, 22, 15, 23, 30, 37, 44, 51,
    58, 59, 52, 45, 38, 31, 39, 46, 53, 60, 61, 54, 47, 55, 62, 63,
];

/// The alternate scan, which `alternate_scan` selects.
pub const ALTERNATE_SCAN: [usize; 64] = [
    0, 8, 16, 24, 1, 9, 2, 10, 17, 25, 32, 40, 48, 56, 57, 49,
    41, 33, 26, 18, 3, 11, 4, 12, 19, 27, 34, 42, 50, 58, 35, 43,
    51, 59, 20, 28, 5, 13, 6, 14, 21, 29, 36, 44, 52, 60, 37, 45,
    53, 61, 22, 30, 7, 15, 23, 31, 38, 46, 54, 62, 39, 47, 55, 63,
];

/// The intra quantiser matrix a sequence uses until it loads another, in raster
/// order.
pub const DEFAULT_INTRA_QUANT: [i32; 64] = [
    8, 16, 19, 22, 26, 27, 29, 34,
    16, 16, 22, 24, 27, 29, 34, 37,
    19, 22, 26, 27, 29, 34, 34, 38,
    22, 22, 26, 27, 29, 34, 37, 40,
    22, 26, 27, 29, 32, 35, 40, 48,
    26, 27, 29, 32, 35, 40, 48, 58,
    26, 27, 29, 34, 38, 46, 56, 69,
    27, 29, 35, 38, 46, 56, 69, 83,
];

/// The non-intra quantiser matrix a sequence uses until it loads another.
pub const DEFAULT_NON_INTRA_QUANT: [i32; 64] = [
    16, 16, 16, 16, 16, 16, 16, 16,
    16, 16, 16, 16, 16, 16, 16, 16,
    16, 16, 16, 16, 16, 16, 16, 16,
    16, 16, 16, 16, 16, 16, 16, 16,
    16, 16, 16, 16, 16, 16, 16, 16,
    16, 16, 16, 16, 16, 16, 16, 16,
    16, 16, 16, 16, 16, 16, 16, 16,
    16, 16, 16, 16, 16, 16, 16, 16,
];

/// The frame rate each `frame_rate_code` names, as a fraction. A zero numerator
/// marks a code that names none.
pub const FRAME_RATE: [(u32, u32); 9] = [
    (0, 0),
    (24000, 1001),
    (24, 1),
    (25, 1),
    (30000, 1001),
    (30, 1),
    (50, 1),
    (60000, 1001),
    (60, 1),
];

/// Every entry of both scans is a position of an 8x8 block.
pub proof fn lemma_scans_in_range()
    ensures
        forall|i: int| 0 <= i < 64 ==> 0 <= #[trigger] ZIGZAG_SCAN@[i] < 64,
        forall|i: int| 0 <= i < 64 ==> 0 <= #[trigger] ALTERNATE_SCAN@[i] < 64,
{
}


/// The quantiser scale that a code stands for (H.262 Table 7-6), indexed by
/// `q_scale_type` and the code.
pub const QUANTISER_SCALE: [[i32; 32]; 2] = [
    [
        0, 2, 4, 6, 8, 10, 12, 14, 16, 18, 20, 22, 24, 26, 28, 30, 32, 34, 36, 38, 40, 42, 44, 46,
        48, 50, 52, 54, 56, 58, 60, 62,
    ],
    [
        0, 1, 2, 3, 4, 5, 6, 7, 8, 10, 12, 14, 16, 18, 20, 22, 24, 28, 32, 36, 40, 44, 48, 52, 56,
        64, 72, 80, 88, 96, 104, 112,
    ],
];

} // verus!
