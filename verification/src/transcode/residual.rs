//! What the coefficients of a macroblock are made from.
use crate::mpeg2::constants::{mb_flag, QUANTISER_SCALE};
use crate::mpeg2::headers::{Picture, PictureView};
use crate::mpeg2::macroblock;
use crate::mpeg2::macroblock::{Macroblock, MacroblockView};
use crate::transcode::motion;
use crate::transcode::motion::{codes_intra, flags_intra};
use crate::transcode::predict;
use vstd::prelude::*;

verus! {

/// How the levels of a macroblock are scaled back.
#[derive(Clone, Copy, Debug, PartialEq, Eq, Structural)]
pub struct LevelScale {
    pub quantiser_scale: i32,
    pub intra: bool,
    /// Whether the inverse quantisation is MPEG-1's.
    pub mpeg1: bool,
    pub intra_dc_precision: u32,
    /// Whether the blocks hold alternate lines and have to be brought back to the lines
    /// of the frame.
    pub field_lines: bool,
}

/// The quantiser scale that a code stands for in a picture.
pub open spec fn scale_of(pic: PictureView, code: u32) -> i32 {
    QUANTISER_SCALE[pic.coding.q_scale_type as int][code as int]
}

/// No quantiser scale is coarser than 112.
proof fn lemma_scale_small(pic: PictureView, code: u32)
    requires
        pic.coding.wf(),
        code < 32,
    ensures
        0 <= scale_of(pic, code) <= 112,
{
    assert(forall|k: int| 0 <= k < 32 ==> 0 <= #[trigger] QUANTISER_SCALE[0][k] <= 112);
    assert(forall|k: int| 0 <= k < 32 ==> 0 <= #[trigger] QUANTISER_SCALE[1][k] <= 112);
}

/// Whether the source gave the macroblock a quantiser scale that the tables name.
pub open spec fn scale_named(source: Option<&Macroblock>) -> bool {
    source matches Some(m) ==> m.quantiser_scale_code < 32
}

/// How the levels of a macroblock are scaled back; nothing where it carries none. The
/// two halves of a pair are two coded pictures with headers of their own, and they need
/// not agree: an I field and the P field beside it routinely differ in
/// intra_dc_precision alone. Every macroblock has to be dequantised against the header
/// of the field it came from.
pub open spec fn level_scale(pic: PictureView, pair: bool, source: Option<MacroblockView>) -> Option<
    LevelScale,
> {
    let intra = motion::is_intra_source(source);
    match source {
        Some(m) if !m.skipped && (macroblock::has_flag(m.flags, mb_flag::PATTERN) || intra) => {
            Some(
                LevelScale {
                    quantiser_scale: scale_of(pic, m.quantiser_scale_code),
                    intra,
                    mpeg1: pic.is_mpeg1,
                    intra_dc_precision: pic.coding.intra_dc_precision,
                    field_lines: m.dct_type == 1 && !pair,
                },
            )
        },
        _ => None,
    }
}

/// How the levels of a macroblock are scaled back; nothing where it carries none.
pub fn scale_levels(pic: &Picture, pair: bool, source: Option<&Macroblock>) -> (scale: Option<
    LevelScale,
>)
    requires
        pic@.coding.wf(),
        scale_named(source),
    ensures
        scale == level_scale(pic@, pair, predict::source_view(source)),
        scale matches Some(levels) ==> 0 <= levels.quantiser_scale <= 112,
{
    let intra: bool = codes_intra(source);
    match source {
        Some(m) => if !m.skipped && (macroblock::flagged(m.flags, mb_flag::PATTERN) || intra) {
            Some(
                LevelScale {
                    quantiser_scale: scale_for(pic, m.quantiser_scale_code),
                    intra,
                    mpeg1: pic.is_mpeg1,
                    intra_dc_precision: pic.coding.intra_dc_precision,
                    field_lines: m.dct_type == 1 && !pair,
                },
            )
        } else {
            None
        },
        None => None,
    }
}

/// The quantiser scale that a code stands for in a picture.
pub fn scale_for(pic: &Picture, code: u32) -> (scale: i32)
    requires
        pic@.coding.wf(),
        code < 32,
    ensures
        scale == scale_of(pic@, code),
        0 <= scale <= 112,
{
    proof {
        lemma_scale_small(pic@, code);
    }
    QUANTISER_SCALE[pic.coding.q_scale_type][code as usize]
}

/// The matrix that luma levels are scaled back with.
pub fn luma_matrix(pic: &Picture, intra: bool) -> (matrix: &[i32; 64])
    ensures
        matrix@ == (if intra {
            pic@.quant.intra
        } else {
            pic@.quant.non_intra
        }),
{
    if intra {
        &pic.quant.intra
    } else {
        &pic.quant.non_intra
    }
}

/// The matrix that chroma levels are scaled back with.
pub fn chroma_matrix(pic: &Picture, intra: bool) -> (matrix: &[i32; 64])
    ensures
        matrix@ == (if intra {
            pic@.quant.chroma_intra
        } else {
            pic@.quant.chroma_non_intra
        }),
{
    if intra {
        &pic.quant.chroma_intra
    } else {
        &pic.quant.chroma_non_intra
    }
}

/// Which of a macroblock's four luma blocks carry anything towards the field
/// macroblocks it is shared out to, and whether they were brought to field lines.
#[derive(Clone, Copy, Debug, PartialEq, Eq)]
pub struct FieldTargetSet {
    pub converted: bool,
    pub active: [bool; 4],
}

/// Whether block `b` of a macroblock was coded.
pub open spec fn block_coded(m: MacroblockView, b: int) -> bool {
    m.blocks[b] is Some
}

/// What a macroblock carries towards field macroblocks. One that the source never coded
/// carries nothing, which is the same as one it coded as skipped. Blocks of frame lines
/// are brought to field lines two and two, the upper and the lower of a column, so each
/// field has something wherever either did.
pub open spec fn field_targets(source: Option<MacroblockView>) -> FieldTargetSet {
    match source {
        Some(m) if !m.skipped => if m.dct_type == 1 {
            FieldTargetSet {
                converted: false,
                active: [
                    block_coded(m, 0),
                    block_coded(m, 1),
                    block_coded(m, 2),
                    block_coded(m, 3),
                ],
            }
        } else {
            FieldTargetSet {
                converted: true,
                active: [
                    block_coded(m, 0) || block_coded(m, 2),
                    block_coded(m, 1) || block_coded(m, 3),
                    block_coded(m, 0) || block_coded(m, 2),
                    block_coded(m, 1) || block_coded(m, 3),
                ],
            }
        },
        _ => FieldTargetSet { converted: false, active: [false, false, false, false] },
    }
}

/// What a macroblock of the source carries towards the field macroblocks of its pair.
pub fn source_field_targets(source: Option<&Macroblock>) -> (targets: FieldTargetSet)
    ensures
        targets == field_targets(predict::source_view(source)),
{
    let m: &Macroblock = match source {
        Some(m) => m,
        None => return FieldTargetSet { converted: false, active: [false, false, false, false] },
    };
    if m.skipped {
        return FieldTargetSet { converted: false, active: [false, false, false, false] };
    }
    let b0: bool = m.block(0).is_some();
    let b1: bool = m.block(1).is_some();
    let b2: bool = m.block(2).is_some();
    let b3: bool = m.block(3).is_some();
    if m.dct_type == 1 {
        return FieldTargetSet { converted: false, active: [b0, b1, b2, b3] };
    }
    FieldTargetSet { converted: true, active: [b0 || b2, b1 || b3, b0 || b2, b1 || b3] }
}

/// A block of one of the two macroblocks that a pair of field macroblocks is made from.
#[derive(Clone, Copy, Debug, PartialEq, Eq, Structural)]
pub struct FieldBlock {
    /// The upper macroblock or the lower.
    pub half: usize,
    /// Which of its blocks.
    pub index: usize,
    /// Whether that block was brought to field lines.
    pub converted: bool,
}

/// The block that block `b` of a field macroblock is made from: its upper two come from
/// the upper macroblock and its lower two from the lower, each from the blocks that
/// hold the lines of its field.
pub open spec fn field_block(sets: [FieldTargetSet; 2], field: int, b: int) -> Option<FieldBlock> {
    let half = b / 2;
    let index = 2 * field + b % 2;
    if sets[half].active[index] {
        Some(
            FieldBlock {
                half: half as usize,
                index: index as usize,
                converted: sets[half].converted,
            },
        )
    } else {
        None
    }
}

/// The block that block `b` of a field macroblock is made from.
pub fn pick_field_block(sets: &[FieldTargetSet; 2], field: usize, b: usize) -> (block: Option<
    FieldBlock,
>)
    requires
        field <= 1,
        b <= 3,
    ensures
        block == field_block(*sets, field as int, b as int),
{
    let half: usize = b / 2;
    let index: usize = 2 * field + b % 2;
    let set: FieldTargetSet = sets[half];
    if set.active[index] {
        Some(FieldBlock { half, index, converted: set.converted })
    } else {
        None
    }
}

/// The two field macroblocks of a pair are made from different blocks, and between them
/// from every block of both macroblocks that carries anything.
pub proof fn law_pair_shares_out_every_block(sets: [FieldTargetSet; 2], half: int, index: int)
    requires
        0 <= half < 2,
        0 <= index < 4,
        sets[half].active[index],
    ensures
        ({
            let field = index / 2;
            let b = 2 * half + index % 2;
            &&& field_block(sets, field, b) == Some(
                FieldBlock {
                    half: half as usize,
                    index: index as usize,
                    converted: sets[half].converted,
                },
            )
            &&& forall|f: int, c: int|
                0 <= f < 2 && 0 <= c < 4 && (#[trigger] field_block(sets, f, c)) is Some
                    && field_block(sets, f, c)->Some_0.half == half
                    && field_block(sets, f, c)->Some_0.index == index ==> f == field && c == b
        }),
{
}

/// The quantiser of a pair of field macroblocks: the finer of its two macroblocks', and
/// where neither is there, whatever the macroblock before was coded at.
pub open spec fn finer(upper: Option<i32>, lower: Option<i32>, previous: i32) -> i32 {
    match (upper, lower) {
        (Some(a), Some(b)) => if a <= b {
            a
        } else {
            b
        },
        (Some(a), None) => a,
        (None, Some(b)) => b,
        (None, None) => previous,
    }
}

/// The quantiser of a pair of field macroblocks. One H.264 field macroblock combines
/// eight field lines from each of the two vertically adjacent MPEG-2 macroblocks. Use
/// the finer source QP for both, and where neither half is there, whatever the
/// macroblock before was coded at -- nothing is being coded at it, and it saves a
/// mb_qp_delta saying so.
pub fn pair_qp(upper: Option<i32>, lower: Option<i32>, previous: i32) -> (qp: i32)
    ensures
        qp == finer(upper, lower, previous),
{
    match (upper, lower) {
        (Some(a), Some(b)) => if a <= b {
            a
        } else {
            b
        },
        (Some(a), None) => a,
        (None, Some(b)) => b,
        (None, None) => previous,
    }
}

/// One chroma component of a macroblock in a field-coded pair, as the chroma
/// converter needs to see it.
#[derive(Clone, Copy, Debug)]
pub struct FieldChromaSource<'a> {
    pub levels: Option<&'a [i16; 64]>,
    pub weight_scale: &'a [i32; 64],
    pub quantiser_scale: i32,
    pub intra_dc_precision: u32,
    pub intra: bool,
}

/// One chroma component of a macroblock in a field-coded pair.
pub fn field_chroma_source<'a>(
    pic: &'a Picture,
    source: Option<&'a Macroblock>,
    component: usize,
) -> (chroma: FieldChromaSource<'a>)
    requires
        pic@.coding.wf(),
        scale_named(source),
        component <= 1,
    ensures
        match source {
            Some(m) => match chroma.levels {
                Some(levels) => m@.blocks[4 + component as int] == Some(levels@),
                None => m@.blocks[4 + component as int] is None,
            },
            None => chroma.levels is None,
        },
        chroma.intra == motion::has_intra_flag(predict::source_view(source)),
        chroma.weight_scale@ == (if chroma.intra {
            pic@.quant.chroma_intra
        } else {
            pic@.quant.chroma_non_intra
        }),
        chroma.quantiser_scale == scale_of(
            pic@,
            match source {
                Some(m) => m.quantiser_scale_code,
                None => 0,
            },
        ),
        chroma.intra_dc_precision == pic@.coding.intra_dc_precision,
{
    let intra: bool = flags_intra(source);
    FieldChromaSource {
        levels: match source {
            Some(m) => m.block(4 + component),
            None => None,
        },
        weight_scale: chroma_matrix(pic, intra),
        quantiser_scale: scale_for(
            pic,
            match source {
                Some(m) => m.quantiser_scale_code,
                None => 0,
            },
        ),
        intra_dc_precision: pic.coding.intra_dc_precision,
        intra,
    }
}

} // verus!
