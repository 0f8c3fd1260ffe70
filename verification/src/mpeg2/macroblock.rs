//! MPEG-2 macroblock layer decoding.
//!
//! Coefficients come out as quantised levels, not pixels: the levels are mapped
//! straight into H.264 syntax, so nothing here dequantises, inverse transforms, or
//! motion compensates. Motion vectors are reconstructed because the H.264 side
//! needs their actual values.
use crate::bitreader::BitReader;
use crate::bits;
use crate::bits::{place_of, power_of_two};
use crate::error::Error;
use crate::mpeg2::block;
use crate::mpeg2::block::{
    decode_block, decode_motion_component, mirror_single_vector_predictors, motion_spec, MotionSpec,
};
use crate::mpeg2::constants::{mb_flag, PictureStructure, PictureType};
use crate::mpeg2::headers::{Picture, PictureView, Slice};
use crate::mpeg2::motion_type;
use crate::mpeg2::pattern;
use crate::mpeg2::vlc::VlcTable;
use crate::mpeg2::vlc_tables::MB_ADDR_ESCAPE;
use vstd::arithmetic::power2;
use vstd::prelude::*;

verus! {

#[derive(Clone)]
pub struct Macroblock {
    /// Macroblock address within the picture, in raster order.
    pub address: usize,
    /// True for macroblocks covered by `macroblock_address_increment` but not coded.
    pub skipped: bool,
    /// Bit set of [`mb_flag`].
    pub flags: i32,
    pub quantiser_scale_code: u32,
    /// `frame_motion_type` or `field_motion_type`; 0 when the macroblock has no motion.
    pub motion_type: i32,
    /// 0 = frame DCT, 1 = field DCT.
    pub dct_type: u32,
    /// `coded_block_pattern`; for intra macroblocks all blocks are coded.
    pub cbp: i32,
    /// Reconstructed motion vectors in half-pel units, indexed
    /// `[r * 4 + s * 2 + t]` with r the vector index, s = 0 forward / 1
    /// backward, t = 0 horizontal / 1 vertical.
    pub mv: [i32; 8],
    /// Dual-prime differential vector, whose two components are each -1, 0,
    /// or +1 (H.262 7.6.3.6).
    pub dmvector: [i32; 2],
    /// `motion_vertical_field_select`, indexed `[r * 2 + s]`.
    pub field_select: [u8; 4],
    /// How many of the two vector slots are in use.
    pub mv_count: usize,
    /// Six 8x8 blocks of quantised levels in raster order.
    pub blocks: [[i16; 64]; 6],
    /// Which of the blocks carry decoded levels.
    pub coded_blocks: [bool; 6],
}

/// A macroblock as a mathematical value. A block that was not coded is absent.
#[verifier::ext_equal]
pub struct MacroblockView {
    pub address: usize,
    pub skipped: bool,
    pub flags: i32,
    pub quantiser_scale_code: u32,
    pub motion_type: i32,
    pub dct_type: u32,
    pub cbp: i32,
    pub mv: Seq<i32>,
    pub dmvector: Seq<i32>,
    pub field_select: Seq<u8>,
    pub mv_count: usize,
    pub blocks: Seq<Option<Seq<i16>>>,
}

impl View for Macroblock {
    type V = MacroblockView;

    open spec fn view(&self) -> MacroblockView {
        MacroblockView {
            address: self.address,
            skipped: self.skipped,
            flags: self.flags,
            quantiser_scale_code: self.quantiser_scale_code,
            motion_type: self.motion_type,
            dct_type: self.dct_type,
            cbp: self.cbp,
            mv: self.mv@,
            dmvector: self.dmvector@,
            field_select: self.field_select@,
            mv_count: self.mv_count,
            blocks: Seq::new(
                6,
                |i: int|
                    if self.coded_blocks@[i] {
                        Some(self.blocks@[i]@)
                    } else {
                        None
                    },
            ),
        }
    }
}

/// Eight zero vector components.
pub open spec fn no_motion() -> Seq<i32> {
    Seq::new(8, |i: int| 0i32)
}

/// A macroblock with nothing coded in it yet.
pub open spec fn fresh_macroblock(address: usize, quantiser_scale_code: u32) -> MacroblockView {
    MacroblockView {
        address,
        skipped: false,
        flags: 0,
        quantiser_scale_code,
        motion_type: motion_type::NONE,
        dct_type: 0,
        cbp: 0,
        mv: no_motion(),
        dmvector: Seq::new(2, |i: int| 0i32),
        field_select: Seq::new(4, |i: int| 0u8),
        mv_count: 1,
        blocks: Seq::new(6, |i: int| None),
    }
}

/// Whether `flags` has any bit of `bit`.
pub open spec fn has_flag(flags: i32, bit: i32) -> bool {
    flags & bit != 0
}

/// Whether a flag is among `flags`.
pub fn flagged(flags: i32, bit: i32) -> (yes: bool)
    ensures
        yes == has_flag(flags, bit),
{
    flags & bit != 0
}

impl Macroblock {
    /// Levels of one 8x8 block, or `None` where the source did not code it.
    pub fn block(&self, index: usize) -> (levels: Option<&[i16; 64]>)
        ensures
            match levels {
                Some(b) => index < 6 && self@.blocks[index as int] == Some(b@),
                None => index < 6 ==> self@.blocks[index as int] is None,
            },
    {
        if index < 6 && self.coded_blocks[index] {
            Some(&self.blocks[index])
        } else {
            None
        }
    }

    pub fn is_intra(&self) -> (yes: bool)
        ensures
            yes == has_flag(self.flags, mb_flag::INTRA),
    {
        self.flags & mb_flag::INTRA != 0
    }

    fn empty() -> (mb: Self)
        ensures
            mb@ == fresh_macroblock(0, 0),
    {
        let mb = Macroblock {
            address: 0,
            skipped: false,
            flags: 0,
            quantiser_scale_code: 0,
            motion_type: motion_type::NONE,
            dct_type: 0,
            cbp: 0,
            mv: [0; 8],
            dmvector: [0; 2],
            field_select: [0; 4],
            mv_count: 1,
            blocks: [[0; 64]; 6],
            coded_blocks: [false; 6],
        };
        assert(mb@ =~= fresh_macroblock(0, 0));
        mb
    }

    /// Reset the header fields to decode a fresh macroblock into this cell.
    ///
    /// The six blocks keep whatever the previous picture left in them. Nothing
    /// reads a block that `coded_blocks` does not name.
    fn begin(&mut self, address: usize, quantiser_scale_code: u32)
        ensures
            final(self)@ == fresh_macroblock(address, quantiser_scale_code),
    {
        self.address = address;
        self.skipped = false;
        self.flags = 0;
        self.quantiser_scale_code = quantiser_scale_code;
        self.motion_type = motion_type::NONE;
        self.dct_type = 0;
        self.cbp = 0;
        self.mv = [0; 8];
        self.dmvector = [0; 2];
        self.field_select = [0; 4];
        self.mv_count = 1;
        self.coded_blocks = [false; 6];
        assert(self@ =~= fresh_macroblock(address, quantiser_scale_code));
    }
}

/// One picture's macroblocks, indexed by raster macroblock address.
///
/// The cells outlive the picture they were decoded for. A macroblock is 848
/// bytes and an HD picture has six thousand of them, so both handing the array
/// back to the allocator and emptying it cell by cell cost more than the
/// decoding does. Instead the grid keeps its storage, marks every cell absent, and
/// the decoder writes into the cells in place.
pub struct MacroblockGrid {
    cells: Vec<Macroblock>,
    /// Whether the cell at the same index was decoded for the current picture.
    present: Vec<bool>,
    /// Where a macroblock whose address falls outside the picture is decoded.
    /// Its contents are never read.
    outside: Macroblock,
}

impl View for MacroblockGrid {
    type V = Seq<Option<MacroblockView>>;

    /// The macroblock at each address, absent where the picture coded none.
    closed spec fn view(&self) -> Seq<Option<MacroblockView>> {
        Seq::new(
            self.cells@.len(),
            |i: int|
                if self.present@[i] {
                    Some(self.cells@[i]@)
                } else {
                    None
                },
        )
    }
}

impl MacroblockGrid {
    /// Each cell has its mark.
    pub closed spec fn wf(&self) -> bool {
        self.cells@.len() == self.present@.len()
    }

    pub fn new() -> (grid: Self)
        ensures
            grid.wf(),
            grid@ == Seq::<Option<MacroblockView>>::empty(),
    {
        let grid = MacroblockGrid {
            cells: Vec::new(),
            present: Vec::new(),
            outside: Macroblock::empty(),
        };
        assert(grid@ =~= Seq::empty());
        grid
    }

    /// Start a picture of `cells` macroblocks, all of them absent.
    pub fn reset(&mut self, cells: usize)
        requires
            old(self).wf(),
        ensures
            final(self).wf(),
            final(self)@ == Seq::new(cells as nat, |i: int| None::<MacroblockView>),
            pattern::all_shaped(final(self)@),
    {
        self.cells.truncate(cells);
        self.present.truncate(cells);
        let kept: usize = self.cells.len();
        let mut i: usize = 0;
        while i < kept
            invariant
                i <= kept <= cells,
                self.cells@.len() == kept,
                self.present@.len() == kept,
                forall|k: int| 0 <= k < i ==> !(#[trigger] self.present@[k]),
            decreases kept - i,
        {
            self.present[i] = false;
            i = i + 1;
        }
        while i < cells
            invariant
                i <= cells,
                self.cells@.len() == i,
                self.present@.len() == i,
                forall|k: int| 0 <= k < i ==> !(#[trigger] self.present@[k]),
            decreases cells - i,
        {
            self.cells.push(Macroblock::empty());
            self.present.push(false);
            i = i + 1;
        }
        assert(self@ =~= Seq::new(cells as nat, |i: int| None::<MacroblockView>));
    }

    /// The macroblock at `address`, or `None` where this picture did not code one.
    pub fn get(&self, address: usize) -> (mb: Option<&Macroblock>)
        requires
            self.wf(),
        ensures
            match mb {
                Some(m) => address < self@.len() && self@[address as int] == Some(m@),
                None => address < self@.len() ==> self@[address as int] is None,
            },
    {
        if address < self.present.len() && self.present[address] {
            Some(&self.cells[address])
        } else {
            None
        }
    }
}

impl Default for MacroblockGrid {
    fn default() -> (grid: Self)
        ensures
            grid.wf(),
            grid@ == Seq::<Option<MacroblockView>>::empty(),
    {
        MacroblockGrid::new()
    }
}

/// Per-slice decoder state that persists across macroblocks.
struct SliceState {
    quantiser_scale_code: u32,
    /// DC predictors for Y, Cb, Cr.
    dc_pred: [i32; 3],
    /// Value the DC predictors reset to, from `intra_dc_precision`.
    dc_pred_reset: i32,
    /// Motion vector predictors, same indexing as [`Macroblock::mv`].
    pmv: [i32; 8],
    /// Previous macroblock's direction flags, which skipped B macroblocks reuse.
    prev_flags: Option<i32>,
}

/// What persists from one macroblock of a slice to the next.
#[verifier::ext_equal]
pub struct SliceStateView {
    pub quantiser_scale_code: u32,
    /// DC predictors for Y, Cb, Cr.
    pub dc_pred: Seq<i32>,
    /// Value the DC predictors reset to.
    pub dc_pred_reset: i32,
    /// Motion vector predictors.
    pub pmv: Seq<i32>,
    /// The flags of the last macroblock that was coded.
    pub prev_flags: Option<i32>,
}

impl View for SliceState {
    type V = SliceStateView;

    closed spec fn view(&self) -> SliceStateView {
        SliceStateView {
            quantiser_scale_code: self.quantiser_scale_code,
            dc_pred: self.dc_pred@,
            dc_pred_reset: self.dc_pred_reset,
            pmv: self.pmv@,
            prev_flags: self.prev_flags,
        }
    }
}

/// The DC predictors as they are reset.
pub open spec fn dc_reset(value: i32) -> Seq<i32> {
    Seq::new(3, |i: int| value)
}

/// The f_code of predictor `i`.
pub open spec fn f_code_of(pic: PictureView, i: int) -> u32 {
    pic.coding.f_code@[(i / 2) % 2]@[i % 2]
}

/// Every predictor lies in the range of its f_code.
pub open spec fn predictors_fit(pic: PictureView, pmv: Seq<i32>) -> bool {
    pmv.len() == 8 && forall|i: int|
        0 <= i < 8 ==> block::predictor_fits(#[trigger] pmv[i], f_code_of(pic, i))
}

/// The components of a dual-prime differential are -1, 0 or 1.
pub open spec fn differential_small(d: Seq<i32>) -> bool {
    d.len() == 2 && -1 <= d[0] <= 1 && -1 <= d[1] <= 1
}

/// The macroblock's vectors are ones that the syntax can express.
pub open spec fn motion_small(mb: MacroblockView) -> bool {
    &&& mb.mv.len() == 8
    &&& forall|i: int| 0 <= i < 8 ==> -0x10_0000 <= #[trigger] mb.mv[i] <= 0x10_0000
    &&& differential_small(mb.dmvector)
    &&& mb.field_select.len() == 4
}

/// The vectors of all macroblocks are ones that the syntax can express.
pub open spec fn all_motion_small(grid: Seq<Option<MacroblockView>>) -> bool {
    forall|i: int|
        0 <= i < grid.len() && (#[trigger] grid[i]) is Some ==> motion_small(grid[i]->Some_0)
}

/// Whether the macroblocks of a picture are those of a frame.
pub open spec fn is_frame(pic: PictureView) -> bool {
    pic.coding.picture_structure == PictureStructure::Frame
}

/// Where the stuffing that MPEG-1 allows in front of an address increment ends.
pub open spec fn stuffing_end(data: Seq<u8>, pos: nat) -> nat
    decreases 8 * data.len() - pos,
{
    if pos < 8 * data.len() && bits::bits(data, pos as int, 11) == 0b00000001111 {
        stuffing_end(data, bits::advance(data, pos, 11))
    } else {
        pos
    }
}

/// An address increment at `pos`, behind escapes that add up to `sum`. There is
/// none where the slice ends.
pub open spec fn address_increment_at(data: Seq<u8>, pos: nat, is_mpeg1: bool, sum: int) -> (
    nat,
    Result<Option<int>, Error>,
)
    decreases 8 * data.len() - pos,
    via address_increment_decreases
{
    let p0 = if is_mpeg1 {
        stuffing_end(data, pos)
    } else {
        pos
    };
    let (p1, symbol) = VlcTable::AddressIncrement.decoded_or_stuffing(data, p0);
    match symbol {
        Ok(Some(symbol)) => if symbol == MB_ADDR_ESCAPE {
            address_increment_at(data, p1, is_mpeg1, sum + 33)
        } else {
            (p1, Ok(Some(sum + symbol)))
        },
        Ok(None) => if sum != 0 {
            (p1, Err(Error::UnterminatedAddressEscape))
        } else {
            (p1, Ok(None))
        },
        Err(e) => (p1, Err(e)),
    }
}

#[via_fn]
proof fn address_increment_decreases(data: Seq<u8>, pos: nat, is_mpeg1: bool, sum: int) {
    let p0 = if is_mpeg1 {
        lemma_stuffing_end(data, pos);
        stuffing_end(data, pos)
    } else {
        pos
    };
    VlcTable::AddressIncrement.lemma_decoded(data, p0);
}

proof fn lemma_stuffing_end(data: Seq<u8>, pos: nat)
    ensures
        pos <= stuffing_end(data, pos),
        pos <= 8 * data.len() ==> stuffing_end(data, pos) <= 8 * data.len(),
    decreases 8 * data.len() - pos,
{
    if pos < 8 * data.len() && bits::bits(data, pos as int, 11) == 0b00000001111 {
        lemma_stuffing_end(data, bits::advance(data, pos, 11));
    }
}

/// An increment moves the cursor on, and is no more than 34 for every bit of it.
proof fn lemma_address_increment(data: Seq<u8>, pos: nat, is_mpeg1: bool, sum: int)
    requires
        0 <= sum,
    ensures
        match address_increment_at(data, pos, is_mpeg1, sum) {
            (next, Ok(Some(increment))) => pos < next <= 8 * data.len() && 1 <= increment <= sum
                + 34 * (next - pos),
            _ => true,
        },
    decreases 8 * data.len() - pos,
{
    let p0 = if is_mpeg1 {
        lemma_stuffing_end(data, pos);
        stuffing_end(data, pos)
    } else {
        pos
    };
    VlcTable::AddressIncrement.lemma_decoded(data, p0);
    let (p1, symbol) = VlcTable::AddressIncrement.decoded_or_stuffing(data, p0);
    match symbol {
        Ok(Some(symbol)) => if symbol == MB_ADDR_ESCAPE {
            lemma_address_increment(data, p1, is_mpeg1, sum + 33);
        },
        _ => {},
    }
}

/// Decode a macroblock address increment, or nothing where the slice ends.
pub fn address_increment(r: &mut BitReader<'_>, is_mpeg1: bool) -> (result: Result<
    Option<i64>,
    Error,
>)
    requires
        old(r).wf(),
        272 * old(r).data().len() <= i64::MAX,
    ensures
        final(r).wf(),
        final(r).data() == old(r).data(),
        final(r).at() == address_increment_at(old(r).data(), old(r).at(), is_mpeg1, 0).0,
        match result {
            Ok(Some(increment)) => address_increment_at(
                old(r).data(),
                old(r).at(),
                is_mpeg1,
                0,
            ).1 == Ok::<Option<int>, Error>(Some(increment as int)),
            Ok(None) => address_increment_at(old(r).data(), old(r).at(), is_mpeg1, 0).1 == Ok::<
                Option<int>,
                Error,
            >(None),
            Err(e) => address_increment_at(old(r).data(), old(r).at(), is_mpeg1, 0).1 == Err::<
                Option<int>,
                Error,
            >(e),
        },
{
    let mut increment: i64 = 0;
    loop
        invariant
            r.wf(),
            r.data() == old(r).data(),
            272 * r.data().len() <= i64::MAX,
            0 <= increment <= 34 * r.at(),
            address_increment_at(r.data(), r.at(), is_mpeg1, increment as int)
                == address_increment_at(old(r).data(), old(r).at(), is_mpeg1, 0),
        decreases 8 * r.data().len() - r.at(),
    {
        let ghost start = r.at();
        proof {
            lemma_stuffing_end(r.data(), r.at());
            VlcTable::AddressIncrement.lemma_decoded(r.data(), r.at());
            VlcTable::AddressIncrement.lemma_decoded(r.data(), stuffing_end(r.data(), r.at()));
        }
        // MPEG-1 permits macroblock_stuffing before an increment, including
        // between escapes.
        if is_mpeg1 {
            while r.peek(11) == 0b00000001111
                invariant
                    r.wf(),
                    r.data() == old(r).data(),
                    start <= r.at(),
                    stuffing_end(r.data(), r.at()) == stuffing_end(r.data(), start),
                decreases 8 * r.data().len() - r.at(),
            {
                proof {
                    if r.at() == 8 * r.data().len() {
                        bits::lemma_bits_past_end(r.data(), r.at() as int, 11);
                    }
                }
                r.skip(11);
            }
        }
        match VlcTable::AddressIncrement.decode_or_zero_stuffing(r) {
            Ok(Some(symbol)) => {
                if symbol == MB_ADDR_ESCAPE {
                    increment = increment + 33;
                } else {
                    return Ok(Some(increment + symbol as i64));
                }
            },
            Ok(None) => {
                if increment != 0 {
                    return Err(Error::UnterminatedAddressEscape);
                }
                return Ok(None);
            },
            Err(e) => return Err(e),
        }
    }
}

/// The motion of a macroblock, and the predictors it leaves behind.
struct MotionState {
    pmv: [i32; 8],
    mv: [i32; 8],
    dmvector: [i32; 2],
    field_select: [u8; 4],
    mv_count: usize,
}

/// The motion of a macroblock, and the predictors it leaves behind.
#[verifier::ext_equal]
pub struct MotionView {
    pub pmv: Seq<i32>,
    pub mv: Seq<i32>,
    pub dmvector: Seq<i32>,
    pub field_select: Seq<u8>,
    pub mv_count: usize,
}

impl View for MotionState {
    type V = MotionView;

    closed spec fn view(&self) -> MotionView {
        MotionView {
            pmv: self.pmv@,
            mv: self.mv@,
            dmvector: self.dmvector@,
            field_select: self.field_select@,
            mv_count: self.mv_count,
        }
    }
}

/// The motion of a macroblock before any vector of it is read.
pub open spec fn still(pmv: Seq<i32>) -> MotionView {
    MotionView {
        pmv,
        mv: no_motion(),
        dmvector: Seq::new(2, |i: int| 0i32),
        field_select: Seq::new(4, |i: int| 0u8),
        mv_count: 1,
    }
}

/// A component of the dual-prime differential at `pos`, where the format has one.
pub open spec fn dmvector_at(data: Seq<u8>, pos: nat, format: MotionSpec, before: i32) -> (
    nat,
    Result<i32, Error>,
) {
    if format.dmv {
        VlcTable::Dmvector.decoded(data, pos)
    } else {
        (pos, Ok(before))
    }
}

/// Vector `v` of direction `s` at `pos`.
#[verifier::opaque]
pub open spec fn vector_at(
    data: Seq<u8>,
    pos: nat,
    pic: PictureView,
    format: MotionSpec,
    s: int,
    v: int,
    motion: MotionView,
) -> (nat, Result<MotionView, Error>) {
    // motion_vertical_field_select is sent for both vectors when there are two,
    // and for a lone field-format vector unless it is dual-prime.
    let selects = format.count == 2 || (format.field_format && !format.dmv);
    let p1 = if selects {
        bits::advance(data, pos, 1)
    } else {
        pos
    };
    let field_select = if selects {
        motion.field_select.update(v * 2 + s, bits::bits(data, pos as int, 1) as u8)
    } else {
        motion.field_select
    };
    let base = v * 4 + s * 2;
    let (p2, horizontal) = block::motion_component_at(
        data,
        p1,
        f_code_of(pic, base),
        motion.pmv[base],
        false,
    );
    match horizontal {
        Err(e) => (p2, Err(e)),
        Ok((x, predictor_x)) => {
            let (p3, d0) = dmvector_at(data, p2, format, motion.dmvector[0]);
            match d0 {
                Err(e) => (p3, Err(e)),
                Ok(d0) => {
                    let (p4, vertical) = block::motion_component_at(
                        data,
                        p3,
                        f_code_of(pic, base + 1),
                        motion.pmv[base + 1],
                        format.field_format && is_frame(pic),
                    );
                    match vertical {
                        Err(e) => (p4, Err(e)),
                        Ok((y, predictor_y)) => {
                            let (p5, d1) = dmvector_at(data, p4, format, motion.dmvector[1]);
                            match d1 {
                                Err(e) => (p5, Err(e)),
                                Ok(d1) => (
                                    p5,
                                    Ok(
                                        MotionView {
                                            pmv: motion.pmv.update(base, predictor_x).update(
                                                base + 1,
                                                predictor_y,
                                            ),
                                            mv: motion.mv.update(base, x).update(base + 1, y),
                                            dmvector: seq![d0, d1],
                                            field_select,
                                            mv_count: motion.mv_count,
                                        },
                                    ),
                                ),
                            }
                        },
                    }
                },
            }
        },
    }
}

/// The vectors of direction `s` at `pos`.
#[verifier::opaque]
pub open spec fn vectors_at(
    data: Seq<u8>,
    pos: nat,
    pic: PictureView,
    format: MotionSpec,
    s: int,
    motion: MotionView,
) -> (nat, Result<MotionView, Error>) {
    let (p1, first) = vector_at(
        data,
        pos,
        pic,
        format,
        s,
        0,
        MotionView { mv_count: format.count, ..motion },
    );
    match first {
        Err(e) => (p1, Err(e)),
        Ok(motion) => if format.count == 2 {
            vector_at(data, p1, pic, format, s, 1, motion)
        } else {
            (p1, Ok(motion))
        },
    }
}

/// Read a component of the dual-prime differential, where the format has one.
fn read_dmvector(r: &mut BitReader<'_>, format: MotionSpec, before: i32) -> (result: Result<
    i32,
    Error,
>)
    requires
        old(r).wf(),
    ensures
        final(r).wf(),
        final(r).data() == old(r).data(),
        old(r).at() <= final(r).at(),
        (final(r).at(), result) == dmvector_at(old(r).data(), old(r).at(), format, before),
        result matches Ok(d) ==> -1 <= before <= 1 ==> -1 <= d <= 1,
{
    if format.dmv {
        VlcTable::Dmvector.decode(r)
    } else {
        Ok(before)
    }
}

/// A predictor of its range put in place of another keeps them all in range.
proof fn lemma_update_fits(pic: PictureView, pmv: Seq<i32>, i: int, value: i32)
    requires
        predictors_fit(pic, pmv),
        0 <= i < 8,
        block::predictor_fits(value, f_code_of(pic, i)),
    ensures
        predictors_fit(pic, pmv.update(i, value)),
{
}

/// Decode vector `v` of direction `s`.
fn decode_vector(
    r: &mut BitReader<'_>,
    pic: &Picture,
    format: MotionSpec,
    s: usize,
    v: usize,
    motion: &mut MotionState,
) -> (result: Result<(), Error>)
    requires
        old(r).wf(),
        pic@.coding.wf(),
        s < 2,
        v < 2,
        predictors_fit(pic@, old(motion)@.pmv),
        predictors_fit(pic@, old(motion)@.mv),
        differential_small(old(motion)@.dmvector),
    ensures
        final(r).wf(),
        final(r).data() == old(r).data(),
        old(r).at() <= final(r).at(),
        ({
            let (pos, outcome) = vector_at(
                old(r).data(),
                old(r).at(),
                pic@,
                format,
                s as int,
                v as int,
                old(motion)@,
            );
            &&& final(r).at() == pos
            &&& match result {
                Ok(()) => outcome == Ok::<MotionView, Error>(final(motion)@) && predictors_fit(
                    pic@,
                    final(motion)@.pmv,
                ) && predictors_fit(pic@, final(motion)@.mv) && differential_small(
                    final(motion)@.dmvector,
                ),
                Err(e) => outcome == Err::<MotionView, Error>(e),
            }
        }),
{
    proof {
        reveal(vector_at);
        power2::lemma2_to64();
    }
    if format.count == 2 || (format.field_format && !format.dmv) {
        motion.field_select[v * 2 + s] = r.u(1) as u8;
    }
    let frame: bool = pic.coding.picture_structure == PictureStructure::Frame;
    let base: usize = v * 4 + s * 2;
    assert(f_code_of(pic@, base as int) == pic.coding.f_code@[s as int]@[0]);
    assert(f_code_of(pic@, base + 1) == pic.coding.f_code@[s as int]@[1]);
    let f_code_h: u32 = pic.coding.f_code[s][0];
    let f_code_v: u32 = pic.coding.f_code[s][1];
    assert(block::predictor_fits(motion.pmv@[base as int], f_code_h));
    assert(block::predictor_fits(motion.pmv@[base + 1], f_code_v));
    let ghost pmv = motion.pmv@;
    let ghost mv = motion.mv@;
    let x: i32 = match decode_motion_component(r, f_code_h, &mut motion.pmv, base, false) {
        Ok(x) => x,
        Err(e) => return Err(e),
    };
    motion.mv[base] = x;
    let ghost px = motion.pmv@[base as int];
    let d0: i32 = match read_dmvector(r, format, motion.dmvector[0]) {
        Ok(d) => d,
        Err(e) => return Err(e),
    };
    let y: i32 = match decode_motion_component(
        r,
        f_code_v,
        &mut motion.pmv,
        base + 1,
        format.field_format && frame,
    ) {
        Ok(y) => y,
        Err(e) => return Err(e),
    };
    motion.mv[base + 1] = y;
    let ghost py = motion.pmv@[base + 1];
    let d1: i32 = match read_dmvector(r, format, motion.dmvector[1]) {
        Ok(d) => d,
        Err(e) => return Err(e),
    };
    motion.dmvector = [d0, d1];
    proof {
        lemma_update_fits(pic@, pmv, base as int, px);
        lemma_update_fits(pic@, pmv.update(base as int, px), base + 1, py);
        lemma_update_fits(pic@, mv, base as int, x);
        lemma_update_fits(pic@, mv.update(base as int, x), base + 1, y);
        assert(motion.dmvector@ =~= seq![d0, d1]);
    }
    Ok(())
}

/// Decode the vectors of direction `s`.
fn decode_vectors(
    r: &mut BitReader<'_>,
    pic: &Picture,
    format: MotionSpec,
    s: usize,
    motion: &mut MotionState,
) -> (result: Result<(), Error>)
    requires
        old(r).wf(),
        pic@.coding.wf(),
        s < 2,
        predictors_fit(pic@, old(motion)@.pmv),
        predictors_fit(pic@, old(motion)@.mv),
        differential_small(old(motion)@.dmvector),
    ensures
        final(r).wf(),
        final(r).data() == old(r).data(),
        old(r).at() <= final(r).at(),
        ({
            let (pos, outcome) = vectors_at(
                old(r).data(),
                old(r).at(),
                pic@,
                format,
                s as int,
                old(motion)@,
            );
            &&& final(r).at() == pos
            &&& match result {
                Ok(()) => outcome == Ok::<MotionView, Error>(final(motion)@) && predictors_fit(
                    pic@,
                    final(motion)@.pmv,
                ) && predictors_fit(pic@, final(motion)@.mv) && differential_small(
                    final(motion)@.dmvector,
                ),
                Err(e) => outcome == Err::<MotionView, Error>(e),
            }
        }),
{
    proof {
        reveal(vectors_at);
    }
    motion.mv_count = format.count;
    match decode_vector(r, pic, format, s, 0, motion) {
        Ok(()) => {},
        Err(e) => return Err(e),
    }
    if format.count == 2 {
        decode_vector(r, pic, format, s, 1, motion)
    } else {
        Ok(())
    }
}

/// Everything of a macroblock in front of its blocks.
struct MacroblockHeader {
    flags: i32,
    motion_type: i32,
    dct_type: u32,
    quantiser_scale_code: u32,
    motion: MotionState,
    cbp: i32,
}

/// Everything of a macroblock in front of its blocks.
#[verifier::ext_equal]
pub struct MacroblockHeaderView {
    pub flags: i32,
    pub motion_type: i32,
    pub dct_type: u32,
    pub quantiser_scale_code: u32,
    pub motion: MotionView,
    pub cbp: i32,
}

impl View for MacroblockHeader {
    type V = MacroblockHeaderView;

    closed spec fn view(&self) -> MacroblockHeaderView {
        MacroblockHeaderView {
            flags: self.flags,
            motion_type: self.motion_type,
            dct_type: self.dct_type,
            quantiser_scale_code: self.quantiser_scale_code,
            motion: self.motion@,
            cbp: self.cbp,
        }
    }
}

/// The table of macroblock types in a picture of this type.
pub open spec fn type_table(kind: PictureType) -> VlcTable {
    match kind {
        PictureType::I => VlcTable::TypeI,
        PictureType::P => VlcTable::TypeP,
        _ => VlcTable::TypeB,
    }
}

/// The motion of a macroblock at `pos`, in the directions that are read.
#[verifier::opaque]
pub open spec fn motion_at(
    data: Seq<u8>,
    pos: nat,
    pic: PictureView,
    format: MotionSpec,
    forward: bool,
    backward: bool,
    pmv: Seq<i32>,
) -> (nat, Result<MotionView, Error>) {
    let (p1, first) = if forward {
        vectors_at(data, pos, pic, format, 0, still(pmv))
    } else {
        (pos, Ok(still(pmv)))
    };
    match first {
        Err(e) => (p1, Err(e)),
        Ok(motion) => if backward {
            vectors_at(data, p1, pic, format, 1, motion)
        } else {
            (p1, Ok(motion))
        },
    }
}

/// The predictors a macroblock starts from: zero where it is intra without
/// concealment vectors, or in a P picture without a forward vector (clause
/// 7.6.3.4).
pub open spec fn starting_predictors(pic: PictureView, flags: i32, pmv: Seq<i32>) -> Seq<i32> {
    let intra = has_flag(flags, mb_flag::INTRA);
    if (intra && !pic.coding.concealment_motion_vectors) || (pic.header.picture_coding_type is P
        && !has_flag(flags, mb_flag::MOTION_FORWARD) && !intra) {
        no_motion()
    } else {
        pmv
    }
}

/// The motion type, the DCT type and the quantiser scale of a macroblock of type
/// `flags`, from `pos` on.
#[verifier::opaque]
pub open spec fn modes_at(
    data: Seq<u8>,
    pos: nat,
    pic: PictureView,
    flags: i32,
    quantiser_scale_code: u32,
) -> (nat, i32, u32, u32) {
    let intra = has_flag(flags, mb_flag::INTRA);
    let moves = has_flag(flags, mb_flag::MOTION_FORWARD | mb_flag::MOTION_BACKWARD) || (intra
        && pic.coding.concealment_motion_vectors);
    // Not transmitted in a frame picture when frame_pred_frame_dct is set:
    // inferred as frame-based.
    let inferred = is_frame(pic) && pic.coding.frame_pred_frame_dct;
    let p1 = if moves && !inferred {
        bits::advance(data, pos, 2)
    } else {
        pos
    };
    let motion = if !moves {
        motion_type::NONE
    } else if inferred {
        motion_type::FRAME_OR_16X8
    } else {
        bits::bits(data, pos as int, 2) as i32
    };
    let typed = is_frame(pic) && !pic.coding.frame_pred_frame_dct && (intra || has_flag(
        flags,
        mb_flag::PATTERN,
    ));
    let p2 = if typed {
        bits::advance(data, p1, 1)
    } else {
        p1
    };
    let dct_type = if typed {
        bits::bits(data, p1 as int, 1) as u32
    } else {
        0
    };
    if has_flag(flags, mb_flag::QUANT) {
        (bits::advance(data, p2, 5), motion, dct_type, bits::bits(data, p2 as int, 5) as u32)
    } else {
        (p2, motion, dct_type, quantiser_scale_code)
    }
}

/// The header of a macroblock at `pos`.
#[verifier::opaque]
pub open spec fn macroblock_header_at(
    data: Seq<u8>,
    pos: nat,
    pic: PictureView,
    state: SliceStateView,
) -> (nat, Result<MacroblockHeaderView, Error>) {
    let (p1, flags) = type_table(pic.header.picture_coding_type).decoded(data, pos);
    match flags {
        Err(e) => (p1, Err(e)),
        Ok(flags) => {
            let conceals = has_flag(flags, mb_flag::INTRA)
                && pic.coding.concealment_motion_vectors;
            let (p2, motion_type, dct_type, quantiser_scale_code) = modes_at(
                data,
                p1,
                pic,
                flags,
                state.quantiser_scale_code,
            );
            let forward = has_flag(flags, mb_flag::MOTION_FORWARD) || conceals;
            let backward = has_flag(flags, mb_flag::MOTION_BACKWARD);
            let format = block::motion_format(pic.coding.picture_structure, motion_type);
            let (p3, motion) = motion_at(
                data,
                p2,
                pic,
                format,
                forward,
                backward,
                starting_predictors(pic, flags, state.pmv),
            );
            match motion {
                Err(e) => (p3, Err(e)),
                Ok(motion) => {
                    // A marker bit closes concealment vectors.
                    let p4 = if conceals {
                        bits::advance(data, p3, 1)
                    } else {
                        p3
                    };
                    // H.262 Table 7-23: every one-vector mode updates both
                    // predictors of a direction.
                    let pmv = if format.count == 1 {
                        block::mirrored(motion.pmv, forward, backward)
                    } else {
                        motion.pmv
                    };
                    let (p5, cbp) = if has_flag(flags, mb_flag::PATTERN) {
                        VlcTable::CodedBlockPattern.decoded(data, p4)
                    } else {
                        (p4, Ok(0))
                    };
                    match cbp {
                        Err(e) => (p5, Err(e)),
                        Ok(cbp) => (
                            p5,
                            Ok(
                                MacroblockHeaderView {
                                    flags,
                                    motion_type,
                                    dct_type,
                                    quantiser_scale_code,
                                    motion: MotionView { pmv, ..motion },
                                    cbp,
                                },
                            ),
                        ),
                    }
                },
            }
        },
    }
}

/// Read the motion type, the DCT type and the quantiser scale.
fn read_modes(r: &mut BitReader<'_>, pic: &Picture, flags: i32, quantiser_scale_code: u32) -> (modes:
    (i32, u32, u32))
    requires
        old(r).wf(),
    ensures
        final(r).wf(),
        final(r).data() == old(r).data(),
        old(r).at() <= final(r).at(),
        (final(r).at(), modes.0, modes.1, modes.2) == modes_at(
            old(r).data(),
            old(r).at(),
            pic@,
            flags,
            quantiser_scale_code,
        ),
{
    proof {
        reveal(modes_at);
        power2::lemma2_to64();
    }
    let frame: bool = pic.coding.picture_structure == PictureStructure::Frame;
    let intra: bool = flagged(flags, mb_flag::INTRA);
    let has_motion: bool = flagged(flags, mb_flag::MOTION_FORWARD | mb_flag::MOTION_BACKWARD);
    let mut motion: i32 = motion_type::NONE;
    if has_motion || (intra && pic.coding.concealment_motion_vectors) {
        motion = if frame && pic.coding.frame_pred_frame_dct {
            motion_type::FRAME_OR_16X8
        } else {
            r.u(2) as i32
        };
    }
    let mut dct_type: u32 = 0;
    if frame && !pic.coding.frame_pred_frame_dct && (intra || flagged(flags, mb_flag::PATTERN)) {
        dct_type = r.u(1);
    }
    let mut quantiser: u32 = quantiser_scale_code;
    if flagged(flags, mb_flag::QUANT) {
        quantiser = r.u(5);
    }
    (motion, dct_type, quantiser)
}

/// Read the motion of a macroblock, in the directions that are read.
fn read_motion(
    r: &mut BitReader<'_>,
    pic: &Picture,
    format: MotionSpec,
    forward: bool,
    backward: bool,
    pmv: [i32; 8],
) -> (result: Result<MotionState, Error>)
    requires
        old(r).wf(),
        pic@.coding.wf(),
        predictors_fit(pic@, pmv@),
    ensures
        final(r).wf(),
        final(r).data() == old(r).data(),
        old(r).at() <= final(r).at(),
        ({
            let (pos, outcome) = motion_at(
                old(r).data(),
                old(r).at(),
                pic@,
                format,
                forward,
                backward,
                pmv@,
            );
            &&& final(r).at() == pos
            &&& match result {
                Ok(motion) => outcome == Ok::<MotionView, Error>(motion@) && predictors_fit(
                    pic@,
                    motion@.pmv,
                ) && predictors_fit(pic@, motion@.mv) && differential_small(motion@.dmvector),
                Err(e) => outcome == Err::<MotionView, Error>(e),
            }
        }),
{
    proof {
        reveal(motion_at);
        lemma_zero_fits(pic@);
    }
    let mut motion = MotionState {
        pmv,
        mv: [0; 8],
        dmvector: [0; 2],
        field_select: [0; 4],
        mv_count: 1,
    };
    assert(motion@ =~= still(pmv@));
    assert(motion@.mv =~= no_motion());
    if forward {
        match decode_vectors(r, pic, format, 0, &mut motion) {
            Ok(()) => {},
            Err(e) => return Err(e),
        }
    }
    if backward {
        match decode_vectors(r, pic, format, 1, &mut motion) {
            Ok(()) => {},
            Err(e) => return Err(e),
        }
    }
    Ok(motion)
}

/// Zero predictors lie in every range.
proof fn lemma_zero_fits(pic: PictureView)
    ensures
        predictors_fit(pic, no_motion()),
{
    assert forall|i: int| 0 <= i < 8 implies block::predictor_fits(
        #[trigger] no_motion()[i],
        f_code_of(pic, i),
    ) by {
        power2::lemma_pow2_pos(block::residual_bits(f_code_of(pic, i)));
    }
}

/// Copying the predictors of one vector to the other keeps them in range.
proof fn lemma_mirrored_fits(pic: PictureView, pmv: Seq<i32>, forward: bool, backward: bool)
    requires
        predictors_fit(pic, pmv),
    ensures
        predictors_fit(pic, block::mirrored(pmv, forward, backward)),
{
    let m = block::mirrored(pmv, forward, backward);
    assert forall|i: int| 0 <= i < 8 implies block::predictor_fits(
        #[trigger] m[i],
        f_code_of(pic, i),
    ) by {
        assert(block::predictor_fits(pmv[i], f_code_of(pic, i)));
        if i >= 4 {
            assert(block::predictor_fits(pmv[i - 4], f_code_of(pic, i - 4)));
            assert(f_code_of(pic, i - 4) == f_code_of(pic, i));
        }
    }
}

fn read_macroblock_header(r: &mut BitReader<'_>, pic: &Picture, state: &SliceState) -> (result:
    Result<MacroblockHeader, Error>)
    requires
        old(r).wf(),
        pic@.coding.wf(),
        predictors_fit(pic@, state@.pmv),
    ensures
        final(r).wf(),
        final(r).data() == old(r).data(),
        old(r).at() <= final(r).at(),
        ({
            let (pos, outcome) = macroblock_header_at(
                old(r).data(),
                old(r).at(),
                pic@,
                state@,
            );
            &&& final(r).at() == pos
            &&& match result {
                Ok(header) => outcome == Ok::<MacroblockHeaderView, Error>(header@)
                    && predictors_fit(pic@, header@.motion.pmv) && predictors_fit(
                    pic@,
                    header@.motion.mv,
                ) && differential_small(header@.motion.dmvector) && 0 <= header@.cbp <= 63,
                Err(e) => outcome == Err::<MacroblockHeaderView, Error>(e),
            }
        }),
{
    proof {
        reveal(macroblock_header_at);
        lemma_zero_fits(pic@);
    }
    let picture_type = pic.header.picture_coding_type;
    let table = match picture_type {
        PictureType::I => VlcTable::TypeI,
        PictureType::P => VlcTable::TypeP,
        _ => VlcTable::TypeB,
    };
    proof {
        table.lemma_decoded(r.data(), r.at());
    }
    let flags: i32 = match table.decode(r) {
        Ok(flags) => flags,
        Err(e) => return Err(e),
    };
    let intra: bool = flagged(flags, mb_flag::INTRA);
    let conceal: bool = pic.coding.concealment_motion_vectors;
    let (motion_type, dct_type, quantiser_scale_code): (i32, u32, u32) = read_modes(
        r,
        pic,
        flags,
        state.quantiser_scale_code,
    );
    // Intra macroblocks reset the predictors unless they carry concealment
    // vectors. A P macroblock with no forward vector predicts from zero (clause
    // 7.6.3.4).
    let pmv: [i32; 8] = if (intra && !conceal) || (picture_type == PictureType::P && !flagged(
        flags,
        mb_flag::MOTION_FORWARD,
    ) && !intra) {
        [0; 8]
    } else {
        state.pmv
    };
    assert(pmv@ =~= starting_predictors(pic@, flags, state@.pmv));
    let read_forward: bool = flagged(flags, mb_flag::MOTION_FORWARD) || (intra && conceal);
    let read_backward: bool = flagged(flags, mb_flag::MOTION_BACKWARD);
    let format = motion_spec(pic.coding.picture_structure, motion_type);
    let mut motion = match read_motion(r, pic, format, read_forward, read_backward, pmv) {
        Ok(motion) => motion,
        Err(e) => return Err(e),
    };
    if intra && conceal {
        r.skip(1);  // marker_bit
    }
    if format.count == 1 {
        // H.262 Table 7-23: every one-vector mode updates both r predictors.
        // This includes frame motion in a frame picture and field motion in a
        // field picture. Without the latter copy, a following 16x8 macroblock
        // reconstructs its second vector from stale PMV[1] state.
        proof {
            lemma_mirrored_fits(pic@, motion@.pmv, read_forward, read_backward);
        }
        mirror_single_vector_predictors(&mut motion.pmv, read_forward, read_backward);
    }
    let mut cbp: i32 = 0;
    if flagged(flags, mb_flag::PATTERN) {
        proof {
            VlcTable::CodedBlockPattern.lemma_decoded(r.data(), r.at());
        }
        cbp = match VlcTable::CodedBlockPattern.decode(r) {
            Ok(cbp) => cbp,
            Err(e) => return Err(e),
        };
    }
    Ok(MacroblockHeader { flags, motion_type, dct_type, quantiser_scale_code, motion, cbp })
}

/// Whether block `i` of a macroblock is coded.
pub open spec fn block_coded(intra: bool, cbp: i32, i: int) -> bool {
    intra || (cbp as int / bits::place(5 - i) as int) % 2 == 1
}

/// The blocks of a macroblock from block `i` on, at `pos`: where they end, the DC
/// predictors and the blocks they leave, and whether they could be decoded. Those
/// decoded in front of an error stay.
pub open spec fn blocks_at(
    data: Seq<u8>,
    pos: nat,
    pic: PictureView,
    dc_pred: Seq<i32>,
    intra: bool,
    cbp: i32,
    i: int,
    blocks: Seq<Option<Seq<i16>>>,
) -> (nat, Seq<i32>, Seq<Option<Seq<i16>>>, Result<(), Error>)
    decreases 6 - i,
{
    if i >= 6 {
        (pos, dc_pred, blocks, Ok(()))
    } else if block_coded(intra, cbp, i) {
        let (p1, levels) = block::block_at(data, pos, pic, dc_pred, i, intra);
        match levels {
            Ok((dc_pred, levels)) => blocks_at(
                data,
                p1,
                pic,
                dc_pred,
                intra,
                cbp,
                i + 1,
                blocks.update(i, Some(levels)),
            ),
            Err(e) => (p1, dc_pred, blocks, Err(e)),
        }
    } else {
        blocks_at(data, pos, pic, dc_pred, intra, cbp, i + 1, blocks)
    }
}

/// What decoding one macroblock leaves.
#[verifier::ext_equal]
pub struct MacroblockOutcome {
    /// Where it leaves the cursor.
    pub pos: nat,
    /// The state for the next macroblock, where there was no error.
    pub state: SliceStateView,
    /// What was written. Nothing is before the header has been read.
    pub written: Option<MacroblockView>,
    pub result: Result<(), Error>,
}

/// A macroblock at `pos`.
#[verifier::opaque]
pub open spec fn macroblock_at(
    data: Seq<u8>,
    pos: nat,
    pic: PictureView,
    state: SliceStateView,
    address: usize,
) -> MacroblockOutcome {
    let (p1, header) = macroblock_header_at(data, pos, pic, state);
    match header {
        Err(e) => MacroblockOutcome { pos: p1, state, written: None, result: Err(e) },
        Ok(header) => {
            let intra = has_flag(header.flags, mb_flag::INTRA);
            let fresh = fresh_macroblock(address, header.quantiser_scale_code);
            let (p2, dc_pred, blocks, result) = blocks_at(
                data,
                p1,
                pic,
                state.dc_pred,
                intra,
                header.cbp,
                0,
                fresh.blocks,
            );
            MacroblockOutcome {
                pos: p2,
                state: SliceStateView {
                    quantiser_scale_code: header.quantiser_scale_code,
                    pmv: header.motion.pmv,
                    // Non-intra macroblocks reset the DC predictors (clause 7.2.1).
                    dc_pred: if intra {
                        dc_pred
                    } else {
                        dc_reset(state.dc_pred_reset)
                    },
                    ..state
                },
                written: Some(
                    MacroblockView {
                        flags: header.flags,
                        motion_type: header.motion_type,
                        dct_type: header.dct_type,
                        cbp: if intra {
                            0x3f
                        } else {
                            header.cbp
                        },
                        mv: header.motion.mv,
                        dmvector: header.motion.dmvector,
                        field_select: header.motion.field_select,
                        mv_count: header.motion.mv_count,
                        blocks,
                        ..fresh
                    },
                ),
                result,
            }
        },
    }
}

/// Decode the blocks of a macroblock into it.
fn decode_blocks(
    r: &mut BitReader<'_>,
    pic: &Picture,
    dc_pred: &mut [i32; 3],
    intra: bool,
    cbp: i32,
    mb: &mut Macroblock,
) -> (result: Result<(), Error>)
    requires
        old(r).wf(),
        0 <= cbp <= 63,
    ensures
        final(r).wf(),
        final(r).data() == old(r).data(),
        old(r).at() <= final(r).at(),
        ({
            let (pos, dc, blocks, outcome) = blocks_at(
                old(r).data(),
                old(r).at(),
                pic@,
                old(dc_pred)@,
                intra,
                cbp,
                0,
                old(mb)@.blocks,
            );
            &&& final(r).at() == pos
            &&& result == outcome
            &&& result is Ok ==> final(dc_pred)@ == dc
            &&& final(mb)@ == (MacroblockView { blocks, ..old(mb)@ })
        }),
{
    let ghost goal = blocks_at(r.data(), r.at(), pic@, dc_pred@, intra, cbp, 0, mb@.blocks);
    let mut i: usize = 0;
    while i < 6
        invariant
            0 <= cbp <= 63,
            r.wf(),
            r.data() == old(r).data(),
            old(r).at() <= r.at(),
            i <= 6,
            goal == blocks_at(
                old(r).data(),
                old(r).at(),
                pic@,
                old(dc_pred)@,
                intra,
                cbp,
                0,
                old(mb)@.blocks,
            ),
            goal == blocks_at(
                r.data(),
                r.at(),
                pic@,
                dc_pred@,
                intra,
                cbp,
                i as int,
                mb@.blocks,
            ),
            mb@ == (MacroblockView { blocks: mb@.blocks, ..old(mb)@ }),
        decreases 6 - i,
    {
        let coded: bool = intra || (cbp / place_of(5 - i) as i32) % 2 == 1;
        if coded {
            let mut levels: [i16; 64] = [0; 64];
            match decode_block(r, pic, dc_pred, i, intra, &mut levels) {
                Ok(()) => {},
                Err(e) => return Err(e),
            }
            let ghost before = mb@;
            mb.blocks[i] = levels;
            mb.coded_blocks[i] = true;
            assert(mb@.blocks =~= before.blocks.update(i as int, Some(levels@)));
        }
        i = i + 1;
    }
    Ok(())
}

fn decode_macroblock(
    r: &mut BitReader<'_>,
    pic: &Picture,
    state: &mut SliceState,
    address: usize,
    mb: &mut Macroblock,
) -> (result: Result<(), Error>)
    requires
        old(r).wf(),
        pic@.coding.wf(),
        predictors_fit(pic@, old(state)@.pmv),
    ensures
        final(r).wf(),
        final(r).data() == old(r).data(),
        old(r).at() <= final(r).at(),
        ({
            let outcome = macroblock_at(
                old(r).data(),
                old(r).at(),
                pic@,
                old(state)@,
                address,
            );
            &&& final(r).at() == outcome.pos
            &&& result == outcome.result
            &&& result is Ok ==> final(state)@ == outcome.state && predictors_fit(
                pic@,
                final(state)@.pmv,
            ) && outcome.written is Some && predictors_fit(pic@, outcome.written->Some_0.mv)
                && differential_small(outcome.written->Some_0.dmvector)
            &&& final(mb)@ == match outcome.written {
                Some(written) => written,
                None => old(mb)@,
            }
        }),
{
    proof {
        reveal(macroblock_at);
    }
    let ghost outcome = macroblock_at(r.data(), r.at(), pic@, state@, address);
    let header = match read_macroblock_header(r, pic, state) {
        Ok(header) => header,
        Err(e) => return Err(e),
    };
    let intra: bool = flagged(header.flags, mb_flag::INTRA);
    state.quantiser_scale_code = header.quantiser_scale_code;
    state.pmv = header.motion.pmv;
    mb.begin(address, header.quantiser_scale_code);
    mb.flags = header.flags;
    mb.motion_type = header.motion_type;
    mb.dct_type = header.dct_type;
    mb.cbp = if intra {
        0x3f
    } else {
        header.cbp
    };
    mb.mv = header.motion.mv;
    mb.dmvector = header.motion.dmvector;
    mb.field_select = header.motion.field_select;
    mb.mv_count = header.motion.mv_count;
    assert(mb@.blocks =~= fresh_macroblock(address, header.quantiser_scale_code).blocks);
    let result = decode_blocks(r, pic, &mut state.dc_pred, intra, header.cbp, mb);
    if !intra {
        // Non-intra macroblocks reset the DC predictors (clause 7.2.1).
        state.dc_pred = [state.dc_pred_reset; 3];
        assert(state@.dc_pred =~= dc_reset(state.dc_pred_reset));
    }
    assert(result is Ok ==> state@ =~= outcome.state);
    assert(mb@ =~= outcome.written->Some_0);
    result
}

/// Motion vectors of full pels turned to half pels, in the directions whose
/// vectors count in full pels.
pub open spec fn half_pels(mv: Seq<i32>, forward: bool, backward: bool) -> Seq<i32> {
    Seq::new(
        8,
        |i: int|
            if (forward && i % 4 < 2) || (backward && i % 4 >= 2) {
                (2 * mv[i]) as i32
            } else {
                mv[i]
            },
    )
}

pub fn full_pel_to_half_pel(mv: &mut [i32; 8], forward: bool, backward: bool)
    requires
        forall|i: int| 0 <= i < 8 ==> -0x4000_0000 <= #[trigger] old(mv)@[i] < 0x4000_0000,
    ensures
        final(mv)@ == half_pels(old(mv)@, forward, backward),
{
    if forward {
        mv[0] = mv[0] * 2;
        mv[1] = mv[1] * 2;
        mv[4] = mv[4] * 2;
        mv[5] = mv[5] * 2;
    }
    if backward {
        mv[2] = mv[2] * 2;
        mv[3] = mv[3] * 2;
        mv[6] = mv[6] * 2;
        mv[7] = mv[7] * 2;
    }
}

/// A decoded macroblock with its vectors in half pels.
pub open spec fn normalized(mb: MacroblockView, pic: PictureView) -> MacroblockView {
    if pic.is_mpeg1 {
        MacroblockView {
            mv: half_pels(
                mb.mv,
                pic.header.full_pel_forward_vector,
                pic.header.full_pel_backward_vector,
            ),
            ..mb
        }
    } else {
        mb
    }
}

fn normalize_motion(mb: &mut Macroblock, pic: &Picture)
    requires
        pic@.coding.wf(),
        predictors_fit(pic@, old(mb)@.mv),
    ensures
        final(mb)@ == normalized(old(mb)@, pic@),
        differential_small(old(mb)@.dmvector) ==> motion_small(final(mb)@),
{
    proof {
        lemma_predictors_small(pic@, mb@.mv);
    }
    if pic.is_mpeg1 {
        // PMV stays in the units used by the source VLCs. Only the completed
        // macroblock is converted to the half-pel units the H.264 mapper uses;
        // this also covers skipped B macroblocks that inherit those PMVs.
        full_pel_to_half_pel(
            &mut mb.mv,
            pic.header.full_pel_forward_vector,
            pic.header.full_pel_backward_vector,
        );
    }
}

/// Predictors in range are small numbers.
proof fn lemma_predictors_small(pic: PictureView, pmv: Seq<i32>)
    requires
        pic.coding.wf(),
        predictors_fit(pic, pmv),
    ensures
        forall|i: int| 0 <= i < 8 ==> -0x8_0000 <= #[trigger] pmv[i] <= 0x8_0000,
{
    assert forall|i: int| 0 <= i < 8 implies -0x8_0000 <= #[trigger] pmv[i] <= 0x8_0000 by {
        let f_code = f_code_of(pic, i);
        assert(f_code < 16);
        power2::lemma2_to64();
        if block::residual_bits(f_code) < 14 {
            power2::lemma_pow2_strictly_increases(block::residual_bits(f_code), 14);
        }
        assert(block::predictor_fits(pmv[i], f_code));
    }
}

/// A skipped macroblock. In P pictures it is a zero-vector copy; in B pictures it
/// repeats the previous macroblock's prediction (clause 7.6.6).
pub open spec fn skipped_macroblock(
    pic: PictureView,
    state: SliceStateView,
    address: usize,
) -> MacroblockView {
    let skipped = MacroblockView {
        skipped: true,
        ..fresh_macroblock(address, state.quantiser_scale_code)
    };
    if pic.header.picture_coding_type is P || state.prev_flags is None {
        skipped
    } else {
        let flags = state.prev_flags->Some_0 & (mb_flag::MOTION_FORWARD | mb_flag::MOTION_BACKWARD);
        if is_frame(pic) {
            // H.262 7.6.6.4: a skipped B macroblock in a frame picture is always
            // frame-based. Its direction comes from the previous macroblock, its
            // vectors from the first predictors.
            let forward = has_flag(flags, mb_flag::MOTION_FORWARD);
            let backward = has_flag(flags, mb_flag::MOTION_BACKWARD);
            MacroblockView {
                flags,
                motion_type: motion_type::FRAME_OR_16X8,
                mv: Seq::new(
                    8,
                    |i: int|
                        if (forward && i < 2) || (backward && 2 <= i < 4) {
                            state.pmv[i]
                        } else {
                            0
                        },
                ),
                ..skipped
            }
        } else {
            // Field pictures use same-parity field prediction (7.6.6.3).
            MacroblockView {
                flags,
                motion_type: motion_type::FIELD,
                mv: Seq::new(
                    8,
                    |i: int|
                        if i < 4 {
                            state.pmv[i]
                        } else {
                            0
                        },
                ),
                ..skipped
            }
        }
    }
}

/// The state behind a skipped macroblock. It has no coded blocks, so the DC
/// predictors reset; in P pictures the motion predictors do too.
pub open spec fn state_after_skip(pic: PictureView, state: SliceStateView) -> SliceStateView {
    SliceStateView {
        pmv: if pic.header.picture_coding_type is P {
            no_motion()
        } else {
            state.pmv
        },
        dc_pred: dc_reset(state.dc_pred_reset),
        ..state
    }
}

/// A skipped macroblock. In P pictures it is a zero-vector copy and resets the
/// predictors; in B pictures it repeats the previous macroblock's prediction, so
/// the predictors carry over untouched (clause 7.6.6).
fn make_skipped(skipped: &mut Macroblock, address: usize, state: &mut SliceState, pic: &Picture)
    requires
        predictors_fit(pic@, old(state)@.pmv),
    ensures
        final(skipped)@ == skipped_macroblock(pic@, old(state)@, address),
        final(state)@ == state_after_skip(pic@, old(state)@),
        predictors_fit(pic@, final(state)@.pmv),
        predictors_fit(pic@, final(skipped)@.mv),
        differential_small(final(skipped)@.dmvector),
{
    proof {
        lemma_zero_fits(pic@);
    }
    skipped.begin(address, state.quantiser_scale_code);
    skipped.skipped = true;
    if pic.header.picture_coding_type == PictureType::P {
        state.pmv = [0; 8];
        assert(state@.pmv =~= no_motion());
    } else if let Some(prev_flags) = state.prev_flags {
        skipped.flags = prev_flags & (mb_flag::MOTION_FORWARD | mb_flag::MOTION_BACKWARD);
        if pic.coding.picture_structure == PictureStructure::Frame {
            skipped.motion_type = motion_type::FRAME_OR_16X8;
            if flagged(skipped.flags, mb_flag::MOTION_FORWARD) {
                skipped.mv[0] = state.pmv[0];
                skipped.mv[1] = state.pmv[1];
            }
            if flagged(skipped.flags, mb_flag::MOTION_BACKWARD) {
                skipped.mv[2] = state.pmv[2];
                skipped.mv[3] = state.pmv[3];
            }
        } else {
            skipped.motion_type = motion_type::FIELD;
            skipped.mv[0] = state.pmv[0];
            skipped.mv[1] = state.pmv[1];
            skipped.mv[2] = state.pmv[2];
            skipped.mv[3] = state.pmv[3];
        }
        assert forall|i: int| 0 <= i < 8 implies block::predictor_fits(
            #[trigger] skipped.mv@[i],
            f_code_of(pic@, i),
        ) by {
            assert(block::predictor_fits(no_motion()[i], f_code_of(pic@, i)));
            assert(block::predictor_fits(state.pmv@[i], f_code_of(pic@, i)));
        }
    }
    // A skipped macroblock has no coded blocks, so the DC predictors reset.
    state.dc_pred = [state.dc_pred_reset; 3];
    assert(state@ =~= state_after_skip(pic@, old(state)@));
    assert(skipped@ =~= skipped_macroblock(pic@, old(state)@, address));
}

/// The macroblocks with `mb` at address `at`, where the picture has one.
pub open spec fn placed(
    grid: Seq<Option<MacroblockView>>,
    at: int,
    mb: MacroblockView,
) -> Seq<Option<MacroblockView>> {
    if 0 <= at < grid.len() {
        grid.update(at, Some(mb))
    } else {
        grid
    }
}

/// The macroblocks when decoding the one at `at` has failed: one that stood there
/// already holds what was written of the new one.
pub open spec fn damaged(
    grid: Seq<Option<MacroblockView>>,
    at: int,
    written: Option<MacroblockView>,
) -> Seq<Option<MacroblockView>> {
    if 0 <= at < grid.len() && grid[at] is Some && written is Some {
        grid.update(at, written)
    } else {
        grid
    }
}

/// The macroblocks and the state behind `count` skipped macroblocks, the first of
/// which comes right after `address`.
pub open spec fn skipped_run(
    pic: PictureView,
    state: SliceStateView,
    address: int,
    count: nat,
    grid: Seq<Option<MacroblockView>>,
) -> (SliceStateView, Seq<Option<MacroblockView>>)
    decreases count,
{
    if count == 0 {
        (state, grid)
    } else {
        let (before, done) = skipped_run(pic, state, address, (count - 1) as nat, grid);
        let at = address + count;
        (
            state_after_skip(pic, before),
            placed(done, at, normalized(skipped_macroblock(pic, before, at as usize), pic)),
        )
    }
}

/// The macroblocks of a slice from `pos` on, behind the one at `address`: where
/// they end, the macroblocks they leave, and whether they could be decoded.
pub open spec fn macroblocks_at(
    data: Seq<u8>,
    pos: nat,
    pic: PictureView,
    state: SliceStateView,
    address: int,
    grid: Seq<Option<MacroblockView>>,
) -> (nat, Seq<Option<MacroblockView>>, Result<(), Error>)
    decreases 8 * data.len() - pos,
{
    match address_increment_at(data, pos, pic.is_mpeg1, 0) {
        (p1, Err(e)) => (p1, grid, Err(e)),
        (p1, Ok(None)) => (p1, grid, Ok(())),
        (p1, Ok(Some(increment))) => {
            // Everything between the previous macroblock and this one is skipped.
            let (state, grid) = skipped_run(pic, state, address, (increment - 1) as nat, grid);
            let at = address + increment;
            let outcome = macroblock_at(data, p1, pic, state, at as usize);
            match outcome.result {
                Err(e) => (outcome.pos, damaged(grid, at, outcome.written), Err(e)),
                Ok(()) => {
                    let mb = outcome.written->Some_0;
                    let grid = placed(grid, at, normalized(mb, pic));
                    // A macroblock takes at least the bits of its address.
                    if pos < outcome.pos <= 8 * data.len() {
                        macroblocks_at(
                            data,
                            outcome.pos,
                            pic,
                            SliceStateView { prev_flags: Some(mb.flags), ..outcome.state },
                            at,
                            grid,
                        )
                    } else {
                        (outcome.pos, grid, Ok(()))
                    }
                },
            }
        },
    }
}

/// The state a slice starts in. The DC predictors reset to the midpoint for the
/// picture's DC precision.
pub open spec fn slice_start(pic: PictureView, slice: Slice) -> SliceStateView {
    let reset = power2::pow2(7 + pic.coding.intra_dc_precision as nat) as i32;
    SliceStateView {
        quantiser_scale_code: slice.quantiser_scale_code,
        dc_pred: dc_reset(reset),
        dc_pred_reset: reset,
        pmv: no_motion(),
        prev_flags: None,
    }
}

/// A slice: where it ends, the macroblocks it leaves, and whether it could be
/// decoded.
pub open spec fn slice_decoded(
    data: Seq<u8>,
    pic: PictureView,
    slice: Slice,
    mb_width: int,
    grid: Seq<Option<MacroblockView>>,
) -> (nat, Seq<Option<MacroblockView>>, Result<(), Error>) {
    // slice_vertical_position is 1-based and names the macroblock row.
    macroblocks_at(
        data,
        bits::advance(data, 0, slice.data_start_bit as nat),
        pic,
        slice_start(pic, slice),
        (slice.vertical_position - 1) * mb_width - 1,
        grid,
    )
}

impl MacroblockGrid {
    /// Decode `count` skipped macroblocks, the first of which comes right after
    /// `address`.
    fn skip_run(&mut self, pic: &Picture, state: &mut SliceState, address: i64, count: i64)
        requires
            old(self).wf(),
            pic@.coding.wf(),
            predictors_fit(pic@, old(state)@.pmv),
            0 <= count,
            i64::MIN <= address + count <= i64::MAX,
        ensures
            final(self).wf(),
            (final(state)@, final(self)@) == skipped_run(
                pic@,
                old(state)@,
                address as int,
                count as nat,
                old(self)@,
            ),
            predictors_fit(pic@, final(state)@.pmv),
            all_motion_small(old(self)@) ==> all_motion_small(final(self)@),
    {
        let mut done: i64 = 0;
        while done < count
            invariant
                0 <= done <= count,
                i64::MIN <= address + count <= i64::MAX,
                self.wf(),
                pic@.coding.wf(),
                predictors_fit(pic@, state@.pmv),
                all_motion_small(old(self)@) ==> all_motion_small(self@),
                (state@, self@) == skipped_run(
                    pic@,
                    old(state)@,
                    address as int,
                    done as nat,
                    old(self)@,
                ),
            decreases count - done,
        {
            done = done + 1;
            let address: i64 = address + done;
            let at: usize = address as usize;
            let ghost before = self@;
            let ghost state_before = state@;
            if address >= 0 && (address as u64) < (self.cells.len() as u64) {
                make_skipped(&mut self.cells[at], at, state, pic);
                normalize_motion(&mut self.cells[at], pic);
                self.present[at] = true;
                assert(self@ =~= placed(
                    before,
                    address as int,
                    normalized(skipped_macroblock(pic@, state_before, at), pic@),
                ));
            } else {
                make_skipped(&mut self.outside, at, state, pic);
                assert(self@ =~= before);
            }
        }
    }

    /// Decode the macroblock at `address`.
    fn decode_at(
        &mut self,
        r: &mut BitReader<'_>,
        pic: &Picture,
        state: &mut SliceState,
        address: i64,
    ) -> (result: Result<(), Error>)
        requires
            old(self).wf(),
            old(r).wf(),
            pic@.coding.wf(),
            predictors_fit(pic@, old(state)@.pmv),
        ensures
            final(self).wf(),
            final(r).wf(),
            final(r).data() == old(r).data(),
            old(r).at() <= final(r).at(),
            ({
                let outcome = macroblock_at(
                    old(r).data(),
                    old(r).at(),
                    pic@,
                    old(state)@,
                    address as usize,
                );
                &&& final(r).at() == outcome.pos
                &&& result == outcome.result
                &&& match result {
                    Ok(()) => final(self)@ == placed(
                        old(self)@,
                        address as int,
                        normalized(outcome.written->Some_0, pic@),
                    ) && final(state)@ == (SliceStateView {
                        prev_flags: Some(outcome.written->Some_0.flags),
                        ..outcome.state
                    }) && predictors_fit(pic@, final(state)@.pmv) && (all_motion_small(old(self)@)
                        ==> all_motion_small(final(self)@)),
                    Err(_) => final(self)@ == damaged(
                        old(self)@,
                        address as int,
                        outcome.written,
                    ),
                }
            }),
    {
        let at: usize = address as usize;
        let ghost before = self@;
        let ghost outcome = macroblock_at(r.data(), r.at(), pic@, state@, at);
        if address >= 0 && (address as u64) < (self.cells.len() as u64) {
            let result = decode_macroblock(r, pic, state, at, &mut self.cells[at]);
            if result.is_err() {
                assert(self@ =~= damaged(before, address as int, outcome.written));
                return result;
            }
            let ghost decoded = state@;
            state.prev_flags = Some(self.cells[at].flags);
            assert(state@ =~= (SliceStateView {
                prev_flags: Some(outcome.written->Some_0.flags),
                ..decoded
            }));
            normalize_motion(&mut self.cells[at], pic);
            self.present[at] = true;
            assert(self@ =~= placed(
                before,
                address as int,
                normalized(outcome.written->Some_0, pic@),
            ));
            result
        } else {
            let result = decode_macroblock(r, pic, state, at, &mut self.outside);
            assert(self@ =~= before);
            if result.is_ok() {
                let ghost decoded = state@;
                state.prev_flags = Some(self.outside.flags);
                assert(state@ =~= (SliceStateView {
                    prev_flags: Some(outcome.written->Some_0.flags),
                    ..decoded
                }));
            }
            result
        }
    }
}

/// Decode every macroblock of one slice into `grid`, which is indexed by raster
/// macroblock address across the whole picture.
pub fn decode_slice(
    r: &mut BitReader<'_>,
    pic: &Picture,
    slice: &Slice,
    mb_width: usize,
    grid: &mut MacroblockGrid,
) -> (result: Result<(), Error>)
    requires
        old(r).wf(),
        pic@.coding.wf(),
        old(grid).wf(),
        mb_width < i64::MAX,
        slice.vertical_position * mb_width + 272 * old(r).data().len() <= i64::MAX,
    ensures
        final(r).wf(),
        final(r).data() == old(r).data(),
        final(grid).wf(),
        (final(r).at(), final(grid)@, result) == slice_decoded(
            old(r).data(),
            pic@,
            *slice,
            mb_width as int,
            old(grid)@,
        ),
        result is Ok && all_motion_small(old(grid)@) ==> all_motion_small(final(grid)@),
        pattern::all_shaped(old(grid)@) ==> final(grid)@.len() == old(grid)@.len(),
        result is Ok && pattern::all_shaped(old(grid)@) ==> pattern::all_shaped(final(grid)@),
{
    proof {
        assert(grid@.len() == grid.cells.len());
        if pattern::all_shaped(old(grid)@) {
            pattern::law_blocks_are_where_the_pattern_says(
                r.data(),
                pic@,
                *slice,
                mb_width as int,
                grid@,
            );
        }
    }
    let ghost decoded = slice_decoded(r.data(), pic@, *slice, mb_width as int, grid@);
    r.set_bit_pos(slice.data_start_bit);

    // DC predictors reset to the midpoint for the picture's DC precision.
    proof {
        power2::lemma2_to64();
        lemma_zero_fits(pic@);
        if pic.coding.intra_dc_precision < 3 {
            power2::lemma_pow2_strictly_increases(7 + pic.coding.intra_dc_precision as nat, 10);
        }
    }
    let dc_pred_reset: i32 = power_of_two(7 + pic.coding.intra_dc_precision) as i32;
    let mut state = SliceState {
        quantiser_scale_code: slice.quantiser_scale_code,
        dc_pred: [dc_pred_reset; 3],
        dc_pred_reset,
        pmv: [0; 8],
        prev_flags: None,
    };
    assert(state@ =~= slice_start(pic@, *slice));
    let row: i64 = slice.vertical_position as i64 - 1;
    proof {
        let v = slice.vertical_position as int;
        let w = mb_width as int;
        assert((v - 1) * w == v * w - w) by (nonlinear_arith);
        assert(v * w >= 0) by (nonlinear_arith)
            requires
                v >= 0,
                w >= 0,
        ;
    }
    // slice_vertical_position is 1-based and names the macroblock row.
    let mut address: i64 = row * mb_width as i64 - 1;
    let ghost start = address as int;

    // Clause 6.2.4: macroblocks continue until 23 zero bits appear at the
    // current position. The address increment folds that check into the first
    // lookup.
    loop
        invariant
            r.wf(),
            r.data() == old(r).data(),
            grid.wf(),
            pic@.coding.wf(),
            predictors_fit(pic@, state@.pmv),
            all_motion_small(old(grid)@) ==> all_motion_small(grid@),
            start + 272 * r.data().len() <= i64::MAX,
            272 * r.data().len() <= i64::MAX,
            start <= address <= start + 34 * r.at(),
            decoded == slice_decoded(old(r).data(), pic@, *slice, mb_width as int, old(grid)@),
            pattern::all_shaped(old(grid)@) ==> decoded.1.len() == old(grid)@.len(),
            pattern::all_shaped(old(grid)@) && decoded.2 is Ok ==> pattern::all_shaped(
                decoded.1,
            ),
            macroblocks_at(r.data(), r.at(), pic@, state@, address as int, grid@)
                == slice_decoded(old(r).data(), pic@, *slice, mb_width as int, old(grid)@),
        decreases 8 * r.data().len() - r.at(),
    {
        proof {
            lemma_address_increment(r.data(), r.at(), pic.is_mpeg1, 0);
        }
        let increment: i64 = match address_increment(r, pic.is_mpeg1) {
            Ok(Some(increment)) => increment,
            Ok(None) => return Ok(()),
            Err(e) => return Err(e),
        };
        // Everything between the previous macroblock and this one is skipped.
        grid.skip_run(pic, &mut state, address, increment - 1);
        address = address + increment;
        match grid.decode_at(r, pic, &mut state, address) {
            Ok(()) => {},
            Err(e) => return Err(e),
        }
    }
}


/// Every macroblock has a quantiser scale that the tables name.
pub open spec fn all_scales_named(grid: Seq<Option<MacroblockView>>) -> bool {
    forall|i: int|
        0 <= i < grid.len() && (#[trigger] grid[i]) is Some ==> grid[i]->Some_0.quantiser_scale_code
            < 32
}

/// A macroblock leaves a quantiser scale that the tables name.
proof fn lemma_macroblock_scale(
    data: Seq<u8>,
    pos: nat,
    pic: PictureView,
    state: SliceStateView,
    address: usize,
)
    requires
        state.quantiser_scale_code < 32,
    ensures
        ({
            let outcome = macroblock_at(data, pos, pic, state, address);
            &&& outcome.state.quantiser_scale_code < 32
            &&& outcome.result is Ok ==> outcome.written is Some
            &&& outcome.written is Some ==> outcome.written->Some_0.quantiser_scale_code < 32
        }),
{
    reveal(macroblock_at);
    reveal(macroblock_header_at);
    let (p1, flags) = type_table(pic.header.picture_coding_type).decoded(data, pos);
    if flags is Ok {
        lemma_modes_scale(data, p1, pic, flags->Ok_0, state.quantiser_scale_code);
    }
}

/// The scale that a macroblock's modes leave is one that the tables name.
proof fn lemma_modes_scale(data: Seq<u8>, pos: nat, pic: PictureView, flags: i32, code: u32)
    requires
        code < 32,
    ensures
        modes_at(data, pos, pic, flags, code).3 < 32,
{
    reveal(modes_at);
    power2::lemma2_to64();
    assert forall|p: int| #[trigger] bits::bits(data, p, 5) < 32 by {
        bits::lemma_bits_bound(data, p, 5);
    }
}

/// Skipped macroblocks keep the scale of the macroblock before them.
proof fn lemma_skipped_scales(
    pic: PictureView,
    state: SliceStateView,
    address: int,
    count: nat,
    grid: Seq<Option<MacroblockView>>,
)
    requires
        state.quantiser_scale_code < 32,
        all_scales_named(grid),
    ensures
        ({
            let (after, done) = skipped_run(pic, state, address, count, grid);
            &&& after.quantiser_scale_code < 32
            &&& all_scales_named(done)
        }),
    decreases count,
{
    if count > 0 {
        lemma_skipped_scales(pic, state, address, (count - 1) as nat, grid);
    }
}

/// The macroblocks of a slice have scales that the tables name, from any position on.
proof fn lemma_scales_from(
    data: Seq<u8>,
    pos: nat,
    pic: PictureView,
    state: SliceStateView,
    address: int,
    grid: Seq<Option<MacroblockView>>,
)
    requires
        state.quantiser_scale_code < 32,
        all_scales_named(grid),
    ensures
        all_scales_named(macroblocks_at(data, pos, pic, state, address, grid).1),
    decreases 8 * data.len() - pos,
{
    match address_increment_at(data, pos, pic.is_mpeg1, 0) {
        (p1, Ok(Some(increment))) => {
            lemma_skipped_scales(pic, state, address, (increment - 1) as nat, grid);
            let (state, grid) = skipped_run(pic, state, address, (increment - 1) as nat, grid);
            let at = address + increment;
            lemma_macroblock_scale(data, p1, pic, state, at as usize);
            let outcome = macroblock_at(data, p1, pic, state, at as usize);
            if outcome.result is Ok {
                let mb = outcome.written->Some_0;
                let placed_grid = placed(grid, at, normalized(mb, pic));
                assert(all_scales_named(placed_grid));
                if pos < outcome.pos <= 8 * data.len() {
                    lemma_scales_from(
                        data,
                        outcome.pos,
                        pic,
                        SliceStateView { prev_flags: Some(mb.flags), ..outcome.state },
                        at,
                        placed_grid,
                    );
                }
            }
        },
        _ => {},
    }
}

/// Every macroblock of a decoded slice has a quantiser scale that the tables name.
pub proof fn law_decoded_scales_are_named(
    data: Seq<u8>,
    pic: PictureView,
    slice: Slice,
    mb_width: int,
    grid: Seq<Option<MacroblockView>>,
)
    requires
        slice.quantiser_scale_code < 32,
        all_scales_named(grid),
    ensures
        all_scales_named(slice_decoded(data, pic, slice, mb_width, grid).1),
{
    lemma_scales_from(
        data,
        bits::advance(data, 0, slice.data_start_bit as nat),
        pic,
        slice_start(pic, slice),
        (slice.vertical_position - 1) * mb_width - 1,
        grid,
    );
}

} // verus!
