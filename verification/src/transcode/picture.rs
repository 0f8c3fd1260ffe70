//! How a picture is laid out as slices, and where its macroblocks come from.
use crate::h264::bitwriter;
use crate::h264::bitwriter::{nal_type, BitWriter};
use crate::h264::nal;
use crate::h264::nal::to_nal_unit;
use crate::h264::params;
use crate::h264::slice;
use crate::h264::slice::{
    write_slice_header, RefPicList, RefPicListEntry, SliceHeaderConfig, SliceType,
};
use crate::job::{ContextView, PictureContext, RefLayout};
use crate::mpeg2::constants::PictureStructure;
use crate::transcode::predict;
use crate::transcode::predict::{FieldSetting, NO_REFERENCE};
use crate::transcode::syntax;
use crate::transcode::syntax::{
    short_term_ref_lists, write_access_unit_delimiter, LOG2_MAX_FRAME_NUM, LOG2_MAX_POC_LSB,
    LONG_TERM_FRAME_IDX, MAX_NUM_REF_FRAMES, PPS_INIT_QP,
};
use vstd::prelude::*;

verus! {

/// The shape of a picture: how large it is, and how the source coded it.
#[derive(Clone, Copy, PartialEq, Eq, Debug, Structural)]
pub struct PictureShape {
    pub mb_width: usize,
    pub mb_height: usize,
    /// Whether the sequence is coded with macroblock-adaptive frames and fields.
    pub mbaff: bool,
    /// Whether the picture is two coded fields.
    pub pair: bool,
    /// What the first coded picture is.
    pub structure: PictureStructure,
    /// Whether the first coded picture is an I picture.
    pub source_intra: bool,
}

/// Where a macroblock stands.
#[derive(Clone, Copy, PartialEq, Eq, Debug, Structural)]
pub struct Place {
    /// Whether it belongs to the second coded field of a pair.
    pub second: bool,
    /// The parity of the field that it belongs to, where it belongs to one.
    pub field: usize,
    /// Its place in the frame, in macroblocks. The rows of a field are every other row.
    pub mb_x: usize,
    pub mb_y: usize,
}

impl PictureShape {
    /// There is a macroblock to code, and where they are coded in fields or pairs every
    /// row has its other.
    pub open spec fn wf(self) -> bool {
        &&& 1 <= self.mb_width <= 1024
        &&& 1 <= self.mb_height <= 1024
        &&& self.pair || self.mbaff ==> self.mb_height % 2 == 0
    }

    /// How many macroblocks the picture has.
    pub open spec fn count(self) -> int {
        self.mb_width * self.mb_height
    }

    /// How many macroblocks a field of the picture has.
    pub open spec fn field_count(self) -> int {
        self.mb_width * (self.mb_height as int / 2)
    }

    /// The parity of a coded field of a pair.
    pub open spec fn parity(self, second: bool) -> int {
        if (self.structure == PictureStructure::BottomField) != second {
            1
        } else {
            0
        }
    }

    /// Where the macroblock stands that is coded at a position. Macroblock-adaptive
    /// pictures are coded pair by pair: top then bottom at one column, followed by the
    /// next pair horizontally. Others are coded in raster order, a pair of fields one
    /// field behind the other.
    pub open spec fn place(self, position: int) -> Place {
        let w = self.mb_width as int;
        if self.pair {
            let second = position >= self.field_count();
            let at = if second {
                position - self.field_count()
            } else {
                position
            };
            Place {
                second,
                field: self.parity(second) as usize,
                mb_x: (at % w) as usize,
                mb_y: (2 * (at / w) + self.parity(second)) as usize,
            }
        } else if self.mbaff {
            Place {
                second: false,
                field: (position % 2) as usize,
                mb_x: ((position / 2) % w) as usize,
                mb_y: (2 * ((position / 2) / w) + position % 2) as usize,
            }
        } else {
            Place {
                second: false,
                field: (position % 2) as usize,
                mb_x: (position % w) as usize,
                mb_y: (position / w) as usize,
            }
        }
    }

    /// The position at which the macroblock at a place of the frame is coded.
    pub open spec fn position(self, mb_x: int, mb_y: int) -> int {
        let w = self.mb_width as int;
        if self.pair {
            let at = (mb_y / 2) * w + mb_x;
            if mb_y % 2 == self.parity(false) {
                at
            } else {
                self.field_count() + at
            }
        } else if self.mbaff {
            2 * ((mb_y / 2) * w + mb_x) + mb_y % 2
        } else {
            mb_y * w + mb_x
        }
    }

    /// Whether the macroblocks of this picture are coded as field macroblocks.
    ///
    /// One mode is used across a macroblock-adaptive picture. This makes every
    /// horizontal and vertical neighbour live in the same field coordinate
    /// system, so thousands of pair-isolating slices are unnecessary.
    pub open spec fn in_fields(self) -> bool {
        self.pair || (self.mbaff && !self.source_intra)
    }
}

/// Rows and columns are told apart again.
proof fn lemma_row_and_column(row: int, column: int, width: int)
    requires
        0 <= row,
        0 <= column < width,
    ensures
        (row * width + column) / width == row,
        (row * width + column) % width == column,
{
    vstd::arithmetic::div_mod::lemma_fundamental_div_mod_converse(
        row * width + column,
        width,
        row,
        column,
    );
}

/// A position is a row and a column.
proof fn lemma_column_and_row(at: int, width: int, rows: int)
    requires
        0 <= at < width * rows,
        0 < width,
    ensures
        0 <= at % width < width,
        0 <= at / width < rows,
        (at / width) * width + at % width == at,
{
    vstd::arithmetic::div_mod::lemma_fundamental_div_mod(at, width);
    assert(at / width < rows) by (nonlinear_arith)
        requires
            at < width * rows,
            at == width * (at / width) + at % width,
            0 <= at % width,
            0 < width,
    ;
    assert(0 <= at / width) by (nonlinear_arith)
        requires
            0 <= at,
            0 < width,
    ;
    assert((at / width) * width == width * (at / width)) by (nonlinear_arith);
}

/// Rows below a bound stay below it.
proof fn lemma_position_below(row: int, column: int, width: int, rows: int)
    requires
        0 <= row < rows,
        0 <= column < width,
    ensures
        0 <= row * width + column < width * rows,
{
    assert(0 <= row * width + column < width * rows) by (nonlinear_arith)
        requires
            0 <= row < rows,
            0 <= column < width,
    ;
}

/// Both fields of a picture together have all of its macroblocks.
proof fn lemma_two_fields(shape: PictureShape)
    requires
        shape.wf(),
        shape.mb_height % 2 == 0,
    ensures
        shape.count() == 2 * shape.field_count(),
        shape.field_count() >= 1,
{
    assert(shape.mb_width * shape.mb_height == 2 * (shape.mb_width * (shape.mb_height as int / 2)))
        by (nonlinear_arith)
        requires
            shape.mb_height == 2 * (shape.mb_height as int / 2),
    ;
    assert(shape.mb_width * (shape.mb_height as int / 2) >= 1) by (nonlinear_arith)
        requires
            shape.mb_width >= 1,
            shape.mb_height as int / 2 >= 1,
    ;
}

/// Every macroblock of the frame is coded, and none twice: places and positions name
/// each other.
pub proof fn law_every_macroblock_is_coded_once(shape: PictureShape)
    requires
        shape.wf(),
    ensures
        forall|x: int, y: int|
            0 <= x < shape.mb_width && 0 <= y < shape.mb_height ==> {
                let position = #[trigger] shape.position(x, y);
                &&& 0 <= position < shape.count()
                &&& shape.place(position).mb_x == x
                &&& shape.place(position).mb_y == y
            },
        forall|position: int|
            0 <= position < shape.count() ==> {
                let place = #[trigger] shape.place(position);
                &&& place.mb_x < shape.mb_width
                &&& place.mb_y < shape.mb_height
                &&& shape.position(place.mb_x as int, place.mb_y as int) == position
            },
{
    let w = shape.mb_width as int;
    let h = shape.mb_height as int;
    assert forall|x: int, y: int| 0 <= x < w && 0 <= y < h implies {
        let position = #[trigger] shape.position(x, y);
        &&& 0 <= position < shape.count()
        &&& shape.place(position).mb_x == x
        &&& shape.place(position).mb_y == y
    } by {
        lemma_position_coded(shape, x, y);
    }
    assert forall|position: int| 0 <= position < shape.count() implies {
        let place = #[trigger] shape.place(position);
        &&& place.mb_x < shape.mb_width
        &&& place.mb_y < shape.mb_height
        &&& shape.position(place.mb_x as int, place.mb_y as int) == position
    } by {
        lemma_place_coded(shape, position);
    }
}

/// The place whose position is looked up is the place that is coded there.
proof fn lemma_position_coded(shape: PictureShape, x: int, y: int)
    requires
        shape.wf(),
        0 <= x < shape.mb_width,
        0 <= y < shape.mb_height,
    ensures
        0 <= shape.position(x, y) < shape.count(),
        shape.place(shape.position(x, y)).mb_x == x,
        shape.place(shape.position(x, y)).mb_y == y,
{
    let w = shape.mb_width as int;
    let h = shape.mb_height as int;
    if shape.pair || shape.mbaff {
        lemma_two_fields(shape);
        lemma_row_and_column(y / 2, x, w);
        lemma_position_below(y / 2, x, w, h / 2);
        let at = (y / 2) * w + x;
        assert((2 * at + y % 2) / 2 == at);
        assert((2 * at + y % 2) % 2 == y % 2);
    } else {
        lemma_row_and_column(y, x, w);
        lemma_position_below(y, x, w, h);
    }
}

/// The position of the place that is coded at a position is that position.
proof fn lemma_place_coded(shape: PictureShape, position: int)
    requires
        shape.wf(),
        0 <= position < shape.count(),
    ensures
        shape.place(position).mb_x < shape.mb_width,
        shape.place(position).mb_y < shape.mb_height,
        shape.position(
            shape.place(position).mb_x as int,
            shape.place(position).mb_y as int,
        ) == position,
{
    let w = shape.mb_width as int;
    let h = shape.mb_height as int;
    if shape.pair {
        lemma_two_fields(shape);
        let at = if position >= shape.field_count() {
            position - shape.field_count()
        } else {
            position
        };
        lemma_column_and_row(at, w, h / 2);
        let p = shape.parity(position >= shape.field_count());
        assert((2 * (at / w) + p) / 2 == at / w);
        assert((2 * (at / w) + p) % 2 == p);
    } else if shape.mbaff {
        lemma_two_fields(shape);
        let at = position / 2;
        lemma_column_and_row(at, w, h / 2);
        let p = position % 2;
        assert((2 * (at / w) + p) / 2 == at / w);
        assert((2 * (at / w) + p) % 2 == p);
    } else {
        lemma_column_and_row(position, w, h);
    }
}


/// The context is one that a picture can be coded in.
pub open spec fn codable(c: ContextView) -> bool {
    &&& c.frame_num < 256
    &&& c.poc < u32::MAX
    &&& c.short_term.len() <= 3
    &&& forall|i: int| 0 <= i < c.short_term.len() ==> #[trigger] c.short_term[i] < 256
    // The long-term picture stands behind every short-term one.
    &&& c.layout.flat == c.short_term.len()
    &&& c.layout.count == c.short_term.len() + 1
    &&& c.layout.l1_short_term_delta matches Some(delta) ==> 1 <= delta <= 256
    &&& predict::layout_small(c.layout)
    &&& !c.layout.anchor_second_field
    &&& c.weight_scale.len() == 64
    &&& 1 <= c.picture_count <= 2
}

/// Whether the context is one that a picture can be coded in.
pub fn is_codable(context: &PictureContext) -> (yes: bool)
    requires
        context.wf(),
    ensures
        yes == codable(context@),
{
    let layout = &context.layout;
    let held: usize = context.short_term.count;
    let mut i: usize = 0;
    while i < held
        invariant
            i <= held <= 3,
            held == context.short_term.count,
            forall|k: int| 0 <= k < i ==> #[trigger] context@.short_term[k] < 256,
        decreases held - i,
    {
        if context.short_term.frames[i] >= 256 {
            assert(context@.short_term[i as int] >= 256);
            return false;
        }
        i = i + 1;
    }
    let delta: bool = match layout.l1_short_term_delta {
        Some(delta) => 1 <= delta && delta <= 256,
        None => true,
    };
    let small: bool = layout.count <= 64 && -1 <= layout.fwd_l0 && layout.fwd_l0 <= 64 && -1
        <= layout.fwd_l1 && layout.fwd_l1 <= 64 && -1 <= layout.bwd_l0 && layout.bwd_l0 <= 64 && -1
        <= layout.bwd_l1 && layout.bwd_l1 <= 64;
    context.frame_num < 256 && context.poc < u32::MAX && layout.flat == held as i32 && layout.count
        == held as u32 + 1 && delta && small && !layout.anchor_second_field && 1
        <= context.picture_count && context.picture_count <= 2
}

/// Whether the coded field predicts from itself: the first, or the whole, of a picture
/// that opens the decoded picture buffer or that decoding can recover at.
///
/// Only one of a pair's two coded fields can carry IdrPicFlag: an IDR
/// empties the decoded picture buffer, so a second one would throw out
/// the field that came before it. Clause 3.30 says as much -- the second
/// field of a complementary reference field pair is by definition not an
/// IDR picture -- so the other field is an ordinary reference field, and
/// the sliding window leaves the pair alone.
///
/// Nor is it coded like one. A frame sent as a pair of fields makes its
/// second field a P field predicted from the first as a matter of
/// course, and H.264 intra prediction has nothing to make those inter
/// macroblocks from, so the second field goes through the same path
/// every content picture does.
pub open spec fn is_intra_field(c: ContextView, second: bool) -> bool {
    (c.real_idr || c.recovery_intra) && !second
}

/// Whether the coded field is the second half of a random access point.
///
/// A recovery point must be decodable without the pictures that came
/// before it just like an IDR. Its second field therefore names only
/// the independently reconstructed first field, even though a decoder
/// doing continuous playback still has older pictures in its DPB.
pub open spec fn is_anchor_second(c: ContextView, second: bool) -> bool {
    (c.real_idr || c.recovery_intra) && second
}

/// What the second field of a random access point predicts from, which is
/// the first half of its own pair and nothing else.
pub open spec fn anchor_layout() -> RefLayout {
    RefLayout {
        count: 1,
        fwd_l0: 0,
        fwd_l1: 0,
        bwd_l0: NO_REFERENCE,
        bwd_l1: NO_REFERENCE,
        flat: 0,
        l1_short_term_delta: None,
        anchor_second_field: true,
    }
}

/// Where the references of a coded field stand.
pub open spec fn layout_of(c: ContextView, second: bool) -> RefLayout {
    if is_anchor_second(c, second) {
        anchor_layout()
    } else {
        c.layout
    }
}

/// How many short-term reference fields stand in front of the long-term
/// ones, which is where the flat prediction sits.
///
/// A buffer of `count` frames offers twice as many fields. The second
/// field of a reference pair sees a different set: its own first field
/// was marked before it and stands in the list alone, without the mate
/// it has not got yet. Clause 8.2.5.3 makes room for that frame by
/// pushing the oldest one out, which turns a whole frame into a single
/// field and leaves the run a field shorter -- but only once the buffer
/// is full. It is not full for the first pictures behind a random access
/// point, and there nothing leaves and the run is a field longer.
pub open spec fn short_term_fields(c: ContextView, second: bool) -> int {
    if is_anchor_second(c, second) {
        // The IDR emptied the buffer, so the first half of this very pair
        // is the whole of it.
        1
    } else if second && c.is_reference {
        if c.layout.count == MAX_NUM_REF_FRAMES {
            2 * c.layout.flat - 1
        } else {
            2 * c.layout.flat + 1
        }
    } else {
        2 * c.layout.flat
    }
}

/// How many entries a coded field's lists have: the long-term picture contributes both
/// of its fields behind the short-term ones, except to the pair that has not reached it
/// yet.
pub open spec fn field_list_len(c: ContextView, second: bool) -> int {
    short_term_fields(c, second) + if is_anchor_second(c, second) {
        0int
    } else {
        2
    }
}

/// The lists that a slice names: the short-term run it would otherwise leave a decoder
/// to work out.
///
/// A recovery pair is decoded while the old DPB is still present,
/// so its second field cannot rely on the default list putting the first
/// field of this pair ahead of those older references. Name that field
/// explicitly: it has this frame_num and the opposite parity.
pub open spec fn named_lists(c: ContextView, pair: bool, second: bool) -> Option<
    (Seq<RefPicListEntry>, Seq<RefPicListEntry>),
> {
    let mate = seq![RefPicListEntry { frames_back: 0, same_parity: false }];
    if is_anchor_second(c, second) {
        Some((mate, mate))
    } else if !is_intra_field(c, second) && !(second && c.is_reference) {
        Some(
            syntax::short_term_lists(c.short_term, c.frame_num, c.layout.bwd_l0 >= 0, pair),
        )
    } else {
        None
    }
}

/// Which index of each list carries the flat prediction.
pub open spec fn flat_indices(c: ContextView, pair: bool, second: bool) -> [Option<u32>; 2] {
    if is_anchor_second(c, second) {
        // The one field this list holds is what the inter
        // macroblocks predict from, so list 0 keeps it at its
        // ordinary weight and only list 1 carries the constant.
        [None, Some(0u32)]
    } else {
        // Long-term fields follow every short-term one, and
        // both runs start with the parity of the field being
        // coded, so the long-term picture's own field of this
        // parity leads them whichever parity that is.
        let index = if pair {
            short_term_fields(c, second) as u32
        } else {
            c.layout.flat as u32
        };
        [Some(index), Some(index)]
    }
}

/// What the header of a coded field's slice says.
pub open spec fn slice_config(c: ContextView, shape: PictureShape, second: bool) -> SliceHeaderConfig {
    let idr = c.real_idr && !second;
    let layout = layout_of(c, second);
    let active = if shape.pair {
        field_list_len(c, second) as u32
    } else {
        layout.count
    };
    SliceHeaderConfig {
        first_mb_in_slice: 0,
        // A B slice is the only one with a list 1 to put the flat weights in.
        slice_type: if is_intra_field(c, second) {
            SliceType::I
        } else {
            SliceType::B
        },
        frame_num: c.frame_num,
        log2_max_frame_num: LOG2_MAX_FRAME_NUM,
        // A field pair displays in the order it was coded, so the
        // second coded field takes the later slot whichever parity
        // it carries. A coded IDR field is also required to hold
        // order count 0, and the first coded field is the one that
        // is the IDR.
        pic_order_cnt_lsb: if second {
            (c.poc + 1) as u32
        } else {
            c.poc
        },
        log2_max_poc_lsb: LOG2_MAX_POC_LSB,
        idr,
        // A frame IDR takes the long-term slot itself, which leaves
        // the copy behind it short-term for the content to predict
        // from.
        long_term_current: if idr && !shape.pair {
            Some(LONG_TERM_FRAME_IDX)
        } else {
            None
        },
        long_term_previous: None,
        reference: c.is_reference,
        mbaff: c.mbaff,
        field_picture: if shape.pair {
            Some(shape.parity(second) != 0)
        } else {
            None
        },
        slice_qp: PPS_INIT_QP,
        pps_init_qp: PPS_INIT_QP,
        disable_deblocking_filter_idc: 1,
        num_ref_idx_l0_active: Some(active),
        num_ref_idx_l1_active: Some(active),
        explicit_ref_lists: match named_lists(c, shape.pair, second) {
            Some((l0, l1)) => Some([slice::list_naming(l0), slice::list_naming(l1)]),
            None => None,
        },
        l1_first_short_term_delta: if shape.pair {
            None
        } else {
            layout.l1_short_term_delta
        },
        flat_pred_ref_idx: flat_indices(c, shape.pair, second),
    }
}

/// The lists that a slice names end where the flat prediction stands, and the flat
/// prediction stands inside the lists.
pub proof fn law_flat_prediction_follows_the_named_lists(
    c: ContextView,
    shape: PictureShape,
    second: bool,
)
    requires
        codable(c),
        second ==> shape.pair,
    ensures
        named_lists(c, shape.pair, second) matches Some((l0, l1)) ==> {
            let run = if shape.pair {
                short_term_fields(c, second)
            } else {
                c.layout.flat as int
            };
            l0.len() == run && l1.len() == run
        },
        ({
            let config = slice_config(c, shape, second);
            forall|list: int|
                0 <= list < 2 ==> (#[trigger] config.flat_pred_ref_idx[list] matches Some(index)
                    ==> index < config.num_ref_idx_l0_active->Some_0)
        }),
{
    syntax::law_lists_name_every_frame(
        c.short_term,
        c.frame_num,
        c.layout.bwd_l0 >= 0,
        shape.pair,
    );
}

/// Where the references of a coded field stand.
pub fn field_layout(context: &PictureContext, second: bool) -> (layout: RefLayout)
    ensures
        layout == layout_of(context@, second),
{
    if (context.real_idr || context.recovery_intra) && second {
        RefLayout {
            count: 1,
            fwd_l0: 0,
            fwd_l1: 0,
            bwd_l0: NO_REFERENCE,
            bwd_l1: NO_REFERENCE,
            flat: 0,
            l1_short_term_delta: None,
            anchor_second_field: true,
        }
    } else {
        context.layout
    }
}

/// How many short-term reference fields stand in front of the long-term ones.
pub fn count_short_term_fields(context: &PictureContext, second: bool) -> (count: u32)
    requires
        codable(context@),
    ensures
        count == short_term_fields(context@, second),
        count <= 7,
{
    let flat: u32 = context.layout.flat as u32;
    if (context.real_idr || context.recovery_intra) && second {
        1
    } else if second && context.is_reference {
        if context.layout.count == MAX_NUM_REF_FRAMES {
            flat * 2 - 1
        } else {
            flat * 2 + 1
        }
    } else {
        flat * 2
    }
}

/// How many entries a coded field's lists have.
pub fn count_field_list(context: &PictureContext, second: bool) -> (count: u32)
    requires
        codable(context@),
    ensures
        count == field_list_len(context@, second),
        1 <= count <= 9,
{
    let short_term: u32 = count_short_term_fields(context, second);
    if (context.real_idr || context.recovery_intra) && second {
        short_term
    } else {
        short_term + 2
    }
}

/// What the macroblocks of a coded field have in common.
pub fn field_setting(context: &PictureContext, shape: &PictureShape, second: bool) -> (setting:
    FieldSetting)
    requires
        codable(context@),
    ensures
        setting == (FieldSetting {
            field: shape.parity(second) as usize,
            second_reference_field: second && context@.is_reference,
            flat_field_idx: short_term_fields(context@, second) as i32,
        }),
        setting.field <= 1,
{
    FieldSetting {
        field: if (shape.structure == PictureStructure::BottomField) != second {
            1
        } else {
            0
        },
        second_reference_field: second && context.is_reference,
        flat_field_idx: count_short_term_fields(context, second) as i32,
    }
}

/// The lists that a slice names.
fn name_lists(context: &PictureContext, pair: bool, second: bool) -> (lists: Option<
    [RefPicList; 2],
>)
    requires
        context.wf(),
        codable(context@),
    ensures
        match lists {
            Some(lists) => lists[0].wf() && lists[1].wf() && slice::small_distances(lists[0]@)
                && slice::small_distances(lists[1]@) && named_lists(context@, pair, second) == Some(
                (lists[0]@, lists[1]@),
            ),
            None => named_lists(context@, pair, second) is None,
        },
{
    let anchor: bool = context.real_idr || context.recovery_intra;
    if anchor && second {
        let mut list = RefPicList::new();
        list.push(RefPicListEntry { frames_back: 0, same_parity: false });
        assert(list@ =~= seq![RefPicListEntry { frames_back: 0, same_parity: false }]);
        Some([list, list])
    } else if !anchor && !(second && context.is_reference) {
        Some(
            short_term_ref_lists(
                &context.short_term,
                context.frame_num,
                context.layout.bwd_l0 >= 0,
                pair,
            ),
        )
    } else {
        None
    }
}

/// What the header of a coded field's slice says.
fn make_slice_config(context: &PictureContext, shape: &PictureShape, second: bool) -> (config:
    SliceHeaderConfig)
    requires
        context.wf(),
        codable(context@),
        second ==> shape.pair,
    ensures
        config.wf(),
        slice::header_bits(config) == slice::header_bits(slice_config(context@, *shape, second)),
{
    let anchor: bool = context.real_idr || context.recovery_intra;
    let idr: bool = context.real_idr && !second;
    let layout = field_layout(context, second);
    let active: u32 = if shape.pair {
        count_field_list(context, second)
    } else {
        layout.count
    };
    let lists = name_lists(context, shape.pair, second);
    let flat: u32 = if shape.pair {
        count_short_term_fields(context, second)
    } else {
        context.layout.flat as u32
    };
    let flat_pred_ref_idx: [Option<u32>; 2] = if anchor && second {
        [None, Some(0)]
    } else {
        [Some(flat), Some(flat)]
    };
    assert(flat_pred_ref_idx@ =~= flat_indices(context@, shape.pair, second)@);
    let config = SliceHeaderConfig {
        first_mb_in_slice: 0,
        slice_type: if anchor && !second {
            SliceType::I
        } else {
            SliceType::B
        },
        frame_num: context.frame_num,
        log2_max_frame_num: LOG2_MAX_FRAME_NUM,
        pic_order_cnt_lsb: if second {
            context.poc + 1
        } else {
            context.poc
        },
        log2_max_poc_lsb: LOG2_MAX_POC_LSB,
        idr,
        long_term_current: if idr && !shape.pair {
            Some(LONG_TERM_FRAME_IDX)
        } else {
            None
        },
        long_term_previous: None,
        reference: context.is_reference,
        mbaff: context.mbaff,
        field_picture: if shape.pair {
            Some((shape.structure == PictureStructure::BottomField) != second)
        } else {
            None
        },
        slice_qp: PPS_INIT_QP,
        pps_init_qp: PPS_INIT_QP,
        disable_deblocking_filter_idc: 1,
        num_ref_idx_l0_active: Some(active),
        num_ref_idx_l1_active: Some(active),
        explicit_ref_lists: lists,
        l1_first_short_term_delta: if shape.pair {
            None
        } else {
            layout.l1_short_term_delta
        },
        flat_pred_ref_idx,
    };
    proof {
        let said = slice_config(context@, *shape, second);
        if lists is Some {
            let named = lists->Some_0;
            assert(slice::list_naming(named[0]@)@ == named[0]@);
            assert(slice::list_naming(named[1]@)@ == named[1]@);
        }
        assert(config == SliceHeaderConfig { explicit_ref_lists: lists, ..said });
        slice::lemma_entries_matter(config, said);
    }
    config
}


impl PictureShape {
    /// Whether the macroblock at a place is read from the second coded picture of a
    /// pair, and its address there.
    pub open spec fn source(self, place: Place) -> (bool, int) {
        let w = self.mb_width as int;
        if self.pair {
            (
                (place.field == 0) != (self.structure == PictureStructure::TopField),
                (place.mb_y as int / 2) * w + place.mb_x,
            )
        } else {
            (false, place.mb_y * w + place.mb_x)
        }
    }

    /// The addresses of the two macroblocks that a pair of field macroblocks is made
    /// from: the upper and the lower.
    pub open spec fn halves(self, place: Place) -> (int, int) {
        let w = self.mb_width as int;
        let upper = 2 * (place.mb_y as int / 2);
        (upper * w + place.mb_x, (upper + 1) * w + place.mb_x)
    }

    /// Whether there is a macroblock to code, and where they are coded in fields or pairs
    /// every row has its other.
    pub fn is_whole(&self) -> (yes: bool)
        ensures
            yes == self.wf(),
    {
        1 <= self.mb_width && self.mb_width <= 1024 && 1 <= self.mb_height && self.mb_height <= 1024
            && (!(self.pair || self.mbaff) || self.mb_height % 2 == 0)
    }

    /// Where the macroblock stands that is coded at a position.
    pub fn place_at(&self, position: usize) -> (place: Place)
        requires
            self.wf(),
            position < self.count(),
        ensures
            place == self.place(position as int),
            place.mb_x < self.mb_width,
            place.mb_y < self.mb_height,
            place.field <= 1,
    {
        proof {
            lemma_place_coded(*self, position as int);
            lemma_count_small(*self);
        }
        let w: usize = self.mb_width;
        if self.pair {
            proof {
                lemma_two_fields(*self);
            }
            let field_size: usize = w * (self.mb_height / 2);
            let second: bool = position >= field_size;
            let at: usize = if second {
                position - field_size
            } else {
                position
            };
            let field: usize = if (self.structure == PictureStructure::BottomField) != second {
                1
            } else {
                0
            };
            proof {
                lemma_column_and_row(at as int, w as int, self.mb_height as int / 2);
            }
            Place { second, field, mb_x: at % w, mb_y: (at / w) * 2 + field }
        } else if self.mbaff {
            let pair_address: usize = position / 2;
            proof {
                lemma_two_fields(*self);
                lemma_column_and_row(pair_address as int, w as int, self.mb_height as int / 2);
            }
            Place {
                second: false,
                field: position % 2,
                mb_x: pair_address % w,
                mb_y: (pair_address / w) * 2 + position % 2,
            }
        } else {
            Place { second: false, field: position % 2, mb_x: position % w, mb_y: position / w }
        }
    }

    /// How many macroblocks the picture has.
    pub fn macroblock_count(&self) -> (count: usize)
        requires
            self.wf(),
        ensures
            count == self.count(),
            count <= 0x10_0000,
    {
        proof {
            lemma_count_small(*self);
        }
        self.mb_width * self.mb_height
    }

    /// How many macroblocks either field of a pair has.
    pub fn field_macroblock_count(&self) -> (count: usize)
        requires
            self.wf(),
            self.pair,
        ensures
            count == self.field_count(),
    {
        proof {
            lemma_two_fields(*self);
        }
        self.macroblock_count() / 2
    }

    /// Where a macroblock is read: whether in the second coded picture of a pair, and at
    /// which address.
    pub fn source_of(&self, place: &Place) -> (source: (bool, usize))
        requires
            self.wf(),
            place.mb_x < self.mb_width,
            place.mb_y < self.mb_height,
        ensures
            source.0 == self.source(*place).0,
            source.1 == self.source(*place).1,
    {
        proof {
            lemma_count_small(*self);
            lemma_position_below(
                place.mb_y as int,
                place.mb_x as int,
                self.mb_width as int,
                self.mb_height as int,
            );
            lemma_fewer_rows(
                place.mb_y as int / 2,
                place.mb_y as int,
                self.mb_width as int,
            );
        }
        if self.pair {
            (
                (place.field == 0) != (self.structure == PictureStructure::TopField),
                (place.mb_y / 2) * self.mb_width + place.mb_x,
            )
        } else {
            (false, place.mb_y * self.mb_width + place.mb_x)
        }
    }

    /// The addresses of the two macroblocks that a pair of field macroblocks is made
    /// from.
    pub fn halves_of(&self, place: &Place) -> (halves: (usize, usize))
        requires
            self.wf(),
            self.mbaff,
            place.mb_x < self.mb_width,
            place.mb_y < self.mb_height,
        ensures
            halves.0 == self.halves(*place).0,
            halves.1 == self.halves(*place).1,
    {
        let upper: usize = 2 * (place.mb_y / 2);
        proof {
            lemma_count_small(*self);
            lemma_position_below(
                upper + 1,
                place.mb_x as int,
                self.mb_width as int,
                self.mb_height as int,
            );
            lemma_fewer_rows(upper as int, upper + 1, self.mb_width as int);
        }
        (upper * self.mb_width + place.mb_x, (upper + 1) * self.mb_width + place.mb_x)
    }

    /// Whether the macroblocks of this picture are coded as field macroblocks.
    pub fn codes_fields(&self) -> (yes: bool)
        ensures
            yes == self.in_fields(),
    {
        self.pair || (self.mbaff && !self.source_intra)
    }
}

/// A picture has no more than a million macroblocks.
proof fn lemma_count_small(shape: PictureShape)
    requires
        shape.wf(),
    ensures
        0 <= shape.count() <= 0x10_0000,
        0 <= shape.field_count() <= shape.count(),
{
    assert(0 <= shape.mb_width * shape.mb_height <= 0x10_0000) by (nonlinear_arith)
        requires
            0 <= shape.mb_width <= 1024,
            0 <= shape.mb_height <= 1024,
    ;
    assert(0 <= shape.mb_width * (shape.mb_height as int / 2) <= shape.mb_width * shape.mb_height)
        by (nonlinear_arith)
        requires
            0 <= shape.mb_width,
            0 <= shape.mb_height as int / 2 <= shape.mb_height,
    ;
}

/// Fewer rows hold no more macroblocks.
proof fn lemma_fewer_rows(few: int, many: int, width: int)
    requires
        0 <= few <= many,
        0 <= width,
    ensures
        0 <= few * width <= many * width,
{
    assert(0 <= few * width <= many * width) by (nonlinear_arith)
        requires
            0 <= few <= many,
            0 <= width,
    ;
}

/// Each coded field of a pair is made from the coded picture that it was in the source,
/// whichever parity came first.
pub proof fn law_fields_keep_their_order(shape: PictureShape, position: int)
    requires
        shape.wf(),
        shape.pair,
        shape.structure == PictureStructure::TopField || shape.structure
            == PictureStructure::BottomField,
        0 <= position < shape.count(),
    ensures
        shape.source(shape.place(position)).0 == shape.place(position).second,
{
}

/// What stands in front of a macroblock, and the macroblock.
///
/// Every macroblock is coded explicitly. A B_Skip would mean direct mode,
/// whose derived vectors are not the ones the source used. In P and B slices
/// mb_field_decoding_flag follows mb_skip_run, unlike an I slice where it immediately
/// precedes mb_type.
#[verifier::opaque]
pub open spec fn macroblock_bits(
    c: ContextView,
    shape: PictureShape,
    place: Place,
    coded: Seq<bool>,
) -> Seq<bool> {
    let intra = is_intra_field(c, place.second);
    (if intra {
        Seq::<bool>::empty()
    } else {
        bitwriter::ue_code(0)
    }) + (if shape.mbaff && !shape.pair && place.mb_y % 2 == 0 {
        bitwriter::bit(!intra && shape.in_fields())
    } else {
        Seq::<bool>::empty()
    }) + coded
}

/// The slice that holds the `count` macroblocks from `first` on.
pub open spec fn slice_bits(
    c: ContextView,
    shape: PictureShape,
    second: bool,
    coded: Seq<Seq<bool>>,
    first: int,
    count: nat,
) -> Seq<bool>
    decreases count,
{
    if count == 0 {
        slice::header_bits(slice_config(c, shape, second))
    } else {
        let position = first + count - 1;
        slice_bits(c, shape, second, coded, first, (count - 1) as nat) + macroblock_bits(
            c,
            shape,
            shape.place(position),
            coded[position],
        )
    }
}

/// How much a decoder may rely on a coded field.
pub open spec fn reference_idc(c: ContextView, second: bool) -> int {
    if is_intra_field(c, second) {
        3
    } else if c.is_reference {
        2
    } else {
        0
    }
}

/// What kind of slice a coded field is.
pub open spec fn slice_kind(c: ContextView, second: bool) -> int {
    if c.real_idr && !second {
        nal_type::SLICE_IDR as int
    } else {
        nal_type::SLICE_NON_IDR as int
    }
}

/// A coded field, or a coded frame.
pub open spec fn slice_unit(
    c: ContextView,
    shape: PictureShape,
    second: bool,
    coded: Seq<Seq<bool>>,
    first: int,
    count: nat,
) -> Seq<u8> {
    nal::nal_unit(
        params::closed_rbsp(slice_bits(c, shape, second, coded, first, count)),
        reference_idc(c, second),
        slice_kind(c, second),
    )
}

/// A picture: one slice, or one for each field.
///
/// Either coded field is a primary coded picture in its own right,
/// so a delimiter between them is legal H.264 whichever way round
/// the option is set. It is what makes the muxer see two access
/// units, and so give each field its own MP4 sample.
pub open spec fn picture_units(c: ContextView, shape: PictureShape, coded: Seq<Seq<bool>>) -> Seq<
    u8,
> {
    if shape.pair {
        let field = shape.field_count();
        let first = slice_unit(c, shape, false, coded, 0, field as nat);
        let second = slice_unit(c, shape, true, coded, field, field as nat);
        if c.options.split_field_samples {
            first + syntax::delimiter_unit() + second
        } else {
            first + second
        }
    } else {
        slice_unit(c, shape, false, coded, 0, shape.count() as nat)
    }
}

/// Bit strings as mathematical values.
pub open spec fn bit_views(coded: Seq<Vec<bool>>) -> Seq<Seq<bool>> {
    Seq::new(coded.len(), |i: int| coded[i]@)
}

/// Append bits.
fn write_bits(w: &mut BitWriter, bits: &Vec<bool>)
    requires
        old(w).wf(),
    ensures
        final(w).wf(),
        final(w)@ == old(w)@ + bits@,
{
    let mut i: usize = 0;
    assert(w@ =~= old(w)@ + bits@.take(0));
    while i < bits.len()
        invariant
            i <= bits@.len(),
            w.wf(),
            w@ == old(w)@ + bits@.take(i as int),
        decreases bits@.len() - i,
    {
        w.flag(bits[i]);
        i = i + 1;
        assert(w@ =~= old(w)@ + bits@.take(i as int));
    }
    assert(bits@.take(bits@.len() as int) =~= bits@);
}

/// Write a macroblock behind what stands in front of it.
fn write_macroblock(
    w: &mut BitWriter,
    context: &PictureContext,
    shape: &PictureShape,
    place: &Place,
    coded: &Vec<bool>,
)
    requires
        old(w).wf(),
    ensures
        final(w).wf(),
        final(w)@ == old(w)@ + macroblock_bits(context@, *shape, *place, coded@),
{
    proof {
        reveal(macroblock_bits);
    }
    let intra: bool = (context.real_idr || context.recovery_intra) && !place.second;
    if !intra {
        w.ue(0);
    }
    if shape.mbaff && !shape.pair && place.mb_y % 2 == 0 {
        w.flag(!intra && shape.codes_fields());
    }
    write_bits(w, coded);
    assert(w@ =~= old(w)@ + macroblock_bits(context@, *shape, *place, coded@));
}

/// Write the slice that holds the `count` macroblocks from `first` on.
fn write_slice(
    context: &PictureContext,
    shape: &PictureShape,
    second: bool,
    coded: &Vec<Vec<bool>>,
    first: usize,
    count: usize,
) -> (unit: Vec<u8>)
    requires
        context.wf(),
        codable(context@),
        shape.wf(),
        second ==> shape.pair,
        first + count <= coded@.len(),
        coded@.len() == shape.count(),
        forall|p: int| first <= p < first + count ==> (#[trigger] shape.place(p)).second == second,
    ensures
        unit@ == slice_unit(
            context@,
            *shape,
            second,
            bit_views(coded@),
            first as int,
            count as nat,
        ),
{
    let ghost bits = bit_views(coded@);
    proof {
        lemma_count_small(*shape);
    }
    let intra: bool = (context.real_idr || context.recovery_intra) && !second;
    let mut w = BitWriter::new();
    let config = make_slice_config(context, shape, second);
    write_slice_header(&mut w, &config);
    assert(w@ =~= slice::header_bits(slice_config(context@, *shape, second)));
    let mut done: usize = 0;
    while done < count
        invariant
            shape.wf(),
            bits == bit_views(coded@),
            first + count <= coded@.len(),
            coded@.len() == shape.count(),
            coded@.len() <= 0x10_0000,
            forall|p: int|
                first <= p < first + count ==> (#[trigger] shape.place(p)).second == second,
            done <= count,
            w.wf(),
            w@ == slice_bits(context@, *shape, second, bits, first as int, done as nat),
        decreases count - done,
    {
        let position: usize = first + done;
        let place = shape.place_at(position);
        assert(place.second == second);
        assert(bits[position as int] == coded@[position as int]@);
        write_macroblock(&mut w, context, shape, &place, &coded[position]);
        done = done + 1;
    }
    w.rbsp_trailing_bits();
    let reference: u8 = if intra {
        3
    } else if context.is_reference {
        2
    } else {
        0
    };
    let kind: u8 = if context.real_idr && !second {
        nal_type::SLICE_IDR
    } else {
        nal_type::SLICE_NON_IDR
    };
    to_nal_unit(w.bytes(), reference, kind)
}

/// Put a picture together from its macroblocks, each coded as the syntax behind its
/// `mb_skip_run` and `mb_field_decoding_flag`, in the order of their positions.
pub fn write_picture(context: &PictureContext, shape: &PictureShape, coded: &Vec<Vec<bool>>) -> (
    units: Vec<u8>)
    requires
        context.wf(),
        codable(context@),
        shape.wf(),
        coded@.len() == shape.count(),
    ensures
        units@ == picture_units(context@, *shape, bit_views(coded@)),
{
    let count: usize = shape.macroblock_count();
    if !shape.pair {
        return write_slice(context, shape, false, coded, 0, count);
    }
    proof {
        lemma_two_fields(*shape);
        lemma_count_small(*shape);
    }
    let field: usize = shape.mb_width * (shape.mb_height / 2);
    let mut units = write_slice(context, shape, false, coded, 0, field);
    let ghost first = units@;
    if context.options.split_field_samples {
        units.extend_from_slice(&write_access_unit_delimiter());
        assert(units@ =~= first + syntax::delimiter_unit());
    }
    let ghost opened = units@;
    let second = write_slice(context, shape, true, coded, field, field);
    units.extend_from_slice(&second);
    assert(units@ =~= opened + second@);
    units
}

} // verus!
