//! How the macroblocks of a picture are predicted, each in its place.
use crate::h264::mb;
use crate::h264::mb::{
    b16x8_mb_type, b_mb_type, InterMacroblock, MbMotion, MotionPartition, PredictionMode,
};
use crate::job::{ContextView, PictureContext};
use crate::mpeg2::constants::mb_flag;
use crate::mpeg2::macroblock;
use crate::mpeg2::macroblock::{Macroblock, MacroblockView};
use crate::mpeg2::motion_type;
use crate::transcode::options;
use crate::transcode::options::Stats;
use crate::transcode::picture;
use crate::transcode::picture::{
    count_field_list, field_layout, field_setting, PictureShape, Place,
};
use crate::transcode::predict;
use crate::transcode::predict::{
    count_field_pair_vector, prediction_for, prediction_for_field, prediction_for_field_picture,
    FieldSetting, Prediction, NO_REFERENCE,
};
use vstd::prelude::*;

verus! {

/// How a macroblock is predicted: as a whole, or its upper and lower halves apart.
#[derive(Clone, Copy, Debug, PartialEq, Eq)]
pub struct MotionPlan {
    pub whole: Prediction,
    pub halves: Option<[Prediction; 2]>,
    pub mb_type: u32,
}

/// How the macroblocks of a picture are coded.
#[derive(Clone, Copy, Debug, PartialEq, Eq, Structural)]
pub enum Coding {
    /// Frame macroblocks, each predicted as a whole.
    Frame,
    /// Frame macroblocks of a macroblock-adaptive picture, predicted in halves.
    SplitFrame,
    /// Field macroblocks of a macroblock-adaptive picture: each combines eight lines
    /// of its field from each of two vertically adjacent macroblocks of the source.
    FieldPair,
    /// Macroblocks of a coded field.
    FieldPicture,
}

/// How the macroblocks of a picture of a shape are coded.
pub open spec fn coding_of(shape: PictureShape) -> Coding {
    if shape.pair {
        Coding::FieldPicture
    } else if !shape.mbaff {
        Coding::Frame
    } else if shape.source_intra {
        Coding::SplitFrame
    } else {
        Coding::FieldPair
    }
}

/// How the macroblocks of a picture of a shape are coded.
pub fn picture_coding(shape: &PictureShape) -> (coding: Coding)
    ensures
        coding == coding_of(*shape),
        shape.in_fields() == (coding is FieldPair || coding is FieldPicture),
{
    if shape.pair {
        Coding::FieldPicture
    } else if !shape.mbaff {
        Coding::Frame
    } else if shape.source_intra {
        Coding::SplitFrame
    } else {
        Coding::FieldPair
    }
}

/// Whether the source coded the macroblock as intra. One that it skipped, or never
/// coded, is not.
pub open spec fn is_intra_source(source: Option<MacroblockView>) -> bool {
    source matches Some(m) && !m.skipped && macroblock::has_flag(m.flags, mb_flag::INTRA)
}

/// Whether the source coded the macroblock as intra.
pub fn codes_intra(source: Option<&Macroblock>) -> (intra: bool)
    ensures
        intra == is_intra_source(predict::source_view(source)),
{
    match source {
        Some(m) => !m.skipped && m.is_intra(),
        None => false,
    }
}

/// Whether the macroblock's flags say intra, skipped or not.
pub open spec fn has_intra_flag(source: Option<MacroblockView>) -> bool {
    source matches Some(m) && macroblock::has_flag(m.flags, mb_flag::INTRA)
}

/// Whether the macroblock's flags say intra, skipped or not.
pub fn flags_intra(source: Option<&Macroblock>) -> (intra: bool)
    ensures
        intra == has_intra_flag(predict::source_view(source)),
{
    match source {
        Some(m) => m.is_intra(),
        None => false,
    }
}

/// One macroblock of this kind is counted.
pub open spec fn one_macroblock(intra: bool) -> Stats {
    if intra {
        Stats { intra_macroblocks: 1, ..options::no_counts() }
    } else {
        Stats { inter_macroblocks: 1, ..options::no_counts() }
    }
}

/// A prediction that says nothing.
pub open spec fn no_prediction() -> Prediction {
    Prediction {
        mb_type: b_mb_type::L0_16X16,
        ref_idx_l0: NO_REFERENCE,
        ref_idx_l1: NO_REFERENCE,
        mv_l0: [0, 0],
        mv_l1: [0, 0],
    }
}

/// The type of a macroblock whose halves are predicted so.
pub open spec fn halves_type(halves: [Prediction; 2]) -> u32 {
    mb::halves_mb_type(
        PredictionMode::of_mb_type(halves[0].mb_type),
        PredictionMode::of_mb_type(halves[1].mb_type),
    )
}

/// A plan of both halves.
pub open spec fn split_plan(whole: Prediction, halves: [Prediction; 2]) -> MotionPlan {
    MotionPlan { whole, halves: Some(halves), mb_type: halves_type(halves) }
}

/// Whether the source predicts the halves of a macroblock of a field picture apart.
pub open spec fn is_split_source(source: Option<MacroblockView>) -> bool {
    source matches Some(m) && m.motion_type == motion_type::FRAME_OR_16X8 && m.mv_count >= 2
}

/// The setting of a coded field's macroblocks.
pub open spec fn setting_of(c: ContextView, shape: PictureShape, second: bool) -> FieldSetting {
    FieldSetting {
        field: shape.parity(second) as usize,
        second_reference_field: second && c.is_reference,
        flat_field_idx: picture::short_term_fields(c, second) as i32,
    }
}

/// The plan of a macroblock of a coded field, and what is counted of it.
pub open spec fn field_picture_plan(
    c: ContextView,
    shape: PictureShape,
    second: bool,
    source: Option<MacroblockView>,
) -> (MotionPlan, Stats) {
    let intra = is_intra_source(source);
    let layout = picture::layout_of(c, second);
    let setting = setting_of(c, shape, second);
    let first = predict::field_picture_prediction(source, setting, 0, intra, layout);
    let other = predict::field_picture_prediction(source, setting, 1, intra, layout);
    if is_split_source(source) {
        (
            split_plan(first.0, [first.0, other.0]),
            one_macroblock(intra).plus(first.1).plus(first.1).plus(other.1),
        )
    } else {
        (
            MotionPlan { whole: first.0, halves: None, mb_type: first.0.mb_type },
            one_macroblock(intra).plus(first.1),
        )
    }
}

/// The plan of a field macroblock of a macroblock-adaptive picture, and what is counted
/// of it. Either half of the pair may be missing, and at the head of a unit
/// that starts part way through a picture -- which is what a seek
/// hands the conversion -- both often are. There is nothing to code
/// them from, so they carry no coefficients and predict from the
/// flat constant, the same concealment a field picture already uses.
pub open spec fn field_pair_plan(
    c: ContextView,
    field: int,
    source: Option<MacroblockView>,
    upper: Option<MacroblockView>,
    lower: Option<MacroblockView>,
    top_field_first: bool,
) -> (MotionPlan, Stats) {
    let intra = is_intra_source(source);
    (
        split_plan(
            no_prediction(),
            [
                predict::pair_prediction(
                    upper,
                    field,
                    top_field_first,
                    c.layout,
                    has_intra_flag(upper),
                ),
                predict::pair_prediction(
                    lower,
                    field,
                    top_field_first,
                    c.layout,
                    has_intra_flag(lower),
                ),
            ],
        ),
        one_macroblock(intra).plus(predict::field_pair_counts(source, intra, c.layout)),
    )
}

/// The plan of a frame macroblock, and what is counted of it.
pub open spec fn frame_plan(c: ContextView, split: bool, source: Option<MacroblockView>) -> (
    MotionPlan,
    Stats,
) {
    let intra = is_intra_source(source);
    let whole = predict::frame_prediction(source, intra, c.layout);
    (
        if split {
            split_plan(whole.0, [whole.0, whole.0])
        } else {
            MotionPlan { whole: whole.0, halves: None, mb_type: whole.0.mb_type }
        },
        one_macroblock(intra).plus(whole.1),
    )
}

/// The plan of the macroblock at a place, and what is counted of it.
pub open spec fn motion_plan(
    c: ContextView,
    shape: PictureShape,
    place: Place,
    source: Option<MacroblockView>,
    halves: (Option<MacroblockView>, Option<MacroblockView>),
    top_field_first: bool,
) -> (MotionPlan, Stats) {
    match coding_of(shape) {
        Coding::FieldPicture => field_picture_plan(c, shape, place.second, source),
        Coding::FieldPair => field_pair_plan(
            c,
            place.mb_y as int % 2,
            source,
            halves.0,
            halves.1,
            top_field_first,
        ),
        Coding::SplitFrame => frame_plan(c, true, source),
        Coding::Frame => frame_plan(c, false, source),
    }
}

/// Count one macroblock.
pub fn count_macroblock(intra: bool, stats: &mut Stats)
    requires
        old(stats).within(u64::MAX - 1),
    ensures
        *final(stats) == old(stats).plus(one_macroblock(intra)),
{
    if intra {
        stats.intra_macroblocks = stats.intra_macroblocks + 1;
    } else {
        stats.inter_macroblocks = stats.inter_macroblocks + 1;
    }
}

/// A plan of both halves.
fn make_split_plan(whole: Prediction, first: Prediction, other: Prediction) -> (plan: MotionPlan)
    ensures
        plan == split_plan(whole, [first, other]),
{
    MotionPlan {
        whole,
        halves: Some([first, other]),
        mb_type: b16x8_mb_type(
            PredictionMode::from_mb_type(first.mb_type),
            PredictionMode::from_mb_type(other.mb_type),
        ),
    }
}

/// Plan a macroblock of a coded field.
fn plan_field_picture(
    context: &PictureContext,
    shape: &PictureShape,
    second: bool,
    source: Option<&Macroblock>,
    stats: &mut Stats,
) -> (plan: MotionPlan)
    requires
        picture::codable(context@),
        predict::source_small(source),
        old(stats).within(u64::MAX - 4),
    ensures
        ({
            let outcome = field_picture_plan(
                context@,
                *shape,
                second,
                predict::source_view(source),
            );
            &&& plan == outcome.0
            &&& *final(stats) == old(stats).plus(outcome.1)
        }),
{
    let intra: bool = codes_intra(source);
    let layout = field_layout(context, second);
    let setting = field_setting(context, shape, second);
    let ghost view = predict::source_view(source);
    let ghost first_of = predict::field_picture_prediction(view, setting, 0, intra, layout);
    let ghost other_of = predict::field_picture_prediction(view, setting, 1, intra, layout);
    proof {
        predict::lemma_counts_one(view, setting, 0, intra, layout);
        predict::lemma_counts_one(view, setting, 1, intra, layout);
        stats.lemma_plus_few(one_macroblock(intra), first_of.1, first_of.1, other_of.1);
    }
    count_macroblock(intra, stats);
    let whole = prediction_for_field_picture(source, setting, 0, intra, &layout, stats);
    if is_split(source) {
        let first = prediction_for_field_picture(source, setting, 0, intra, &layout, stats);
        let other = prediction_for_field_picture(source, setting, 1, intra, &layout, stats);
        make_split_plan(whole, first, other)
    } else {
        MotionPlan { whole, halves: None, mb_type: whole.mb_type }
    }
}

/// Whether the source predicts the halves of a macroblock of a field picture apart.
fn is_split(source: Option<&Macroblock>) -> (split: bool)
    ensures
        split == is_split_source(predict::source_view(source)),
{
    match source {
        Some(m) => m.motion_type == motion_type::FRAME_OR_16X8 && m.mv_count >= 2,
        None => false,
    }
}

/// No more than four of anything are counted of a macroblock.
pub proof fn lemma_plan_counts(
    c: ContextView,
    shape: PictureShape,
    place: Place,
    source: Option<MacroblockView>,
    halves: (Option<MacroblockView>, Option<MacroblockView>),
    top_field_first: bool,
)
    ensures
        motion_plan(c, shape, place, source, halves, top_field_first).1.within(4),
{
    let intra = is_intra_source(source);
    let layout = picture::layout_of(c, place.second);
    let setting = setting_of(c, shape, place.second);
    predict::lemma_counts_one(source, setting, 0, intra, layout);
    predict::lemma_counts_one(source, setting, 1, intra, layout);
}

/// No component of a vector of a plan is longer than the longest.
pub open spec fn plan_short(plan: MotionPlan) -> bool {
    &&& predict::is_short(plan.whole)
    &&& plan.halves matches Some(halves) ==> predict::is_short(halves[0]) && predict::is_short(
        halves[1],
    )
}

/// The vectors of a plan are short.
pub proof fn lemma_plan_short(
    c: ContextView,
    shape: PictureShape,
    place: Place,
    source: Option<MacroblockView>,
    halves: (Option<MacroblockView>, Option<MacroblockView>),
    top_field_first: bool,
)
    requires
        predict::view_small(source),
        predict::view_small(halves.0),
        predict::view_small(halves.1),
    ensures
        plan_short(motion_plan(c, shape, place, source, halves, top_field_first).0),
{
    let intra = is_intra_source(source);
    let layout = picture::layout_of(c, place.second);
    let setting = setting_of(c, shape, place.second);
    let field = place.mb_y as int % 2;
    predict::lemma_field_picture_short(source, setting, 0, intra, layout);
    predict::lemma_field_picture_short(source, setting, 1, intra, layout);
    predict::lemma_pair_short(
        halves.0,
        field,
        top_field_first,
        c.layout,
        has_intra_flag(halves.0),
    );
    predict::lemma_pair_short(
        halves.1,
        field,
        top_field_first,
        c.layout,
        has_intra_flag(halves.1),
    );
    predict::lemma_frame_short(source, intra, c.layout);
}

/// Plan the macroblock at a place: how it is predicted, and what kind of macroblock it
/// is. `source` is the macroblock that the source coded there, and `halves` are, in a
/// macroblock-adaptive picture, the upper and the lower of the pair that it stands in.
pub fn plan_motion(
    context: &PictureContext,
    shape: &PictureShape,
    place: &Place,
    source: Option<&Macroblock>,
    halves: (Option<&Macroblock>, Option<&Macroblock>),
    top_field_first: bool,
    stats: &mut Stats,
) -> (plan: MotionPlan)
    requires
        picture::codable(context@),
        predict::source_small(source),
        predict::source_small(halves.0),
        predict::source_small(halves.1),
        old(stats).within(u64::MAX - 4),
        place.second ==> shape.pair,
    ensures
        ({
            let outcome = motion_plan(
                context@,
                *shape,
                *place,
                predict::source_view(source),
                (predict::source_view(halves.0), predict::source_view(halves.1)),
                top_field_first,
            );
            &&& plan == outcome.0
            &&& *final(stats) == old(stats).plus(outcome.1)
        }),
{
    match picture_coding(shape) {
        Coding::FieldPicture => plan_field_picture(context, shape, place.second, source, stats),
        Coding::FieldPair => {
            let intra: bool = codes_intra(source);
            count_macroblock(intra, stats);
            count_field_pair_vector(source, intra, &context.layout, stats);
            let field: usize = place.mb_y % 2;
            let whole = Prediction {
                mb_type: b_mb_type::L0_16X16,
                ref_idx_l0: NO_REFERENCE,
                ref_idx_l1: NO_REFERENCE,
                mv_l0: [0, 0],
                mv_l1: [0, 0],
            };
            let upper = prediction_for_field(
                halves.0,
                field,
                top_field_first,
                &context.layout,
                flags_intra(halves.0),
            );
            let lower = prediction_for_field(
                halves.1,
                field,
                top_field_first,
                &context.layout,
                flags_intra(halves.1),
            );
            make_split_plan(whole, upper, lower)
        },
        Coding::SplitFrame => {
            let intra: bool = codes_intra(source);
            count_macroblock(intra, stats);
            let whole = prediction_for(source, intra, &context.layout, stats);
            make_split_plan(whole, whole, whole)
        },
        Coding::Frame => {
            let intra: bool = codes_intra(source);
            count_macroblock(intra, stats);
            let whole = prediction_for(source, intra, &context.layout, stats);
            MotionPlan { whole, halves: None, mb_type: whole.mb_type }
        },
    }
}


/// The vectors that the neighbours of a part of a macroblock predict for it.
#[derive(Clone, Copy, Debug, PartialEq, Eq)]
pub struct Neighbours {
    pub l0: [i32; 2],
    pub l1: [i32; 2],
}

/// Which lists a prediction uses: as its type says, or, for a part of a field
/// macroblock, as its indices do.
pub open spec fn uses(prediction: Prediction, by_type: bool) -> (bool, bool) {
    if by_type {
        (
            prediction.mb_type != b_mb_type::L1_16X16,
            prediction.mb_type != b_mb_type::L0_16X16,
        )
    } else {
        (prediction.ref_idx_l0 >= 0, prediction.ref_idx_l1 >= 0)
    }
}

/// What a part of a macroblock leaves behind for its neighbours to be predicted from.
pub open spec fn motion_of(prediction: Prediction, by_type: bool) -> MbMotion {
    let (l0, l1) = uses(prediction, by_type);
    MbMotion {
        ref_idx_l0: if l0 || !by_type {
            prediction.ref_idx_l0
        } else {
            NO_REFERENCE
        },
        ref_idx_l1: if l1 || !by_type {
            prediction.ref_idx_l1
        } else {
            NO_REFERENCE
        },
        mv_l0x: if l0 {
            prediction.mv_l0[0]
        } else {
            0
        },
        mv_l0y: if l0 {
            prediction.mv_l0[1]
        } else {
            0
        },
        mv_l1x: if l1 {
            prediction.mv_l1[0]
        } else {
            0
        },
        mv_l1y: if l1 {
            prediction.mv_l1[1]
        } else {
            0
        },
    }
}

/// How far a component of a vector lies from what was predicted; nothing where the list
/// is not used.
pub open spec fn difference(used: bool, mv: i32, predicted: i32) -> int {
    if used {
        mv - predicted
    } else {
        0
    }
}

/// The differences of a prediction from what its neighbours predict can be told.
pub open spec fn tellable(prediction: Prediction, by_type: bool, near: Neighbours) -> bool {
    let (l0, l1) = uses(prediction, by_type);
    &&& i32::MIN <= difference(l0, prediction.mv_l0[0], near.l0[0]) <= i32::MAX
    &&& i32::MIN <= difference(l0, prediction.mv_l0[1], near.l0[1]) <= i32::MAX
    &&& i32::MIN <= difference(l1, prediction.mv_l1[0], near.l1[0]) <= i32::MAX
    &&& i32::MIN <= difference(l1, prediction.mv_l1[1], near.l1[1]) <= i32::MAX
}

/// The references of a part of a macroblock, and how its vectors differ from what its
/// neighbours predict.
pub open spec fn partition_of(prediction: Prediction, by_type: bool, near: Neighbours) -> MotionPartition {
    let (l0, l1) = uses(prediction, by_type);
    let motion = motion_of(prediction, by_type);
    MotionPartition {
        ref_idx_l0: motion.ref_idx_l0,
        ref_idx_l1: motion.ref_idx_l1,
        mvd_l0x: difference(l0, prediction.mv_l0[0], near.l0[0]) as i32,
        mvd_l0y: difference(l0, prediction.mv_l0[1], near.l0[1]) as i32,
        mvd_l1x: difference(l1, prediction.mv_l1[0], near.l1[0]) as i32,
        mvd_l1y: difference(l1, prediction.mv_l1[1], near.l1[1]) as i32,
    }
}

/// A decoder that adds the differences to what the neighbours predict has the vectors
/// that were planned, for every list that is used.
pub proof fn law_differences_restore_the_vectors(
    prediction: Prediction,
    by_type: bool,
    near: Neighbours,
)
    requires
        tellable(prediction, by_type, near),
    ensures
        ({
            let part = partition_of(prediction, by_type, near);
            let motion = motion_of(prediction, by_type);
            let (l0, l1) = uses(prediction, by_type);
            &&& l0 ==> near.l0[0] + part.mvd_l0x == motion.mv_l0x
            &&& l0 ==> near.l0[1] + part.mvd_l0y == motion.mv_l0y
            &&& l1 ==> near.l1[0] + part.mvd_l1x == motion.mv_l1x
            &&& l1 ==> near.l1[1] + part.mvd_l1y == motion.mv_l1y
        }),
{
}

/// Which lists a prediction uses.
pub fn lists_used(prediction: &Prediction, by_type: bool) -> (used: (bool, bool))
    ensures
        used == uses(*prediction, by_type),
{
    if by_type {
        (
            prediction.mb_type != b_mb_type::L1_16X16,
            prediction.mb_type != b_mb_type::L0_16X16,
        )
    } else {
        (prediction.ref_idx_l0 >= 0, prediction.ref_idx_l1 >= 0)
    }
}

/// What a part of a macroblock leaves behind for its neighbours to be predicted from.
pub fn motion_left(prediction: &Prediction, by_type: bool) -> (motion: MbMotion)
    ensures
        motion == motion_of(*prediction, by_type),
{
    let (l0, l1) = lists_used(prediction, by_type);
    MbMotion {
        ref_idx_l0: if l0 || !by_type {
            prediction.ref_idx_l0
        } else {
            NO_REFERENCE
        },
        ref_idx_l1: if l1 || !by_type {
            prediction.ref_idx_l1
        } else {
            NO_REFERENCE
        },
        mv_l0x: if l0 {
            prediction.mv_l0[0]
        } else {
            0
        },
        mv_l0y: if l0 {
            prediction.mv_l0[1]
        } else {
            0
        },
        mv_l1x: if l1 {
            prediction.mv_l1[0]
        } else {
            0
        },
        mv_l1y: if l1 {
            prediction.mv_l1[1]
        } else {
            0
        },
    }
}

/// The references of a part of a macroblock, and how its vectors differ from what its
/// neighbours predict.
pub fn partition(prediction: &Prediction, by_type: bool, near: &Neighbours) -> (part:
    MotionPartition)
    requires
        tellable(*prediction, by_type, *near),
    ensures
        part == partition_of(*prediction, by_type, *near),
{
    let (l0, l1) = lists_used(prediction, by_type);
    let motion = motion_left(prediction, by_type);
    MotionPartition {
        ref_idx_l0: motion.ref_idx_l0,
        ref_idx_l1: motion.ref_idx_l1,
        mvd_l0x: if l0 {
            prediction.mv_l0[0] - near.l0[0]
        } else {
            0
        },
        mvd_l0y: if l0 {
            prediction.mv_l0[1] - near.l0[1]
        } else {
            0
        },
        mvd_l1x: if l1 {
            prediction.mv_l1[0] - near.l1[0]
        } else {
            0
        },
        mvd_l1y: if l1 {
            prediction.mv_l1[1] - near.l1[1]
        } else {
            0
        },
    }
}

/// The row of a macroblock within the coded picture, which for field macroblocks counts
/// that field's own rows rather than the frame's.
pub open spec fn coded_row(shape: PictureShape, place: Place) -> usize {
    if shape.in_fields() {
        (place.mb_y as int / 2) as usize
    } else {
        place.mb_y
    }
}

/// How many entries the lists of a macroblock have, less one: the same length the slice
/// header declared. Only a list of one carries no index at all and a list of two codes
/// it as a single bit; above that the coding is the same however long it is.
pub open spec fn last_index(c: ContextView, shape: PictureShape, place: Place) -> i32 {
    if shape.in_fields() {
        (picture::field_list_len(c, place.second) - 1) as i32
    } else {
        (picture::layout_of(c, place.second).count - 1) as i32
    }
}

/// What the syntax of a planned macroblock says.
pub open spec fn planned_macroblock(
    c: ContextView,
    shape: PictureShape,
    place: Place,
    plan: MotionPlan,
    near: Neighbours,
    near_halves: [Neighbours; 2],
    qp: i32,
    prev_qp: i32,
) -> InterMacroblock {
    let whole = partition_of(plan.whole, true, near);
    let by_type = coding_of(shape) is SplitFrame;
    InterMacroblock {
        mb_x: place.mb_x,
        mb_y: coded_row(shape, place),
        p_slice: false,
        mb_type: plan.mb_type,
        ref_idx_l0: plan.whole.ref_idx_l0,
        ref_idx_l1: plan.whole.ref_idx_l1,
        mvd_l0x: whole.mvd_l0x,
        mvd_l0y: whole.mvd_l0y,
        mvd_l1x: whole.mvd_l1x,
        mvd_l1y: whole.mvd_l1y,
        partitions: match plan.halves {
            Some(halves) => Some(
                [
                    partition_of(halves[0], by_type, near_halves[0]),
                    partition_of(halves[1], by_type, near_halves[1]),
                ],
            ),
            None => None,
        },
        num_ref_idx_l0_minus1: last_index(c, shape, place),
        num_ref_idx_l1_minus1: last_index(c, shape, place),
        qp,
        prev_qp,
    }
}

/// What the syntax of a planned macroblock says, given what its neighbours predict for
/// the whole of it and for its halves.
pub fn make_macroblock(
    context: &PictureContext,
    shape: &PictureShape,
    place: &Place,
    plan: &MotionPlan,
    near: &Neighbours,
    near_halves: &[Neighbours; 2],
    qp: i32,
    prev_qp: i32,
) -> (macroblock: InterMacroblock)
    requires
        picture::codable(context@),
        place.second ==> shape.pair,
        tellable(plan.whole, true, *near),
        plan.halves matches Some(halves) ==> {
            let by_type = coding_of(*shape) is SplitFrame;
            &&& tellable(halves[0], by_type, near_halves[0])
            &&& tellable(halves[1], by_type, near_halves[1])
        },
    ensures
        macroblock == planned_macroblock(
            context@,
            *shape,
            *place,
            *plan,
            *near,
            *near_halves,
            qp,
            prev_qp,
        ),
{
    let coding = picture_coding(shape);
    let by_type: bool = coding == Coding::SplitFrame;
    let in_fields: bool = shape.codes_fields();
    let whole = partition(&plan.whole, true, near);
    let partitions: Option<[MotionPartition; 2]> = match plan.halves {
        Some(halves) => Some(
            [
                partition(&halves[0], by_type, &near_halves[0]),
                partition(&halves[1], by_type, &near_halves[1]),
            ],
        ),
        None => None,
    };
    let last: i32 = if in_fields {
        count_field_list(context, place.second) as i32 - 1
    } else {
        field_layout(context, place.second).count as i32 - 1
    };
    InterMacroblock {
        mb_x: place.mb_x,
        mb_y: if in_fields {
            place.mb_y / 2
        } else {
            place.mb_y
        },
        p_slice: false,
        mb_type: plan.mb_type,
        ref_idx_l0: plan.whole.ref_idx_l0,
        ref_idx_l1: plan.whole.ref_idx_l1,
        mvd_l0x: whole.mvd_l0x,
        mvd_l0y: whole.mvd_l0y,
        mvd_l1x: whole.mvd_l1x,
        mvd_l1y: whole.mvd_l1y,
        partitions,
        num_ref_idx_l0_minus1: last,
        num_ref_idx_l1_minus1: last,
        qp,
        prev_qp,
    }
}


/// Whether list `list` of a slice gives its flat weights to the index that a part of a
/// macroblock names there. A field macroblock of a macroblock-adaptive frame takes the
/// weights of the frame that its field belongs to (clause 8.4.2.3).
pub open spec fn is_flat_index(
    c: ContextView,
    shape: PictureShape,
    second: bool,
    list: int,
    index: int,
) -> bool {
    let weighted = if coding_of(shape) is FieldPair {
        index / 2
    } else {
        index
    };
    picture::flat_indices(c, shape.pair, second)[list] == Some(weighted as u32)
}

/// The prediction is the constant that stands in for H.264 intra prediction: one list,
/// no motion, and the index that the slice header gave the flat weights to.
pub open spec fn is_flat(
    c: ContextView,
    shape: PictureShape,
    second: bool,
    prediction: Prediction,
) -> bool {
    if picture::is_anchor_second(c, second) {
        &&& prediction.mb_type == b_mb_type::L1_16X16
        &&& prediction.mv_l1 == [0i32, 0i32]
        &&& is_flat_index(c, shape, second, 1, prediction.ref_idx_l1 as int)
    } else {
        &&& prediction.mb_type == b_mb_type::L0_16X16
        &&& prediction.mv_l0 == [0i32, 0i32]
        &&& is_flat_index(c, shape, second, 0, prediction.ref_idx_l0 as int)
    }
}

/// Every macroblock that the source coded as intra, or never coded, predicts from the
/// constant that the slice header declares, in whatever way the picture is coded.
pub proof fn law_intra_predicts_the_constant(
    c: ContextView,
    shape: PictureShape,
    place: Place,
    source: Option<MacroblockView>,
    halves: (Option<MacroblockView>, Option<MacroblockView>),
    top_field_first: bool,
)
    requires
        picture::codable(c),
        place.second ==> shape.pair,
    ensures
        ({
            let plan = motion_plan(c, shape, place, source, halves, top_field_first).0;
            let unpredicted = source is None || is_intra_source(source);
            &&& !(coding_of(shape) is FieldPair) && unpredicted ==> is_flat(
                c,
                shape,
                place.second,
                plan.whole,
            )
            &&& coding_of(shape) is FieldPair ==> plan.halves is Some
            &&& coding_of(shape) is FieldPair && (halves.0 is None || has_intra_flag(halves.0))
                ==> is_flat(c, shape, place.second, plan.halves->Some_0[0])
            &&& coding_of(shape) is FieldPair && (halves.1 is None || has_intra_flag(halves.1))
                ==> is_flat(c, shape, place.second, plan.halves->Some_0[1])
        }),
{
    reveal(predict::field_picture_prediction);
}

} // verus!
