//! What a decoder makes of the headers of a picture's slices, and of the vectors that
//! their syntax tells.
use crate::h264::header_reading;
use crate::h264::mb;
use crate::h264::mb::{InterMacroblock, MbMotion, MotionPartition, PredictionMode};
use crate::h264::mvpred::MotionFieldView;
use crate::h264::slice;
use crate::h264::slice::{RefPicList, RefPicListEntry};
use crate::job::{ContextView, RefLayout};
use crate::mpeg2::macroblock;
use crate::mpeg2::macroblock::MacroblockView;
use crate::transcode::encoder::DecodedView;
use crate::transcode::macroblocks;
use crate::transcode::macroblocks::{Grids, MacroblockPlan};
use crate::transcode::motion;
use crate::transcode::motion::{MotionPlan, Neighbours};
use crate::transcode::picture;
use crate::transcode::picture::{PictureShape, Place};
use crate::transcode::predict;
use crate::transcode::predict::Prediction;
use crate::transcode::syntax;
use crate::transcode::syntax::MAX_FRAME_NUM;
use crate::transcode::vectors;
use crate::transcode::vectors::{Predicted, ScratchView};
use vstd::arithmetic::power2;
use vstd::prelude::*;

verus! {

/// The lists that a part predicted in a way uses.
pub open spec fn mode_lists(mode: PredictionMode) -> (bool, bool) {
    match mode {
        PredictionMode::L0 => (true, false),
        PredictionMode::L1 => (false, true),
        PredictionMode::Bi => (true, true),
    }
}

/// What a part of a macroblock moves by: the differences on top of what its neighbours
/// predict, in the lists that it uses.
pub open spec fn added(used: (bool, bool), part: MotionPartition, near: Neighbours) -> MbMotion {
    MbMotion {
        ref_idx_l0: if used.0 {
            part.ref_idx_l0
        } else {
            predict::NO_REFERENCE
        },
        ref_idx_l1: if used.1 {
            part.ref_idx_l1
        } else {
            predict::NO_REFERENCE
        },
        mv_l0x: if used.0 {
            (near.l0[0] + part.mvd_l0x) as i32
        } else {
            0
        },
        mv_l0y: if used.0 {
            (near.l0[1] + part.mvd_l0y) as i32
        } else {
            0
        },
        mv_l1x: if used.1 {
            (near.l1[0] + part.mvd_l1x) as i32
        } else {
            0
        },
        mv_l1y: if used.1 {
            (near.l1[1] + part.mvd_l1y) as i32
        } else {
            0
        },
    }
}

/// A macroblock that is not split, as a part of its own.
pub open spec fn whole_part(m: InterMacroblock) -> MotionPartition {
    MotionPartition {
        ref_idx_l0: m.ref_idx_l0,
        ref_idx_l1: m.ref_idx_l1,
        mvd_l0x: m.mvd_l0x,
        mvd_l0y: m.mvd_l0y,
        mvd_l1x: m.mvd_l1x,
        mvd_l1y: m.mvd_l1y,
    }
}

/// What a decoder that has the vectors of `field` takes the halves of a macroblock to
/// move by.
pub open spec fn decoded_motions(field: MotionFieldView, x: int, y: int, m: InterMacroblock) -> (
    MbMotion,
    MbMotion,
) {
    match m.partitions {
        Some(parts) => {
            let modes = mb::modes_of_halves(m.mb_type);
            let refs0 = (parts[0].ref_idx_l0, parts[0].ref_idx_l1);
            let refs1 = (parts[1].ref_idx_l0, parts[1].ref_idx_l1);
            let upper = added(
                mode_lists(modes.0),
                parts[0],
                vectors::near_half(field, x, y, 0, mode_lists(modes.0), refs0),
            );
            let lower = added(
                mode_lists(modes.1),
                parts[1],
                vectors::near_half(
                    field.put(x, 2 * y, upper),
                    x,
                    y,
                    1,
                    mode_lists(modes.1),
                    refs1,
                ),
            );
            (upper, lower)
        },
        None => {
            let used = mode_lists(PredictionMode::of_mb_type(m.mb_type));
            let whole = added(
                used,
                whole_part(m),
                vectors::near_whole(field, x, y, used, (m.ref_idx_l0, m.ref_idx_l1)),
            );
            (whole, whole)
        },
    }
}

/// What a decoder has decoded once it has read a macroblock.
pub open spec fn read_on(
    shape: PictureShape,
    before: ScratchView,
    place: Place,
    m: Option<InterMacroblock>,
) -> ScratchView {
    let field = before.of_place(shape, place);
    let x = place.mb_x as int;
    let y = motion::coded_row(shape, place) as int;
    match m {
        Some(m) => before.with_place(
            shape,
            place,
            vectors::put_halves(field, x, y, decoded_motions(field, x, y, m)),
        ),
        None => before,
    }
}

/// What a decoder has decoded of a slice when it comes to a macroblock of it.
pub open spec fn decoded_before(
    shape: PictureShape,
    syntax: Seq<Option<InterMacroblock>>,
    position: int,
) -> ScratchView
    decreases position,
{
    if position <= 0 || vectors::opens_slice(shape, position) {
        vectors::unmoved(shape)
    } else {
        read_on(
            shape,
            decoded_before(shape, syntax, position - 1),
            shape.place(position - 1),
            syntax[position - 1],
        )
    }
}

/// What a decoder takes the halves of the macroblock at a position to move by.
pub open spec fn decoded_at(
    shape: PictureShape,
    syntax: Seq<Option<InterMacroblock>>,
    position: int,
) -> Option<(MbMotion, MbMotion)> {
    let place = shape.place(position);
    match syntax[position] {
        Some(m) => Some(
            decoded_motions(
                decoded_before(shape, syntax, position).of_place(shape, place),
                place.mb_x as int,
                motion::coded_row(shape, place) as int,
                m,
            ),
        ),
        None => None,
    }
}

/// What the syntax of a planned macroblock says.
pub open spec fn syntax_of(
    c: ContextView,
    shape: PictureShape,
    plan: MacroblockPlan,
    predicted: Option<Predicted>,
    qp: i32,
    prev_qp: i32,
) -> Option<InterMacroblock> {
    match plan.motion {
        Some(moved) => Some(
            motion::planned_macroblock(
                c,
                shape,
                plan.place,
                moved,
                predicted->Some_0.whole,
                predicted->Some_0.halves,
                qp,
                prev_qp,
            ),
        ),
        None => None,
    }
}

/// The syntax is that of the planned macroblocks, whatever steps they are quantised with.
pub open spec fn tells(
    c: ContextView,
    shape: PictureShape,
    plans: Seq<MacroblockPlan>,
    syntax: Seq<Option<InterMacroblock>>,
) -> bool {
    &&& syntax.len() == plans.len()
    &&& forall|p: int|
        0 <= p < plans.len() ==> #[trigger] syntax[p] == syntax_of(
            c,
            shape,
            plans[p],
            vectors::predicted_at(shape, plans, p),
            syntax[p]->Some_0.qp,
            syntax[p]->Some_0.prev_qp,
        )
}

/// The type and the indices of a prediction name the same lists.
pub open spec fn agrees(prediction: Prediction) -> bool {
    let used = mode_lists(PredictionMode::of_mb_type(prediction.mb_type));
    &&& if used.0 {
        prediction.ref_idx_l0 >= 0
    } else {
        prediction.ref_idx_l0 == predict::NO_REFERENCE
    }
    &&& if used.1 {
        prediction.ref_idx_l1 >= 0
    } else {
        prediction.ref_idx_l1 == predict::NO_REFERENCE
    }
    &&& prediction.mb_type == mb::b_mb_type::L0_16X16 || prediction.mb_type
        == mb::b_mb_type::L1_16X16 || prediction.mb_type == mb::b_mb_type::BI_16X16
}

/// The types and the indices of a plan name the same lists.
pub open spec fn plan_agrees(plan: MotionPlan) -> bool {
    match plan.halves {
        Some(halves) => agrees(halves[0]) && agrees(halves[1]) && plan.mb_type
            == motion::halves_type(halves),
        None => agrees(plan.whole) && plan.mb_type == plan.whole.mb_type,
    }
}

/// The differences of a part bring back what it was planned to move by.
proof fn lemma_part_restored(prediction: Prediction, by_type: bool, near: Neighbours)
    requires
        agrees(prediction),
        motion::tellable(prediction, by_type, near),
    ensures
        ({
            let used = mode_lists(PredictionMode::of_mb_type(prediction.mb_type));
            &&& used == motion::uses(prediction, by_type)
            &&& added(used, motion::partition_of(prediction, by_type, near), near)
                == motion::motion_of(prediction, by_type)
        }),
{
}

/// A part whose lists and references are the same is predicted the same.
proof fn lemma_part_refs(prediction: Prediction, by_type: bool, near: Neighbours)
    requires
        agrees(prediction),
    ensures
        ({
            let part = motion::partition_of(prediction, by_type, near);
            &&& part.ref_idx_l0 == prediction.ref_idx_l0
            &&& part.ref_idx_l1 == prediction.ref_idx_l1
        }),
{
}

/// A decoder that has the same vectors takes a macroblock to move as planned.
proof fn lemma_macroblock_restored(
    c: ContextView,
    shape: PictureShape,
    place: Place,
    field: MotionFieldView,
    x: int,
    y: int,
    plan: MotionPlan,
    qp: i32,
    prev_qp: i32,
)
    requires
        plan_agrees(plan),
        coding_tells(shape, plan),
        vectors::told_by(
            motion::coding_of(shape),
            plan,
            vectors::predictions(field, motion::coding_of(shape), x, y, plan),
        ),
    ensures
        ({
            let coding = motion::coding_of(shape);
            let near = vectors::predictions(field, coding, x, y, plan);
            decoded_motions(
                field,
                x,
                y,
                motion::planned_macroblock(
                    c,
                    shape,
                    place,
                    plan,
                    near.whole,
                    near.halves,
                    qp,
                    prev_qp,
                ),
            ) == vectors::planned_motions(coding, plan)
        }),
{
    let coding = motion::coding_of(shape);
    let by_type = vectors::halves_by_type(coding);
    let near = vectors::predictions(field, coding, x, y, plan);
    match plan.halves {
        Some(halves) => {
            mb::law_types_tell_the_halves(
                PredictionMode::of_mb_type(halves[0].mb_type),
                PredictionMode::of_mb_type(halves[1].mb_type),
            );
            lemma_part_restored(halves[0], by_type, near.halves[0]);
            lemma_part_refs(halves[0], by_type, near.halves[0]);
            lemma_part_restored(halves[1], by_type, near.halves[1]);
            lemma_part_refs(halves[1], by_type, near.halves[1]);
        },
        None => {
            lemma_part_restored(plan.whole, true, near.whole);
            lemma_part_refs(plan.whole, true, near.whole);
        },
    }
}

/// A field macroblock of a frame is told by its halves.
pub open spec fn coding_tells(shape: PictureShape, plan: MotionPlan) -> bool {
    motion::coding_of(shape) is FieldPair ==> plan.halves is Some
}

/// The pictures that a layout predicts from have their indices.
pub open spec fn layout_named(layout: RefLayout) -> bool {
    &&& layout.fwd_l0 >= 0
    &&& layout.fwd_l1 >= 0
    &&& layout.flat >= 0
    &&& layout.bwd_l0 >= 0 ==> layout.bwd_l1 >= 0
}

/// The type and the indices of a frame macroblock name the same lists.
proof fn lemma_frame_agrees(mb: Option<MacroblockView>, intra: bool, layout: RefLayout)
    requires
        predict::layout_small(layout),
        layout_named(layout),
    ensures
        agrees(predict::frame_prediction(mb, intra, layout).0),
{
}

/// The type and the indices of a field macroblock of a frame name the same lists.
proof fn lemma_pair_agrees(
    mb: Option<MacroblockView>,
    field: int,
    top_field_first: bool,
    layout: RefLayout,
    intra: bool,
)
    requires
        predict::layout_small(layout),
        layout_named(layout),
    ensures
        agrees(predict::pair_prediction(mb, field, top_field_first, layout, intra)),
{
}

/// The type and the indices of a macroblock of a coded field name the same lists.
proof fn lemma_field_picture_agrees(
    mb: Option<MacroblockView>,
    setting: predict::FieldSetting,
    partition: int,
    intra: bool,
    layout: RefLayout,
)
    requires
        predict::layout_small(layout),
        layout_named(layout),
        setting.flat_field_idx >= 0,
    ensures
        agrees(predict::field_picture_prediction(mb, setting, partition, intra, layout).0),
{
    reveal(predict::field_picture_prediction);
}

/// The types and the indices of a plan name the same lists.
proof fn lemma_plan_agrees(
    c: ContextView,
    shape: PictureShape,
    place: Place,
    source: Option<MacroblockView>,
    halves: (Option<MacroblockView>, Option<MacroblockView>),
    top_field_first: bool,
)
    requires
        picture::codable(c),
        layout_named(c.layout),
    ensures
        plan_agrees(motion::motion_plan(c, shape, place, source, halves, top_field_first).0),
        coding_tells(
            shape,
            motion::motion_plan(c, shape, place, source, halves, top_field_first).0,
        ),
{
    let intra = motion::is_intra_source(source);
    let layout = picture::layout_of(c, place.second);
    let setting = motion::setting_of(c, shape, place.second);
    let field = place.mb_y as int % 2;
    lemma_field_picture_agrees(source, setting, 0, intra, layout);
    lemma_field_picture_agrees(source, setting, 1, intra, layout);
    lemma_pair_agrees(
        halves.0,
        field,
        top_field_first,
        c.layout,
        motion::has_intra_flag(halves.0),
    );
    lemma_pair_agrees(
        halves.1,
        field,
        top_field_first,
        c.layout,
        motion::has_intra_flag(halves.1),
    );
    lemma_frame_agrees(source, intra, c.layout);
}

/// The types and the indices of every plan name the same lists, and tell its motion.
pub open spec fn all_told(shape: PictureShape, plans: Seq<MacroblockPlan>) -> bool {
    forall|p: int|
        0 <= p < plans.len() ==> ((#[trigger] plans[p]).motion matches Some(plan) ==> plan_agrees(
            plan,
        ) && coding_tells(shape, plan))
}

/// A decoder has the vectors that the encoder had, at every macroblock.
proof fn lemma_followed(
    c: ContextView,
    shape: PictureShape,
    plans: Seq<MacroblockPlan>,
    syntax: Seq<Option<InterMacroblock>>,
    position: int,
)
    requires
        shape.wf(),
        vectors::in_place(shape, plans),
        vectors::all_sound(shape, plans),
        all_told(shape, plans),
        tells(c, shape, plans, syntax),
        0 <= position < shape.count(),
    ensures
        decoded_before(shape, syntax, position) == vectors::coded_before(shape, plans, position),
        vectors::coded_before(shape, plans, position).fits(shape),
        vectors::coded_before(shape, plans, position).is_short(),
        plans[position].motion matches Some(plan) ==> decoded_at(shape, syntax, position) == Some(
            vectors::planned_motions(motion::coding_of(shape), plan),
        ),
    decreases position,
{
    if position <= 0 || vectors::opens_slice(shape, position) {
        vectors::lemma_unmoved_fits(shape);
    } else {
        lemma_followed(c, shape, plans, syntax, position - 1);
        let before = vectors::coded_before(shape, plans, position - 1);
        if let Some(plan) = plans[position - 1].motion {
            vectors::lemma_moved(shape, before, position - 1, plan);
            assert(syntax[position - 1] is Some);
        }
    }
    if let Some(plan) = plans[position].motion {
        let before = vectors::coded_before(shape, plans, position);
        let place = shape.place(position);
        vectors::lemma_moved(shape, before, position, plan);
        assert(plans[position].place == place);
        assert(syntax[position] is Some);
        lemma_macroblock_restored(
            c,
            shape,
            place,
            before.of_place(shape, place),
            place.mb_x as int,
            motion::coded_row(shape, place) as int,
            plan,
            syntax[position]->Some_0.qp,
            syntax[position]->Some_0.prev_qp,
        );
    }
}

/// A decoder that reads the macroblocks of a picture one behind the other takes each of
/// them to move exactly as the source's motion was mapped, however their coefficients
/// were quantised: what it predicts a vector from is what the vector was told against.
pub proof fn law_a_decoder_follows_the_vectors(
    job: DecodedView,
    shape: PictureShape,
    grids: Grids,
    plans: Seq<MacroblockPlan>,
    syntax: Seq<Option<InterMacroblock>>,
    position: int,
)
    requires
        shape.wf(),
        picture::codable(job.context),
        layout_named(job.context.layout),
        macroblock::all_motion_small(grids.first),
        shape.pair ==> macroblock::all_motion_small(grids.mate),
        plans.len() == shape.count(),
        forall|p: int|
            0 <= p < plans.len() ==> #[trigger] plans[p] == macroblocks::macroblock_plan(
                job,
                shape,
                grids,
                p,
            ).0,
        tells(job.context, shape, plans, syntax),
        0 <= position < shape.count(),
    ensures
        plans[position].motion matches Some(plan) ==> decoded_at(shape, syntax, position) == Some(
            vectors::planned_motions(motion::coding_of(shape), plan),
        ),
{
    macroblocks::lemma_plans_sound(job, shape, grids, plans);
    assert forall|p: int| 0 <= p < plans.len() implies ((#[trigger] plans[p]).motion matches Some(
        plan,
    ) ==> plan_agrees(plan) && coding_tells(shape, plan)) by {
        let place = shape.place(p);
        lemma_plan_agrees(
            job.context,
            shape,
            place,
            macroblocks::source_at(grids, shape, place),
            macroblocks::halves_at(grids, shape, place),
            job.picture.coding.top_field_first,
        );
    }
    lemma_followed(job.context, shape, plans, syntax, position);
}

/// There is a list that names some entries.
proof fn lemma_list_naming(entries: Seq<RefPicListEntry>)
    requires
        entries.len() <= 6,
    ensures
        slice::list_naming(entries).wf(),
        slice::list_naming(entries)@ == entries,
{
    let list = RefPicList {
        entries: [entries[0], entries[1], entries[2], entries[3], entries[4], entries[5]],
        count: entries.len() as usize,
    };
    assert(list@ =~= entries);
    assert(list.wf() && list.view() == entries);
}

/// The entries that a slice names lie in the range of picture numbers.
proof fn lemma_named_near(c: ContextView, pair: bool, second: bool)
    requires
        picture::codable(c),
    ensures
        picture::named_lists(c, pair, second) matches Some((l0, l1)) ==> {
            &&& l0.len() <= 6
            &&& l1.len() <= 6
            &&& forall|i: int|
                0 <= i < l0.len() ==> (#[trigger] l0[i]).frames_back < MAX_FRAME_NUM
            &&& forall|i: int|
                0 <= i < l1.len() ==> (#[trigger] l1[i]).frames_back < MAX_FRAME_NUM
        },
{
    let backward = c.layout.bwd_l0 >= 0;
    syntax::lemma_lists_near(c.short_term, c.frame_num, backward, pair);
    syntax::law_lists_name_every_frame(c.short_term, c.frame_num, backward, pair);
}

/// A decoder reads the header of every slice of a picture as it was meant, and comes to
/// the macroblocks behind it.
pub proof fn law_slice_headers_arrive(
    c: ContextView,
    shape: PictureShape,
    second: bool,
    rest: Seq<bool>,
)
    requires
        picture::codable(c),
        second ==> shape.pair,
        shape.pair ==> c.mbaff,
    ensures
        ({
            let cfg = picture::slice_config(c, shape, second);
            header_reading::read_header(
                slice::header_bits(cfg) + rest,
                header_reading::known_of(cfg),
            ) == (header_reading::header_of(cfg), rest)
        }),
{
    let cfg = picture::slice_config(c, shape, second);
    let field = shape.pair;
    lemma_named_near(c, field, second);
    power2::lemma2_to64();
    assert(header_reading::range_of(cfg) == if field {
        512nat
    } else {
        256
    });
    match picture::named_lists(c, field, second) {
        Some((l0, l1)) => {
            lemma_list_naming(l0);
            lemma_list_naming(l1);
            assert(header_reading::named(cfg) == (l0, l1));
            assert forall|i: int| 0 <= i < l0.len() implies 0 <= slice::distance(
                #[trigger] l0[i],
                field,
            ) < header_reading::range_of(cfg) by {
                assert(l0[i].frames_back < MAX_FRAME_NUM);
            }
            assert forall|i: int| 0 <= i < l1.len() implies 0 <= slice::distance(
                #[trigger] l1[i],
                field,
            ) < header_reading::range_of(cfg) by {
                assert(l1[i].frames_back < MAX_FRAME_NUM);
            }
        },
        None => {},
    }
    header_reading::law_slice_headers_read_back(cfg, rest);
}

/// A decoder reads the header of the copy behind an IDR as it was meant.
pub proof fn law_copy_headers_arrive(mbaff: bool, mark_random_access_point: bool, rest: Seq<bool>)
    ensures
        ({
            let cfg = syntax::clone_header(mbaff, mark_random_access_point);
            header_reading::read_header(
                slice::header_bits(cfg) + rest,
                header_reading::known_of(cfg),
            ) == (header_reading::header_of(cfg), rest)
        }),
{
    let cfg = syntax::clone_header(mbaff, mark_random_access_point);
    header_reading::law_slice_headers_read_back(cfg, rest);
}

} // verus!
