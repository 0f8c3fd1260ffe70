//! What each macroblock of a picture is made from, and what is counted of it.
use crate::h264::mb;
use crate::h264::mb::PredictionMode;
use crate::job::{ContextView, RefLayout};
use crate::mpeg2::constants::QUANTISER_SCALE;
use crate::mpeg2::macroblock::MacroblockView;
use crate::transcode::encoder::DecodedView;
use crate::transcode::macroblocks;
use crate::transcode::macroblocks::{Grids, Residual};
use crate::transcode::motion;
use crate::transcode::options::Stats;
use crate::transcode::picture;
use crate::transcode::picture::{PictureShape, Place};
use crate::transcode::predict;
use crate::transcode::residual;
use crate::transcode::steps;
use crate::transcode::steps::StepChain;
use crate::transcode::walk::Setting;
use vstd::prelude::*;

verus! {

/// One vector is counted, or one pair of them, and nothing else.
pub open spec fn is_one_vector(s: Stats) -> bool {
    &&& s.integer_vectors + s.single_axis_half_vectors + s.both_axis_half_vectors
        + s.bidirectional_vectors == 1
    &&& s.intra_macroblocks == 0 && s.inter_macroblocks == 0 && s.dropped == 0 && s.errors == 0
}

/// A macroblock that goes both ways is counted as that. Any other is counted by its one
/// vector: as exact where both components are whole samples, and otherwise by how many of
/// them are not. Frames and pairs of fields are counted alike.
pub proof fn law_vectors_are_counted_by_kind(m: MacroblockView, layout: RefLayout)
    requires
        m.mv.len() == 8,
    ensures
        ({
            let s = predict::field_pair_counts(Some(m), false, layout);
            let both = predict::goes_forward(m, layout) && predict::goes_backward(m, layout);
            let base: int = if predict::goes_backward(m, layout) {
                2
            } else {
                0
            };
            let x = m.mv[base] % 2 != 0;
            let y = m.mv[base + 1] % 2 != 0;
            &&& is_one_vector(s)
            &&& s == predict::frame_prediction(Some(m), false, layout).1
            &&& s.bidirectional_vectors == 1 <==> both
            &&& !both && m.motion_type != 1 ==> {
                &&& s.integer_vectors == 1 <==> !x && !y
                &&& s.single_axis_half_vectors == 1 <==> x != y
                &&& s.both_axis_half_vectors == 1 <==> x && y
            }
        }),
{
}

/// Intra macroblocks and others are counted apart, each once; an intra one brings no vector.
pub proof fn law_macroblocks_are_counted_once(c: ContextView, split: bool, source: Option<MacroblockView>)
    ensures
        ({
            let s = motion::frame_plan(c, split, source).1;
            let intra = motion::is_intra_source(source);
            &&& s.intra_macroblocks == if intra {
                1int
            } else {
                0
            }
            &&& s.inter_macroblocks == if intra {
                0int
            } else {
                1
            }
            &&& intra ==> s.integer_vectors == 0 && s.single_axis_half_vectors == 0
                && s.both_axis_half_vectors == 0 && s.bidirectional_vectors == 0
        }),
{
}

/// The upper half of a macroblock of a field pair is predicted as the upper macroblock of the
/// source says, and the lower half as the lower one: exchanging the two exchanges the halves,
/// and either half stays what it is whatever the other becomes. The type tells how each half
/// is predicted.
pub proof fn law_halves_come_from_their_macroblocks(
    c: ContextView,
    field: int,
    source: Option<MacroblockView>,
    upper: Option<MacroblockView>,
    lower: Option<MacroblockView>,
    other: Option<MacroblockView>,
    top_field_first: bool,
)
    ensures
        ({
            let plan = motion::field_pair_plan(c, field, source, upper, lower, top_field_first).0;
            let turned = motion::field_pair_plan(c, field, source, lower, upper, top_field_first).0;
            let changed = motion::field_pair_plan(c, field, source, upper, other, top_field_first).0;
            &&& plan.halves matches Some(halves) && {
                &&& turned.halves == Some([halves[1], halves[0]])
                &&& changed.halves matches Some(new) && new[0] == halves[0]
                &&& halves[0] == predict::pair_prediction(
                    upper,
                    field,
                    top_field_first,
                    c.layout,
                    motion::has_intra_flag(upper),
                )
                &&& mb::modes_of_halves(plan.mb_type) == (
                    PredictionMode::of_mb_type(halves[0].mb_type),
                    PredictionMode::of_mb_type(halves[1].mb_type),
                )
            }
        }),
{
    let plan = motion::field_pair_plan(c, field, source, upper, lower, top_field_first).0;
    let halves = plan.halves->Some_0;
    mb::law_types_tell_the_halves(
        PredictionMode::of_mb_type(halves[0].mb_type),
        PredictionMode::of_mb_type(halves[1].mb_type),
    );
    let turned = motion::field_pair_plan(c, field, source, lower, upper, top_field_first).0;
    assert(turned.halves->Some_0@ =~= [halves[1], halves[0]]@);
    assert(turned.halves->Some_0 == [halves[1], halves[0]]);
}

/// A macroblock of a field picture with two vectors is split, its upper half predicted by the
/// first and its lower half by the second. One with a single vector is not.
pub proof fn law_two_vectors_split_a_macroblock(
    c: ContextView,
    shape: PictureShape,
    second: bool,
    m: MacroblockView,
)
    requires
        m.mv_count == 1 || m.mv_count == 2,
    ensures
        ({
            let plan = motion::field_picture_plan(c, shape, second, Some(m)).0;
            let intra = motion::is_intra_source(Some(m));
            let layout = picture::layout_of(c, second);
            let setting = motion::setting_of(c, shape, second);
            let told = |k: int|
                predict::field_picture_prediction(Some(m), setting, k, intra, layout).0;
            &&& plan.halves is Some <==> m.motion_type == 2 && m.mv_count == 2
            &&& plan.whole == told(0)
            &&& plan.halves matches Some(halves) ==> halves[0] == told(0) && halves[1] == told(1)
            &&& plan.halves is None ==> plan.mb_type == told(0).mb_type
            &&& setting.second_reference_field <==> second && c.is_reference
            &&& setting.field == shape.parity(second)
        }),
{
}

/// The macroblocks of a second field are scaled by the header of the picture that they came
/// from, which need not be that of the first.
pub proof fn law_fields_keep_their_own_headers(
    job: DecodedView,
    shape: PictureShape,
    grids: Grids,
    place: Place,
)
    requires
        shape.pair,
    ensures
        ({
            let source = macroblocks::source_at(grids, shape, place);
            macroblocks::residual_at(job, shape, grids, place) == Residual::Own(
                residual::level_scale(
                    if place.second && job.mate is Some {
                        job.mate->Some_0
                    } else {
                        job.picture
                    },
                    true,
                    source,
                ),
            )
        }),
{
}

/// The two halves of a macroblock of a field pair have the scales of the two macroblocks that
/// they came from, the upper one first, and none where the source has no macroblock.
pub proof fn law_halves_keep_their_own_scales(
    job: DecodedView,
    shape: PictureShape,
    grids: Grids,
    place: Place,
)
    requires
        motion::coding_of(shape) is FieldPair,
    ensures
        ({
            let (u, l) = shape.halves(place);
            let kind = job.picture.coding.q_scale_type as int;
            &&& macroblocks::residual_at(job, shape, grids, place) matches Residual::Pair {
                targets,
                scales,
            } && {
                &&& macroblocks::at(grids.first, u) is None ==> scales[0] is None
                &&& macroblocks::at(grids.first, u) matches Some(m) ==> scales[0] == Some(
                    QUANTISER_SCALE[kind][m.quantiser_scale_code as int],
                )
                &&& macroblocks::at(grids.first, l) is None ==> scales[1] is None
                &&& macroblocks::at(grids.first, l) matches Some(m) ==> scales[1] == Some(
                    QUANTISER_SCALE[kind][m.quantiser_scale_code as int],
                )
                &&& targets[0] == residual::field_targets(macroblocks::at(grids.first, u))
                &&& targets[1] == residual::field_targets(macroblocks::at(grids.first, l))
            }
        }),
{
}

/// The lower macroblock of a pair has the step of the pair, whatever was chosen for it; the
/// upper one, and one that is of no pair, go by what was chosen.
pub proof fn law_a_pair_has_one_step(
    chain: StepChain,
    upper: Place,
    lower: Place,
    residual: Residual,
    steps: [Option<i32>; 2],
    others: [Option<i32>; 2],
)
    requires
        residual is Pair,
        upper.mb_y % 2 == 0,
        lower.mb_y == upper.mb_y + 1,
    ensures
        steps::step_of(chain, lower, residual, steps) == chain.pair,
        steps::step_of(chain, lower, residual, others) == chain.pair,
        steps::step_of(chain, upper, residual, steps) == residual::finer(
            steps[0],
            steps[1],
            chain.previous,
        ),
{
}

/// The levels of a field picture are scanned down its columns first, those of a frame along
/// its rows.
pub proof fn law_fields_are_scanned_by_columns(setting: Setting)
    ensures
        setting.luma_scan()[1] == if setting.shape.pair {
            8usize
        } else {
            1
        },
        setting.chroma_scan()[1] == if setting.shape.pair {
            4usize
        } else {
            1
        },
{
}

} // verus!
