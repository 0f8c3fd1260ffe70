//! How the pictures of a unit are numbered, and what their reference indices name.
use crate::job;
use crate::mpeg2::constants::PictureType;
use crate::mpeg2::headers::SequenceDescription;
use crate::transcode::faithful;
use crate::transcode::plan;
use crate::transcode::plan::{PlanInput, PlanWork};
use crate::transcode::syntax;
use crate::job::{ContextView, StateView};
use vstd::prelude::*;

verus! {

/// A picture is numbered one behind the last one that others are predicted from, in numbers
/// that start over at 256; the picture that starts the buffer is number zero. It is shown in
/// the order of its group and its temporal reference, four counts apart. All but B pictures
/// are kept to predict from.
pub proof fn law_pictures_are_numbered(input: PlanInput, i: int, work: PlanWork)
    requires
        0 <= i < input.pictures.len(),
        0 <= work.state.gop_base,
        work.state.gop_base + 1024 <= 0x3fff_ffff,
        input.pictures[i].header.temporal_reference < 1024,
    ensures
        ({
            let c = input.context(i, work);
            let kind = input.pictures[i].header.picture_coding_type;
            let starts = work.state.awaiting_idr && kind is I;
            &&& c.real_idr <==> starts
            &&& starts ==> c.frame_num == 0 && c.poc == 0
            &&& !starts ==> c.frame_num < 256 && (c.frame_num - work.state.prev_ref_frame_num - 1)
                % 256 == 0
            &&& !starts ==> c.poc == 4 * work.state.gop_base + 4
                * input.pictures[i].header.temporal_reference
            &&& c.is_reference <==> starts || !(kind is B)
            &&& c.short_term == work.state.short_term
            &&& c.mbaff == input.description().mbaff
            &&& c.weight_scale == input.pictures[0].quant.non_intra
            &&& c.recovery_intra ==> kind is I && !starts && input.recovery_point
                && !work.recovery_emitted
        }),
{
    let p = work.state.prev_ref_frame_num as int + 1;
    assert((p % 256 - p) % 256 == 0);
}

/// What is kept to predict from once a picture has been coded. The picture that starts the
/// buffer leaves its copy, number one, and nothing else; another that is a reference joins
/// those there, of which the oldest leaves where there are three; a B picture changes nothing.
pub proof fn law_references_are_kept(state: StateView, context: ContextView)
    requires
        state.short_term.len() <= 3,
    ensures
        ({
            let after = plan::state_behind(state, context);
            &&& !after.awaiting_idr
            &&& after.gop_base == state.gop_base
            &&& context.real_idr ==> after.short_term == seq![1u32] && after.prev_ref_frame_num == 1
                && after.newest_short_term == 1 && after.short_term_count == 1
            &&& !context.real_idr && context.is_reference ==> {
                &&& after.short_term.last() == context.frame_num
                &&& after.prev_ref_frame_num == context.frame_num
                &&& after.newest_short_term == context.frame_num
                &&& state.short_term.len() < 3 ==> after.short_term == state.short_term.push(
                    context.frame_num,
                )
                &&& state.short_term.len() == 3 ==> after.short_term == seq![
                    state.short_term[1],
                    state.short_term[2],
                    context.frame_num,
                ]
                &&& state.short_term_count == state.short_term.len() ==> after.short_term_count
                    == after.short_term.len()
            }
            &&& !context.real_idr && !context.is_reference ==> after == StateView {
                awaiting_idr: false,
                ..state
            }
        }),
{
    if state.short_term.len() == 3 {
        assert(job::pushed_frame(state.short_term, context.frame_num) =~= seq![
            state.short_term[1],
            state.short_term[2],
            context.frame_num,
        ]);
    } else {
        assert(job::pushed_frame(state.short_term, context.frame_num) =~= state.short_term.push(
            context.frame_num,
        ));
    }
}

/// The indices of a picture name the pictures they are meant to. A B picture is predicted
/// forward from the last but one of the frames that are kept and backward from the last,
/// whichever list either is taken from; any other picture is predicted from the last, in
/// either list. The constant stands behind them all.
pub proof fn law_indices_name_the_references(kind: PictureType, state: StateView, frame_num: u32)
    requires
        frame_num < 256,
        state.short_term_count == state.short_term.len(),
        1 <= state.short_term.len() <= 3,
        kind is B ==> state.short_term.len() >= 2,
        state.newest_short_term == state.short_term.last(),
        forall|k: int| 0 <= k < state.short_term.len() ==> #[trigger] state.short_term[k] < 256,
    ensures
        ({
            let layout = plan::picture_layout(kind, state, frame_num);
            let (l0, l1) = syntax::short_term_lists(
                state.short_term,
                frame_num,
                layout.bwd_l0 >= 0,
                false,
            );
            let n = state.short_term.len() as int;
            let last = state.short_term[n - 1];
            &&& layout.flat == n && layout.count == n + 1
            &&& !layout.anchor_second_field
            &&& 0 <= layout.fwd_l0 < n && 0 <= layout.fwd_l1 < n
            &&& kind is B ==> {
                &&& 0 <= layout.bwd_l0 < n && 0 <= layout.bwd_l1 < n
                &&& faithful::named(frame_num, l0[layout.fwd_l0 as int]) == state.short_term[n - 2]
                &&& faithful::named(frame_num, l1[layout.fwd_l1 as int]) == state.short_term[n - 2]
                &&& faithful::named(frame_num, l0[layout.bwd_l0 as int]) == last
                &&& faithful::named(frame_num, l1[layout.bwd_l1 as int]) == last
            }
            &&& !(kind is B) ==> {
                &&& layout.bwd_l0 < 0 && layout.bwd_l1 < 0
                &&& faithful::named(frame_num, l0[layout.fwd_l0 as int]) == last
                &&& faithful::named(frame_num, l1[layout.fwd_l1 as int]) == last
                &&& layout.l1_short_term_delta matches Some(delta) && (frame_num - delta) % 256
                    == last
            }
        }),
{
    let layout = plan::picture_layout(kind, state, frame_num);
    let n = state.short_term.len() as int;
    let last = state.short_term[n - 1];
    assert(last < 256);
    faithful::law_frames_stand_from_the_latest_on(
        state.short_term,
        frame_num,
        layout.bwd_l0 >= 0,
        0,
    );
    faithful::law_frames_stand_from_the_latest_on(
        state.short_term,
        frame_num,
        layout.bwd_l0 >= 0,
        n - 1,
    );
    if n >= 2 {
        faithful::law_frames_stand_from_the_latest_on(
            state.short_term,
            frame_num,
            layout.bwd_l0 >= 0,
            1,
        );
        assert(state.short_term[n - 2] < 256);
    }
    let back = (frame_num + 256 - last) % 256;
    assert((frame_num - back) % 256 == last);
}

/// Where a group of pictures begins: behind all that the group before can have shown.
pub proof fn law_groups_are_counted_on(state: StateView, picture: crate::mpeg2::headers::PictureView)
    requires
        state.gop_base >= 0,
    ensures
        ({
            let after = plan::group_step(state, picture);
            let tr = picture.header.temporal_reference;
            let begins = picture.starts_gop && state.seen_picture;
            &&& after.seen_picture
            &&& after.max_tr_in_gop >= tr
            &&& begins ==> after.gop_base > state.gop_base + state.max_tr_in_gop
                && after.gop_base <= state.gop_base + state.max_tr_in_gop + 1 && after.max_tr_in_gop
                == tr
            &&& !begins ==> after.gop_base == state.gop_base && after.max_tr_in_gop
                >= state.max_tr_in_gop && (after.max_tr_in_gop == state.max_tr_in_gop
                || after.max_tr_in_gop == tr)
            &&& after.short_term == state.short_term
            &&& after.prev_ref_frame_num == state.prev_ref_frame_num
            &&& after.awaiting_idr == state.awaiting_idr
        }),
{
}

/// What a sequence parameter set is made of: the size, the shape and the siting that the source
/// has, frames alone where it is progressive, and a buffer of four pictures of which one may
/// wait to be shown.
pub proof fn law_sequence_sets_describe_the_source(description: SequenceDescription)
    ensures
        ({
            let s = plan::sequence_config(description);
            &&& s.width == description.width
            &&& s.height == description.height
            &&& s.frame_mbs_only <==> !description.mbaff
            &&& s.max_num_ref_frames == 4
            &&& s.max_dec_frame_buffering == Some(4u32)
            &&& s.max_num_reorder_frames == Some(1u32)
            &&& s.log2_max_frame_num_minus4 + 4 == 8
            &&& s.log2_max_poc_lsb_minus4 + 4 == 16
            &&& s.level_idc == 51
            &&& s.sample_aspect_ratio == description.sample_aspect_ratio
            &&& s.centered_chroma == description.centered_chroma
        }),
{
}

} // verus!
