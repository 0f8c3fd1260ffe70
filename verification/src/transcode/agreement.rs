//! The plan of a unit and the timeline drawn for it agree on which pictures there are.
use crate::container::fmp4::timeline;
use crate::container::fmp4::timeline::WalkState;
use crate::job::StateView;
use crate::mpeg2::headers::PictureView;
use crate::transcode::plan;
use crate::transcode::plan::{PlanInput, PlanWork};
use vstd::prelude::*;

verus! {

/// A frame, or none.
pub open spec fn only_if(yes: bool, i: int) -> Seq<int> {
    if yes {
        seq![i]
    } else {
        seq![]
    }
}

/// The frames that a timeline keeps from picture `i` on.
pub open spec fn kept_frames(
    pictures: Seq<PictureView>,
    undecodable: Seq<bool>,
    i: int,
    walk: WalkState,
) -> Seq<int>
    decreases pictures.len() - i,
{
    if i < 0 || i >= pictures.len() {
        seq![]
    } else {
        only_if(
            !(pictures[i].header.picture_coding_type is Other) && timeline::keeps(
                pictures,
                undecodable,
                i,
                timeline::slot_step(pictures, i, walk),
            ),
            i,
        ) + kept_frames(
            pictures,
            undecodable,
            timeline::next_frame(pictures, i),
            timeline::walk_step(pictures, undecodable, i, walk),
        )
    }
}

/// The state in which a plan decides on the frame at picture `i`.
pub open spec fn deciding(input: PlanInput, work: PlanWork, i: int) -> StateView {
    plan::group_step(input.arrived(work, i).state, input.pictures[i])
}

/// The frames that a plan codes from picture `i` on.
pub open spec fn coded_frames(input: PlanInput, work: PlanWork, i: int) -> Seq<int>
    decreases input.pictures.len() - i,
{
    if i < 0 || i >= input.pictures.len() {
        seq![]
    } else {
        only_if(
            !(input.pictures[i].header.picture_coding_type is Other) && input.codes(
                i,
                deciding(input, work, i),
            ),
            i,
        ) + coded_frames(
            input,
            input.step(work, i),
            timeline::next_frame(input.pictures, i),
        )
    }
}

/// Every B picture that comes behind a repeated recovery picture finds both of its
/// references behind it too.
pub open spec fn served(input: PlanInput, work: PlanWork, i: int) -> bool
    decreases input.pictures.len() - i,
{
    if i < 0 || i >= input.pictures.len() {
        true
    } else {
        let arrived = input.arrived(work, i);
        &&& input.pictures[i].header.picture_coding_type is B && arrived.jobs.len()
            > arrived.converted ==> arrived.state.short_term_count >= 2
        &&& served(input, input.step(work, i), timeline::next_frame(input.pictures, i))
    }
}

/// A plan and a timeline that have come to the same picture.
spec fn in_step(work: PlanWork, walk: WalkState) -> bool {
    let held = work.state.short_term_count;
    &&& walk.awaiting_intra == work.state.awaiting_idr
    &&& work.state.awaiting_idr ==> held == 0 && walk.references == 0
    &&& !work.state.awaiting_idr ==> held >= 1 && walk.references >= 1
    &&& held <= 3
    &&& work.jobs.len() >= work.converted
    &&& work.pending is Some ==> walk.references == 2 && !work.state.awaiting_idr
    &&& {
        ||| walk.references == if held < 2 {
            held as int
        } else {
            2
        }
        ||| walk.references == 2 && held == 1 && work.jobs.len() > work.converted
    }
}

/// Coming to the next picture keeps the two in step.
proof fn lemma_arrived_in_step(input: PlanInput, work: PlanWork, i: int, walk: WalkState)
    requires
        in_step(work, walk),
    ensures
        in_step(input.arrived(work, i), walk),
        input.arrived(work, i).converted == work.converted,
{
    reveal(PlanInput::repeated);
}

/// One frame keeps the two in step.
proof fn lemma_step(input: PlanInput, work: PlanWork, i: int, walk: WalkState)
    requires
        0 <= i < input.pictures.len(),
        forall|k: int|
            0 <= k < input.pictures.len() ==> (#[trigger] input.pictures[k]).slices.len() > 0,
        in_step(work, walk),
        served(input, work, i),
    ensures
        ({
            let after = timeline::walk_step(input.pictures, input.undecodable, i, walk);
            let coded = !(input.pictures[i].header.picture_coding_type is Other) && input.codes(
                i,
                deciding(input, work, i),
            );
            &&& in_step(input.step(work, i), after)
            &&& input.step(work, i).converted == work.converted + if coded {
                1int
            } else {
                0
            }
            &&& after.kept.len() == walk.kept.len() + if coded {
                1int
            } else {
                0
            }
            &&& !(input.pictures[i].header.picture_coding_type is Other) ==> timeline::keeps(
                input.pictures,
                input.undecodable,
                i,
                timeline::slot_step(input.pictures, i, walk),
            ) == input.codes(i, deciding(input, work, i))
        }),
{
    lemma_arrived_in_step(input, work, i, walk);
    reveal(timeline::walk_step);
    reveal(timeline::slot_step);
    reveal(PlanInput::coded);
    let arrived = input.arrived(work, i);
    let shown = PlanWork {
        state: plan::group_step(arrived.state, input.pictures[i]),
        ..arrived
    };
    assert(shown.state == deciding(input, work, i));
    let walked = timeline::slot_step(input.pictures, i, walk);
    assert(in_step(shown, walked));
    if !(input.pictures[i].header.picture_coding_type is Other) {
        assert(input.pictures[i].slices.len() > 0);
        if timeline::paired(input.pictures, i) {
            assert(input.pictures[i + 1].slices.len() > 0);
        }
        assert(timeline::keeps(input.pictures, input.undecodable, i, walked) == input.codes(
            i,
            shown.state,
        ));
    }
}

/// The two stay in step from any picture on.
proof fn lemma_agree_from(input: PlanInput, work: PlanWork, i: int, walk: WalkState)
    requires
        forall|k: int|
            0 <= k < input.pictures.len() ==> (#[trigger] input.pictures[k]).slices.len() > 0,
        in_step(work, walk),
        served(input, work, i),
        0 <= i,
    ensures
        ({
            let frames = coded_frames(input, work, i);
            &&& frames == kept_frames(input.pictures, input.undecodable, i, walk)
            &&& input.worked(work, i).converted == work.converted + frames.len()
            &&& timeline::walked(input.pictures, input.undecodable, i, walk).kept.len()
                == walk.kept.len() + frames.len()
        }),
    decreases input.pictures.len() - i,
{
    if i < input.pictures.len() {
        lemma_step(input, work, i, walk);
        lemma_agree_from(
            input,
            input.step(work, i),
            timeline::next_frame(input.pictures, i),
            timeline::walk_step(input.pictures, input.undecodable, i, walk),
        );
    }
}

/// The plan of a unit codes exactly the pictures that the timeline drawn for it has
/// samples for, when the two begin alike: both from nothing, or both with references
/// behind them. Every picture is to have slices, since the timeline drops one without
/// and the plan learns of it only when the picture fails to decode; and a B picture that
/// comes behind a recovery picture repeated as an IDR is to find its references behind
/// the IDR too.
pub proof fn law_plan_and_timeline_agree(
    input: PlanInput,
    start: StateView,
    has_references: bool,
)
    requires
        forall|k: int|
            0 <= k < input.pictures.len() ==> (#[trigger] input.pictures[k]).slices.len() > 0,
        start.short_term_count <= 3,
        if has_references {
            !start.awaiting_idr && start.short_term_count >= 2
        } else {
            start.awaiting_idr && start.short_term_count == 0
        },
        served(input, plan::unplanned(start), 0),
    ensures
        ({
            let frames = coded_frames(input, plan::unplanned(start), 0);
            let walk = timeline::walked(
                input.pictures,
                input.undecodable,
                0,
                timeline::walk_start(has_references),
            );
            &&& frames == kept_frames(
                input.pictures,
                input.undecodable,
                0,
                timeline::walk_start(has_references),
            )
            &&& input.finished(start).converted == frames.len()
            &&& walk.kept.len() == frames.len()
        }),
{
    lemma_agree_from(input, plan::unplanned(start), 0, timeline::walk_start(has_references));
    reveal(PlanInput::repeated);
}


/// Every picture that one attempt found damaged, another did too.
pub open spec fn damage_within(fewer: Seq<bool>, more: Seq<bool>) -> bool {
    forall|i: int|
        0 <= i < fewer.len() && #[trigger] fewer[i] ==> i < more.len() && more[i]
}

/// A plan that knows of more damage is behind one that knows of less.
spec fn behind(more: PlanWork, fewer: PlanWork) -> bool {
    &&& fewer.state.awaiting_idr ==> more.state.awaiting_idr
    &&& !fewer.state.awaiting_idr ==> fewer.state.short_term_count >= 1
    &&& !more.state.awaiting_idr ==> more.state.short_term_count
        <= fewer.state.short_term_count
    &&& more.state.short_term_count <= 3
    &&& fewer.state.short_term_count <= 3
    &&& more.pending is None
    &&& fewer.pending is None
}

/// One frame keeps a plan that knows of more damage behind one that knows of less.
proof fn lemma_behind_step(
    fewer: PlanInput,
    more: PlanInput,
    work: PlanWork,
    other: PlanWork,
    i: int,
)
    requires
        more == (PlanInput { undecodable: more.undecodable, ..fewer }),
        damage_within(fewer.undecodable, more.undecodable),
        !(fewer.recovery_point && fewer.options.open_gop_recovery is Idr),
        behind(other, work),
        0 <= i < fewer.pictures.len(),
    ensures
        behind(more.step(other, i), fewer.step(work, i)),
        !(fewer.pictures[i].header.picture_coding_type is Other) && more.codes(
            i,
            deciding(more, other, i),
        ) ==> fewer.codes(i, deciding(fewer, work, i)),
{
    assert(!fewer.damaged(i) || more.damaged(i));
    assert(!fewer.damaged(i + 1) || more.damaged(i + 1));
    lemma_coded_state(fewer, work, i);
    lemma_coded_state(more, other, i);
}

/// What a plan without a recovery picture to repeat keeps behind one frame.
proof fn lemma_coded_state(input: PlanInput, work: PlanWork, i: int)
    requires
        work.pending is None,
        !(input.recovery_point && input.options.open_gop_recovery is Idr),
        0 <= i < input.pictures.len(),
    ensures
        ({
            let kind = input.pictures[i].header.picture_coding_type;
            let before = work.state;
            let after = input.step(work, i).state;
            &&& deciding(input, work, i).awaiting_idr == before.awaiting_idr
            &&& deciding(input, work, i).short_term_count == before.short_term_count
            &&& input.step(work, i).pending is None
            &&& if !(kind is Other) && input.codes(i, deciding(input, work, i)) {
                &&& !after.awaiting_idr
                &&& after.short_term_count == if before.awaiting_idr {
                    1
                } else if kind is B {
                    before.short_term_count as int
                } else if before.short_term_count + 1 < 3 {
                    before.short_term_count + 1
                } else {
                    3
                }
            } else {
                &&& after.awaiting_idr == before.awaiting_idr
                &&& after.short_term_count == before.short_term_count
            }
        }),
{
    reveal(PlanInput::coded);
}

/// From any picture on, a plan that knows of more damage codes no picture that one that
/// knows of less does not.
proof fn lemma_damage_removes(
    fewer: PlanInput,
    more: PlanInput,
    work: PlanWork,
    other: PlanWork,
    i: int,
)
    requires
        more == (PlanInput { undecodable: more.undecodable, ..fewer }),
        damage_within(fewer.undecodable, more.undecodable),
        !(fewer.recovery_point && fewer.options.open_gop_recovery is Idr),
        behind(other, work),
        0 <= i,
    ensures
        forall|f: int| #[trigger]
            coded_frames(more, other, i).contains(f) ==> coded_frames(fewer, work, i).contains(f),
    decreases fewer.pictures.len() - i,
{
    if i < fewer.pictures.len() {
        lemma_behind_step(fewer, more, work, other, i);
        let next = timeline::next_frame(fewer.pictures, i);
        lemma_damage_removes(fewer, more, fewer.step(work, i), more.step(other, i), next);
        let kind = fewer.pictures[i].header.picture_coding_type;
        lemma_prepended(
            i,
            !(kind is Other) && more.codes(i, deciding(more, other, i)),
            coded_frames(more, more.step(other, i), next),
            !(kind is Other) && fewer.codes(i, deciding(fewer, work, i)),
            coded_frames(fewer, fewer.step(work, i), next),
        );
    }
}

/// A frame in front of two lists keeps one inside the other.
proof fn lemma_prepended(i: int, left: bool, few: Seq<int>, right: bool, many: Seq<int>)
    requires
        left ==> right,
        forall|f: int| #[trigger] few.contains(f) ==> many.contains(f),
    ensures
        forall|f: int| #[trigger]
            (only_if(left, i) + few).contains(f) ==> (only_if(right, i) + many).contains(f),
{
    let a = only_if(left, i);
    let b = only_if(right, i);
    assert forall|f: int| #[trigger] (a + few).contains(f) implies (b + many).contains(f) by {
        let k = choose|k: int| 0 <= k < (a + few).len() && (a + few)[k] == f;
        if k < a.len() {
            assert((b + many)[0] == f);
        } else {
            assert(few[k - a.len()] == f);
            assert(few.contains(f));
            let j = choose|j: int| 0 <= j < many.len() && many[j] == f;
            assert((b + many)[b.len() + j] == f);
        }
    }
}

/// A unit that is planned again with more of its pictures known to be damaged codes no
/// picture that was not tried before, so the second attempt is the last. A recovery
/// picture that is repeated as an IDR is left out: it drops references that the second
/// attempt may keep.
pub proof fn law_damage_only_removes(fewer: PlanInput, undecodable: Seq<bool>, start: StateView)
    requires
        start.wf(),
        damage_within(fewer.undecodable, undecodable),
        !(fewer.recovery_point && fewer.options.open_gop_recovery is Idr),
    ensures
        ({
            let more = PlanInput { undecodable, ..fewer };
            forall|f: int| #[trigger]
                coded_frames(more, plan::unplanned(start), 0).contains(f) ==> coded_frames(
                    fewer,
                    plan::unplanned(start),
                    0,
                ).contains(f)
        }),
{
    let more = PlanInput { undecodable, ..fewer };
    lemma_damage_removes(fewer, more, plan::unplanned(start), plan::unplanned(start), 0);
}


/// How many frames there are from picture `i` on: pairs of fields, frames, and fields
/// that have no other.
pub open spec fn frame_count(pictures: Seq<PictureView>, i: int) -> nat
    decreases pictures.len() - i,
{
    if i < 0 || i >= pictures.len() {
        0
    } else {
        1 + frame_count(pictures, timeline::next_frame(pictures, i))
    }
}

/// From any picture on, every frame is counted once.
proof fn lemma_counted_from(input: PlanInput, work: PlanWork, i: int)
    requires
        0 <= i,
    ensures
        ({
            let after = input.worked(work, i);
            after.converted + after.skipped == work.converted + work.skipped + frame_count(
                input.pictures,
                i,
            )
        }),
    decreases input.pictures.len() - i,
{
    if i < input.pictures.len() {
        reveal(PlanInput::repeated);
        reveal(PlanInput::coded);
        lemma_counted_from(
            input,
            input.step(work, i),
            timeline::next_frame(input.pictures, i),
        );
    }
}

/// Every frame of a unit is either converted or skipped.
pub proof fn law_every_frame_is_counted(input: PlanInput, start: StateView)
    ensures
        ({
            let work = input.finished(start);
            work.converted + work.skipped == frame_count(input.pictures, 0)
        }),
{
    lemma_counted_from(input, plan::unplanned(start), 0);
    reveal(PlanInput::repeated);
}

} // verus!
