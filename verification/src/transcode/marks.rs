//! What stands around the pictures of a unit.
use crate::container::fmp4::timeline;
use crate::job;
use crate::job::{ContextView, StateView};
use crate::transcode::handover;
use crate::transcode::picture;
use crate::transcode::plan;
use crate::transcode::plan::{JobView, PartView, PlanInput, PlanWork, UnitRequest};
use crate::transcode::syntax;
use vstd::prelude::*;

verus! {

/// How far behind a picture of a unit the next part stands that is no delimiter.
pub open spec fn stride(input: PlanInput) -> int {
    if plan::pairs_from(input.pictures, 0) {
        2
    } else {
        1
    }
}

/// The copy of the frame at a picture that is coded behind it as an IDR.
pub open spec fn copy_of(input: PlanInput, i: int) -> PartView {
    PartView::Literal(
        syntax::clone_unit(
            input.geometry(),
            input.description().mbaff,
            timeline::paired(input.pictures, i),
        ),
    )
}

/// The picture at a place has around it what it needs: an IDR its copy behind it, and a
/// picture that playback can start from a message that says so in front of it.
pub open spec fn place_marked(
    input: PlanInput,
    parts: Seq<PartView>,
    p: int,
    job: JobView,
) -> bool {
    job::job_context(job.data) matches Some(context) && {
        &&& context.real_idr ==> {
            &&& p + stride(input) < parts.len()
            &&& parts[p + stride(input)] == copy_of(input, job.source)
        }
        &&& context.recovery_intra && input.options.open_gop_recovery
            is RecoveryPoint ==> p > 0 && parts[p - 1] == PartView::Literal(
            syntax::recovery_unit(),
        )
    }
}

/// Every picture has around it what it needs.
#[verifier::opaque]
pub open spec fn all_marked(input: PlanInput, parts: Seq<PartView>, jobs: Seq<JobView>) -> bool {
    forall|p: int|
        0 <= p < parts.len() ==> match #[trigger] parts[p] {
            PartView::Literal(_) => true,
            PartView::Picture(k) => 0 <= k < jobs.len() && place_marked(input, parts, p, jobs[k]),
        }
}

/// One more picture, with what it needs around it.
proof fn lemma_more_marked(
    input: PlanInput,
    parts: Seq<PartView>,
    jobs: Seq<JobView>,
    front: Seq<PartView>,
    back: Seq<PartView>,
    job: JobView,
)
    requires
        all_marked(input, parts, jobs),
        forall|x: int| 0 <= x < front.len() ==> (#[trigger] front[x]) is Literal,
        forall|x: int| 0 <= x < back.len() ==> (#[trigger] back[x]) is Literal,
        place_marked(
            input,
            parts + front.push(PartView::Picture(jobs.len() as int)) + back,
            (parts.len() + front.len()) as int,
            job,
        ),
    ensures
        all_marked(
            input,
            parts + front.push(PartView::Picture(jobs.len() as int)) + back,
            jobs.push(job),
        ),
{
    reveal(all_marked);
    let after = parts + front.push(PartView::Picture(jobs.len() as int)) + back;
    let more = jobs.push(job);
    assert forall|p: int| 0 <= p < after.len() implies match #[trigger] after[p] {
        PartView::Literal(_) => true,
        PartView::Picture(k) => 0 <= k < more.len() && place_marked(input, after, p, more[k]),
    } by {
        if p < parts.len() {
            assert(after[p] == parts[p]);
            if let PartView::Picture(k) = parts[p] {
                assert(more[k] == jobs[k]);
                assert(p + stride(input) < parts.len() ==> after[p + stride(input)] == parts[p
                    + stride(input)]);
                assert(p > 0 ==> after[p - 1] == parts[p - 1]);
            }
        } else if p < parts.len() + front.len() {
            assert(after[p] == front[p - parts.len()]);
        } else if p > parts.len() + front.len() {
            assert(after[p] == back[p - parts.len() - front.len() - 1]);
        }
    }
}

/// The delimiter in front of a picture of a unit with field pairs.
pub open spec fn delimiter(input: PlanInput) -> Seq<PartView> {
    if plan::pairs_from(input.pictures, 0) {
        seq![PartView::Literal(syntax::delimiter_unit())]
    } else {
        seq![]
    }
}

/// The context that a job was made in is read out of it.
pub proof fn lemma_read(input: PlanInput, index: int, i: int, context: ContextView)
    requires
        picture::codable(context),
    ensures
        job::job_context(input.job(index, i, context).data) == Some(context),
{
    job::law_context_survives(context, plan::picture_stream(input.data, input.pictures, i));
}

/// Repeating a recovery picture keeps what pictures need around them.
proof fn lemma_repeated_marked(input: PlanInput, work: PlanWork, i: int)
    requires
        handover::parsed_unit(input),
        all_marked(input, work.parts, work.jobs),
    ensures
        all_marked(input, input.repeated(work, i).parts, input.repeated(work, i).jobs),
{
    reveal(PlanInput::repeated);
    let index = work.jobs.len() as int;
    let context = input.copy_context(i);
    let job = input.job(index, i, context);
    let front = delimiter(input).push(PartView::Literal(syntax::recovery_unit()));
    let back = delimiter(input).push(copy_of(input, i));
    let after = work.parts + front.push(PartView::Picture(index)) + back;
    assert(input.repeated(work, i).parts =~= after);
    assert(picture::codable(context));
    lemma_read(input, index, i, context);
    assert(after[work.parts.len() + front.len() + stride(input)] == copy_of(input, i));
    lemma_more_marked(input, work.parts, work.jobs, front, back, job);
}

/// Coding a picture keeps what pictures need around them.
proof fn lemma_coded_marked(input: PlanInput, work: PlanWork, i: int)
    requires
        all_marked(input, work.parts, work.jobs),
        picture::codable(input.context(i, work)),
    ensures
        all_marked(input, input.coded(work, i).parts, input.coded(work, i).jobs),
{
    reveal(PlanInput::coded);
    let index = work.jobs.len() as int;
    let context = input.context(i, work);
    let job = input.job(index, i, context);
    let front = if context.recovery_intra && input.options.open_gop_recovery is RecoveryPoint {
        delimiter(input).push(PartView::Literal(syntax::recovery_unit()))
    } else {
        delimiter(input)
    };
    let back = if context.real_idr {
        delimiter(input).push(copy_of(input, i))
    } else {
        seq![]
    };
    let after = work.parts + front.push(PartView::Picture(index)) + back;
    assert(input.coded(work, i).parts =~= after);
    lemma_read(input, index, i, context);
    let p = (work.parts.len() + front.len()) as int;
    if context.real_idr {
        assert(after[p + stride(input)] == copy_of(input, i));
    }
    lemma_more_marked(input, work.parts, work.jobs, front, back, job);
}

/// A plan keeps what pictures need around them, from any picture on.
proof fn lemma_worked_marked(input: PlanInput, work: PlanWork, i: int, room: int)
    requires
        handover::parsed_unit(input),
        0 <= i,
        room >= input.pictures.len() - i,
        room >= 0,
        handover::ready(work.state, room),
        handover::all_codable(input, work.jobs),
        handover::repeatable(input, work),
        all_marked(input, work.parts, work.jobs),
    ensures
        all_marked(input, input.worked(work, i).parts, input.worked(work, i).jobs),
    decreases input.pictures.len() - i,
{
    if i < input.pictures.len() {
        if work.pending is Some {
            handover::lemma_repeated(input, work, work.pending->Some_0, room);
            lemma_repeated_marked(input, work, work.pending->Some_0);
        }
        let arrived = input.arrived(work, i);
        let shown = PlanWork {
            state: plan::group_step(arrived.state, input.pictures[i]),
            ..arrived
        };
        assert(input.pictures[i].wf());
        assert(handover::ready(shown.state, room - 1));
        if !(input.pictures[i].header.picture_coding_type is Other) && input.codes(
            i,
            shown.state,
        ) {
            handover::lemma_coded(input, shown, i, room - 1);
            lemma_coded_marked(input, shown, i);
        }
        lemma_worked_marked(
            input,
            input.step(work, i),
            timeline::next_frame(input.pictures, i),
            room - 1,
        );
    }
}

/// Every IDR of a unit has its copy right behind it; and where pictures that playback can
/// start from are marked rather than made IDRs, each has the message that says so right in
/// front of it.
#[verifier::rlimit(60)]
pub proof fn law_pictures_are_marked(input: PlanInput, start: StateView, request: UnitRequest)
    requires
        handover::parsed_unit(input),
        handover::ready(
            plan::beginning(input.description(), start, request),
            input.pictures.len() as int,
        ),
    ensures
        ({
            let plan = plan::plan_of(input, start, request);
            all_marked(input, plan.parts, plan.jobs)
        }),
{
    let begun = plan::beginning(input.description(), start, request);
    let work = input.worked(plan::unplanned(begun), 0);
    assert(all_marked(input, seq![], seq![])) by {
        reveal(all_marked);
    }
    lemma_worked_marked(input, plan::unplanned(begun), 0, input.pictures.len() as int);
    if work.pending is Some {
        lemma_repeated_marked(input, work, work.pending->Some_0);
    }
    let done = input.finished(begun);
    let sets = input.parameter_sets();
    let whole = sets + done.parts;
    assert(all_marked(input, whole, done.jobs)) by {
        reveal(all_marked);
        assert forall|p: int| 0 <= p < whole.len() implies match #[trigger] whole[p] {
            PartView::Literal(_) => true,
            PartView::Picture(k) => 0 <= k < done.jobs.len() && place_marked(
                input,
                whole,
                p,
                done.jobs[k],
            ),
        } by {
            let q = p - sets.len();
            if q >= 0 {
                assert(whole[p] == done.parts[q]);
                if let PartView::Picture(k) = done.parts[q] {
                    assert(q + stride(input) < done.parts.len() ==> whole[p + stride(input)]
                        == done.parts[q + stride(input)]);
                    assert(q > 0 ==> whole[p - 1] == done.parts[q - 1]);
                }
            }
        }
    }
}

} // verus!
