//! Which pictures of a unit playback can start from.
use crate::container::fmp4::timeline;
use crate::job;
use crate::job::StateView;
use crate::transcode::handover;
use crate::transcode::marks;
use crate::transcode::picture;
use crate::transcode::plan;
use crate::transcode::plan::{JobView, PlanInput, PlanWork, UnitRequest};
use vstd::prelude::*;

verus! {

/// A job is made from an intra picture.
pub open spec fn is_intra_job(input: PlanInput, job: JobView) -> bool {
    input.pictures[job.source].header.picture_coding_type is I
}

/// Some job is made from an intra picture.
pub open spec fn some_intra(input: PlanInput, jobs: Seq<JobView>) -> bool {
    exists|k: int| 0 <= k < jobs.len() && is_intra_job(input, #[trigger] jobs[k])
}

/// A job is the first that is made from an intra picture.
pub open spec fn is_first_intra(input: PlanInput, jobs: Seq<JobView>, k: int) -> bool {
    &&& is_intra_job(input, jobs[k])
    &&& !some_intra(input, jobs.take(k))
}

/// The recovery point is the first intra picture, where one was asked for, and no other.
#[verifier::opaque]
pub open spec fn recovers_first(input: PlanInput, jobs: Seq<JobView>) -> bool {
    forall|k: int|
        #![trigger jobs[k]]
        0 <= k < jobs.len() ==> (job::job_context(jobs[k].data) matches Some(context)
            && context.recovery_intra == (input.recovery_point && is_first_intra(input, jobs, k)))
}

/// One more job behind the others.
proof fn lemma_recovers_more(input: PlanInput, jobs: Seq<JobView>, job: JobView)
    requires
        recovers_first(input, jobs),
        job::job_context(job.data) matches Some(context) && context.recovery_intra == (
        input.recovery_point && is_intra_job(input, job) && !some_intra(input, jobs)),
    ensures
        recovers_first(input, jobs.push(job)),
        some_intra(input, jobs.push(job)) == (some_intra(input, jobs) || is_intra_job(input, job)),
{
    reveal(recovers_first);
    let more = jobs.push(job);
    let n = jobs.len() as int;
    assert(more.take(n) =~= jobs);
    assert forall|k: int|
        #![trigger more[k]]
        0 <= k < more.len() implies (job::job_context(more[k].data) matches Some(context)
        && context.recovery_intra == (input.recovery_point && is_first_intra(input, more, k))) by {
        if k < n {
            assert(more[k] == jobs[k]);
            assert(more.take(k) =~= jobs.take(k));
        }
    }
    if some_intra(input, jobs) {
        let k = choose|k: int| 0 <= k < jobs.len() && is_intra_job(input, #[trigger] jobs[k]);
        assert(more[k] == jobs[k]);
    }
    if is_intra_job(input, job) {
        assert(more[n] == job);
    }
    if some_intra(input, more) {
        let k = choose|k: int| 0 <= k < more.len() && is_intra_job(input, #[trigger] more[k]);
        if k < n {
            assert(more[k] == jobs[k]);
        }
    }
}

/// What holds of the recovery point while a unit is planned.
spec fn recovering(input: PlanInput, work: PlanWork) -> bool {
    &&& !work.state.awaiting_idr
    &&& recovers_first(input, work.jobs)
    &&& work.recovery_emitted == (input.recovery_point && some_intra(input, work.jobs))
    &&& work.pending matches Some(i) ==> work.recovery_emitted
        && input.pictures[i].header.picture_coding_type is I
}

/// Repeating a recovery picture makes no other recovery point.
proof fn lemma_repeated_recovers(input: PlanInput, work: PlanWork, i: int)
    requires
        handover::parsed_unit(input),
        recovering(input, work),
        work.pending == Some(i),
    ensures
        recovering(input, input.repeated(work, i)),
{
    reveal(PlanInput::repeated);
    let index = work.jobs.len() as int;
    let context = input.copy_context(i);
    assert(picture::codable(context));
    marks::lemma_read(input, index, i, context);
    lemma_recovers_more(input, work.jobs, input.job(index, i, context));
}

/// Coding a picture makes it the recovery point where it is the first intra picture.
proof fn lemma_coded_recovers(input: PlanInput, work: PlanWork, i: int)
    requires
        recovering(input, work),
        picture::codable(input.context(i, work)),
    ensures
        recovering(input, input.coded(work, i)),
{
    reveal(PlanInput::coded);
    let index = work.jobs.len() as int;
    let context = input.context(i, work);
    marks::lemma_read(input, index, i, context);
    lemma_recovers_more(input, work.jobs, input.job(index, i, context));
}

/// A plan keeps to the first intra picture, from any picture on.
proof fn lemma_worked_recovers(input: PlanInput, work: PlanWork, i: int, room: int)
    requires
        handover::parsed_unit(input),
        0 <= i,
        room >= input.pictures.len() - i,
        room >= 0,
        handover::ready(work.state, room),
        handover::all_codable(input, work.jobs),
        handover::repeatable(input, work),
        recovering(input, work),
    ensures
        recovering(input, input.worked(work, i)),
    decreases input.pictures.len() - i,
{
    if i < input.pictures.len() {
        if work.pending is Some {
            handover::lemma_repeated(input, work, work.pending->Some_0, room);
            lemma_repeated_recovers(input, work, work.pending->Some_0);
        }
        let arrived = input.arrived(work, i);
        let shown = PlanWork {
            state: plan::group_step(arrived.state, input.pictures[i]),
            ..arrived
        };
        assert(input.pictures[i].wf());
        assert(handover::ready(shown.state, room - 1));
        if !(input.pictures[i].header.picture_coding_type is Other) && input.codes(
            i,
            shown.state,
        ) {
            handover::lemma_coded(input, shown, i, room - 1);
            lemma_coded_recovers(input, shown, i);
        }
        lemma_worked_recovers(
            input,
            input.step(work, i),
            timeline::next_frame(input.pictures, i),
            room - 1,
        );
    }
}

/// In a unit that goes on with the decoded picture buffer, the first intra picture that is
/// coded becomes the recovery point where one was asked for, no other does, and the plan
/// tells whether there was one.
pub proof fn law_the_first_intra_picture_recovers(
    input: PlanInput,
    start: StateView,
    request: UnitRequest,
)
    requires
        handover::parsed_unit(input),
        handover::ready(
            plan::beginning(input.description(), start, request),
            input.pictures.len() as int,
        ),
        !plan::beginning(input.description(), start, request).awaiting_idr,
    ensures
        ({
            let plan = plan::plan_of(input, start, request);
            &&& recovers_first(input, plan.jobs)
            &&& plan.recovery_emitted == (input.recovery_point && some_intra(input, plan.jobs))
        }),
{
    let begun = plan::beginning(input.description(), start, request);
    let first = plan::unplanned(begun);
    assert(recovers_first(input, first.jobs)) by {
        reveal(recovers_first);
    }
    lemma_worked_recovers(input, first, 0, input.pictures.len() as int);
    let work = input.worked(first, 0);
    if work.pending is Some {
        lemma_repeated_recovers(input, work, work.pending->Some_0);
    }
    reveal(PlanInput::repeated);
}

/// What holds of the IDR while a unit is planned that begins without a decoded picture
/// buffer: it is waited for, or it came first.
#[verifier::opaque]
spec fn opening(work: PlanWork) -> bool {
    if work.jobs.len() == 0 {
        work.state.awaiting_idr && work.pending is None && work.converted == 0
    } else {
        job::job_context(work.jobs[0].data) matches Some(context) && context.real_idr
    }
}

/// Repeating a recovery picture leaves what came first.
proof fn lemma_repeated_opens(input: PlanInput, work: PlanWork, i: int)
    requires
        opening(work),
        work.pending is Some,
    ensures
        opening(input.repeated(work, i)),
{
    reveal(opening);
    reveal(PlanInput::repeated);
}

/// Coding a picture leaves what came first, and what comes first is the IDR.
proof fn lemma_coded_opens(input: PlanInput, work: PlanWork, i: int)
    requires
        opening(work),
        input.codes(i, work.state),
        picture::codable(input.context(i, work)),
    ensures
        opening(input.coded(work, i)),
{
    reveal(opening);
    reveal(PlanInput::coded);
    marks::lemma_read(input, work.jobs.len() as int, i, input.context(i, work));
}

/// What else changes does not matter to what came first.
proof fn lemma_opening_kept(work: PlanWork, other: PlanWork)
    requires
        opening(work),
        other.jobs == work.jobs,
        other.state.awaiting_idr == work.state.awaiting_idr,
        other.pending == work.pending,
        other.converted == work.converted,
    ensures
        opening(other),
{
    reveal(opening);
}

/// A plan opens with the IDR, from any picture on.
proof fn lemma_worked_opens(input: PlanInput, work: PlanWork, i: int, room: int)
    requires
        handover::parsed_unit(input),
        0 <= i,
        room >= input.pictures.len() - i,
        room >= 0,
        handover::ready(work.state, room),
        handover::all_codable(input, work.jobs),
        handover::repeatable(input, work),
        opening(work),
    ensures
        opening(input.worked(work, i)),
    decreases input.pictures.len() - i,
{
    if i < input.pictures.len() {
        if work.pending is Some {
            handover::lemma_repeated(input, work, work.pending->Some_0, room);
            lemma_repeated_opens(input, work, work.pending->Some_0);
        }
        let arrived = input.arrived(work, i);
        let shown = PlanWork {
            state: plan::group_step(arrived.state, input.pictures[i]),
            ..arrived
        };
        lemma_opening_kept(arrived, shown);
        lemma_opening_kept(arrived, PlanWork { skipped: arrived.skipped + 1, ..arrived });
        lemma_opening_kept(arrived, PlanWork { skipped: shown.skipped + 1, ..shown });
        assert(input.pictures[i].wf());
        assert(handover::ready(shown.state, room - 1));
        if !(input.pictures[i].header.picture_coding_type is Other) && input.codes(
            i,
            shown.state,
        ) {
            handover::lemma_coded(input, shown, i, room - 1);
            lemma_coded_opens(input, shown, i);
        }
        lemma_worked_opens(
            input,
            input.step(work, i),
            timeline::next_frame(input.pictures, i),
            room - 1,
        );
    }
}

/// A unit that restarts the decoded picture buffer opens it with an IDR: nothing is coded
/// in front of that, and where no picture can become one nothing is coded at all and the
/// buffer goes on waiting.
pub proof fn law_a_restart_opens_with_an_idr(
    input: PlanInput,
    start: StateView,
    request: UnitRequest,
)
    requires
        handover::parsed_unit(input),
        handover::ready(
            plan::beginning(input.description(), start, request),
            input.pictures.len() as int,
        ),
        request.random_access || start.awaiting_idr,
    ensures
        ({
            let plan = plan::plan_of(input, start, request);
            if plan.jobs.len() == 0 {
                plan.state.awaiting_idr
            } else {
                job::job_context(plan.jobs[0].data) matches Some(context) && context.real_idr
            }
        }),
{
    let begun = plan::beginning(input.description(), start, request);
    assert(opening(plan::unplanned(begun))) by {
        reveal(opening);
    }
    lemma_worked_opens(input, plan::unplanned(begun), 0, input.pictures.len() as int);
    let work = input.worked(plan::unplanned(begun), 0);
    if work.pending is Some {
        lemma_repeated_opens(input, work, work.pending->Some_0);
    }
    reveal(opening);
}

/// A job is coded in a context that makes it a recovery point.
pub open spec fn is_recovery(job: JobView) -> bool {
    job::job_context(job.data) matches Some(context) && context.recovery_intra
}

/// A job is coded as an IDR.
pub open spec fn is_idr(job: JobView) -> bool {
    job::job_context(job.data) matches Some(context) && context.real_idr
}

/// Between two jobs there are only pictures that are shown before the first of them.
pub open spec fn only_leading(input: PlanInput, jobs: Seq<JobView>, k: int, m: int) -> bool {
    forall|x: int|
        k < x < m ==> input.leads((#[trigger] jobs[x]).source, jobs[k].source)
}

/// A job is repeated as an IDR behind the pictures that are shown before it.
pub open spec fn repeated_at(input: PlanInput, jobs: Seq<JobView>, k: int, m: int) -> bool {
    &&& k < m < jobs.len()
    &&& is_idr(jobs[m])
    &&& jobs[m].source == jobs[k].source
    &&& only_leading(input, jobs, k, m)
}

/// A job is repeated as an IDR.
pub open spec fn is_repeated(input: PlanInput, jobs: Seq<JobView>, k: int) -> bool {
    exists|m: int| #[trigger] repeated_at(input, jobs, k, m)
}

/// A job waits to be repeated.
spec fn waits(input: PlanInput, work: PlanWork, k: int) -> bool {
    &&& work.pending == Some(work.jobs[k].source)
    &&& only_leading(input, work.jobs, k, work.jobs.len() as int)
}

/// Every recovery point is repeated, or waits for it.
#[verifier::opaque]
spec fn repeats(input: PlanInput, work: PlanWork) -> bool {
    &&& work.pending is Some ==> work.recovery_emitted
    &&& forall|k: int|
        0 <= k < work.jobs.len() && is_recovery(#[trigger] work.jobs[k]) ==> is_repeated(
            input,
            work.jobs,
            k,
        ) || waits(input, work, k)
}

/// What was repeated stays so behind more jobs.
proof fn lemma_repeated_stays(input: PlanInput, jobs: Seq<JobView>, job: JobView, k: int)
    requires
        0 <= k < jobs.len(),
        is_repeated(input, jobs, k),
    ensures
        is_repeated(input, jobs.push(job), k),
{
    let m = choose|m: int| #[trigger] repeated_at(input, jobs, k, m);
    let more = jobs.push(job);
    assert(forall|x: int| 0 <= x < jobs.len() ==> #[trigger] more[x] == jobs[x]);
    assert(repeated_at(input, more, k, m));
}

/// Repeating what waits leaves nothing waiting.
proof fn lemma_repeating(input: PlanInput, work: PlanWork, i: int)
    requires
        handover::parsed_unit(input),
        repeats(input, work),
        work.pending == Some(i),
    ensures
        repeats(input, input.repeated(work, i)),
{
    reveal(repeats);
    reveal(PlanInput::repeated);
    let index = work.jobs.len() as int;
    let context = input.copy_context(i);
    assert(picture::codable(context));
    marks::lemma_read(input, index, i, context);
    let job = input.job(index, i, context);
    let after = input.repeated(work, i);
    assert(after.jobs == work.jobs.push(job));
    assert forall|k: int| 0 <= k < after.jobs.len() && is_recovery(#[trigger] after.jobs[k]) implies
        is_repeated(input, after.jobs, k) || waits(input, after, k) by {
        if k < index {
            assert(after.jobs[k] == work.jobs[k]);
            if is_repeated(input, work.jobs, k) {
                lemma_repeated_stays(input, work.jobs, job, k);
            } else {
                assert(waits(input, work, k));
                assert(forall|x: int| 0 <= x < index ==> #[trigger] after.jobs[x] == work.jobs[x]);
                assert(repeated_at(input, after.jobs, k, index));
            }
        }
    }
}

/// Coding a picture that is shown before what waits leaves it waiting; coding a recovery
/// point makes it wait.
proof fn lemma_coding(input: PlanInput, work: PlanWork, i: int)
    requires
        input.options.open_gop_recovery is Idr,
        repeats(input, work),
        work.pending matches Some(anchor) ==> input.leads(i, anchor),
        picture::codable(input.context(i, work)),
    ensures
        repeats(input, input.coded(work, i)),
{
    reveal(repeats);
    reveal(PlanInput::coded);
    let index = work.jobs.len() as int;
    let context = input.context(i, work);
    marks::lemma_read(input, index, i, context);
    let job = input.job(index, i, context);
    let after = input.coded(work, i);
    assert(after.jobs == work.jobs.push(job));
    assert forall|k: int| 0 <= k < after.jobs.len() && is_recovery(#[trigger] after.jobs[k]) implies
        is_repeated(input, after.jobs, k) || waits(input, after, k) by {
        if k < index {
            assert(after.jobs[k] == work.jobs[k]);
            if is_repeated(input, work.jobs, k) {
                lemma_repeated_stays(input, work.jobs, job, k);
            } else {
                assert(waits(input, work, k));
                assert(!context.recovery_intra);
                assert(forall|x: int| 0 <= x < index ==> #[trigger] after.jobs[x] == work.jobs[x]);
                assert(after.jobs[index] == job);
            }
        }
    }
}

/// What else changes does not matter to what waits.
proof fn lemma_repeats_kept(input: PlanInput, work: PlanWork, other: PlanWork)
    requires
        repeats(input, work),
        other.jobs == work.jobs,
        other.pending == work.pending,
        other.recovery_emitted == work.recovery_emitted,
    ensures
        repeats(input, other),
{
    reveal(repeats);
    assert forall|k: int| 0 <= k < other.jobs.len() && is_recovery(#[trigger] other.jobs[k]) implies
        is_repeated(input, other.jobs, k) || waits(input, other, k) by {
        assert(is_repeated(input, work.jobs, k) || waits(input, work, k));
    }
}

/// A plan repeats its recovery points, from any picture on.
proof fn lemma_worked_repeats(input: PlanInput, work: PlanWork, i: int, room: int)
    requires
        handover::parsed_unit(input),
        input.options.open_gop_recovery is Idr,
        0 <= i,
        room >= input.pictures.len() - i,
        room >= 0,
        handover::ready(work.state, room),
        handover::all_codable(input, work.jobs),
        handover::repeatable(input, work),
        repeats(input, work),
    ensures
        repeats(input, input.worked(work, i)),
    decreases input.pictures.len() - i,
{
    if i < input.pictures.len() {
        if work.pending is Some {
            handover::lemma_repeated(input, work, work.pending->Some_0, room);
            lemma_repeating(input, work, work.pending->Some_0);
        }
        let arrived = input.arrived(work, i);
        let shown = PlanWork {
            state: plan::group_step(arrived.state, input.pictures[i]),
            ..arrived
        };
        lemma_repeats_kept(input, arrived, shown);
        lemma_repeats_kept(
            input,
            arrived,
            PlanWork { skipped: arrived.skipped + 1, ..arrived },
        );
        lemma_repeats_kept(input, arrived, PlanWork { skipped: shown.skipped + 1, ..shown });
        assert(input.pictures[i].wf());
        assert(handover::ready(shown.state, room - 1));
        if !(input.pictures[i].header.picture_coding_type is Other) && input.codes(
            i,
            shown.state,
        ) {
            handover::lemma_coded(input, shown, i, room - 1);
            lemma_coding(input, shown, i);
        }
        lemma_worked_repeats(
            input,
            input.step(work, i),
            timeline::next_frame(input.pictures, i),
            room - 1,
        );
    }
}

/// Where recovery points become IDRs, each is coded in its place for the pictures that are
/// shown before it, and repeated as an IDR right behind them.
pub proof fn law_recovery_pictures_are_repeated(
    input: PlanInput,
    start: StateView,
    request: UnitRequest,
    k: int,
)
    requires
        handover::parsed_unit(input),
        handover::ready(
            plan::beginning(input.description(), start, request),
            input.pictures.len() as int,
        ),
        input.options.open_gop_recovery is Idr,
        0 <= k < plan::plan_of(input, start, request).jobs.len(),
        is_recovery(plan::plan_of(input, start, request).jobs[k]),
    ensures
        is_repeated(input, plan::plan_of(input, start, request).jobs, k),
{
    let begun = plan::beginning(input.description(), start, request);
    let first = plan::unplanned(begun);
    assert(repeats(input, first)) by {
        reveal(repeats);
    }
    lemma_worked_repeats(input, first, 0, input.pictures.len() as int);
    let work = input.worked(first, 0);
    if work.pending is Some {
        lemma_repeating(input, work, work.pending->Some_0);
        assert(input.repeated(work, work.pending->Some_0).pending is None) by {
            reveal(PlanInput::repeated);
        }
    }
    let done = input.finished(begun);
    assert(repeats(input, done) && done.pending is None);
    reveal(repeats);
    assert(is_recovery(done.jobs[k]));
}

} // verus!
