//! What a plan hands out can be coded.
use crate::container::fmp4::timeline;
use crate::error::Error;
use crate::job;
use crate::job::{ContextView, StateView, JOB_HEADER_LEN};
use crate::mpeg2::carried;
use crate::mpeg2::constants::PictureStructure;
use crate::mpeg2::headers;
use crate::mpeg2::headers::PictureView;
use crate::mpeg2::reparse;
use crate::mpeg2::standalone;
use crate::transcode::decoder;
use crate::transcode::encoder;
use crate::transcode::picture;
use crate::transcode::plan;
use crate::transcode::plan::{JobView, PlanInput, PlanWork, UnitRequest};
use vstd::prelude::*;

verus! {

/// A picture can be coded in the context, and what it is predicted from has its indices.
pub open spec fn context_codable(context: ContextView) -> bool {
    picture::codable(context) && decoder::layout_named(context.layout)
}

/// The frame at a picture can be coded: it is a whole frame of a kind that can be
/// converted, under the description that the unit opens with, and nobody found it damaged.
pub open spec fn whole_frame(input: PlanInput, i: int) -> bool {
    let picture = input.pictures[i];
    &&& !(picture.header.picture_coding_type is Other)
    &&& picture.coding.picture_structure == PictureStructure::Frame || timeline::paired(
        input.pictures,
        i,
    )
    &&& headers::picture_description(picture) == input.description()
    &&& !input.damaged(i)
    &&& timeline::paired(input.pictures, i) ==> !input.damaged(i + 1)
}

/// The job carries a context that a picture can be coded in, and the bytes of its frame.
/// A picture that predicts from both sides has both references.
#[verifier::opaque]
pub open spec fn job_codable(input: PlanInput, job: JobView) -> bool {
    &&& job::job_context(job.data) matches Some(context) && {
        &&& context_codable(context)
        &&& context.picture_count == input.picture_count(job.source)
        &&& input.pictures[job.source].header.picture_coding_type is B
            ==> context.short_term.len() >= 2
        &&& job.data == job::header_bytes(context) + plan::picture_stream(
            input.data,
            input.pictures,
            job.source,
        )
    }
    &&& job.mate == plan::mate_of(input.pictures, job.source)
    &&& whole_frame(input, job.source)
}

/// Every job carries a context that a picture can be coded in, and the bytes of its frame.
pub open spec fn all_codable(input: PlanInput, jobs: Seq<JobView>) -> bool {
    forall|k: int| 0 <= k < jobs.len() ==> job_codable(input, #[trigger] jobs[k])
}

/// A state from which every picture can be coded: a buffer that is waiting to be opened
/// is empty, and the display order has room for `room` more groups.
pub open spec fn ready(state: StateView, room: int) -> bool {
    &&& state.wf()
    &&& state.awaiting_idr ==> state.short_term_count == 0
    &&& 0 <= state.gop_base
    &&& state.gop_base + 1024 * room + 1024 <= 0x3fff_ffff
}

/// The unit is one that was parsed.
pub open spec fn parsed_unit(input: PlanInput) -> bool {
    &&& input.pictures.len() > 0
    &&& headers::all_wf(input.pictures)
    &&& input.pictures[0].quant.non_intra.len() == 64
}

/// A job carries the context that it was made in.
proof fn lemma_job_codable(input: PlanInput, index: int, i: int, context: ContextView)
    requires
        context_codable(context),
        context.picture_count == input.picture_count(i),
        input.pictures[i].header.picture_coding_type is B ==> context.short_term.len() >= 2,
        whole_frame(input, i),
    ensures
        job_codable(input, input.job(index, i, context)),
{
    reveal(job_codable);
    job::law_context_survives(
        context,
        plan::picture_stream(input.data, input.pictures, i),
    );
}

/// The recovery picture that is still to be repeated is a whole I frame.
pub open spec fn repeatable(input: PlanInput, work: PlanWork) -> bool {
    work.pending matches Some(i) ==> {
        &&& !work.state.awaiting_idr
        &&& input.pictures[i].header.picture_coding_type is I
        &&& whole_frame(input, i)
    }
}

/// Repeating a recovery picture keeps the plan ready.
pub proof fn lemma_repeated(input: PlanInput, work: PlanWork, i: int, room: int)
    requires
        parsed_unit(input),
        ready(work.state, room),
        !work.state.awaiting_idr,
        0 <= room,
        all_codable(input, work.jobs),
        input.pictures[i].header.picture_coding_type is I,
        whole_frame(input, i),
    ensures
        ready(input.repeated(work, i).state, room),
        !input.repeated(work, i).state.awaiting_idr,
        all_codable(input, input.repeated(work, i).jobs),
        input.repeated(work, i).pending is None,
{
    reveal(PlanInput::repeated);
    lemma_job_codable(input, work.jobs.len() as int, i, input.copy_context(i));
}

/// Coding a picture keeps the plan ready.
pub proof fn lemma_coded(input: PlanInput, work: PlanWork, i: int, room: int)
    requires
        parsed_unit(input),
        0 <= i < input.pictures.len(),
        !(input.pictures[i].header.picture_coding_type is Other),
        ready(work.state, room),
        0 <= room,
        all_codable(input, work.jobs),
        input.codes(i, work.state),
        repeatable(input, work),
    ensures
        ready(input.coded(work, i).state, room),
        !input.coded(work, i).state.awaiting_idr,
        all_codable(input, input.coded(work, i).jobs),
        repeatable(input, input.coded(work, i)),
{
    reveal(PlanInput::coded);
    let context = input.context(i, work);
    assert(input.pictures[i].wf());
    let state = work.state;
    assert(job::pushed_frame(state.short_term, context.frame_num).len() <= 3);
    assert(context_codable(context));
    lemma_job_codable(input, work.jobs.len() as int, i, context);
}

/// A plan stays ready from any picture on.
proof fn lemma_worked(input: PlanInput, work: PlanWork, i: int, room: int)
    requires
        parsed_unit(input),
        0 <= i,
        room >= input.pictures.len() - i,
        room >= 0,
        ready(work.state, room),
        all_codable(input, work.jobs),
        repeatable(input, work),
    ensures
        all_codable(input, input.worked(work, i).jobs),
        ready(input.worked(work, i).state, 0),
        repeatable(input, input.worked(work, i)),
    decreases input.pictures.len() - i,
{
    if i < input.pictures.len() {
        if work.pending is Some {
            lemma_repeated(input, work, work.pending->Some_0, room);
        }
        let arrived = input.arrived(work, i);
        let shown = PlanWork {
            state: plan::group_step(arrived.state, input.pictures[i]),
            ..arrived
        };
        assert(input.pictures[i].wf());
        assert(ready(shown.state, room - 1));
        if !(input.pictures[i].header.picture_coding_type is Other) && input.codes(
            i,
            shown.state,
        ) {
            lemma_coded(input, shown, i, room - 1);
        }
        lemma_worked(
            input,
            input.step(work, i),
            timeline::next_frame(input.pictures, i),
            room - 1,
        );
    }
}

/// Every job of a plan carries a context that a picture can be coded in, and the bytes of
/// its frame, whichever worker reads it. Damaged pictures, B pictures without both of
/// their references and fields without their other half have none.
pub proof fn law_jobs_can_be_coded(input: PlanInput, start: StateView, request: UnitRequest)
    requires
        parsed_unit(input),
        ready(
            plan::beginning(input.description(), start, request),
            input.pictures.len() as int,
        ),
    ensures
        all_codable(input, plan::plan_of(input, start, request).jobs),
{
    let begun = plan::beginning(input.description(), start, request);
    lemma_worked(input, plan::unplanned(begun), 0, input.pictures.len() as int);
    let work = input.worked(plan::unplanned(begun), 0);
    if work.pending is Some {
        lemma_repeated(input, work, work.pending->Some_0, 0);
    }
}

/// The stream is one that frames of can be parsed on their own: it parses, every header
/// stands whole in front of the next start code, and the extensions stand where the
/// syntax has them.
pub open spec fn well_ordered(data: Seq<u8>) -> bool {
    &&& reparse::parses(data)
    &&& reparse::complete(data)
    &&& reparse::orderly(data)
}

/// Where a frame begins and ends can be told: the picture in front of it and its own last
/// one have slices.
pub open spec fn bounded(pictures: Seq<PictureView>, i: int) -> bool {
    &&& i > 0 ==> pictures[i - 1].slices.len() > 0
    &&& pictures[timeline::next_frame(pictures, i) - 1].slices.len() > 0
}

/// The bytes of a frame, with the headers that describe it in front, parse to the
/// pictures that the frame parses to in its stream: what stands in front of it and behind
/// it says nothing more about it. Its pictures are the last of what is parsed.
pub proof fn law_a_frame_parses_on_its_own(data: Seq<u8>, i: int)
    requires
        well_ordered(data),
        0 <= i < headers::parsed(data)->Ok_0.len(),
        bounded(headers::parsed(data)->Ok_0, i),
    ensures
        ({
            let pictures = headers::parsed(data)->Ok_0;
            let count = timeline::next_frame(pictures, i) - i;
            let alone = headers::parsed(plan::picture_stream(data, pictures, i));
            &&& alone is Ok
            &&& alone->Ok_0.len() >= count
            &&& forall|t: int|
                0 <= t < count ==> #[trigger] standalone::alike_picture(
                    pictures[i + t],
                    alone->Ok_0[alone->Ok_0.len() - count + t],
                    reparse::cut_by(pictures[i], timeline::start_of(pictures, i)),
                )
        }),
{
    let pictures = headers::parsed(data)->Ok_0;
    let j = timeline::next_frame(pictures, i);
    let start = timeline::start_of(pictures, i);
    let end = timeline::start_of(pictures, j);
    headers::law_parse_lays_out_in_order(data);
    assert(pictures[j - 1].slices.len() > 0);
    assert(headers::last_slice_end(pictures[j - 1]) is Some);
    if i > 0 {
        assert(pictures[i - 1].slices.len() > 0);
        assert(headers::last_slice_end(pictures[i - 1]) is Some);
    }
    reparse::lemma_parses_alone(data, i, j, start, end);
    assert(reparse::cut_out(data, pictures[i], start, end) == plan::picture_stream(
        data,
        pictures,
        i,
    ));
}

/// A worker that decodes a job of a plan has the context that the job was made in and
/// the pictures that it was made from, whatever it knows of the stream besides.
pub proof fn law_a_job_carries_its_frame(
    input: PlanInput,
    start: StateView,
    request: UnitRequest,
    k: int,
)
    requires
        well_ordered(input.data),
        headers::parsed(input.data) == Ok::<Seq<PictureView>, Error>(input.pictures),
        parsed_unit(input),
        ready(
            plan::beginning(input.description(), start, request),
            input.pictures.len() as int,
        ),
        0 <= k < plan::plan_of(input, start, request).jobs.len(),
        bounded(input.pictures, plan::plan_of(input, start, request).jobs[k].source),
    ensures
        ({
            let job = plan::plan_of(input, start, request).jobs[k];
            let by = reparse::cut_by(
                input.pictures[job.source],
                timeline::start_of(input.pictures, job.source),
            );
            &&& 0 <= job.source < input.pictures.len()
            &&& encoder::job_decoded(job.data) matches Ok(read) && {
                &&& job::job_context(job.data) == Some(read.context)
                &&& standalone::alike_picture(input.pictures[job.source], read.picture, by)
                &&& match (job.mate, read.mate) {
                    (Some(mate), Some(second)) => standalone::alike_picture(
                        input.pictures[mate],
                        second,
                        by,
                    ),
                    (None, None) => true,
                    _ => false,
                }
            }
        }),
{
    law_jobs_can_be_coded(input, start, request);
    plan::law_jobs_name_pictures(input, start, request);
    let job = plan::plan_of(input, start, request).jobs[k];
    assert(job_codable(input, job));
    reveal(job_codable);
    let i = job.source;
    let context = job::job_context(job.data)->Some_0;
    let stream = plan::picture_stream(input.data, input.pictures, i);
    job::law_context_survives(context, stream);
    assert(job.data.skip(JOB_HEADER_LEN as int) =~= stream);
    law_a_frame_parses_on_its_own(input.data, i);
    let alone = headers::parsed(stream)->Ok_0;
    let count = timeline::next_frame(input.pictures, i) - i;
    let by = reparse::cut_by(input.pictures[i], timeline::start_of(input.pictures, i));
    assert(standalone::alike_picture(input.pictures[i + 0], alone[alone.len() - count + 0], by));
    if count == 2 {
        assert(standalone::alike_picture(
            input.pictures[i + 1],
            alone[alone.len() - count + 1],
            by,
        ));
    }
}

/// Decoding the slices of a picture does not run past a place of the stream.
pub open spec fn stays_within(data: Seq<u8>, pic: PictureView, hi: int) -> bool {
    forall|n: int|
        0 <= n < pic.slices.len() ==> (#[trigger] encoder::slice_outcome(data, pic, n)).0 <= hi
}

/// A picture decodes to the same wherever it is carried to.
proof fn lemma_slices_alike(
    a: Seq<u8>,
    b: Seq<u8>,
    lo: int,
    hi: int,
    d: int,
    p: PictureView,
    q: PictureView,
    n: nat,
)
    requires
        carried::carried(a, b, lo, hi, d),
        standalone::alike_picture(p, q, d),
        p.coding.wf(),
        reparse::slices_within(p, lo, 8 * a.len() as int),
        stays_within(a, p, hi),
        n <= p.slices.len(),
    ensures
        encoder::slices_decoded(a, p, n) == encoder::slices_decoded(b, q, n),
    decreases n,
{
    if n > 0 {
        lemma_slices_alike(a, b, lo, hi, d, p, q, (n - 1) as nat);
        assert(encoder::slice_outcome(a, p, n - 1).0 <= hi);
        assert(p.slices[n - 1].data_start_bit >= lo);
        let geometry = headers::geometry_of(p.sequence, p.coding.picture_structure);
        carried::law_a_slice_decodes_alike(
            a,
            b,
            lo,
            hi,
            d,
            p,
            q,
            p.slices[n - 1],
            q.slices[n - 1],
            geometry.mb_width as int,
            encoder::slices_decoded(a, p, (n - 1) as nat).grid,
        );
    }
}

/// The bytes of a frame stand in what is cut out for it.
proof fn lemma_frame_carried(data: Seq<u8>, i: int)
    requires
        well_ordered(data),
        0 <= i < headers::parsed(data)->Ok_0.len(),
        bounded(headers::parsed(data)->Ok_0, i),
    ensures
        ({
            let pictures = headers::parsed(data)->Ok_0;
            let start = timeline::start_of(pictures, i);
            let end = timeline::start_of(pictures, timeline::next_frame(pictures, i));
            &&& carried::carried(
                data,
                plan::picture_stream(data, pictures, i),
                8 * start,
                8 * end,
                reparse::cut_by(pictures[i], start),
            )
            &&& forall|q: int|
                i <= q < pictures.len() ==> reparse::slices_within(
                    #[trigger] pictures[q],
                    8 * start,
                    8 * data.len() as int,
                )
        }),
{
    let pictures = headers::parsed(data)->Ok_0;
    let j = timeline::next_frame(pictures, i);
    let start = timeline::start_of(pictures, i);
    let end = timeline::start_of(pictures, j);
    headers::law_parse_lays_out_in_order(data);
    assert(pictures[j - 1].slices.len() > 0);
    reparse::lemma_ends_marked(data, j - 1);
    if i > 0 {
        assert(pictures[i - 1].slices.len() > 0);
        assert(headers::last_slice_end(pictures[i - 1]) is Some);
    }
    timeline::lemma_starts_increase(pictures, data.len() as int, i);
    assert(start <= timeline::end_of(pictures[j - 1], start) <= data.len());
    let stream = plan::picture_stream(data, pictures, i);
    let first = pictures[i];
    let front = if start <= first.context_start {
        0
    } else {
        first.context_end - first.context_start
    };
    reparse::lemma_parses_alone(data, i, j, start, end);
    carried::lemma_cut_carried(data, stream, start, end, start - front);
    assert forall|q: int| i <= q < pictures.len() implies reparse::slices_within(
        #[trigger] pictures[q],
        8 * start,
        8 * data.len() as int,
    ) by {
        reparse::lemma_slices_begin(data, i, q, start);
    }
}

/// A worker makes of a job what the stream makes of the frame: every picture of the job
/// decodes to the macroblocks that it decodes to in its stream, as long as its slices end
/// where the frame does.
pub proof fn law_a_job_decodes_to_its_frame(
    input: PlanInput,
    start: StateView,
    request: UnitRequest,
    k: int,
)
    requires
        well_ordered(input.data),
        headers::parsed(input.data) == Ok::<Seq<PictureView>, Error>(input.pictures),
        parsed_unit(input),
        ready(
            plan::beginning(input.description(), start, request),
            input.pictures.len() as int,
        ),
        0 <= k < plan::plan_of(input, start, request).jobs.len(),
        bounded(input.pictures, plan::plan_of(input, start, request).jobs[k].source),
        ({
            let i = plan::plan_of(input, start, request).jobs[k].source;
            let j = timeline::next_frame(input.pictures, i);
            forall|q: int|
                i <= q < j ==> stays_within(
                    input.data,
                    #[trigger] input.pictures[q],
                    8 * timeline::start_of(input.pictures, j),
                )
        }),
    ensures
        ({
            let job = plan::plan_of(input, start, request).jobs[k];
            let data = job.data.skip(JOB_HEADER_LEN as int);
            encoder::job_decoded(job.data) matches Ok(read) && {
                let stream = encoder::pictures_decoded(
                    input.data,
                    read.context,
                    input.pictures[job.source],
                    match job.mate {
                        Some(mate) => Some(input.pictures[mate]),
                        None => None,
                    },
                );
                &&& encoder::picture_decoded(data, read.picture) == encoder::picture_decoded(
                    input.data,
                    input.pictures[job.source],
                )
                &&& job.mate matches Some(mate) ==> read.mate is Some && encoder::picture_decoded(
                    data,
                    read.mate->Some_0,
                ) == encoder::picture_decoded(input.data, input.pictures[mate])
                &&& read.decoded == stream.decoded
                &&& read.stats == stream.stats
            }
        }),
{
    law_a_job_carries_its_frame(input, start, request, k);
    law_jobs_can_be_coded(input, start, request);
    plan::law_jobs_name_pictures(input, start, request);
    let job = plan::plan_of(input, start, request).jobs[k];
    assert(job_codable(input, job));
    reveal(job_codable);
    let i = job.source;
    let j = timeline::next_frame(input.pictures, i);
    let stream = plan::picture_stream(input.data, input.pictures, i);
    let context = job::job_context(job.data)->Some_0;
    job::law_context_survives(context, stream);
    assert(job.data.skip(JOB_HEADER_LEN as int) =~= stream);
    let read = encoder::job_decoded(job.data)->Ok_0;
    let first = timeline::start_of(input.pictures, i);
    let by = reparse::cut_by(input.pictures[i], first);
    let lo = 8 * first;
    let hi = 8 * timeline::start_of(input.pictures, j);
    lemma_frame_carried(input.data, i);
    let one = input.pictures[i];
    assert(one.wf());
    lemma_slices_alike(input.data, stream, lo, hi, by, one, read.picture, one.slices.len());
    if job.mate is Some {
        let mate = job.mate->Some_0;
        let other = input.pictures[mate];
        let second = read.mate->Some_0;
        assert(other.wf());
        lemma_slices_alike(input.data, stream, lo, hi, by, other, second, other.slices.len());
    }
}

} // verus!
