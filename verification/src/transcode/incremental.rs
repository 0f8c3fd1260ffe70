//! A stream converted unit by unit, its pictures handed out to be coded and taken back.
use crate::error::Error;
use crate::job::{PictureJob, PictureOutput, StateView, TranscoderState};
use crate::transcode::options;
use crate::transcode::options::{Stats, TranscodeOptions};
use crate::transcode::plan;
use crate::transcode::plan::{plan_unit, JobView, PlanView, UnitPlan, UnitRequest};
use vstd::prelude::*;

verus! {

#[derive(Clone, Debug)]
pub struct TranscodeResult {
    pub bitstream: Vec<u8>,
    pub pictures_converted: usize,
    pub pictures_skipped: usize,
    pub stats: Stats,
    /// Whether this result carries a non-IDR recovery picture.
    pub recovery_point: bool,
    /// Which of the unit's source pictures would not decode, indexed by
    /// picture. Empty when none of them were, which is the ordinary case.
    ///
    /// The MP4 timeline has to drop exactly these, and cannot find them for
    /// itself without decoding every slice a second time. This is the report
    /// that saves it the walk; see
    /// [`crate::container::fmp4::timeline::mpeg2_video_timeline`].
    pub undecodable: Vec<bool>,
}

/// A result as a mathematical value.
#[verifier::ext_equal]
pub struct ResultView {
    pub bitstream: Seq<u8>,
    pub pictures_converted: int,
    pub pictures_skipped: int,
    pub stats: Stats,
    pub recovery_point: bool,
    pub undecodable: Seq<bool>,
}

impl View for TranscodeResult {
    type V = ResultView;

    open spec fn view(&self) -> ResultView {
        ResultView {
            bitstream: self.bitstream@,
            pictures_converted: self.pictures_converted as int,
            pictures_skipped: self.pictures_skipped as int,
            stats: self.stats,
            recovery_point: self.recovery_point,
            undecodable: self.undecodable@,
        }
    }
}

/// A unit whose pictures are out being converted.
#[derive(Debug)]
pub struct InFlight {
    pub plan: UnitPlan,
    /// Which source pictures earlier rounds found damaged, which is what the
    /// plan above was drawn knowing.
    pub undecodable: Vec<bool>,
    /// What the plan was drawn under, kept so that drawing it again asks for
    /// the same thing.
    pub request: UnitRequest,
}

/// A unit in flight as a mathematical value.
#[verifier::ext_equal]
pub struct FlightView {
    pub plan: PlanView,
    pub undecodable: Seq<bool>,
    pub request: UnitRequest,
}

impl View for InFlight {
    type V = FlightView;

    open spec fn view(&self) -> FlightView {
        FlightView {
            plan: self.plan@,
            undecodable: self.undecodable@,
            request: self.request,
        }
    }
}

impl InFlight {
    /// The plan holds a place for each of its jobs and none besides, and the jobs name
    /// pictures that can be counted.
    pub open spec fn wf(self) -> bool {
        &&& self.plan.state.wf()
        &&& plan::places_below(self.plan@.parts, self.plan@.jobs.len() as int)
        &&& plan::sources_below(self.plan@.jobs, usize::MAX as int)
    }
}

/// What became of the pictures handed back to [`IncrementalTranscoder::complete`].
#[derive(Debug)]
pub enum Step {
    /// The unit is finished.
    Done(Box<TranscodeResult>),
    /// A picture would not decode, so the unit was planned again without it.
    /// Convert these and hand them back in turn; it takes at most one round,
    /// because by now every picture has been tried.
    Again(Vec<Vec<u8>>),
}

/// A step as a mathematical value.
#[verifier::ext_equal]
pub enum StepView {
    Done(ResultView),
    Again(Seq<Seq<u8>>),
}

/// Byte strings as mathematical values.
pub open spec fn byte_views(bytes: Seq<Vec<u8>>) -> Seq<Seq<u8>> {
    Seq::new(bytes.len(), |i: int| bytes[i]@)
}

impl View for Step {
    type V = StepView;

    open spec fn view(&self) -> StepView {
        match self {
            Step::Done(result) => StepView::Done(result@),
            Step::Again(jobs) => StepView::Again(byte_views(jobs@)),
        }
    }
}

pub struct IncrementalTranscoder {
    pub options: TranscodeOptions,
    pub state: TranscoderState,
    pub in_flight: Option<InFlight>,
    pub random_access_pending: bool,
    pub recovery_point_pending: bool,
    pub description_pending: bool,
    pub pictures_converted: usize,
    pub pictures_skipped: usize,
    pub stats: Stats,
}

/// A conversion as a mathematical value.
#[verifier::ext_equal]
pub struct ConversionView {
    pub options: TranscodeOptions,
    pub state: StateView,
    pub in_flight: Option<FlightView>,
    pub random_access_pending: bool,
    pub recovery_point_pending: bool,
    pub description_pending: bool,
    pub pictures_converted: int,
    pub pictures_skipped: int,
    pub stats: Stats,
}

impl View for IncrementalTranscoder {
    type V = ConversionView;

    open spec fn view(&self) -> ConversionView {
        ConversionView {
            options: self.options,
            state: self.state@,
            in_flight: match self.in_flight {
                Some(flight) => Some(flight@),
                None => None,
            },
            random_access_pending: self.random_access_pending,
            recovery_point_pending: self.recovery_point_pending,
            description_pending: self.description_pending,
            pictures_converted: self.pictures_converted as int,
            pictures_skipped: self.pictures_skipped as int,
            stats: self.stats,
        }
    }
}

/// The bytes of jobs.
pub open spec fn job_bytes(jobs: Seq<JobView>) -> Seq<Seq<u8>> {
    Seq::new(jobs.len(), |i: int| jobs[i].data)
}

/// A plan whose jobs are out.
pub open spec fn handed_out(plan: PlanView) -> PlanView {
    PlanView { jobs: plan::emptied(plan.jobs), ..plan }
}

/// `undecodable` with picture `index` named.
pub open spec fn marked(undecodable: Seq<bool>, index: int) -> Seq<bool> {
    let longer = if undecodable.len() <= index {
        undecodable + Seq::new((index + 1 - undecodable.len()) as nat, |i: int| false)
    } else {
        undecodable
    };
    longer.update(index, true)
}

/// `undecodable` with the pictures of a job named.
pub open spec fn job_marked(undecodable: Seq<bool>, job: JobView) -> Seq<bool> {
    match job.mate {
        Some(mate) => marked(marked(undecodable, job.source), mate),
        None => marked(undecodable, job.source),
    }
}

/// `undecodable` with the pictures named that the first `count` outputs could not
/// decode.
pub open spec fn damage_named(
    undecodable: Seq<bool>,
    jobs: Seq<JobView>,
    outputs: Seq<PictureOutput>,
    count: nat,
) -> Seq<bool>
    decreases count,
{
    if count == 0 {
        undecodable
    } else {
        let before = damage_named(undecodable, jobs, outputs, (count - 1) as nat);
        if outputs[count - 1].decoded {
            before
        } else {
            job_marked(before, jobs[count - 1])
        }
    }
}

/// How many errors the outputs that could not be decoded report, of the first `count`.
pub open spec fn damage_errors(outputs: Seq<PictureOutput>, count: nat) -> int
    decreases count,
{
    if count == 0 {
        0
    } else {
        damage_errors(outputs, (count - 1) as nat) + if outputs[count - 1].decoded {
            0
        } else {
            outputs[count - 1].stats.errors as int
        }
    }
}

/// Whether every picture was decoded.
pub open spec fn undamaged(outputs: Seq<PictureOutput>) -> bool {
    forall|i: int| 0 <= i < outputs.len() ==> (#[trigger] outputs[i]).decoded
}

/// `stats` with the counts of the first `count` outputs.
pub open spec fn total_counts(stats: Stats, outputs: Seq<PictureOutput>, count: nat) -> Stats
    decreases count,
{
    if count == 0 {
        stats
    } else {
        total_counts(stats, outputs, (count - 1) as nat).plus(outputs[count - 1].stats)
    }
}

impl ConversionView {
    /// What the next unit is asked for.
    pub open spec fn request(self) -> UnitRequest {
        UnitRequest {
            random_access: self.state.initialized && self.random_access_pending,
            recovery_point: self.state.initialized && self.recovery_point_pending,
            description: self.description_pending,
        }
    }

    /// The conversion with a unit planned, and its jobs; or why there is no plan.
    pub open spec fn begun(self, data: Seq<u8>) -> Result<(ConversionView, Seq<Seq<u8>>), Error> {
        match plan::planned(data, self.state, self.options, self.request(), seq![]) {
            Err(e) => Err(e),
            Ok(plan) => Ok(
                (
                    ConversionView {
                        in_flight: Some(
                            FlightView {
                                plan: handed_out(plan),
                                undecodable: seq![],
                                request: self.request(),
                            },
                        ),
                        ..self
                    },
                    job_bytes(plan.jobs),
                ),
            ),
        }
    }

    /// The conversion without a unit in flight.
    pub open spec fn landed(self) -> ConversionView {
        ConversionView { in_flight: None, ..self }
    }

    /// The conversion with the errors of damaged pictures counted. The damage is the
    /// conversion's to report whether or not the picture is coded on the next attempt.
    pub open spec fn with_damage(self, outputs: Seq<PictureOutput>) -> ConversionView {
        ConversionView {
            stats: Stats {
                errors: (self.stats.errors + damage_errors(outputs, outputs.len())) as u64,
                ..self.stats
            },
            ..self
        }
    }

    /// What taking back damaged pictures comes to: the unit is planned again without
    /// them.
    pub open spec fn replanned(
        self,
        data: Seq<u8>,
        flight: FlightView,
        outputs: Seq<PictureOutput>,
    ) -> (ConversionView, Result<StepView, Error>) {
        let counted = self.landed().with_damage(outputs);
        let undecodable = damage_named(
            flight.undecodable,
            flight.plan.jobs,
            outputs,
            outputs.len(),
        );
        match plan::planned(data, self.state, self.options, flight.request, undecodable) {
            Err(e) => (counted, Err(e)),
            Ok(plan) => (
                ConversionView {
                    in_flight: Some(
                        FlightView {
                            plan: handed_out(plan),
                            undecodable,
                            request: flight.request,
                        },
                    ),
                    ..counted
                },
                Ok(StepView::Again(job_bytes(plan.jobs))),
            ),
        }
    }

    /// What taking back a whole unit comes to.
    pub open spec fn finished(self, flight: FlightView, outputs: Seq<PictureOutput>) -> (
        ConversionView,
        Result<StepView, Error>,
    ) {
        let after = ConversionView {
            options: self.options,
            state: flight.plan.state,
            in_flight: None,
            random_access_pending: false,
            recovery_point_pending: flight.request.recovery_point && !flight.plan.recovery_emitted,
            // A unit that coded no picture carries no parameter sets either, so a
            // description asked for and not sent is still owed.
            description_pending: flight.request.description && !flight.plan.described,
            pictures_converted: self.pictures_converted + flight.plan.pictures_converted,
            pictures_skipped: self.pictures_skipped + flight.plan.pictures_skipped,
            stats: total_counts(self.stats, outputs, outputs.len()),
        };
        (
            after,
            Ok(
                StepView::Done(
                    ResultView {
                        bitstream: plan::assembled(flight.plan.parts, plan::bitstreams(outputs)),
                        pictures_converted: after.pictures_converted,
                        pictures_skipped: after.pictures_skipped,
                        stats: after.stats,
                        recovery_point: flight.plan.recovery_emitted,
                        undecodable: flight.undecodable,
                    },
                ),
            ),
        )
    }

    /// What taking pictures back comes to.
    pub open spec fn completed(self, data: Seq<u8>, outputs: Seq<PictureOutput>) -> (
        ConversionView,
        Result<StepView, Error>,
    ) {
        match self.in_flight {
            None => (self, Err(Error::NoUnit)),
            Some(flight) => if outputs.len() != flight.plan.jobs.len() {
                (
                    self.landed(),
                    Err(
                        Error::OutputCount {
                            given: outputs.len() as usize,
                            planned: flight.plan.jobs.len() as usize,
                        },
                    ),
                )
            } else if undamaged(outputs) {
                self.finished(flight, outputs)
            } else {
                self.replanned(data, flight, outputs)
            },
        }
    }
}

/// The counts of the outputs can be added to `stats`, one behind the other.
pub open spec fn countable(stats: Stats, outputs: Seq<PictureOutput>) -> bool {
    &&& stats.errors + damage_errors(outputs, outputs.len()) <= u64::MAX
    &&& forall|k: nat|
        k < outputs.len() ==> (#[trigger] total_counts(stats, outputs, k)).addable(
            outputs[k as int].stats,
        )
}

/// Fewer outputs report no more errors.
proof fn lemma_fewer_errors(outputs: Seq<PictureOutput>, a: nat, b: nat)
    requires
        a <= b <= outputs.len(),
    ensures
        0 <= damage_errors(outputs, a) <= damage_errors(outputs, b),
    decreases b,
{
    if a < b {
        lemma_fewer_errors(outputs, a, (b - 1) as nat);
    } else if b > 0 {
        lemma_fewer_errors(outputs, (a - 1) as nat, (b - 1) as nat);
    }
}

/// Name picture `index`.
fn mark(undecodable: &mut Vec<bool>, index: usize)
    requires
        index < usize::MAX,
    ensures
        final(undecodable)@ == marked(old(undecodable)@, index as int),
{
    let ghost before = undecodable@;
    while undecodable.len() <= index
        invariant
            index < usize::MAX,
            undecodable@.len() >= before.len(),
            undecodable@.len() <= before.len() || undecodable@.len() <= index + 1,
            undecodable@ =~= before + Seq::new(
                (undecodable@.len() - before.len()) as nat,
                |i: int| false,
            ),
        decreases index + 1 - undecodable@.len(),
    {
        undecodable.push(false);
    }
    undecodable[index] = true;
    assert(undecodable@ =~= marked(before, index as int));
}

/// Name the pictures that could not be decoded.
fn name_damage(undecodable: &mut Vec<bool>, jobs: &Vec<PictureJob>, outputs: &[PictureOutput])
    requires
        jobs@.len() == outputs@.len(),
        plan::sources_below(plan::job_views(jobs@), usize::MAX as int),
    ensures
        final(undecodable)@ == damage_named(
            old(undecodable)@,
            plan::job_views(jobs@),
            outputs@,
            outputs@.len(),
        ),
{
    let ghost views = plan::job_views(jobs@);
    let mut i: usize = 0;
    while i < outputs.len()
        invariant
            views == plan::job_views(jobs@),
            jobs@.len() == outputs@.len(),
            plan::sources_below(views, usize::MAX as int),
            i <= outputs@.len(),
            undecodable@ == damage_named(old(undecodable)@, views, outputs@, i as nat),
        decreases outputs@.len() - i,
    {
        assert(views[i as int] == plan::job_view(jobs@[i as int]));
        if !outputs[i].decoded {
            mark(undecodable, jobs[i].source);
            if let Some(mate) = jobs[i].mate {
                mark(undecodable, mate);
            }
        }
        i = i + 1;
    }
}

/// How many errors the outputs that could not be decoded report on top of `errors`.
fn count_damage(errors: u64, outputs: &[PictureOutput]) -> (total: u64)
    requires
        errors + damage_errors(outputs@, outputs@.len()) <= u64::MAX,
    ensures
        total == errors + damage_errors(outputs@, outputs@.len()),
{
    let mut total: u64 = errors;
    let mut i: usize = 0;
    while i < outputs.len()
        invariant
            errors + damage_errors(outputs@, outputs@.len()) <= u64::MAX,
            i <= outputs@.len(),
            total == errors + damage_errors(outputs@, i as nat),
        decreases outputs@.len() - i,
    {
        proof {
            lemma_fewer_errors(outputs@, (i + 1) as nat, outputs@.len());
        }
        if !outputs[i].decoded {
            total = total + outputs[i].stats.errors;
        }
        i = i + 1;
    }
    total
}

/// Whether every picture was decoded.
fn all_decoded(outputs: &[PictureOutput]) -> (yes: bool)
    ensures
        yes == undamaged(outputs@),
{
    let mut i: usize = 0;
    while i < outputs.len()
        invariant
            i <= outputs@.len(),
            forall|k: int| 0 <= k < i ==> (#[trigger] outputs@[k]).decoded,
        decreases outputs@.len() - i,
    {
        if !outputs[i].decoded {
            return false;
        }
        i = i + 1;
    }
    true
}

impl IncrementalTranscoder {
    /// The state is one that a conversion arrives at, and so is the unit in flight.
    pub open spec fn wf(self) -> bool {
        &&& self.state.wf()
        &&& self.in_flight is Some ==> self.in_flight->Some_0.wf()
    }

    pub fn new(options: TranscodeOptions) -> (conversion: Self)
        ensures
            conversion.wf(),
            conversion@ == (ConversionView {
                options,
                state: crate::job::opening(false, conversion@.state.description),
                in_flight: None,
                random_access_pending: false,
                recovery_point_pending: false,
                description_pending: false,
                pictures_converted: 0,
                pictures_skipped: 0,
                stats: options::no_counts(),
            }),
    {
        IncrementalTranscoder {
            options,
            state: TranscoderState::new(),
            in_flight: None,
            random_access_pending: false,
            recovery_point_pending: false,
            description_pending: false,
            pictures_converted: 0,
            pictures_skipped: 0,
            stats: Stats::default(),
        }
    }

    /// Whether complementary fields are being delimited into their own access
    /// units. The MP4 timeline has to reserve a sample per access unit, so it
    /// needs to know what this conversion is emitting.
    pub fn split_field_samples(&self) -> (split: bool)
        ensures
            split == self@.options.split_field_samples,
    {
        self.options.split_field_samples
    }

    /// Restart the H.264 DPB from an IDR at the next incremental unit.
    pub fn request_random_access_point(&mut self)
        requires
            old(self).wf(),
        ensures
            final(self).wf(),
            final(self)@ == (if old(self)@.state.initialized {
                ConversionView {
                    random_access_pending: true,
                    state: StateView { awaiting_idr: true, ..old(self)@.state },
                    ..old(self)@
                }
            } else {
                old(self)@
            }),
    {
        if self.state.initialized {
            self.random_access_pending = true;
            self.state.awaiting_idr = true;
        }
    }

    /// Make the next intra picture independently decodable without flushing
    /// references used by an open GOP's leading B pictures.
    pub fn request_recovery_point(&mut self)
        requires
            old(self).wf(),
        ensures
            final(self).wf(),
            final(self)@ == (ConversionView {
                recovery_point_pending: old(self)@.state.initialized
                    || old(self)@.recovery_point_pending,
                ..old(self)@
            }),
    {
        if self.state.initialized {
            self.recovery_point_pending = true;
        }
    }

    /// Put the parameter sets in front of the next unit again, so that the
    /// fragment it becomes can be given an initialization segment.
    ///
    /// The sequence they describe need not have changed: the segment describes
    /// the sound as well, and a stream that switches between 5.1 and stereo
    /// needs a new one with the same picture in it.
    pub fn request_description(&mut self)
        requires
            old(self).wf(),
        ensures
            final(self).wf(),
            final(self)@ == (ConversionView { description_pending: true, ..old(self)@ }),
    {
        self.description_pending = true;
    }

    /// Whether the next picture coded has to be one that opens the decoded
    /// picture buffer. The MP4 timeline has to reach the same verdict on the
    /// same pictures, so it asks.
    pub fn awaiting_random_access(&self) -> (awaiting: bool)
        ensures
            awaiting == self@.state.awaiting_idr,
    {
        self.state.awaiting_idr
    }

    pub fn errors(&self) -> (errors: u64)
        ensures
            errors == self@.stats.errors,
    {
        self.stats.errors
    }

    /// Plan one unit and hand out its pictures to be converted.
    ///
    /// Each is a self-contained buffer that can be turned into an access unit
    /// wherever it happens to run. Hand the results back to [`Self::complete`] in
    /// the order they were given out. Nothing about the conversion moves until
    /// then, so a unit that is begun and abandoned costs only what it took to plan.
    pub fn begin(&mut self, data: &[u8]) -> (result: Result<Vec<Vec<u8>>, Error>)
        requires
            old(self).wf(),
            8 * data@.len() <= usize::MAX,
            plan::plannable(data@, old(self)@.state, old(self)@.request()),
        ensures
            final(self).wf(),
            match result {
                Ok(jobs) => old(self)@.begun(data@) == Ok::<
                    (ConversionView, Seq<Seq<u8>>),
                    Error,
                >((final(self)@, byte_views(jobs@))),
                Err(e) => old(self)@.begun(data@) == Err::<(ConversionView, Seq<Seq<u8>>), Error>(
                    e,
                ) && final(self)@ == old(self)@,
            },
    {
        let request = UnitRequest {
            random_access: self.state.initialized && self.random_access_pending,
            recovery_point: self.state.initialized && self.recovery_point_pending,
            description: self.description_pending,
        };
        let undecodable: Vec<bool> = Vec::new();
        assert(undecodable@ =~= seq![]);
        let (flight, jobs) = match launch(
            data,
            &self.state,
            self.options,
            request,
            undecodable,
        ) {
            Ok(launched) => launched,
            Err(e) => return Err(e),
        };
        self.in_flight = Some(flight);
        proof {
            let (after, handed) = old(self)@.begun(data@)->Ok_0;
            assert(self@ =~= after);
        }
        Ok(jobs)
    }

    /// Take the converted pictures back, in the order [`Self::begin`] gave
    /// their jobs out. `data` is the same unit that was begun.
    pub fn complete(&mut self, data: &[u8], outputs: &[PictureOutput]) -> (result: Result<
        Step,
        Error,
    >)
        requires
            old(self).wf(),
            8 * data@.len() <= usize::MAX,
            old(self)@.in_flight is Some ==> ({
                let flight = old(self)@.in_flight->Some_0;
                &&& plan::plannable(data@, old(self)@.state, flight.request)
                &&& countable(old(self)@.stats, outputs@)
                &&& old(self)@.pictures_converted + flight.plan.pictures_converted <= usize::MAX
                &&& old(self)@.pictures_skipped + flight.plan.pictures_skipped <= usize::MAX
            }),
        ensures
            final(self).wf(),
            final(self)@ == old(self)@.completed(data@, outputs@).0,
            match result {
                Ok(step) => old(self)@.completed(data@, outputs@).1 == Ok::<StepView, Error>(step@),
                Err(e) => old(self)@.completed(data@, outputs@).1 == Err::<StepView, Error>(e),
            },
    {
        let ghost before = self@;
        let mut taken: Option<InFlight> = None;
        core::mem::swap(&mut taken, &mut self.in_flight);
        let mut flight = match taken {
            Some(flight) => flight,
            None => {
                assert(self@ =~= before);
                return Err(Error::NoUnit);
            },
        };
        assert(self@ =~= before.landed());
        let ghost flown = flight@;
        if outputs.len() != flight.plan.jobs.len() {
            return Err(
                Error::OutputCount { given: outputs.len(), planned: flight.plan.jobs.len() },
            );
        }
        if !all_decoded(outputs) {
            self.stats.errors = count_damage(self.stats.errors, outputs);
            name_damage(&mut flight.undecodable, &flight.plan.jobs, outputs);
            let ghost counted = before.landed().with_damage(outputs@);
            assert(self@ =~= counted);
            // Every picture was tried, so the whole of what the plan got wrong
            // is now known and the next attempt is the last.
            let (again, jobs) = match launch(
                data,
                &self.state,
                self.options,
                flight.request,
                flight.undecodable,
            ) {
                Ok(launched) => launched,
                Err(e) => return Err(e),
            };
            self.in_flight = Some(again);
            let ghost outcome = before.replanned(data@, flown, outputs@);
            assert(self@ =~= outcome.0);
            return Ok(Step::Again(jobs));
        }
        let bitstream = flight.plan.assemble(outputs);
        let mut i: usize = 0;
        let ghost stats = self.stats;
        while i < outputs.len()
            invariant
                countable(stats, outputs@),
                i <= outputs@.len(),
                self.stats == total_counts(stats, outputs@, i as nat),
                self.state == old(self).state,
                self.options == before.options,
                self.in_flight is None,
                self.pictures_converted == before.pictures_converted,
                self.pictures_skipped == before.pictures_skipped,
            decreases outputs@.len() - i,
        {
            self.stats.add(&outputs[i].stats);
            i = i + 1;
        }
        self.state = flight.plan.state;
        self.random_access_pending = false;
        self.recovery_point_pending = flight.request.recovery_point
            && !flight.plan.recovery_emitted;
        self.description_pending = flight.request.description && !flight.plan.described;
        self.pictures_converted = self.pictures_converted + flight.plan.pictures_converted;
        self.pictures_skipped = self.pictures_skipped + flight.plan.pictures_skipped;
        let result = TranscodeResult {
            bitstream,
            pictures_converted: self.pictures_converted,
            pictures_skipped: self.pictures_skipped,
            stats: self.stats,
            recovery_point: flight.plan.recovery_emitted,
            undecodable: flight.undecodable,
        };
        let ghost outcome = before.finished(flown, outputs@);
        assert(self@ =~= outcome.0);
        assert(StepView::Done(result@) =~= outcome.1->Ok_0);
        Ok(Step::Done(Box::new(result)))
    }
}

/// Plan a unit and take its jobs out.
fn launch(
    data: &[u8],
    state: &TranscoderState,
    options: TranscodeOptions,
    request: UnitRequest,
    undecodable: Vec<bool>,
) -> (result: Result<(InFlight, Vec<Vec<u8>>), Error>)
    requires
        8 * data@.len() <= usize::MAX,
        state.wf(),
        plan::plannable(data@, state@, request),
    ensures
        match result {
            Ok((flight, jobs)) => flight.wf() && ({
                let planned = plan::planned(data@, state@, options, request, undecodable@);
                &&& planned is Ok
                &&& flight@ == (FlightView {
                    plan: handed_out(planned->Ok_0),
                    undecodable: undecodable@,
                    request,
                })
                &&& byte_views(jobs@) == job_bytes(planned->Ok_0.jobs)
            }),
            Err(e) => plan::planned(data@, state@, options, request, undecodable@) == Err::<
                PlanView,
                Error,
            >(e),
        },
{
    let mut plan = match plan_unit(data, state, options, request, &undecodable) {
        Ok(plan) => plan,
        Err(e) => return Err(e),
    };
    let ghost planned = plan@;
    proof {
        plan::lemma_planned_in_place(data@, state@, options, request, undecodable@);
    }
    let jobs = plan.take_jobs();
    assert(byte_views(jobs@) =~= job_bytes(planned.jobs));
    let flight = InFlight { plan, undecodable, request };
    assert(flight@ =~= FlightView {
        plan: handed_out(planned),
        undecodable: undecodable@,
        request,
    });
    Ok((flight, jobs))
}


/// A unit that is begun and abandoned leaves nothing behind: whatever is begun next
/// comes out as if it had never been.
pub proof fn law_abandoned_units_leave_nothing(
    conversion: ConversionView,
    abandoned: Seq<u8>,
    data: Seq<u8>,
)
    requires
        conversion.begun(abandoned) is Ok,
    ensures
        conversion.begun(abandoned)->Ok_0.0.begun(data) == conversion.begun(data),
{
    let left = conversion.begun(abandoned)->Ok_0.0;
    if conversion.begun(data) is Ok {
        assert(left.begun(data)->Ok_0.0 =~= conversion.begun(data)->Ok_0.0);
    }
}

/// What was asked for and not sent is still owed, and what was sent is not: a
/// description until a unit that codes a picture has carried it, a recovery point until
/// a unit has made one.
pub proof fn law_requests_are_kept_until_served(
    conversion: ConversionView,
    data: Seq<u8>,
    outputs: Seq<PictureOutput>,
)
    requires
        conversion.in_flight is Some,
        undamaged(outputs),
        outputs.len() == conversion.in_flight->Some_0.plan.jobs.len(),
    ensures
        ({
            let flight = conversion.in_flight->Some_0;
            let after = conversion.completed(data, outputs).0;
            &&& !after.random_access_pending
            &&& after.request().description == (flight.request.description
                && !flight.plan.described)
            &&& after.recovery_point_pending == (flight.request.recovery_point
                && !flight.plan.recovery_emitted)
        }),
{
}

} // verus!
