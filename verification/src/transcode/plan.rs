//! What a unit becomes, worked out from its headers alone.
use crate::container::fmp4::boxes::Buf;
use crate::container::fmp4::timeline;
use crate::container::fmp4::timeline::{complementary_field, picture_end};
use crate::error::Error;
use crate::h264::bitwriter;
use crate::h264::bitwriter::nal_type;
use crate::h264::nal;
use crate::h264::params;
use crate::h264::params::{
    frame_geometry, write_pps, write_sps, FrameGeometry, PpsConfig, SpsConfig,
};
use crate::job;
use crate::job::{
    ContextView, PictureContext, PictureJob, PictureOutput, RefLayout, ShortTermFrames, StateView,
    TranscoderState,
};
use crate::mpeg2::constants::{PictureStructure, PictureType};
use crate::mpeg2::headers;
use crate::mpeg2::headers::{
    parse_elementary_stream, picture_sequence_description, Picture, PictureView,
    SequenceDescription,
};
use crate::transcode::options::{OpenGopRecovery, TranscodeOptions};
use crate::transcode::predict::NO_REFERENCE;
use crate::transcode::syntax;
use crate::transcode::syntax::{
    write_access_unit_delimiter, write_recovery_point_sei, write_reference_clone, CHROMA_QP_OFFSET,
    LOG2_MAX_FRAME_NUM_MINUS4, LOG2_MAX_POC_LSB_MINUS4, MAX_FRAME_NUM, MAX_NUM_REF_FRAMES,
    POC_PER_FRAME, PPS_INIT_QP,
};
use vstd::prelude::*;
use vstd::slice::slice_subrange;

verus! {

/// One piece of a unit's assembled bitstream.
///
/// The plan knows the order everything goes in before any of it is coded, which
/// is what lets the pictures be coded anywhere and in any order: the assembly
/// only has to drop each result into the slot held for it.
#[derive(Debug)]
pub enum Part {
    /// Bytes the plan already has: parameter sets, delimiters, the recovery
    /// point message, the copy that follows an IDR.
    Literal(Vec<u8>),
    /// Whatever the job at this index turns into.
    Picture(usize),
}

/// A part as a mathematical value.
#[verifier::ext_equal]
pub enum PartView {
    Literal(Seq<u8>),
    Picture(int),
}

impl View for Part {
    type V = PartView;

    open spec fn view(&self) -> PartView {
        match self {
            Part::Literal(bytes) => PartView::Literal(bytes@),
            Part::Picture(index) => PartView::Picture(*index as int),
        }
    }
}

/// The parts as mathematical values.
pub open spec fn part_views(parts: Seq<Part>) -> Seq<PartView> {
    Seq::new(parts.len(), |i: int| parts[i]@)
}

/// A job as a mathematical value.
#[verifier::ext_equal]
pub struct JobView {
    pub index: int,
    pub source: int,
    pub mate: Option<int>,
    pub data: Seq<u8>,
}

/// A job as a mathematical value.
pub open spec fn job_view(job: PictureJob) -> JobView {
    JobView {
        index: job.index as int,
        source: job.source as int,
        mate: match job.mate {
            Some(mate) => Some(mate as int),
            None => None,
        },
        data: job.data@,
    }
}

/// The jobs as mathematical values.
pub open spec fn job_views(jobs: Seq<PictureJob>) -> Seq<JobView> {
    Seq::new(jobs.len(), |i: int| job_view(jobs[i]))
}

/// What a caller wants of one unit, beyond the conversion itself.
#[derive(Clone, Copy, PartialEq, Eq, Debug, Structural)]
pub struct UnitRequest {
    /// Restart the decoded picture buffer here, at an IDR.
    pub random_access: bool,
    /// Make the unit's first intra picture a recovery point, without flushing
    /// the references an open group's leading pictures need.
    pub recovery_point: bool,
    /// Put the parameter sets in front of the unit again even though nothing
    /// they say has changed. The MP4 initialization segment is built from them,
    /// so this is what a caller that has to send another one asks for -- when
    /// the sound has changed its configuration, say, and the video's own
    /// description is as it was.
    pub description: bool,
}

impl Default for UnitRequest {
    fn default() -> (request: Self)
        ensures
            request == (UnitRequest {
                random_access: false,
                recovery_point: false,
                description: false,
            }),
    {
        UnitRequest { random_access: false, recovery_point: false, description: false }
    }
}

/// What one unit becomes, worked out from its headers alone.
///
/// Nothing here has decoded a slice. The plan assumes every picture it keeps
/// will decode, because finding out costs as much as the conversion itself and
/// would leave that cost on whichever thread walks the stream. A picture that
/// turns out not to decode is answered by planning the unit again, this time
/// told which ones to leave out.
#[derive(Debug)]
pub struct UnitPlan {
    pub parts: Vec<Part>,
    /// One per picture the unit codes, in output order.
    pub jobs: Vec<PictureJob>,
    /// What a conversion carries away from this unit, if the plan holds.
    pub state: TranscoderState,
    pub pictures_converted: usize,
    pub pictures_skipped: usize,
    pub recovery_emitted: bool,
    /// Whether the parameter sets went in front of this unit, which is what
    /// gives the fragment it becomes an initialization segment.
    pub described: bool,
}

/// A plan as a mathematical value.
#[verifier::ext_equal]
pub struct PlanView {
    pub parts: Seq<PartView>,
    pub jobs: Seq<JobView>,
    pub state: StateView,
    pub pictures_converted: int,
    pub pictures_skipped: int,
    pub recovery_emitted: bool,
    pub described: bool,
}

impl View for UnitPlan {
    type V = PlanView;

    open spec fn view(&self) -> PlanView {
        PlanView {
            parts: part_views(self.parts@),
            jobs: job_views(self.jobs@),
            state: self.state@,
            pictures_converted: self.pictures_converted as int,
            pictures_skipped: self.pictures_skipped as int,
            recovery_emitted: self.recovery_emitted,
            described: self.described,
        }
    }
}

/// What a unit is planned from.
pub struct PlanInput {
    pub data: Seq<u8>,
    pub pictures: Seq<PictureView>,
    pub options: TranscodeOptions,
    pub recovery_point: bool,
    pub undecodable: Seq<bool>,
}

/// What a plan has come to part way through a unit.
#[verifier::ext_equal]
pub struct PlanWork {
    pub parts: Seq<PartView>,
    pub jobs: Seq<JobView>,
    pub state: StateView,
    pub converted: int,
    pub skipped: int,
    pub recovery_emitted: bool,
    /// The recovery picture that is still to be repeated as an IDR.
    pub pending: Option<int>,
}

/// Whether there is a field pair among the pictures from `i` on.
pub open spec fn pairs_from(pictures: Seq<PictureView>, i: int) -> bool
    decreases pictures.len() - i,
{
    if i < 0 || i >= pictures.len() {
        false
    } else {
        timeline::paired(pictures, i) || pairs_from(pictures, timeline::next_frame(pictures, i))
    }
}

/// The other field of the frame that picture `i` begins.
pub open spec fn mate_of(pictures: Seq<PictureView>, i: int) -> Option<int> {
    if timeline::paired(pictures, i) {
        Some(i + 1)
    } else {
        None
    }
}

/// An elementary stream that the frame at picture `i` can be parsed out of on its own:
/// its own bytes, with the headers that describe it in front unless they are already
/// among them.
pub open spec fn picture_stream(data: Seq<u8>, pictures: Seq<PictureView>, i: int) -> Seq<u8> {
    let start = timeline::start_of(pictures, i);
    let end = timeline::start_of(pictures, timeline::next_frame(pictures, i));
    let prefix = if start <= pictures[i].context_start {
        Seq::<u8>::empty()
    } else {
        data.subrange(pictures[i].context_start, pictures[i].context_end)
    };
    prefix + data.subrange(start, end)
}

/// The layout of a picture that predicts from nothing.
pub open spec fn opening_layout() -> RefLayout {
    RefLayout {
        count: 1,
        fwd_l0: 0,
        fwd_l1: 0,
        bwd_l0: NO_REFERENCE,
        bwd_l1: NO_REFERENCE,
        flat: 0,
        l1_short_term_delta: None,
        anchor_second_field: false,
    }
}

/// Where the references of a picture stand when the decoder holds the frames of
/// `state`.
pub open spec fn picture_layout(kind: PictureType, state: StateView, frame_num: u32) -> RefLayout {
    let held = state.short_term_count;
    if kind is B {
        // A B picture sits between its two references, so list 0 defaults to
        // [forward, backward, long-term] and list 1 to [backward, forward,
        // long-term].
        RefLayout {
            count: (held + 1) as u32,
            fwd_l0: 0,
            fwd_l1: 1,
            bwd_l0: (held - 1) as i32,
            bwd_l1: 0,
            flat: held as i32,
            l1_short_term_delta: None,
            anchor_second_field: false,
        }
    } else {
        // Long-term entries follow every short-term one in both default lists.
        RefLayout {
            count: (held + 1) as u32,
            fwd_l0: 0,
            fwd_l1: 0,
            bwd_l0: NO_REFERENCE,
            bwd_l1: NO_REFERENCE,
            flat: held as i32,
            l1_short_term_delta: if held > 0 {
                Some(
                    ((frame_num + MAX_FRAME_NUM - state.newest_short_term)
                        % MAX_FRAME_NUM as int) as u32,
                )
            } else {
                None
            },
            anchor_second_field: false,
        }
    }
}

/// The state behind an IDR and the copy that follows it: the IDR emptied the buffer and
/// took the long-term slot, so the copy is all the short-term chain has.
pub open spec fn behind_idr(state: StateView) -> StateView {
    StateView {
        prev_ref_frame_num: 1,
        short_term_count: 1,
        newest_short_term: 1,
        short_term: seq![1u32],
        ..state
    }
}

/// The state behind a reference picture.
pub open spec fn behind_reference(state: StateView, frame_num: u32) -> StateView {
    StateView {
        prev_ref_frame_num: frame_num,
        short_term_count: if state.short_term_count + 1 < 3 {
            (state.short_term_count + 1) as u32
        } else {
            3
        },
        newest_short_term: frame_num,
        short_term: job::pushed_frame(state.short_term, frame_num),
        ..state
    }
}

/// The state behind a picture that was coded in a context.
pub open spec fn state_behind(state: StateView, context: ContextView) -> StateView {
    let started = StateView { awaiting_idr: false, ..state };
    if context.real_idr {
        behind_idr(started)
    } else if context.is_reference {
        behind_reference(started, context.frame_num)
    } else {
        started
    }
}

/// The state with the display slot of a picture taken in.
pub open spec fn group_step(state: StateView, picture: PictureView) -> StateView {
    let tr = picture.header.temporal_reference;
    let new_group = picture.starts_gop && state.seen_picture;
    StateView {
        gop_base: if new_group {
            state.gop_base + state.max_tr_in_gop + 1
        } else {
            state.gop_base
        },
        max_tr_in_gop: if new_group || tr > state.max_tr_in_gop {
            tr
        } else {
            state.max_tr_in_gop
        },
        seen_picture: true,
        ..state
    }
}

impl PlanInput {
    /// What the unit is coded under: the description that it opens with.
    pub open spec fn description(self) -> SequenceDescription {
        headers::picture_description(self.pictures[0])
    }

    /// The geometry of the unit's frames.
    pub open spec fn geometry(self) -> FrameGeometry {
        let d = self.description();
        params::geometry(d.width, d.height, !d.mbaff)
    }

    /// The scaling list that every picture of the unit is quantised against.
    pub open spec fn scaling(self) -> Seq<i32> {
        self.pictures[0].quant.non_intra
    }

    /// The parts with a delimiter behind them, in a unit with field pairs.
    pub open spec fn delimited(self, parts: Seq<PartView>) -> Seq<PartView> {
        if pairs_from(self.pictures, 0) {
            parts.push(PartView::Literal(syntax::delimiter_unit()))
        } else {
            parts
        }
    }

    /// The job that codes the frame at picture `i` in a context.
    pub open spec fn job(self, index: int, i: int, context: ContextView) -> JobView {
        JobView {
            index,
            source: i,
            mate: mate_of(self.pictures, i),
            data: job::header_bytes(context) + picture_stream(self.data, self.pictures, i),
        }
    }

    /// How many coded pictures the frame at picture `i` has.
    pub open spec fn picture_count(self, i: int) -> u32 {
        if timeline::paired(self.pictures, i) {
            2
        } else {
            1
        }
    }

    /// What a recovery picture is repeated as an IDR in.
    pub open spec fn copy_context(self, i: int) -> ContextView {
        ContextView {
            frame_num: 0,
            poc: 0,
            is_reference: true,
            layout: opening_layout(),
            short_term: seq![],
            options: self.options,
            mbaff: self.description().mbaff,
            real_idr: true,
            recovery_intra: false,
            weight_scale: self.scaling(),
            picture_count: self.picture_count(i),
        }
    }

    /// The parts with an IDR's copy behind them.
    pub open spec fn with_clone(self, parts: Seq<PartView>, i: int) -> Seq<PartView> {
        self.delimited(parts).push(
            PartView::Literal(
                syntax::clone_unit(
                    self.geometry(),
                    self.description().mbaff,
                    timeline::paired(self.pictures, i),
                ),
            ),
        )
    }

    /// The work with the recovery picture at `i` repeated as an IDR, which starts a new
    /// epoch of picture order counts.
    #[verifier::opaque]
    pub open spec fn repeated(self, work: PlanWork, i: int) -> PlanWork {
        let index = work.jobs.len() as int;
        let opened = self.delimited(work.parts).push(
            PartView::Literal(syntax::recovery_unit()),
        ).push(PartView::Picture(index));
        PlanWork {
            parts: self.with_clone(opened, i),
            jobs: work.jobs.push(self.job(index, i, self.copy_context(i))),
            state: StateView { gop_base: 0, ..behind_idr(work.state) },
            pending: None,
            ..work
        }
    }

    /// Whether picture `i` leads the recovery picture `anchor`: it is coded behind it
    /// and shown before it.
    pub open spec fn leads(self, i: int, anchor: int) -> bool {
        self.pictures[i].header.picture_coding_type is B
            && self.pictures[i].header.temporal_reference
            < self.pictures[anchor].header.temporal_reference
    }

    /// The work when the plan comes to picture `i`: a recovery picture is repeated once
    /// the pictures that lead it are through.
    pub open spec fn arrived(self, work: PlanWork, i: int) -> PlanWork {
        match work.pending {
            Some(anchor) => if self.leads(i, anchor) {
                work
            } else {
                self.repeated(work, anchor)
            },
            None => work,
        }
    }

    /// Whether an earlier attempt found picture `i` damaged.
    pub open spec fn damaged(self, i: int) -> bool {
        i < self.undecodable.len() && self.undecodable[i]
    }

    /// Whether the frame at picture `i` is coded, when the plan has come to it in a
    /// state.
    pub open spec fn codes(self, i: int, state: StateView) -> bool {
        let picture = self.pictures[i];
        let kind = picture.header.picture_coding_type;
        // A lone field is no frame.
        &&& picture.coding.picture_structure == PictureStructure::Frame || timeline::paired(
            self.pictures,
            i,
        )
        // A unit is coded under the description it opens with.
        &&& headers::picture_description(picture) == self.description()
        // A B picture needs both of its references present.
        &&& !(kind is B && state.short_term_count < 2)
        // Nothing can be coded before the IDR that starts the decoded picture
        // buffer, and only an I picture can become one.
        &&& state.awaiting_idr ==> kind is I
        &&& !self.damaged(i)
        &&& timeline::paired(self.pictures, i) ==> !self.damaged(i + 1)
    }

    /// Whether the frame at picture `i` becomes the IDR.
    pub open spec fn opens(self, i: int, state: StateView) -> bool {
        state.awaiting_idr && self.pictures[i].header.picture_coding_type is I
    }

    /// Whether the frame at picture `i` becomes the recovery point.
    pub open spec fn recovers(self, i: int, work: PlanWork) -> bool {
        &&& self.recovery_point
        &&& !work.recovery_emitted
        &&& !work.state.awaiting_idr
        &&& self.pictures[i].header.picture_coding_type is I
    }

    /// What the frame at picture `i` is coded against.
    pub open spec fn context(self, i: int, work: PlanWork) -> ContextView {
        let picture = self.pictures[i];
        let kind = picture.header.picture_coding_type;
        let state = work.state;
        let idr = self.opens(i, state);
        let frame_num: u32 = if idr {
            0
        } else {
            ((state.prev_ref_frame_num + 1) % MAX_FRAME_NUM as int) as u32
        };
        ContextView {
            frame_num,
            // The IDR displays first, so it takes the lowest POC in the segment.
            poc: if idr {
                0
            } else {
                (POC_PER_FRAME * (state.gop_base + picture.header.temporal_reference)) as u32
            },
            is_reference: idr || !(kind is B),
            layout: picture_layout(kind, state, frame_num),
            short_term: state.short_term,
            options: self.options,
            mbaff: self.description().mbaff,
            real_idr: idr,
            recovery_intra: self.recovers(i, work),
            weight_scale: self.scaling(),
            picture_count: self.picture_count(i),
        }
    }

    /// The work with the frame at picture `i` coded.
    #[verifier::opaque]
    pub open spec fn coded(self, work: PlanWork, i: int) -> PlanWork {
        let context = self.context(i, work);
        let index = work.jobs.len() as int;
        let delimited = self.delimited(work.parts);
        let opened = if context.recovery_intra && self.options.open_gop_recovery
            is RecoveryPoint {
            delimited.push(PartView::Literal(syntax::recovery_unit()))
        } else {
            delimited
        };
        let held = opened.push(PartView::Picture(index));
        PlanWork {
            parts: if context.real_idr {
                self.with_clone(held, i)
            } else {
                held
            },
            jobs: work.jobs.push(self.job(index, i, context)),
            state: state_behind(work.state, context),
            converted: work.converted + 1,
            skipped: work.skipped,
            recovery_emitted: work.recovery_emitted || context.recovery_intra,
            pending: if context.recovery_intra && self.options.open_gop_recovery is Idr {
                Some(i)
            } else {
                work.pending
            },
        }
    }

    /// The work behind the frame at picture `i`.
    pub open spec fn step(self, work: PlanWork, i: int) -> PlanWork {
        let arrived = self.arrived(work, i);
        if self.pictures[i].header.picture_coding_type is Other {
            PlanWork { skipped: arrived.skipped + 1, ..arrived }
        } else {
            let shown = PlanWork {
                state: group_step(arrived.state, self.pictures[i]),
                ..arrived
            };
            if self.codes(i, shown.state) {
                self.coded(shown, i)
            } else {
                PlanWork { skipped: shown.skipped + 1, ..shown }
            }
        }
    }

    /// The work behind the pictures from `i` on.
    pub open spec fn worked(self, work: PlanWork, i: int) -> PlanWork
        decreases self.pictures.len() - i,
    {
        if i < 0 || i >= self.pictures.len() {
            work
        } else {
            self.worked(self.step(work, i), timeline::next_frame(self.pictures, i))
        }
    }

    /// The work behind the whole unit.
    pub open spec fn finished(self, state: StateView) -> PlanWork {
        let work = self.worked(unplanned(state), 0);
        match work.pending {
            Some(anchor) => self.repeated(work, anchor),
            None => work,
        }
    }

    /// The parameter sets in front of the unit.
    pub open spec fn parameter_sets(self) -> Seq<PartView> {
        seq![
            PartView::Literal(
                nal::nal_unit(
                    params::closed_rbsp(params::sps_bits(sequence_config(self.description()))),
                    3,
                    nal_type::SPS as int,
                ),
            ),
            PartView::Literal(
                nal::nal_unit(
                    params::closed_rbsp(scaled_pps_bits(self.scaling())),
                    3,
                    nal_type::PPS as int,
                ),
            ),
        ]
    }
}

/// The sequence parameter set of a description.
pub open spec fn sequence_config(description: SequenceDescription) -> SpsConfig {
    SpsConfig {
        width: description.width,
        height: description.height,
        level_idc: 51,
        frame_mbs_only: !description.mbaff,
        max_num_ref_frames: MAX_NUM_REF_FRAMES,
        log2_max_frame_num_minus4: LOG2_MAX_FRAME_NUM_MINUS4,
        log2_max_poc_lsb_minus4: LOG2_MAX_POC_LSB_MINUS4,
        max_num_reorder_frames: Some(1),
        max_dec_frame_buffering: Some(4),
        sample_aspect_ratio: description.sample_aspect_ratio,
        centered_chroma: description.centered_chroma,
    }
}

/// Bits with a scaling list behind them.
pub open spec fn with_scaling(bits: Seq<bool>, scaling: Seq<i32>) -> Seq<bool> {
    bits + bitwriter::bit(true) + params::scaling_list_bits(scaling, 64)
}

/// The bits of the picture parameter set that declares a scaling list, for intra and
/// inter macroblocks alike.
pub open spec fn scaled_pps_bits(scaling: Seq<i32>) -> Seq<bool> {
    let head = params::pps_head_bits(PPS_INIT_QP as int, CHROMA_QP_OFFSET as int)
        + bitwriter::bit(true);
    with_scaling(with_scaling(params::with_flat_lists(head, 6), scaling), scaling)
        + bitwriter::se_code(CHROMA_QP_OFFSET as int)
}

/// What a plan starts from.
pub open spec fn unplanned(state: StateView) -> PlanWork {
    PlanWork {
        parts: seq![],
        jobs: seq![],
        state,
        converted: 0,
        skipped: 0,
        recovery_emitted: false,
        pending: None,
    }
}

/// Whether the parameter sets have to go in front of a unit that is coded under a
/// description.
pub open spec fn redescribes(
    description: SequenceDescription,
    start: StateView,
    request: UnitRequest,
) -> bool {
    request.description || !start.initialized || description != start.description
}

/// The state that a unit begins from. H.264 activates a sequence parameter set only at
/// an IDR, so a change of description restarts the decoded picture buffer as a request
/// does.
pub open spec fn beginning(
    description: SequenceDescription,
    start: StateView,
    request: UnitRequest,
) -> StateView {
    if request.random_access || (start.initialized && description != start.description) {
        job::opening(start.initialized, start.description)
    } else {
        start
    }
}

/// The plan of a unit.
pub open spec fn plan_of(input: PlanInput, start: StateView, request: UnitRequest) -> PlanView {
    let description = input.description();
    let work = input.finished(beginning(description, start, request));
    // The parameter sets go in front of the pictures they describe, and only if there
    // are any.
    let described = redescribes(description, start, request) && work.converted > 0;
    PlanView {
        parts: if described {
            input.parameter_sets() + work.parts
        } else {
            work.parts
        },
        jobs: work.jobs,
        state: if described {
            StateView { initialized: true, description, ..work.state }
        } else {
            work.state
        },
        pictures_converted: work.converted,
        pictures_skipped: work.skipped,
        recovery_emitted: work.recovery_emitted,
        described,
    }
}

/// The plan of the unit that the data holds.
pub open spec fn planned(
    data: Seq<u8>,
    start: StateView,
    options: TranscodeOptions,
    request: UnitRequest,
    undecodable: Seq<bool>,
) -> Result<PlanView, Error> {
    match headers::parsed(data) {
        Err(e) => Err(e),
        Ok(pictures) => if pictures.len() == 0 {
            Err(Error::NoPictures)
        } else {
            let input = PlanInput {
                data,
                pictures,
                options,
                recovery_point: request.recovery_point,
                undecodable,
            };
            Ok(plan_of(input, start, request))
        },
    }
}

/// The unit can be planned: its pictures can be numbered, and where parameter sets go in
/// front of it there is a picture to describe and a scaling list to declare.
pub open spec fn plannable(data: Seq<u8>, start: StateView, request: UnitRequest) -> bool {
    headers::parsed(data) is Ok && headers::parsed(data)->Ok_0.len() > 0 ==> {
        let pictures = headers::parsed(data)->Ok_0;
        let description = headers::picture_description(pictures[0]);
        &&& beginning(description, start, request).gop_base + 1024 * pictures.len() + 1024
            <= 0x3fff_ffff
        &&& redescribes(description, start, request) ==> {
            &&& description.width >= 1
            &&& params::geometry(
                description.width,
                description.height,
                !description.mbaff,
            ).map_units >= 1
            &&& params::is_scaling_list(pictures[0].quant.non_intra)
        }
    }
}

/// The numbers of the jobs that parts hold places for.
pub open spec fn slots(parts: Seq<PartView>) -> Seq<int>
    decreases parts.len(),
{
    if parts.len() == 0 {
        seq![]
    } else {
        match parts.last() {
            PartView::Literal(_) => slots(parts.drop_last()),
            PartView::Picture(index) => slots(parts.drop_last()).push(index),
        }
    }
}

/// The numbers from nought on.
pub open spec fn numbers(count: nat) -> Seq<int> {
    Seq::new(count, |i: int| i)
}

/// The jobs are numbered in order, and the parts hold a place for each.
pub open spec fn in_place(parts: Seq<PartView>, jobs: Seq<JobView>) -> bool {
    &&& slots(parts) == numbers(jobs.len())
    &&& forall|k: int| 0 <= k < jobs.len() ==> (#[trigger] jobs[k]).index == k
}


/// What a unit is planned from, and what follows from its first picture.
struct Setting<'a> {
    data: &'a [u8],
    pictures: &'a Vec<Picture>,
    /// Where each picture's bytes begin, which is where the one before it ended. A
    /// picture that is dropped leaves its bytes to the one that follows, since a header
    /// among them describes that picture too.
    starts: Vec<usize>,
    options: TranscodeOptions,
    recovery_point: bool,
    undecodable: &'a [bool],
    description: SequenceDescription,
    geometry: FrameGeometry,
    /// The scaling list the PPS declares, and so what every picture in this unit
    /// is requantised against, whatever its own matrices say. A source that
    /// adapts them picture by picture -- which some broadcast encoders do,
    /// several times within one group -- is coded against this one rather than
    /// dropped, and the quantiser search absorbs the difference: the step it
    /// picks scales with the list the decoder holds.
    scaling: [i32; 64],
    has_field_pairs: bool,
}

/// A plan part way through a unit.
struct Work {
    parts: Vec<Part>,
    jobs: Vec<PictureJob>,
    state: TranscoderState,
    converted: usize,
    skipped: usize,
    recovery_emitted: bool,
    pending: Option<usize>,
}

impl<'a> Setting<'a> {
    spec fn input(self) -> PlanInput {
        PlanInput {
            data: self.data@,
            pictures: headers::picture_views(self.pictures@),
            options: self.options,
            recovery_point: self.recovery_point,
            undecodable: self.undecodable@,
        }
    }

    /// The setting is of a parsed unit.
    spec fn wf(self) -> bool {
        let pictures = headers::picture_views(self.pictures@);
        &&& headers::all_wf(pictures)
        &&& headers::laid_out(pictures, self.data@.len() as int)
        &&& pictures.len() > 0
        &&& self.starts@.len() == pictures.len()
        &&& forall|i: int|
            0 <= i < pictures.len() ==> #[trigger] self.starts@[i] == timeline::start_of(
                pictures,
                i,
            )
        &&& self.description == self.input().description()
        &&& self.geometry == self.input().geometry()
        &&& self.geometry.mb_width <= 1024
        &&& self.geometry.mb_height <= 1024
        &&& self.scaling@ == self.input().scaling()
        &&& self.has_field_pairs == pairs_from(pictures, 0)
    }

    /// The other field of the frame that picture `i` begins.
    fn mate(&self, i: usize) -> (mate: Option<usize>)
        requires
            self.wf(),
            i < self.pictures@.len(),
        ensures
            match mate {
                Some(mate) => timeline::paired(self.input().pictures, i as int) && mate == i + 1,
                None => !timeline::paired(self.input().pictures, i as int),
            },
    {
        mate_index(self.pictures, i)
    }

    /// Put a delimiter behind the parts, in a unit with field pairs.
    fn delimit(&self, parts: &mut Vec<Part>)
        requires
            self.wf(),
        ensures
            part_views(final(parts)@) == self.input().delimited(part_views(old(parts)@)),
    {
        if self.has_field_pairs {
            push_literal(parts, write_access_unit_delimiter());
        }
    }

    /// Put an IDR's copy behind the parts.
    fn push_clone(&self, parts: &mut Vec<Part>, i: usize)
        requires
            self.wf(),
            i < self.pictures@.len(),
        ensures
            part_views(final(parts)@) == self.input().with_clone(
                part_views(old(parts)@),
                i as int,
            ),
    {
        self.delimit(parts);
        assert(self.geometry.mb_width * self.geometry.mb_height <= 1024 * 1024)
            by (nonlinear_arith)
            requires
                self.geometry.mb_width <= 1024,
                self.geometry.mb_height <= 1024,
        ;
        // A field pair cannot mark itself long-term, so the copy behind it marks the
        // pair rather than marking itself.
        let mark_from_clone: bool = self.mate(i).is_some();
        push_literal(
            parts,
            write_reference_clone(&self.geometry, self.description.mbaff, mark_from_clone),
        );
    }

    /// The bytes a worker needs to code one picture: its context, then an
    /// elementary stream the picture can be parsed out of on its own.
    ///
    /// The stream is the picture's own bytes with the headers that describe it in
    /// front, which is normally the block its sequence opens with -- a hundred-odd
    /// bytes carrying no picture at all. A sequence that changes its quantiser
    /// matrices part way through stretches that block over the pictures in between
    /// and the prefix carries them along, which is why the context says how many
    /// pictures at the end belong to the job rather than trusting the count.
    fn job_bytes(&self, source: usize, context: &PictureContext) -> (out: Vec<u8>)
        requires
            self.wf(),
            source < self.pictures@.len(),
            context.wf(),
        ensures
            out@ == job::header_bytes(context@) + picture_stream(
                self.data@,
                self.input().pictures,
                source as int,
            ),
    {
        let ghost pictures = self.input().pictures;
        let ghost len = self.data@.len() as int;
        let start: usize = self.starts[source];
        let last: usize = match self.mate(source) {
            Some(mate) => mate,
            None => source,
        };
        let end: usize = picture_end(&self.pictures[last], self.starts[last]);
        proof {
            assert(pictures[last as int] == self.pictures@[last as int]@);
            assert(pictures[source as int] == self.pictures@[source as int]@);
            assert(start == timeline::start_of(pictures, source as int));
            assert(self.starts@[last as int] == timeline::start_of(pictures, last as int));
            assert(end == timeline::start_of(pictures, last + 1));
            assert(last + 1 == timeline::next_frame(pictures, source as int));
            timeline::lemma_starts_increase(pictures, len, source as int);
            timeline::lemma_starts_increase(pictures, len, source + 1);
            timeline::lemma_starts_increase(pictures, len, last + 1);
            assert(timeline::start_of(pictures, source + 1) == timeline::end_of(
                pictures[source as int],
                start as int,
            ));
            if last == source + 1 {
                assert(end == timeline::end_of(
                    pictures[last as int],
                    timeline::start_of(pictures, source + 1),
                ));
            }
            assert(start <= end <= len);
        }
        let mut out = Buf::new();
        context.encode(&mut out);
        // A picture whose own bytes already reach back over its headers -- the
        // first of a sequence -- needs no prefix, and would only see them twice.
        let prefix_start: usize = self.pictures[source].context_start;
        let prefix_end: usize = self.pictures[source].context_end;
        if start > prefix_start {
            out.bytes(slice_subrange(self.data, prefix_start, prefix_end));
        }
        out.bytes(slice_subrange(self.data, start, end));
        assert(out@ =~= job::header_bytes(context@) + picture_stream(
            self.data@,
            pictures,
            source as int,
        ));
        out.into_vec()
    }

    /// The job that codes the frame at picture `source` in a context.
    fn make_job(&self, index: usize, source: usize, context: &PictureContext) -> (job: PictureJob)
        requires
            self.wf(),
            source < self.pictures@.len(),
            context.wf(),
        ensures
            job_view(job) == self.input().job(index as int, source as int, context@),
    {
        let job = PictureJob {
            index,
            source,
            mate: self.mate(source),
            data: self.job_bytes(source, context),
        };
        assert(job_view(job) =~= self.input().job(index as int, source as int, context@));
        job
    }
}

/// The other field of the frame that picture `i` begins.
fn mate_index(pictures: &Vec<Picture>, i: usize) -> (mate: Option<usize>)
    requires
        i < pictures@.len(),
    ensures
        match mate {
            Some(mate) => timeline::paired(headers::picture_views(pictures@), i as int) && mate == i + 1,
            None => !timeline::paired(headers::picture_views(pictures@), i as int),
        },
{
    let picture = &pictures[i];
    let ghost views = headers::picture_views(pictures@);
    assert(views[i as int] == picture@);
    if picture.coding.picture_structure == PictureStructure::Frame || i >= pictures.len() - 1 {
        return None;
    }
    assert(views[i + 1] == pictures@[i + 1]@);
    match complementary_field(Some(&pictures[i + 1]), picture) {
        Some(_) => Some(i + 1),
        None => None,
    }
}

/// Append bytes that the plan already has.
fn push_literal(parts: &mut Vec<Part>, bytes: Vec<u8>)
    ensures
        part_views(final(parts)@) == part_views(old(parts)@).push(PartView::Literal(bytes@)),
{
    parts.push(Part::Literal(bytes));
    assert(part_views(parts@) =~= part_views(old(parts)@).push(PartView::Literal(bytes@)));
}

/// Append a place for a job.
fn push_picture(parts: &mut Vec<Part>, index: usize)
    ensures
        part_views(final(parts)@) == part_views(old(parts)@).push(PartView::Picture(index as int)),
{
    parts.push(Part::Picture(index));
    assert(part_views(parts@) =~= part_views(old(parts)@).push(PartView::Picture(index as int)));
}

/// Append a job.
fn push_job(jobs: &mut Vec<PictureJob>, job: PictureJob)
    ensures
        job_views(final(jobs)@) == job_views(old(jobs)@).push(job_view(job)),
{
    jobs.push(job);
    assert(job_views(jobs@) =~= job_views(old(jobs)@).push(job_view(job)));
}


impl Work {
    spec fn work(self) -> PlanWork {
        PlanWork {
            parts: part_views(self.parts@),
            jobs: job_views(self.jobs@),
            state: self.state@,
            converted: self.converted as int,
            skipped: self.skipped as int,
            recovery_emitted: self.recovery_emitted,
            pending: match self.pending {
                Some(anchor) => Some(anchor as int),
                None => None,
            },
        }
    }

    /// The plan is over `done` pictures of a unit whose display starts from `base`.
    spec fn wf(self, done: int, base: int) -> bool {
        &&& self.state.wf()
        &&& 0 <= base
        &&& self.state.gop_base <= base + 1024 * done
        &&& base + 1024 * done <= 0x3fff_fbff
        &&& self.converted <= done
        &&& self.skipped <= done
        &&& self.pending is Some ==> self.pending->Some_0 < done
    }

    /// Repeat the recovery picture at `anchor` as an IDR.
    fn repeat(&mut self, setting: &Setting, anchor: usize, done: Ghost<int>, base: Ghost<int>)
        requires
            setting.wf(),
            old(self).wf(done@, base@),
            anchor < setting.pictures@.len(),
        ensures
            final(self).wf(done@, base@),
            final(self).work() == setting.input().repeated(old(self).work(), anchor as int),
    {
        proof {
            reveal(PlanInput::repeated);
        }
        let context = PictureContext {
            frame_num: 0,
            poc: 0,
            is_reference: true,
            layout: RefLayout {
                count: 1,
                fwd_l0: 0,
                fwd_l1: 0,
                bwd_l0: NO_REFERENCE,
                bwd_l1: NO_REFERENCE,
                flat: 0,
                l1_short_term_delta: None,
                anchor_second_field: false,
            },
            short_term: ShortTermFrames::new(),
            options: setting.options,
            mbaff: setting.description.mbaff,
            real_idr: true,
            recovery_intra: false,
            weight_scale: setting.scaling,
            picture_count: if setting.mate(anchor).is_some() {
                2
            } else {
                1
            },
        };
        assert(context@ =~= setting.input().copy_context(anchor as int));
        let index: usize = self.jobs.len();
        setting.delimit(&mut self.parts);
        push_literal(&mut self.parts, write_recovery_point_sei());
        push_picture(&mut self.parts, index);
        push_job(&mut self.jobs, setting.make_job(index, anchor, &context));
        // Keep the IDR in the long-term slot and put a skipped-P clone in the
        // short-term chain. For a field pair the frame-coded clone marks the
        // complete pair long-term.
        setting.push_clone(&mut self.parts, anchor);
        open_chain(&mut self.state);
        // The IDR resets PicOrderCntMsb and PicOrderCntLsb. Keep the pictures
        // after it in that new POC epoch too: leaving the stream-wide GOP base
        // in place crosses half of MaxPicOrderCntLsb after about 4.5 minutes,
        // at which point clause 8.2.1 derives the preceding POC cycle.
        self.state.gop_base = 0;
        self.pending = None;
        assert(self.work() =~= setting.input().repeated(old(self).work(), anchor as int));
    }

    /// Code the frame at picture `i`.
    fn code(&mut self, setting: &Setting, i: usize)
        requires
            setting.wf(),
            old(self).state.wf(),
            old(self).state.gop_base <= 0x3fff_fbff,
            old(self).converted < 0x3fff_ffff,
            i < setting.pictures@.len(),
            setting.input().codes(i as int, old(self).work().state),
        ensures
            final(self).state.wf(),
            final(self).state.gop_base == old(self).state.gop_base,
            final(self).converted == old(self).converted + 1,
            final(self).skipped == old(self).skipped,
            final(self).pending == old(self).pending || final(self).pending == Some(i),
            final(self).work() == setting.input().coded(old(self).work(), i as int),
    {
        proof {
            reveal(PlanInput::coded);
        }
        let ghost before = self.work();
        let picture = &setting.pictures[i];
        assert(setting.input().pictures[i as int] == picture@);
        assert(picture@.header.wf());
        let kind: PictureType = picture.header.picture_coding_type;
        let real_idr: bool = self.state.awaiting_idr && kind == PictureType::I;
        let recovery_intra: bool = setting.recovery_point && !self.recovery_emitted
            && !self.state.awaiting_idr && kind == PictureType::I;
        let context = make_context(
            &self.state,
            picture,
            real_idr,
            recovery_intra,
            setting,
            setting.mate(i).is_some(),
        );
        assert(context@ =~= setting.input().context(i as int, before));
        let index: usize = self.jobs.len();
        setting.delimit(&mut self.parts);
        if recovery_intra && setting.options.open_gop_recovery == OpenGopRecovery::RecoveryPoint {
            push_literal(&mut self.parts, write_recovery_point_sei());
        }
        push_picture(&mut self.parts, index);
        push_job(&mut self.jobs, setting.make_job(index, i, &context));
        self.recovery_emitted = self.recovery_emitted || recovery_intra;
        if recovery_intra && setting.options.open_gop_recovery == OpenGopRecovery::Idr {
            self.pending = Some(i);
        }
        if real_idr {
            setting.push_clone(&mut self.parts, i);
        }
        settle(&mut self.state, &context);
        self.converted = self.converted + 1;
        assert(self.work() =~= setting.input().coded(before, i as int));
    }

    /// Come to picture `i`: repeat the recovery picture once the pictures that lead it
    /// are through.
    fn arrive(&mut self, setting: &Setting, i: usize, base: Ghost<int>)
        requires
            setting.wf(),
            old(self).wf(i as int, base@),
            i < setting.pictures@.len(),
        ensures
            final(self).wf(i as int, base@),
            final(self).work() == setting.input().arrived(old(self).work(), i as int),
    {
        let picture = &setting.pictures[i];
        let ghost input = setting.input();
        assert(input.pictures[i as int] == picture@);
        if let Some(anchor) = self.pending {
            assert(input.pictures[anchor as int] == setting.pictures@[anchor as int]@);
            let leading: bool = picture.header.picture_coding_type == PictureType::B
                && picture.header.temporal_reference
                < setting.pictures[anchor].header.temporal_reference;
            if !leading {
                self.repeat(setting, anchor, Ghost(i as int), base);
            }
        }
    }

    /// Plan the frame at picture `i`.
    fn step(&mut self, setting: &Setting, i: usize, base: Ghost<int>)
        requires
            setting.wf(),
            old(self).wf(i as int, base@),
            i < setting.pictures@.len(),
            base@ + 1024 * (i + 1) <= 0x3fff_fbff,
        ensures
            final(self).wf(i + 1, base@),
            final(self).work() == setting.input().step(old(self).work(), i as int),
    {
        let picture = &setting.pictures[i];
        let ghost input = setting.input();
        assert(input.pictures[i as int] == picture@);
        assert(picture@.wf());
        self.arrive(setting, i, base);
        let ghost arrived = self.work();
        if !picture.header.picture_coding_type.is_ipb() {
            self.skipped = self.skipped + 1;
            assert(self.work() =~= PlanWork { skipped: arrived.skipped + 1, ..arrived });
            return ;
        }
        show(&mut self.state, picture);
        let ghost shown = self.work();
        assert(shown =~= PlanWork {
            state: group_step(arrived.state, input.pictures[i as int]),
            ..arrived
        });
        if self.codes(setting, i) {
            self.code(setting, i);
        } else {
            self.skipped = self.skipped + 1;
            assert(self.work() =~= PlanWork { skipped: shown.skipped + 1, ..shown });
        }
    }

    /// Whether the frame at picture `i` is coded.
    fn codes(&self, setting: &Setting, i: usize) -> (yes: bool)
        requires
            setting.wf(),
            i < setting.pictures@.len(),
        ensures
            yes == setting.input().codes(i as int, self.state@),
    {
        let picture = &setting.pictures[i];
        assert(setting.input().pictures[i as int] == picture@);
        assert(picture@.wf());
        let kind: PictureType = picture.header.picture_coding_type;
        let mate = setting.mate(i);
        // A lone field is no frame. The MP4 timeline drops it for the same
        // reason and has to make the identical decision.
        if mate.is_none() && picture.coding.picture_structure != PictureStructure::Frame {
            return false;
        }
        // A unit is coded under the description it opens with, and that is what
        // the parameter sets in front of it say. A picture coded under another
        // one belongs to the next unit: the group splitter cuts where the
        // description changes, so what reaches here is a change with no group
        // boundary behind it to cut on -- the tail of a recording, or a whole
        // stream handed over in one piece. The MP4 timeline drops it for the
        // same reason and has to make the identical decision.
        if picture_sequence_description(picture) != setting.description {
            return false;
        }
        // A B picture needs both of its references present.
        if kind == PictureType::B && self.state.short_term_count < 2 {
            return false;
        }
        // Nothing can be coded before the IDR that starts the decoded
        // picture buffer, and only an I picture can become one.
        if self.state.awaiting_idr && kind != PictureType::I {
            return false;
        }
        // A damaged slice takes its picture with it, and a unit that begins
        // part way through one has every slice truncated. This is the one
        // thing the walk cannot see for itself: it is what a previous attempt
        // reported back. The MP4 timeline reaches the same verdict from the
        // same report, so the two stay in step.
        if is_damaged(setting.undecodable, i) {
            return false;
        }
        match mate {
            Some(mate) => !is_damaged(setting.undecodable, mate),
            None => true,
        }
    }
}

/// Whether an earlier attempt found picture `i` damaged.
fn is_damaged(undecodable: &[bool], i: usize) -> (yes: bool)
    ensures
        yes == (i < undecodable@.len() && undecodable@[i as int]),
{
    i < undecodable.len() && undecodable[i]
}

/// What a picture is coded against.
fn make_context(
    state: &TranscoderState,
    picture: &Picture,
    real_idr: bool,
    recovery_intra: bool,
    setting: &Setting,
    pair: bool,
) -> (context: PictureContext)
    requires
        state.wf(),
        state.gop_base <= 0x3fff_fbff,
        picture@.header.wf(),
        picture@.header.picture_coding_type is B ==> state.short_term_count >= 1,
    ensures
        context.wf(),
        ({
            let kind = picture@.header.picture_coding_type;
            let frame_num: u32 = if real_idr {
                0
            } else {
                ((state.prev_ref_frame_num + 1) % MAX_FRAME_NUM as int) as u32
            };
            context@ == ContextView {
                frame_num,
                poc: if real_idr {
                    0
                } else {
                    (POC_PER_FRAME * (state.gop_base + picture@.header.temporal_reference)) as u32
                },
                is_reference: real_idr || !(kind is B),
                layout: picture_layout(kind, state@, frame_num),
                short_term: state@.short_term,
                options: setting.options,
                mbaff: setting.description.mbaff,
                real_idr,
                recovery_intra,
                weight_scale: setting.scaling@,
                picture_count: if pair {
                    2
                } else {
                    1
                },
            }
        }),
{
    let kind: PictureType = picture.header.picture_coding_type;
    let frame_num: u32 = if real_idr {
        0
    } else {
        (state.prev_ref_frame_num + 1) % MAX_FRAME_NUM
    };
    let held: u32 = state.short_term_count;
    let layout: RefLayout = if kind == PictureType::B {
        RefLayout {
            count: held + 1,
            fwd_l0: 0,
            fwd_l1: 1,
            bwd_l0: held as i32 - 1,
            bwd_l1: 0,
            flat: held as i32,
            l1_short_term_delta: None,
            anchor_second_field: false,
        }
    } else {
        RefLayout {
            count: held + 1,
            fwd_l0: 0,
            fwd_l1: 0,
            bwd_l0: NO_REFERENCE,
            bwd_l1: NO_REFERENCE,
            flat: held as i32,
            l1_short_term_delta: if held > 0 {
                Some((frame_num + MAX_FRAME_NUM - state.newest_short_term) % MAX_FRAME_NUM)
            } else {
                None
            },
            anchor_second_field: false,
        }
    };
    PictureContext {
        frame_num,
        poc: if real_idr {
            0
        } else {
            POC_PER_FRAME * (state.gop_base + picture.header.temporal_reference)
        },
        is_reference: real_idr || kind != PictureType::B,
        layout,
        short_term: state.short_term,
        options: setting.options,
        mbaff: setting.description.mbaff,
        real_idr,
        recovery_intra,
        weight_scale: setting.scaling,
        picture_count: if pair {
            2
        } else {
            1
        },
    }
}

/// Start the short-term chain behind an IDR: its copy is all the chain has.
fn open_chain(state: &mut TranscoderState)
    requires
        old(state).wf(),
    ensures
        final(state).wf(),
        final(state)@ == behind_idr(old(state)@),
{
    state.prev_ref_frame_num = 1;
    state.short_term_count = 1;
    state.newest_short_term = 1;
    state.short_term.clear();
    state.short_term.push(1);
    assert(state@.short_term =~= seq![1u32]);
    assert(state@ =~= behind_idr(old(state)@));
}

/// Leave a coded picture behind.
fn settle(state: &mut TranscoderState, context: &PictureContext)
    requires
        old(state).wf(),
        old(state).awaiting_idr ==> context.real_idr,
        context.frame_num < 256,
    ensures
        final(state).wf(),
        final(state)@ == state_behind(old(state)@, context@),
        final(state).gop_base == old(state).gop_base,
{
    if context.real_idr {
        open_chain(state);
    } else if context.is_reference {
        extend_chain(state, context.frame_num);
    }
    // The picture is coded from here on, so the wait for one that opens the
    // decoded picture buffer ends here too.
    state.awaiting_idr = false;
    assert(state@ =~= state_behind(old(state)@, context@));
}

/// Extend the short-term chain by a reference picture.
fn extend_chain(state: &mut TranscoderState, frame_num: u32)
    requires
        old(state).wf(),
        frame_num < 256,
    ensures
        final(state).wf(),
        final(state)@ == behind_reference(old(state)@, frame_num),
{
    state.prev_ref_frame_num = frame_num;
    if state.short_term_count + 1 < 3 {
        state.short_term_count = state.short_term_count + 1;
    } else {
        state.short_term_count = 3;
    }
    state.newest_short_term = frame_num;
    state.short_term.push(frame_num);
    assert(state@ =~= behind_reference(old(state)@, frame_num));
}

/// Take in the display slot of a picture.
fn show(state: &mut TranscoderState, picture: &Picture)
    requires
        old(state).wf(),
        old(state).gop_base <= 0x3fff_ffff,
        picture@.header.wf(),
    ensures
        final(state).wf(),
        final(state)@ == group_step(old(state)@, picture@),
        final(state).gop_base <= old(state).gop_base + 1024,
{
    let tr: u32 = picture.header.temporal_reference;
    if picture.starts_gop && state.seen_picture {
        state.gop_base = state.gop_base + (state.max_tr_in_gop + 1);
        state.max_tr_in_gop = 0;
    }
    state.seen_picture = true;
    if tr > state.max_tr_in_gop {
        state.max_tr_in_gop = tr;
    }
    assert(state@ =~= group_step(old(state)@, picture@));
}


/// Where each picture's bytes begin.
fn picture_starts(pictures: &Vec<Picture>) -> (starts: Vec<usize>)
    ensures
        starts@.len() == pictures@.len(),
        forall|i: int|
            0 <= i < pictures@.len() ==> #[trigger] starts@[i] == timeline::start_of(
                headers::picture_views(pictures@),
                i,
            ),
{
    let ghost views = headers::picture_views(pictures@);
    let mut starts: Vec<usize> = Vec::new();
    let mut at: usize = 0;
    let mut i: usize = 0;
    while i < pictures.len()
        invariant
            views == headers::picture_views(pictures@),
            i <= pictures@.len(),
            at == timeline::start_of(views, i as int),
            starts@.len() == i,
            forall|j: int| 0 <= j < i ==> #[trigger] starts@[j] == timeline::start_of(views, j),
        decreases pictures@.len() - i,
    {
        starts.push(at);
        assert(views[i as int] == pictures@[i as int]@);
        at = picture_end(&pictures[i], at);
        i = i + 1;
    }
    starts
}

/// Whether there is a field pair among the pictures.
fn any_pairs(pictures: &Vec<Picture>) -> (any: bool)
    ensures
        any == pairs_from(headers::picture_views(pictures@), 0),
{
    let ghost views = headers::picture_views(pictures@);
    let mut i: usize = 0;
    while i < pictures.len()
        invariant
            views == headers::picture_views(pictures@),
            i <= pictures@.len(),
            pairs_from(views, i as int) == pairs_from(views, 0),
        decreases pictures@.len() - i,
    {
        if mate_index(pictures, i).is_some() {
            return true;
        }
        i = i + 1;
    }
    false
}

/// The parameter sets in front of a unit.
fn write_parameter_sets(setting: &Setting) -> (parts: Vec<Part>)
    requires
        setting.wf(),
        setting.description.width >= 1,
        setting.geometry.map_units >= 1,
        params::is_scaling_list(setting.scaling@),
    ensures
        part_views(parts@) == setting.input().parameter_sets(),
{
    let description = setting.description;
    let config = SpsConfig {
        width: description.width,
        height: description.height,
        // Higher than the frame size alone would ask for, because a
        // level is a promise about the bitstream and not just about
        // its dimensions. Requantising with no reference buffer costs
        // bits: broadcast HD comes out around 35 Mb/s, with second-long
        // peaks past 50, where level 4.0 promises 25. Access units are
        // outsized too -- a random access point is a whole picture of
        // raw samples -- and 5.1 is back to the looser MinCR that the
        // levels below 3.1 use.
        level_idc: 51,
        frame_mbs_only: !description.mbaff,
        // The long-term flat-prediction picture plus the two most recent
        // I or P pictures, which are what a B picture predicts from. The
        // count also fixes how many short-term pictures the sliding
        // window keeps, so the reference indices in RefLayout depend on
        // it.
        max_num_ref_frames: MAX_NUM_REF_FRAMES,
        log2_max_frame_num_minus4: LOG2_MAX_FRAME_NUM_MINUS4,
        log2_max_poc_lsb_minus4: LOG2_MAX_POC_LSB_MINUS4,
        // An MPEG-2 stream codes its anchor picture before the B
        // pictures that display ahead of it, so one picture has to be
        // held back.
        max_num_reorder_frames: Some(1),
        max_dec_frame_buffering: Some(4),
        sample_aspect_ratio: description.sample_aspect_ratio,
        centered_chroma: description.centered_chroma,
    };
    assert(config == sequence_config(description));
    assert(setting.input().pictures[0].wf());
    let sps = write_sps(&config);
    let picture_config = PpsConfig {
        init_qp: PPS_INIT_QP,
        scaling_8x8_intra: Some(&setting.scaling),
        scaling_8x8_inter: Some(&setting.scaling),
        chroma_qp_index_offset: CHROMA_QP_OFFSET,
    };
    assert(params::pps_bits(picture_config) == scaled_pps_bits(setting.scaling@));
    let pps = write_pps(&picture_config);
    let mut parts: Vec<Part> = Vec::new();
    assert(part_views(parts@) =~= Seq::<PartView>::empty());
    push_literal(&mut parts, sps);
    push_literal(&mut parts, pps);
    assert(part_views(parts@) =~= setting.input().parameter_sets());
    parts
}

/// Work out what one unit turns into, without decoding any of it.
///
/// `undecodable`, indexed by source picture, names the pictures a previous
/// attempt found damaged. It is empty on the first attempt, which is what makes
/// this a walk of headers rather than of macroblocks.
pub fn plan_unit(
    data: &[u8],
    start: &TranscoderState,
    options: TranscodeOptions,
    request: UnitRequest,
    undecodable: &[bool],
) -> (result: Result<UnitPlan, Error>)
    requires
        8 * data@.len() <= usize::MAX,
        start.wf(),
        plannable(data@, start@, request),
    ensures
        match result {
            Ok(plan) => planned(data@, start@, options, request, undecodable@) == Ok::<
                PlanView,
                Error,
            >(plan@) && plan.state.wf() && sources_below(plan@.jobs, usize::MAX as int),
            Err(e) => planned(data@, start@, options, request, undecodable@) == Err::<
                PlanView,
                Error,
            >(e),
        },
{
    let pictures = match parse_elementary_stream(data) {
        Ok(pictures) => pictures,
        Err(e) => return Err(e),
    };
    if pictures.len() == 0 {
        return Err(Error::NoPictures);
    }
    let ghost views = headers::picture_views(pictures@);
    proof {
        headers::law_parse_lays_out_in_order(data@);
    }
    let first = &pictures[0];
    assert(views[0] == first@);
    assert(views[0].wf());
    let description = picture_sequence_description(first);
    // A stream that changes what its sequence header says is coded under
    // parameter sets that have not gone out. New ones can, but H.264 activates
    // a sequence parameter set only at an IDR, so the change restarts the
    // decoded picture buffer as well. Whoever is drawing the MP4 timeline for
    // this unit has to have reached the same verdict already, from
    // [`crate::mpeg2::headers::stream_sequence_description`]: the timeline is
    // settled before the plan is made, and it is what says the fragment opens at a
    // random access point.
    //
    // A caller may also ask for them where nothing they say has changed,
    // because what it needs is the initialization segment built from them.
    let redescribe: bool = request.description || !start.initialized || description
        != start.description;
    let random_access: bool = request.random_access || (start.initialized && description
        != start.description);
    let setting = Setting {
        data,
        pictures: &pictures,
        starts: picture_starts(&pictures),
        options,
        recovery_point: request.recovery_point,
        undecodable,
        description,
        geometry: frame_geometry(description.width, description.height, !description.mbaff),
        scaling: first.quant.non_intra,
        has_field_pairs: any_pairs(&pictures),
    };
    let ghost input = setting.input();
    assert(input == PlanInput {
        data: data@,
        pictures: views,
        options,
        recovery_point: request.recovery_point,
        undecodable: undecodable@,
    });
    assert(setting.wf());
    // A stream restarting at a random access point has an empty decoded picture
    // buffer and an unstarted display order, so it begins from nothing.
    let state: TranscoderState = if random_access {
        start.restarted()
    } else {
        *start
    };
    let ghost begun = beginning(description, start@, request);
    assert(state@ == begun);
    let mut work = Work {
        parts: Vec::new(),
        jobs: Vec::new(),
        state,
        converted: 0,
        skipped: 0,
        recovery_emitted: false,
        pending: None,
    };
    assert(work.work() =~= unplanned(begun));
    let ghost base = begun.gop_base;
    let mut i: usize = 0;
    while i < pictures.len()
        invariant
            setting.wf(),
            *setting.pictures == pictures,
            input == setting.input(),
            base + 1024 * pictures@.len() + 1024 <= 0x3fff_ffff,
            i <= pictures@.len(),
            work.wf(i as int, base),
            input.worked(work.work(), i as int) == input.worked(unplanned(begun), 0),
        decreases pictures@.len() - i,
    {
        let next: usize = match setting.mate(i) {
            Some(mate) => mate + 1,
            None => i + 1,
        };
        assert(next == timeline::next_frame(input.pictures, i as int));
        work.step(&setting, i, Ghost(base));
        assert(work.wf(next as int, base));
        i = next;
    }
    let ghost walked = work.work();
    if let Some(anchor) = work.pending {
        work.repeat(&setting, anchor, Ghost(i as int), Ghost(base));
    }
    assert(work.work() == input.finished(begun));
    // The parameter sets go in front of the pictures they describe, and only
    // if there are any: a unit that coded none is dropped whole by whoever is
    // packaging it, and a description dropped with it was never sent. Leaving
    // the state as it was is what makes the next unit carry it instead.
    let described: bool = redescribe && work.converted > 0;
    let ghost done = work.work();
    let Work { mut parts, jobs, mut state, converted, skipped, recovery_emitted, pending: _ } = work;
    if described {
        let mut front = write_parameter_sets(&setting);
        let ghost sets = front@;
        front.append(&mut parts);
        parts = front;
        assert(part_views(parts@) =~= input.parameter_sets() + done.parts);
        state.initialized = true;
        state.description = description;
    }
    let plan = UnitPlan {
        parts,
        jobs,
        state,
        pictures_converted: converted,
        pictures_skipped: skipped,
        recovery_emitted,
        described,
    };
    assert(plan@ =~= plan_of(input, start@, request));
    proof {
        law_jobs_name_pictures(input, start@, request);
    }
    Ok(plan)
}


/// The bitstreams of converted jobs.
pub open spec fn bitstreams(outputs: Seq<PictureOutput>) -> Seq<Seq<u8>> {
    Seq::new(outputs.len(), |i: int| outputs[i].bitstream@)
}

/// The parts one behind the other, each job's bitstream in the place held for it.
pub open spec fn assembled(parts: Seq<PartView>, coded: Seq<Seq<u8>>) -> Seq<u8>
    decreases parts.len(),
{
    if parts.len() == 0 {
        seq![]
    } else {
        assembled(parts.drop_last(), coded) + match parts.last() {
            PartView::Literal(bytes) => bytes,
            PartView::Picture(index) => coded[index],
        }
    }
}

/// Every place that the parts hold is for one of `count` jobs.
pub open spec fn places_below(parts: Seq<PartView>, count: int) -> bool {
    forall|k: int|
        0 <= k < parts.len() ==> match #[trigger] parts[k] {
            PartView::Literal(_) => true,
            PartView::Picture(index) => 0 <= index < count,
        }
}

/// The jobs with their bytes taken out.
pub open spec fn emptied(jobs: Seq<JobView>) -> Seq<JobView> {
    Seq::new(jobs.len(), |i: int| JobView { data: seq![], ..jobs[i] })
}

impl UnitPlan {
    /// Take the jobs' bytes out to be converted, leaving behind which source
    /// pictures each was for. Handing them over rather than copying them is
    /// what keeps a unit's bytes crossing to a worker once.
    pub fn take_jobs(&mut self) -> (bytes: Vec<Vec<u8>>)
        ensures
            bytes@.len() == old(self)@.jobs.len(),
            forall|i: int|
                0 <= i < bytes@.len() ==> #[trigger] bytes@[i]@ == old(self)@.jobs[i].data,
            final(self)@ == (PlanView { jobs: emptied(old(self)@.jobs), ..old(self)@ }),
            final(self).state == old(self).state,
    {
        let ghost before = self@;
        let mut bytes: Vec<Vec<u8>> = Vec::new();
        let mut i: usize = 0;
        while i < self.jobs.len()
            invariant
                i <= self.jobs@.len(),
                before == old(self)@,
                self.jobs@.len() == before.jobs.len(),
                self.parts == old(self).parts,
                self.state == old(self).state,
                self.pictures_converted == old(self).pictures_converted,
                self.pictures_skipped == old(self).pictures_skipped,
                self.recovery_emitted == old(self).recovery_emitted,
                self.described == old(self).described,
                bytes@.len() == i,
                forall|k: int| 0 <= k < i ==> #[trigger] bytes@[k]@ == before.jobs[k].data,
                forall|k: int|
                    0 <= k < i ==> #[trigger] job_view(self.jobs@[k]) == (JobView {
                        data: seq![],
                        ..before.jobs[k]
                    }),
                forall|k: int|
                    i <= k < self.jobs@.len() ==> #[trigger] job_view(self.jobs@[k])
                        == before.jobs[k],
            decreases self.jobs@.len() - i,
        {
            let mut data: Vec<u8> = Vec::new();
            assert(job_view(self.jobs@[i as int]) == before.jobs[i as int]);
            core::mem::swap(&mut data, &mut self.jobs[i].data);
            assert(job_view(self.jobs@[i as int]) =~= (JobView {
                data: seq![],
                ..before.jobs[i as int]
            }));
            bytes.push(data);
            i = i + 1;
        }
        assert(self@.jobs =~= emptied(before.jobs));
        assert(self@ =~= PlanView { jobs: emptied(before.jobs), ..before });
        bytes
    }

    /// Put the coded pictures back into the order the plan laid out for them.
    pub fn assemble(&self, outputs: &[PictureOutput]) -> (bitstream: Vec<u8>)
        requires
            places_below(self@.parts, outputs@.len() as int),
        ensures
            bitstream@ == assembled(self@.parts, bitstreams(outputs@)),
    {
        let ghost parts = self@.parts;
        let ghost coded = bitstreams(outputs@);
        let mut bitstream: Vec<u8> = Vec::new();
        let mut i: usize = 0;
        assert(parts.take(0) =~= Seq::<PartView>::empty());
        while i < self.parts.len()
            invariant
                i <= self.parts@.len(),
                parts == self@.parts,
                coded == bitstreams(outputs@),
                places_below(parts, outputs@.len() as int),
                bitstream@ == assembled(parts.take(i as int), coded),
            decreases self.parts@.len() - i,
        {
            assert(parts[i as int] == self.parts@[i as int]@);
            assert(parts.take(i + 1).drop_last() =~= parts.take(i as int));
            match &self.parts[i] {
                Part::Literal(bytes) => {
                    bitstream.extend_from_slice(bytes);
                    assert(bitstream@ =~= assembled(parts.take(i as int), coded) + bytes@);
                },
                Part::Picture(index) => {
                    bitstream.extend_from_slice(&outputs[*index].bitstream);
                    assert(bitstream@ =~= assembled(parts.take(i as int), coded)
                        + coded[*index as int]);
                },
            }
            i = i + 1;
        }
        assert(parts.take(parts.len() as int) =~= parts);
        bitstream
    }
}

/// Another part leaves the places before it as they are.
proof fn lemma_slots_push(parts: Seq<PartView>, part: PartView)
    ensures
        slots(parts.push(part)) == match part {
            PartView::Literal(_) => slots(parts),
            PartView::Picture(index) => slots(parts).push(index),
        },
{
    assert(parts.push(part).drop_last() =~= parts);
}

/// Parts without a place for a job in front leave the places as they are.
proof fn lemma_slots_behind(front: Seq<PartView>, parts: Seq<PartView>)
    requires
        slots(front) == Seq::<int>::empty(),
    ensures
        slots(front + parts) == slots(parts),
    decreases parts.len(),
{
    if parts.len() == 0 {
        assert(front + parts =~= front);
    } else {
        lemma_slots_behind(front, parts.drop_last());
        assert((front + parts).drop_last() =~= front + parts.drop_last());
    }
}

/// What is put around the pictures holds no places.
proof fn lemma_around(input: PlanInput, parts: Seq<PartView>, i: int)
    ensures
        slots(input.delimited(parts)) == slots(parts),
        slots(input.with_clone(parts, i)) == slots(parts),
{
    lemma_slots_push(parts, PartView::Literal(syntax::delimiter_unit()));
    let delimited = input.delimited(parts);
    lemma_slots_push(
        delimited,
        PartView::Literal(
            syntax::clone_unit(
                input.geometry(),
                input.description().mbaff,
                timeline::paired(input.pictures, i),
            ),
        ),
    );
}

/// Repeating a recovery picture keeps the jobs in place.
proof fn lemma_repeated_in_place(input: PlanInput, work: PlanWork, i: int)
    requires
        in_place(work.parts, work.jobs),
    ensures
        in_place(input.repeated(work, i).parts, input.repeated(work, i).jobs),
{
    reveal(PlanInput::repeated);
    let index = work.jobs.len() as int;
    lemma_around(input, work.parts, i);
    let delimited = input.delimited(work.parts);
    let announced = delimited.push(PartView::Literal(syntax::recovery_unit()));
    lemma_slots_push(delimited, PartView::Literal(syntax::recovery_unit()));
    lemma_slots_push(announced, PartView::Picture(index));
    lemma_around(input, announced.push(PartView::Picture(index)), i);
    assert(numbers(work.jobs.len()).push(index) =~= numbers(work.jobs.len() + 1));
}

/// Coding a picture keeps the jobs in place.
proof fn lemma_coded_in_place(input: PlanInput, work: PlanWork, i: int)
    requires
        in_place(work.parts, work.jobs),
    ensures
        in_place(input.coded(work, i).parts, input.coded(work, i).jobs),
{
    reveal(PlanInput::coded);
    let index = work.jobs.len() as int;
    lemma_around(input, work.parts, i);
    let delimited = input.delimited(work.parts);
    let announced = delimited.push(PartView::Literal(syntax::recovery_unit()));
    lemma_slots_push(delimited, PartView::Literal(syntax::recovery_unit()));
    lemma_slots_push(announced, PartView::Picture(index));
    lemma_slots_push(delimited, PartView::Picture(index));
    lemma_around(input, announced.push(PartView::Picture(index)), i);
    lemma_around(input, delimited.push(PartView::Picture(index)), i);
    assert(numbers(work.jobs.len()).push(index) =~= numbers(work.jobs.len() + 1));
}

/// A plan keeps its jobs in place from any picture on.
proof fn lemma_worked_in_place(input: PlanInput, work: PlanWork, i: int)
    requires
        in_place(work.parts, work.jobs),
    ensures
        in_place(input.worked(work, i).parts, input.worked(work, i).jobs),
    decreases input.pictures.len() - i,
{
    if 0 <= i < input.pictures.len() {
        if work.pending is Some {
            lemma_repeated_in_place(input, work, work.pending->Some_0);
        }
        let arrived = input.arrived(work, i);
        let shown = PlanWork { state: group_step(arrived.state, input.pictures[i]), ..arrived };
        lemma_coded_in_place(input, shown, i);
        lemma_worked_in_place(
            input,
            input.step(work, i),
            timeline::next_frame(input.pictures, i),
        );
    }
}

/// Every job of a plan has its place among the parts, once and in the order of the
/// jobs, so pictures that are coded anywhere and in any order are put back as planned.
pub proof fn law_every_job_has_its_place(input: PlanInput, start: StateView, request: UnitRequest)
    ensures
        ({
            let plan = plan_of(input, start, request);
            &&& slots(plan.parts) == numbers(plan.jobs.len())
            &&& forall|k: int| 0 <= k < plan.jobs.len() ==> (#[trigger] plan.jobs[k]).index == k
            &&& places_below(plan.parts, plan.jobs.len() as int)
        }),
{
    let begun = beginning(input.description(), start, request);
    assert(slots(unplanned(begun).parts) =~= numbers(0));
    lemma_worked_in_place(input, unplanned(begun), 0);
    let work = input.worked(unplanned(begun), 0);
    if work.pending is Some {
        lemma_repeated_in_place(input, work, work.pending->Some_0);
    }
    let finished = input.finished(begun);
    let sets = input.parameter_sets();
    assert(slots(sets) =~= Seq::<int>::empty()) by {
        assert(sets.drop_last() =~= seq![sets[0]]);
        assert(sets.drop_last().drop_last() =~= Seq::<PartView>::empty());
        reveal_with_fuel(slots, 3);
    }
    lemma_slots_behind(sets, finished.parts);
    let plan = plan_of(input, start, request);
    lemma_places(plan.parts, plan.jobs.len() as int);
}

/// The places that the parts hold are the ones that are listed.
proof fn lemma_places(parts: Seq<PartView>, count: int)
    requires
        forall|k: int| 0 <= k < slots(parts).len() ==> 0 <= #[trigger] slots(parts)[k] < count,
    ensures
        places_below(parts, count),
    decreases parts.len(),
{
    if parts.len() > 0 {
        let before = parts.drop_last();
        match parts.last() {
            PartView::Literal(_) => {
                assert(slots(parts) == slots(before));
            },
            PartView::Picture(index) => {
                assert(slots(parts) == slots(before).push(index));
                assert(slots(parts)[slots(before).len() as int] == index);
                assert forall|k: int| 0 <= k < slots(before).len() implies 0
                    <= #[trigger] slots(before)[k] < count by {
                    assert(slots(parts)[k] == slots(before)[k]);
                }
            },
        }
        lemma_places(before, count);
        assert forall|k: int| 0 <= k < parts.len() implies match #[trigger] parts[k] {
            PartView::Literal(_) => true,
            PartView::Picture(index) => 0 <= index < count,
        } by {
            if k < before.len() {
                assert(before[k] == parts[k]);
            }
        }
    }
}


/// Every job is of pictures that a unit of `count` pictures has.
pub open spec fn sources_below(jobs: Seq<JobView>, count: int) -> bool {
    forall|k: int|
        0 <= k < jobs.len() ==> {
            &&& 0 <= (#[trigger] jobs[k]).source < count
            &&& jobs[k].mate is Some ==> jobs[k].mate->Some_0 == jobs[k].source + 1
                && jobs[k].source + 1 < count
        }
}

/// A plan's jobs are of the unit's pictures, from any picture on.
proof fn lemma_worked_sources(input: PlanInput, work: PlanWork, i: int)
    requires
        0 <= i,
        sources_below(work.jobs, input.pictures.len() as int),
        work.pending is Some ==> 0 <= work.pending->Some_0 < input.pictures.len(),
    ensures
        ({
            let after = input.worked(work, i);
            &&& sources_below(after.jobs, input.pictures.len() as int)
            &&& after.pending is Some ==> 0 <= after.pending->Some_0 < input.pictures.len()
        }),
    decreases input.pictures.len() - i,
{
    if i < input.pictures.len() {
        reveal(PlanInput::repeated);
        reveal(PlanInput::coded);
        lemma_worked_sources(
            input,
            input.step(work, i),
            timeline::next_frame(input.pictures, i),
        );
    }
}

/// Every job of a plan is of a picture of the unit, with the one behind it where the two
/// are the fields of a frame.
pub proof fn law_jobs_name_pictures(input: PlanInput, start: StateView, request: UnitRequest)
    ensures
        sources_below(plan_of(input, start, request).jobs, input.pictures.len() as int),
{
    let begun = beginning(input.description(), start, request);
    lemma_worked_sources(input, unplanned(begun), 0);
    reveal(PlanInput::repeated);
}


/// Every place that the parts of a unit's plan hold is for one of its jobs.
pub proof fn lemma_planned_in_place(
    data: Seq<u8>,
    start: StateView,
    options: TranscodeOptions,
    request: UnitRequest,
    undecodable: Seq<bool>,
)
    ensures
        match planned(data, start, options, request, undecodable) {
            Ok(plan) => places_below(plan.parts, plan.jobs.len() as int),
            Err(_) => true,
        },
{
    if headers::parsed(data) is Ok {
        let input = PlanInput {
            data,
            pictures: headers::parsed(data)->Ok_0,
            options,
            recovery_point: request.recovery_point,
            undecodable,
        };
        law_every_job_has_its_place(input, start, request);
    }
}


/// The parameter sets travel with the pictures they describe: a unit that codes none
/// sends none and leaves what the conversion says of them as it was, and one that codes
/// any under a description that is not out sends them and says so.
pub proof fn law_description_travels_with_pictures(
    input: PlanInput,
    start: StateView,
    request: UnitRequest,
)
    ensures
        ({
            let plan = plan_of(input, start, request);
            let description = input.description();
            &&& plan.pictures_converted == 0 ==> !plan.described && plan.state.initialized
                == start.initialized && plan.state.description == start.description
            &&& plan.pictures_converted > 0 ==> plan.state.initialized && plan.state.description
                == description
            &&& plan.described ==> plan.parts.len() >= 2 && plan.parts.take(2)
                == input.parameter_sets()
        }),
{
    let begun = beginning(input.description(), start, request);
    lemma_finished_keeps_description(input, begun);
    lemma_two_in_front(input.parameter_sets(), input.finished(begun).parts);
}

/// Two parts in front of others are the first two.
proof fn lemma_two_in_front(front: Seq<PartView>, parts: Seq<PartView>)
    requires
        front.len() == 2,
    ensures
        (front + parts).take(2) == front,
        (front + parts).len() >= 2,
{
    assert((front + parts).take(2) =~= front);
}

/// Planning a unit leaves what is said of the parameter sets alone.
proof fn lemma_finished_keeps_description(input: PlanInput, begun: StateView)
    ensures
        input.finished(begun).state.initialized == begun.initialized,
        input.finished(begun).state.description == begun.description,
        input.finished(begun).converted >= 0,
{
    lemma_worked_keeps_description(input, unplanned(begun), 0);
    reveal(PlanInput::repeated);
}

/// Planning pictures leaves what is said of the parameter sets alone.
proof fn lemma_worked_keeps_description(input: PlanInput, work: PlanWork, i: int)
    requires
        0 <= i,
        work.converted >= 0,
    ensures
        ({
            let after = input.worked(work, i);
            &&& after.state.initialized == work.state.initialized
            &&& after.state.description == work.state.description
            &&& after.converted >= work.converted
        }),
    decreases input.pictures.len() - i,
{
    if i < input.pictures.len() {
        reveal(PlanInput::repeated);
        reveal(PlanInput::coded);
        lemma_worked_keeps_description(
            input,
            input.step(work, i),
            timeline::next_frame(input.pictures, i),
        );
    }
}

/// Picture order counts follow the order of display: a picture that is shown later has a
/// count that lies above both of an earlier one's, and above those that the picture
/// opening the buffer and its copy take.
pub proof fn law_order_counts_follow_display(
    input: PlanInput,
    work: PlanWork,
    i: int,
    later: PlanWork,
    j: int,
)
    requires
        !input.opens(i, work.state),
        !input.opens(j, later.state),
        0 <= work.state.gop_base,
        work.state.gop_base + input.pictures[i].header.temporal_reference
            < later.state.gop_base + input.pictures[j].header.temporal_reference,
        later.state.gop_base + input.pictures[j].header.temporal_reference <= 0x3fff_ffff,
    ensures
        input.context(i, work).poc + 1 < input.context(j, later).poc,
        syntax::CLONE_POC < input.context(j, later).poc,
{
}

} // verus!
