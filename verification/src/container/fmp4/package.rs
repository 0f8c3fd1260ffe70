//! Whole presentations and single fragments.
use crate::container::adts;
use crate::container::adts::AacConfig;
use crate::container::fmp4::init;
use crate::container::fmp4::init::{CodecView, VideoCodec};
use crate::container::fmp4::media;
use crate::container::fmp4::payload;
use crate::container::fmp4::payload::{PayloadView, VideoPayload};
use crate::container::fmp4::timeline::{Mpeg2Unit, Mpeg2VideoTimeline, TimelineView, UnitView};
use crate::container::fmp4::timing;
use crate::container::fmp4::timing::{SampleTiming, TimingView, UnitLeadIn};
use crate::error::Error;
use crate::h264::bitwriter::nal_type;
use vstd::prelude::*;

verus! {

/// One presentation: its initialization segment, and all its media in one more.
#[derive(Clone, Debug)]
pub struct Fmp4Output {
    pub init_segment: Vec<u8>,
    pub media_segment: Vec<u8>,
    pub mime_codec: String,
    pub sample_count: usize,
}

/// The AAC access units that share a fragment with the video, and where the
/// audio track's own timeline has reached.
#[derive(Clone, Debug)]
pub struct Fmp4AudioSamples {
    pub config: AacConfig,
    pub samples: Vec<Vec<u8>>,
    pub base_decode_time: u64,
}

#[derive(Clone, Debug)]
pub struct Fmp4Fragment {
    /// Empty for every fragment after the first: the conversion emits the
    /// parameter sets once, and MSE needs the initialization segment once.
    pub init_segment: Vec<u8>,
    pub media_segment: Vec<u8>,
    /// Empty when this fragment carries no parameter sets to describe.
    pub mime_codec: String,
    pub sample_count: usize,
    /// Presentation time this fragment covers; see
    /// [`crate::container::fmp4::timing::mpeg2_sample_timing`].
    pub duration: u64,
}

/// The samples of a coded unit, when each is decoded and shown, and which of them a
/// decoder can be started on.
#[verifier::ext_equal]
pub struct CodedView {
    pub samples: Seq<Seq<Seq<u8>>>,
    pub timing: TimingView,
    pub sync_samples: Seq<bool>,
}

/// What the opening sample has to stand in for, where the unit holds this many
/// samples more than its pictures take.
pub open spec fn lead_in_of(extra: int, copied: bool) -> UnitLeadIn {
    if extra == 1 && !copied {
        UnitLeadIn::IdrClone
    } else {
        UnitLeadIn::Nothing
    }
}

/// The recovery point's own sample opens a decode chain.
pub open spec fn copies_recovery(samples: Seq<Seq<Seq<u8>>>, recovery: Option<int>) -> bool {
    recovery matches Some(index) && 0 <= index < samples.len() && payload::any_of_kind(
        samples[index],
        5,
    )
}

/// How many samples of the unit its pictures do not account for.
pub open spec fn unit_extra(nals: Seq<Seq<u8>>, t: TimelineView) -> Option<int> {
    let samples = payload::samples_of(nals);
    timing::extra_samples(
        samples.len() as int,
        timing::content_samples(t) as int,
        copies_recovery(samples, payload::recovery_index(nals)),
        t.split_field_samples,
    )
}

/// The unit's own samples, marked and timed.
#[verifier::opaque]
pub open spec fn coded_unit(nals: Seq<Seq<u8>>, t: TimelineView) -> Result<CodedView, Error> {
    let samples = payload::samples_of(nals);
    let recovery = payload::recovery_index(nals);
    let copied = copies_recovery(samples, recovery);
    match unit_extra(nals, t) {
        None => Err(
            Error::SampleCount {
                samples: samples.len() as usize,
                timeline: timing::content_samples(t) as usize,
            },
        ),
        Some(extra) => {
            let base = timing::timing_of(t, lead_in_of(extra, copied));
            let timed: Result<TimingView, Error> = if copied {
                timing::with_copies(base, recovery->Some_0, extra as nat)
            } else {
                Ok(base)
            };
            match timed {
                Err(e) => Err(e),
                Ok(timing) => {
                    let marks = Seq::new(
                        samples.len(),
                        |i: int| payload::any_of_kind(samples[i], 5),
                    );
                    Ok(
                        CodedView {
                            samples: match (recovery, payload::found(nals, 6)) {
                                (Some(index), Some(sei)) => samples.update(
                                    index,
                                    samples[index].insert(0, sei),
                                ),
                                _ => samples,
                            },
                            timing,
                            sync_samples: match recovery {
                                Some(index) => marks.update(index, true),
                                None => marks,
                            },
                        },
                    )
                },
            }
        },
    }
}

/// The unit can be packaged: a recovery point in it is followed by its picture, which
/// stands among the pictures of the timeline, and the timeline's times can be told.
#[verifier::opaque]
pub open spec fn packable(nals: Seq<Seq<u8>>, t: TimelineView) -> bool {
    let samples = payload::samples_of(nals);
    let recovery = payload::recovery_index(nals);
    &&& timing::tellable(t)
    &&& unit_extra(nals, t) matches Some(extra) ==> {
        &&& timing::lead_fits(t, lead_in_of(extra, copies_recovery(samples, recovery)))
        &&& recovery matches Some(index) ==> index < samples.len()
        &&& copies_recovery(samples, recovery) ==> recovery->Some_0 <= timing::content_samples(t)
    }
}

/// The samples of a coded unit, when each is decoded and shown, and which of them a
/// decoder can be started on.
pub struct CodedUnit<'a> {
    pub samples: Vec<Vec<&'a [u8]>>,
    pub timing: SampleTiming,
    pub sync_samples: Vec<bool>,
}

impl<'a> View for CodedUnit<'a> {
    type V = CodedView;

    open spec fn view(&self) -> CodedView {
        CodedView {
            samples: payload::samples_view(self.samples@),
            timing: self.timing@,
            sync_samples: self.sync_samples@,
        }
    }
}

/// Which samples hold an intra picture that opens a decode chain.
fn mark_idr<'a>(samples: &Vec<Vec<&'a [u8]>>) -> (marks: Vec<bool>)
    requires
        forall|i: int|
            0 <= i < samples@.len() ==> payload::all_filled(
                #[trigger] payload::samples_view(samples@)[i],
            ),
    ensures
        marks@ == Seq::new(
            samples@.len(),
            |i: int| payload::any_of_kind(payload::samples_view(samples@)[i], 5),
        ),
{
    let mut marks: Vec<bool> = Vec::new();
    let mut i: usize = 0;
    while i < samples.len()
        invariant
            i <= samples@.len(),
            forall|j: int|
                0 <= j < samples@.len() ==> payload::all_filled(
                    #[trigger] payload::samples_view(samples@)[j],
                ),
            marks@ == Seq::new(
                i as nat,
                |j: int| payload::any_of_kind(payload::samples_view(samples@)[j], 5),
            ),
        decreases samples@.len() - i,
    {
        assert(payload::samples_view(samples@)[i as int] == payload::parts_view(
            samples@[i as int]@,
        ));
        marks.push(payload::contains_kind(&samples[i], nal_type::SLICE_IDR));
        i = i + 1;
        assert(marks@ =~= Seq::new(
            i as nat,
            |j: int| payload::any_of_kind(payload::samples_view(samples@)[j], 5),
        ));
    }
    marks
}

/// Slices are not empty, so neither are the samples made of them.
proof fn lemma_samples_filled(nals: Seq<Seq<u8>>)
    requires
        payload::all_filled(nals),
    ensures
        forall|i: int|
            0 <= i < payload::samples_of(nals).len() ==> payload::all_filled(
                #[trigger] payload::samples_of(nals)[i],
            ),
        payload::samples_of(nals).len() <= nals.len(),
        forall|i: int|
            0 <= i < payload::samples_of(nals).len() ==> (#[trigger] payload::samples_of(
                nals,
            )[i]).len() <= nals.len(),
{
    lemma_lone_filled(nals, nals.len());
    lemma_delimited_filled(nals, nals.len());
}

proof fn lemma_lone_filled(nals: Seq<Seq<u8>>, n: nat)
    requires
        payload::all_filled(nals),
        n <= nals.len(),
    ensures
        forall|i: int|
            0 <= i < payload::lone_slices(nals, n).len() ==> payload::all_filled(
                #[trigger] payload::lone_slices(nals, n)[i],
            ),
        payload::lone_slices(nals, n).len() <= n,
        forall|i: int|
            0 <= i < payload::lone_slices(nals, n).len() ==> (#[trigger] payload::lone_slices(
                nals,
                n,
            )[i]).len() <= n,
    decreases n,
{
    if n > 0 {
        lemma_lone_filled(nals, (n - 1) as nat);
    }
}

proof fn lemma_delimited_filled(nals: Seq<Seq<u8>>, n: nat)
    requires
        payload::all_filled(nals),
        n <= nals.len(),
    ensures
        ({
            let (samples, current) = payload::delimited(nals, n);
            &&& payload::all_filled(current)
            &&& samples.len() + current.len() <= n
            &&& forall|i: int|
                0 <= i < samples.len() ==> payload::all_filled(#[trigger] samples[i])
            &&& forall|i: int| 0 <= i < samples.len() ==> (#[trigger] samples[i]).len() <= n
        }),
    decreases n,
{
    if n > 0 {
        lemma_delimited_filled(nals, (n - 1) as nat);
    }
}

/// Gather the slices of a unit into samples, and time and mark them.
pub fn code_unit<'a>(nals: &Vec<&'a [u8]>, timeline: &Mpeg2VideoTimeline) -> (result: Result<
    CodedUnit<'a>,
    Error,
>)
    requires
        payload::all_filled(payload::parts_view(nals@)),
        packable(payload::parts_view(nals@), timeline@),
    ensures
        match result {
            Ok(unit) => coded_unit(payload::parts_view(nals@), timeline@) == Ok::<
                CodedView,
                Error,
            >(unit@),
            Err(e) => coded_unit(payload::parts_view(nals@), timeline@) == Err::<
                CodedView,
                Error,
            >(e),
        },
        result matches Ok(unit) ==> {
            &&& unit.timing.durations@.len() == unit.samples@.len()
            &&& unit.timing.compositions@.len() == unit.samples@.len()
            &&& unit.sync_samples@.len() == unit.samples@.len()
            &&& unit.timing.durations@.len() <= 0x4000_0000
            &&& unit.timing.reorder_delay >= 0
        },
{
    reveal(packable);
    reveal(coded_unit);
    let ghost units = payload::parts_view(nals@);
    let mut samples = payload::video_samples(nals);
    let ghost plain = payload::samples_of(units);
    proof {
        lemma_samples_filled(units);
        assert(plain.len() == samples@.len());
        timing::lemma_content_samples(timeline@);
    }
    let content_samples: usize = timing::content_sample_count(timeline);
    let recovery = payload::recovery_sample_index(nals);
    let marks = mark_idr(&samples);
    assert(marks@ =~= Seq::new(plain.len(), |i: int| payload::any_of_kind(plain[i], 5)));
    let copied: bool = match recovery {
        Some(index) => index < samples.len() && marks[index],
        None => false,
    };
    assert(copied == copies_recovery(plain, payload::recovery_index(units)));
    let extra_samples: usize = match timing::recovery_extra_samples(
        samples.len(),
        content_samples,
        copied,
        timeline.split_field_samples,
    ) {
        Some(extra) => extra,
        None => {
            return Err(
                Error::SampleCount { samples: samples.len(), timeline: content_samples },
            );
        },
    };
    assert(unit_extra(units, timeline@) == Some(extra_samples as int));
    let has_idr_clone: bool = extra_samples == 1 && !copied;
    let lead_in = if has_idr_clone {
        UnitLeadIn::IdrClone
    } else {
        UnitLeadIn::Nothing
    };
    let mut timing = timing::mpeg2_sample_timing(timeline, lead_in);
    proof {
        timing::law_one_timing_per_sample(timeline@, lead_in);
    }
    let mut sync_samples = marks;
    match recovery {
        Some(index) => {
            sync_samples[index] = true;
            if copied {
                match timing::insert_recovery_copy_timing(&mut timing, index, extra_samples) {
                    Ok(_) => {},
                    Err(e) => {
                        return Err(e);
                    },
                }
            }
            match payload::find_unit(nals, nal_type::SEI) {
                Some(sei) => {
                    let ghost before = samples@;
                    assert(plain[index as int] == payload::parts_view(before[index as int]@));
                    assert(before[index as int]@.len() == plain[index as int].len());
                    samples[index].insert(0, sei);
                    assert(payload::parts_view(samples@[index as int]@)
                        =~= plain[index as int].insert(0, sei@));
                    assert(payload::samples_view(samples@) =~= plain.update(
                        index as int,
                        plain[index as int].insert(0, sei@),
                    ));
                },
                None => {},
            }
        },
        None => {},
    }
    Ok(CodedUnit { samples, timing, sync_samples })
}

/// The payload of a coded unit.
pub open spec fn coded_payload(unit: CodedView) -> PayloadView {
    PayloadView { samples: unit.samples, length_prefixed: true }
}

/// The payload of a coded unit.
fn avc_payload<'a>(samples: Vec<Vec<&'a [u8]>>) -> (video: VideoPayload<'a>)
    ensures
        video@ == (PayloadView {
            samples: payload::samples_view(samples@),
            length_prefixed: true,
        }),
{
    let nothing: Vec<&'a [u8]> = Vec::new();
    let ghost plain = payload::samples_view(samples@);
    proof {
        if samples@.len() > 0 {
            assert(samples@[0].len() == samples@[0]@.len());
            assert(payload::parts_view(nothing@) + plain[0] =~= plain[0]);
            assert(plain.update(0, plain[0]) =~= plain);
        }
    }
    VideoPayload::avc(samples, &nothing)
}

/// What a presentation of a coded stream holds, or why there is none.
pub open spec fn h264_presentation(h264: Seq<u8>, t: TimelineView) -> Result<
    (Seq<u8>, Seq<u8>, Seq<char>, nat),
    Error,
> {
    let nals = payload::annex_b_units(h264);
    match (payload::found(nals, 7), payload::found(nals, 8)) {
        (Some(sps), Some(pps)) => match coded_unit(nals, t) {
            Err(e) => Err(e),
            Ok(unit) => {
                let codec = CodecView::Avc { sps, pps };
                if !init::describable(codec) {
                    Err(Error::ShortParameterSet)
                } else {
                    Ok(
                        (
                            init::init_bytes(
                                codec,
                                t.width,
                                t.height,
                                t.sample_aspect_ratio,
                                None,
                            ),
                            media::video_segment(
                                coded_payload(unit),
                                unit.timing.durations,
                                unit.timing.compositions,
                                unit.sync_samples,
                                1,
                                0,
                            ),
                            init::mime_of(codec, false),
                            unit.samples.len(),
                        ),
                    )
                }
            },
        },
        _ => Err(Error::MissingParameterSets),
    }
}

/// The presentation that an output is.
pub open spec fn output_view(output: Fmp4Output) -> (Seq<u8>, Seq<u8>, Seq<char>, nat) {
    (
        output.init_segment@,
        output.media_segment@,
        output.mime_codec@,
        output.sample_count as nat,
    )
}

/// Package an Annex B stream as one video-only presentation.
pub fn h264_to_fmp4(h264: &[u8], timeline: &Mpeg2VideoTimeline) -> (result: Result<
    Fmp4Output,
    Error,
>)
    requires
        packable(payload::annex_b_units(h264@), timeline@),
        init::display_fits(timeline.width, timeline.sample_aspect_ratio),
    ensures
        match result {
            Ok(output) => h264_presentation(h264@, timeline@) == Ok::<
                (Seq<u8>, Seq<u8>, Seq<char>, nat),
                Error,
            >(output_view(output)),
            Err(e) => h264_presentation(h264@, timeline@) == Err::<
                (Seq<u8>, Seq<u8>, Seq<char>, nat),
                Error,
            >(e),
        },
{
    let nals = payload::split_annex_b(h264);
    proof {
        payload::law_split_units_are_not_empty(h264@);
    }
    let sps = payload::find_unit(&nals, nal_type::SPS);
    let pps = payload::find_unit(&nals, nal_type::PPS);
    match (sps, pps) {
        (Some(sps), Some(pps)) => {
            let unit = match code_unit(&nals, timeline) {
                Ok(unit) => unit,
                Err(e) => {
                    return Err(e);
                },
            };
            let ghost coded = unit@;
            let codec = VideoCodec::Avc { sps, pps };
            let (init_segment, mime_codec) = match init::make_init_segment(
                codec,
                timeline.width,
                timeline.height,
                timeline.sample_aspect_ratio,
                None,
            ) {
                Ok(segment) => segment,
                Err(e) => {
                    return Err(e);
                },
            };
            let video = avc_payload(unit.samples);
            assert(video@ == coded_payload(coded));
            let media_segment = media::make_media_segment(
                &video,
                &unit.timing.durations,
                &unit.timing.compositions,
                &unit.sync_samples,
                1,
                0,
            );
            Ok(
                Fmp4Output { init_segment, media_segment, mime_codec, sample_count: video.len() },
            )
        },
        _ => Err(Error::MissingParameterSets),
    }
}

/// What a presentation of a unit carried through untouched holds.
pub open spec fn mpeg2_presentation(es: Seq<u8>, unit: UnitView) -> (
    Seq<u8>,
    Seq<u8>,
    Seq<char>,
    nat,
) {
    let t = unit.timeline;
    let codec = CodecView::Mpeg2 { sequence_header: es.take(unit.sequence_header_len) };
    let video = payload::passthrough(es, unit);
    let timing = timing::timing_of(t, UnitLeadIn::FirstPicture);
    (
        init::init_bytes(codec, t.width, t.height, t.sample_aspect_ratio, None),
        media::video_segment(
            video,
            timing.durations,
            timing.compositions,
            payload::sync_marks(unit, true, unit.samples.len()),
            1,
            0,
        ),
        init::mime_of(codec, false),
        video.samples.len(),
    )
}

/// The unit has a sample for each picture of its timeline, and where fields are split,
/// one that is cut in two where the timeline's is.
pub open spec fn in_step(unit: UnitView) -> bool {
    &&& unit.samples.len() == unit.timeline.presentation_indices.len()
    &&& unit.timeline.split_field_samples ==> forall|i: int|
        0 <= i < unit.samples.len() ==> (#[trigger] unit.samples[i]).field_end is Some
            == unit.timeline.pair_at(i)
}

/// As many samples as the timeline's pictures take.
proof fn lemma_in_step(es: Seq<u8>, unit: UnitView, n: nat)
    requires
        in_step(unit),
        n <= unit.samples.len(),
    ensures
        payload::unit_samples(es, unit, n).len() == timing::samples_before(unit.timeline, n),
    decreases n,
{
    if n > 0 {
        lemma_in_step(es, unit, (n - 1) as nat);
        if unit.timeline.split_field_samples {
            assert(unit.samples[n - 1].field_end is Some == unit.timeline.pair_at(n - 1));
        }
    }
}

/// Package an MPEG-2 unit as one video-only presentation, carrying its video
/// through untouched.
pub fn mpeg2_to_fmp4(es: &[u8], unit: &Mpeg2Unit) -> (result: Result<Fmp4Output, Error>)
    requires
        unit@.fits(es@.len() as int),
        in_step(unit@),
        timing::tellable(unit@.timeline),
        timing::lead_fits(unit@.timeline, UnitLeadIn::FirstPicture),
        init::display_fits(unit.timeline.width, unit.timeline.sample_aspect_ratio),
    ensures
        result matches Ok(output) && output_view(output) == mpeg2_presentation(es@, unit@),
{
    let timing = timing::mpeg2_sample_timing(&unit.timeline, UnitLeadIn::FirstPicture);
    // A whole presentation opens where a decoder has to be able to start.
    let sync_samples = payload::mpeg2_sync_samples(unit, true);
    let video = payload::mpeg2_payload(es, unit);
    proof {
        timing::law_one_timing_per_sample(unit@.timeline, UnitLeadIn::FirstPicture);
        lemma_in_step(es@, unit@, unit@.samples.len());
        payload::law_only_the_first_sample_is_marked(es@, unit@, true);
        assert(es@.subrange(0, unit.sequence_header_len as int) =~= es@.take(
            unit.sequence_header_len as int,
        ));
    }
    let (init_segment, mime_codec) = match init::make_init_segment(
        VideoCodec::Mpeg2 { sequence_header: &es[0..unit.sequence_header_len] },
        unit.timeline.width,
        unit.timeline.height,
        unit.timeline.sample_aspect_ratio,
        None,
    ) {
        Ok(segment) => segment,
        Err(e) => {
            return Err(e);
        },
    };
    let media_segment = media::make_media_segment(
        &video,
        &timing.durations,
        &timing.compositions,
        &sync_samples,
        1,
        0,
    );
    Ok(Fmp4Output { init_segment, media_segment, mime_codec, sample_count: video.len() })
}

/// A fragment as a mathematical value.
#[verifier::ext_equal]
pub struct FragmentView {
    pub init_segment: Seq<u8>,
    pub media_segment: Seq<u8>,
    pub mime_codec: Seq<char>,
    pub sample_count: nat,
    pub duration: int,
}

impl View for Fmp4Fragment {
    type V = FragmentView;

    open spec fn view(&self) -> FragmentView {
        FragmentView {
            init_segment: self.init_segment@,
            media_segment: self.media_segment@,
            mime_codec: self.mime_codec@,
            sample_count: self.sample_count as nat,
            duration: self.duration as int,
        }
    }
}

/// Where a fragment's decode timeline begins: ahead of what is shown by the reorder
/// delay, or at the very start where there is no room for it.
pub open spec fn base_time(presentation_start: u64, reorder_delay: int) -> u64 {
    if presentation_start >= reorder_delay {
        (presentation_start - reorder_delay) as u64
    } else {
        0
    }
}

/// One fragment, whatever the video in it is coded as.
pub open spec fn fragment_of(
    video: PayloadView,
    t: TimelineView,
    timing: TimingView,
    sync_samples: Seq<bool>,
    describe: Option<CodecView>,
    sequence_number: u32,
    presentation_start: u64,
    audio: Option<&AacConfig>,
    audio_track: Option<&Fmp4AudioSamples>,
) -> Result<FragmentView, Error> {
    let base = base_time(presentation_start, timing.reorder_delay);
    if describe matches Some(codec) && !init::describable(codec) {
        Err(Error::ShortParameterSet)
    } else {
        Ok(
            FragmentView {
                init_segment: match describe {
                    Some(codec) => init::init_bytes(
                        codec,
                        t.width,
                        t.height,
                        t.sample_aspect_ratio,
                        adts::config_view(audio),
                    ),
                    None => seq![],
                },
                media_segment: match audio_track {
                    Some(track) => media::shared_segment(
                        video,
                        timing.durations,
                        timing.compositions,
                        sync_samples,
                        media::views(track.samples@),
                        sequence_number,
                        base,
                        track.base_decode_time,
                    ),
                    None => media::video_segment(
                        video,
                        timing.durations,
                        timing.compositions,
                        sync_samples,
                        sequence_number,
                        base,
                    ),
                },
                mime_codec: match describe {
                    Some(codec) => init::mime_of(codec, audio is Some),
                    None => seq![],
                },
                sample_count: video.samples.len(),
                duration: timing::total(timing.durations),
            },
        )
    }
}

/// The codec that is described, if one is.
pub open spec fn codec_view(codec: Option<VideoCodec<'_>>) -> Option<CodecView> {
    match codec {
        Some(c) => Some(c@),
        None => None,
    }
}

/// Put one fragment together, whatever the video in it is coded as.
pub fn make_fragment(
    video: VideoPayload<'_>,
    timeline: &Mpeg2VideoTimeline,
    timing: &SampleTiming,
    sync_samples: &Vec<bool>,
    describe: Option<VideoCodec<'_>>,
    sequence_number: u32,
    presentation_start: u64,
    audio: Option<&AacConfig>,
    audio_track: Option<&Fmp4AudioSamples>,
) -> (result: Result<Fmp4Fragment, Error>)
    requires
        timing.durations@.len() >= video@.samples.len(),
        timing.compositions@.len() >= video@.samples.len(),
        sync_samples@.len() >= video@.samples.len(),
        timing.durations@.len() <= 0x4000_0000,
        timing.reorder_delay >= 0,
        init::display_fits(timeline.width, timeline.sample_aspect_ratio),
    ensures
        match result {
            Ok(fragment) => fragment_of(
                video@,
                timeline@,
                timing@,
                sync_samples@,
                codec_view(describe),
                sequence_number,
                presentation_start,
                audio,
                audio_track,
            ) == Ok::<FragmentView, Error>(fragment@),
            Err(e) => fragment_of(
                video@,
                timeline@,
                timing@,
                sync_samples@,
                codec_view(describe),
                sequence_number,
                presentation_start,
                audio,
                audio_track,
            ) == Err::<FragmentView, Error>(e),
        },
{
    // Decoding runs ahead of display by the reorder delay; a fragment at the
    // very start of the timeline has nowhere to put it and simply displays that
    // much later.
    let delay: u64 = timing.reorder_delay as u64;
    let base_decode_time: u64 = if presentation_start >= delay {
        presentation_start - delay
    } else {
        0
    };
    let media_segment = match audio_track {
        Some(track) => media::make_av_media_segment(
            &video,
            &timing.durations,
            &timing.compositions,
            sync_samples,
            &track.samples,
            sequence_number,
            base_decode_time,
            track.base_decode_time,
        ),
        None => media::make_media_segment(
            &video,
            &timing.durations,
            &timing.compositions,
            sync_samples,
            sequence_number,
            base_decode_time,
        ),
    };
    let (init_segment, mime_codec) = match describe {
        Some(codec) => match init::make_init_segment(
            codec,
            timeline.width,
            timeline.height,
            timeline.sample_aspect_ratio,
            audio,
        ) {
            Ok(segment) => segment,
            Err(e) => {
                return Err(e);
            },
        },
        None => (Vec::new(), String::new()),
    };
    Ok(
        Fmp4Fragment {
            init_segment,
            media_segment,
            mime_codec,
            sample_count: video.len(),
            duration: timing::sum_of(&timing.durations),
        },
    )
}

/// One fragment of a coded stream.
pub open spec fn h264_fragment(
    h264: Seq<u8>,
    t: TimelineView,
    sequence_number: u32,
    presentation_start: u64,
    audio: Option<&AacConfig>,
    audio_track: Option<&Fmp4AudioSamples>,
) -> Result<FragmentView, Error> {
    let nals = payload::annex_b_units(h264);
    match coded_unit(nals, t) {
        Err(e) => Err(e),
        Ok(unit) => fragment_of(
            coded_payload(unit),
            t,
            unit.timing,
            unit.sync_samples,
            match (payload::found(nals, 7), payload::found(nals, 8)) {
                (Some(sps), Some(pps)) => Some(CodecView::Avc { sps, pps }),
                _ => None,
            },
            sequence_number,
            presentation_start,
            audio,
            audio_track,
        ),
    }
}

/// Package one independently converted GOP for incremental appending.
///
/// `presentation_start` is the media time of the fragment's first displayed
/// picture, in the 90 kHz movie timescale.
pub fn h264_gop_to_fmp4(
    h264: &[u8],
    timeline: &Mpeg2VideoTimeline,
    sequence_number: u32,
    presentation_start: u64,
    audio: Option<&AacConfig>,
    audio_track: Option<&Fmp4AudioSamples>,
) -> (result: Result<Fmp4Fragment, Error>)
    requires
        packable(payload::annex_b_units(h264@), timeline@),
        init::display_fits(timeline.width, timeline.sample_aspect_ratio),
    ensures
        match result {
            Ok(fragment) => h264_fragment(
                h264@,
                timeline@,
                sequence_number,
                presentation_start,
                audio,
                audio_track,
            ) == Ok::<FragmentView, Error>(fragment@),
            Err(e) => h264_fragment(
                h264@,
                timeline@,
                sequence_number,
                presentation_start,
                audio,
                audio_track,
            ) == Err::<FragmentView, Error>(e),
        },
{
    let nals = payload::split_annex_b(h264);
    proof {
        payload::law_split_units_are_not_empty(h264@);
    }
    let sps = payload::find_unit(&nals, nal_type::SPS);
    let pps = payload::find_unit(&nals, nal_type::PPS);
    let unit = match code_unit(&nals, timeline) {
        Ok(unit) => unit,
        Err(e) => {
            return Err(e);
        },
    };
    let ghost coded = unit@;
    // The parameter sets are written once, by the unit that opens the stream,
    // so that is the unit that has an initialization segment to describe.
    let describe = match (sps, pps) {
        (Some(sps), Some(pps)) => Some(VideoCodec::Avc { sps, pps }),
        _ => None,
    };
    let video = avc_payload(unit.samples);
    assert(video@ == coded_payload(coded));
    make_fragment(
        video,
        timeline,
        &unit.timing,
        &unit.sync_samples,
        describe,
        sequence_number,
        presentation_start,
        audio,
        audio_track,
    )
}

/// One fragment of a unit carried through untouched.
pub open spec fn mpeg2_fragment(
    es: Seq<u8>,
    unit: UnitView,
    sequence_number: u32,
    presentation_start: u64,
    lead_in: UnitLeadIn,
    random_access: bool,
    describe: bool,
    audio: Option<&AacConfig>,
    audio_track: Option<&Fmp4AudioSamples>,
) -> Result<FragmentView, Error> {
    fragment_of(
        payload::passthrough(es, unit),
        unit.timeline,
        timing::timing_of(unit.timeline, lead_in),
        payload::sync_marks(unit, random_access, unit.samples.len()),
        if describe {
            Some(CodecView::Mpeg2 { sequence_header: es.take(unit.sequence_header_len) })
        } else {
            None
        },
        sequence_number,
        presentation_start,
        audio,
        audio_track,
    )
}

/// Package one unit of MPEG-2 video for incremental appending, carrying the
/// video through untouched.
///
/// `describe` asks for the initialization segment, which the caller wants from
/// the first fragment only: every unit opens with a sequence header, so unlike
/// a converted one there is nothing in the unit itself to say which is
/// which.
pub fn mpeg2_gop_to_fmp4(
    es: &[u8],
    unit: &Mpeg2Unit,
    sequence_number: u32,
    presentation_start: u64,
    lead_in: UnitLeadIn,
    random_access: bool,
    describe: bool,
    audio: Option<&AacConfig>,
    audio_track: Option<&Fmp4AudioSamples>,
) -> (result: Result<Fmp4Fragment, Error>)
    requires
        unit@.fits(es@.len() as int),
        in_step(unit@),
        timing::tellable(unit@.timeline),
        timing::lead_fits(unit@.timeline, lead_in),
        init::display_fits(unit.timeline.width, unit.timeline.sample_aspect_ratio),
    ensures
        result matches Ok(fragment) && mpeg2_fragment(
            es@,
            unit@,
            sequence_number,
            presentation_start,
            lead_in,
            random_access,
            describe,
            audio,
            audio_track,
        ) == Ok::<FragmentView, Error>(fragment@),
{
    let timing = timing::mpeg2_sample_timing(&unit.timeline, lead_in);
    let sync_samples = payload::mpeg2_sync_samples(unit, random_access);
    let video = payload::mpeg2_payload(es, unit);
    proof {
        timing::law_one_timing_per_sample(unit@.timeline, lead_in);
        timing::lemma_content_samples(unit@.timeline);
        lemma_in_step(es@, unit@, unit@.samples.len());
        payload::law_only_the_first_sample_is_marked(es@, unit@, random_access);
        assert(es@.subrange(0, unit.sequence_header_len as int) =~= es@.take(
            unit.sequence_header_len as int,
        ));
    }
    let described = if describe {
        Some(VideoCodec::Mpeg2 { sequence_header: &es[0..unit.sequence_header_len] })
    } else {
        None
    };
    make_fragment(
        video,
        &unit.timeline,
        &timing,
        &sync_samples,
        described,
        sequence_number,
        presentation_start,
        audio,
        audio_track,
    )
}

} // verus!
