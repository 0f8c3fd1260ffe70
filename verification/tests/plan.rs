//! What units become: which pictures are coded, in which order, and against what.
use mpeg2toh264::container::fmp4::{mpeg2_passthrough_unit, mpeg2_video_timeline};
use mpeg2toh264::container::fmp4::payload::{split_annex_b, unit_kind};
use mpeg2toh264::error::Error;
use mpeg2toh264::job::{PictureContext, PictureOutput, TranscoderState, JOB_HEADER_LEN};
use mpeg2toh264::mpeg2::headers::{parse_elementary_stream, stream_sequence_description};
use mpeg2toh264::transcode::plan::Part;
use mpeg2toh264::transcode::{
    plan_unit, IncrementalTranscoder, OpenGopRecovery, Stats, Step, TranscodeOptions, UnitPlan,
    UnitRequest,
};

struct Bits {
    bytes: Vec<u8>,
    count: usize,
}

impl Bits {
    fn new() -> Self {
        Bits {
            bytes: Vec::new(),
            count: 0,
        }
    }

    fn u(&mut self, value: u32, width: usize) -> &mut Self {
        for shift in (0..width).rev() {
            if self.count % 8 == 0 {
                self.bytes.push(0);
            }
            let last = self.bytes.len() - 1;
            self.bytes[last] |= (((value >> shift) & 1) as u8) << (7 - self.count % 8);
            self.count += 1;
        }
        self
    }

    fn append(&self, stream: &mut Vec<u8>, code: u8) {
        stream.extend_from_slice(&[0, 0, 1, code]);
        stream.extend_from_slice(&self.bytes);
    }
}

fn sequence(stream: &mut Vec<u8>, width: u32, height: u32) {
    let mut b = Bits::new();
    b.u(width, 12).u(height, 12).u(1, 4).u(3, 4).u(1000, 18).u(1, 1);
    b.u(20, 10).u(0, 1).u(0, 1).u(0, 1);
    b.append(stream, 0xb3);
}

/// A sequence extension, which makes the stream MPEG-2.
fn sequence_extension(stream: &mut Vec<u8>, progressive: bool) {
    let mut b = Bits::new();
    b.u(1, 4).u(0x48, 8).u(u32::from(progressive), 1).u(1, 2).u(0, 2).u(0, 2);
    b.u(0, 12).u(1, 1).u(0, 8).u(0, 1).u(0, 2).u(0, 5);
    b.append(stream, 0xb5);
}

fn group(stream: &mut Vec<u8>) {
    let mut b = Bits::new();
    b.u(0, 27);
    b.append(stream, 0xb8);
}

fn picture_header(stream: &mut Vec<u8>, kind: u32, temporal_reference: u32) {
    let mut b = Bits::new();
    b.u(temporal_reference, 10).u(kind, 3).u(0xffff, 16);
    if kind >= 2 {
        b.u(0, 1).u(1, 3);
    }
    if kind == 3 {
        b.u(0, 1).u(1, 3);
    }
    b.u(0, 1);
    b.append(stream, 0);
}

/// A picture coding extension. The structure is 1 for a top field, 2 for a bottom field
/// and 3 for a frame.
fn picture_coding(stream: &mut Vec<u8>, structure: u32) {
    let mut b = Bits::new();
    b.u(8, 4).u(15, 4).u(15, 4).u(15, 4).u(15, 4).u(0, 2).u(structure, 2);
    b.u(1, 1).u(u32::from(structure == 3), 1).u(0, 1).u(0, 1).u(0, 1).u(0, 1);
    b.u(0, 1).u(0, 1).u(u32::from(structure == 3), 1).u(0, 1);
    b.append(stream, 0xb5);
}

fn slice(stream: &mut Vec<u8>, intra_type: &str) {
    let mut b = Bits::new();
    b.u(2, 5).u(0, 1).u(1, 1);
    for bit in intra_type.bytes() {
        b.u(u32::from(bit == b'1'), 1);
    }
    for block in 0..6 {
        // dct_dc_size 0 and end_of_block.
        if block < 4 {
            b.u(4, 3);
        } else {
            b.u(0, 2);
        }
        b.u(2, 2);
    }
    b.append(stream, 1);
}

/// One macroblock of MPEG-1 video for each picture: its type and when it is shown.
fn frames(pictures: &[(u32, u32)]) -> Vec<u8> {
    let mut stream = Vec::new();
    sequence(&mut stream, 16, 16);
    group(&mut stream);
    for &(kind, temporal_reference) in pictures {
        picture_header(&mut stream, kind, temporal_reference);
        slice(&mut stream, if kind == 1 { "1" } else { "00011" });
    }
    stream.extend_from_slice(&[0, 0, 1, 0xb7]);
    stream
}

/// Interlaced MPEG-2 video of one macroblock pair: each picture is a type, when it is
/// shown, and its structure.
fn fields(pictures: &[(u32, u32, u32)]) -> Vec<u8> {
    let mut stream = Vec::new();
    sequence(&mut stream, 16, 32);
    sequence_extension(&mut stream, false);
    group(&mut stream);
    for &(kind, temporal_reference, structure) in pictures {
        picture_header(&mut stream, kind, temporal_reference);
        picture_coding(&mut stream, structure);
        slice(&mut stream, if kind == 1 { "1" } else { "00011" });
    }
    stream.extend_from_slice(&[0, 0, 1, 0xb7]);
    stream
}

const IPBB: [(u32, u32); 4] = [(1, 0), (2, 3), (3, 1), (3, 2)];

/// An open group: the leading B pictures are shown before the I picture.
const OPEN: [(u32, u32); 4] = [(1, 2), (3, 0), (3, 1), (2, 5)];

fn plan(data: &[u8], state: &TranscoderState, request: UnitRequest) -> UnitPlan {
    plan_unit(data, state, TranscodeOptions::default(), request, &[]).expect("the unit plans")
}

fn context(plan: &UnitPlan, index: usize) -> PictureContext {
    PictureContext::decode(&plan.jobs[index].data).expect("the job has a context")
}

/// The parts of a plan by the kind of unit each begins with; a place for a job is 0.
fn kinds(plan: &UnitPlan) -> Vec<u8> {
    plan.parts
        .iter()
        .map(|part| match part {
            Part::Literal(bytes) => unit_kind(split_annex_b(bytes)[0]),
            Part::Picture(_) => 0,
        })
        .collect()
}

#[test]
fn a_recovery_idr_starts_a_new_picture_order_epoch() {
    let data = frames(&IPBB);
    let first = plan(&data, &TranscoderState::new(), UnitRequest::default());
    let mut state = first.state;
    state.gop_base = 1 << 13;

    let recovery = plan(
        &data,
        &state,
        UnitRequest {
            recovery_point: true,
            ..UnitRequest::default()
        },
    );

    assert!(recovery.recovery_emitted);
    assert_eq!(recovery.state.gop_base, 0);
}

#[test]
fn an_opening_unit_carries_its_parameter_sets_an_idr_and_its_copy() {
    let data = frames(&IPBB);
    let plan = plan(&data, &TranscoderState::new(), UnitRequest::default());
    // SPS, PPS, the IDR, its copy, P, B, B.
    assert_eq!(kinds(&plan), [7, 8, 0, 1, 0, 0, 0]);
    assert!(plan.described);
    assert_eq!(plan.pictures_converted, 4);
    assert_eq!(plan.pictures_skipped, 0);
    let frame_nums: Vec<u32> = (0..4).map(|i| context(&plan, i).frame_num).collect();
    assert_eq!(frame_nums, [0, 2, 3, 3]);
    let pocs: Vec<u32> = (0..4).map(|i| context(&plan, i).poc).collect();
    assert_eq!(pocs, [0, 12, 4, 8]);
    assert!(context(&plan, 0).real_idr);
    assert!(!context(&plan, 2).is_reference);
    assert_eq!(context(&plan, 1).layout.l1_short_term_delta, Some(1));
    assert_eq!(context(&plan, 2).layout.bwd_l0, 1);
    assert_eq!(plan.state.short_term_count, 2);
    assert_eq!(plan.state.newest_short_term, 2);
}

#[test]
fn the_picture_order_of_each_recovery_mode() {
    let opening = frames(&IPBB);
    let open = frames(&OPEN);
    let start = plan(&opening, &TranscoderState::new(), UnitRequest::default()).state;
    let request = UnitRequest {
        recovery_point: true,
        ..UnitRequest::default()
    };
    let options = |open_gop_recovery| TranscodeOptions {
        open_gop_recovery,
        ..TranscodeOptions::default()
    };

    // I B B IDR clone P.
    let idr = plan_unit(&open, &start, options(OpenGopRecovery::Idr), request, &[]).unwrap();
    assert_eq!(kinds(&idr), [0, 0, 0, 6, 0, 1, 0]);
    assert_eq!(
        idr.jobs.iter().map(|job| job.source).collect::<Vec<_>>(),
        [0, 1, 2, 0, 3]
    );
    assert!(context(&idr, 0).recovery_intra);
    assert!(context(&idr, 3).real_idr);

    // I(r) B B P.
    let point = plan_unit(
        &open,
        &start,
        options(OpenGopRecovery::RecoveryPoint),
        request,
        &[],
    )
    .unwrap();
    assert_eq!(kinds(&point), [6, 0, 0, 0, 0]);
    assert!(point.recovery_emitted);

    // IDR clone P, the leading pictures dropped.
    let discard = plan_unit(
        &open,
        &start,
        options(OpenGopRecovery::Discard),
        UnitRequest {
            random_access: true,
            ..UnitRequest::default()
        },
        &[],
    )
    .unwrap();
    assert_eq!(kinds(&discard), [0, 1, 0]);
    assert_eq!(discard.pictures_skipped, 2);
}

#[test]
fn a_recovery_picture_at_the_end_of_a_unit_is_repeated_there() {
    let start = plan(
        &frames(&IPBB),
        &TranscoderState::new(),
        UnitRequest::default(),
    )
    .state;
    let unit = plan(
        &frames(&[(1, 2), (3, 0), (3, 1)]),
        &start,
        UnitRequest {
            recovery_point: true,
            ..UnitRequest::default()
        },
    );
    assert_eq!(kinds(&unit), [0, 0, 0, 6, 0, 1]);
    assert_eq!(unit.pictures_converted, 3);
    assert_eq!(unit.jobs.len(), 4);
}

#[test]
fn field_pairs_are_delimited_and_coded_as_one_job() {
    let data = fields(&[(1, 0, 1), (2, 0, 2), (2, 1, 1), (2, 1, 2)]);
    let plan = plan(&data, &TranscoderState::new(), UnitRequest::default());
    // SPS PPS, delimiter IDR, delimiter copy, delimiter P.
    assert_eq!(kinds(&plan), [7, 8, 9, 0, 9, 1, 9, 0]);
    assert_eq!(plan.jobs[0].mate, Some(1));
    assert_eq!(plan.jobs[1].source, 2);
    assert_eq!(context(&plan, 0).picture_count, 2);
}

#[test]
fn a_lone_field_is_skipped() {
    let data = fields(&[(1, 0, 3), (2, 1, 1)]);
    let plan = plan(&data, &TranscoderState::new(), UnitRequest::default());
    assert_eq!(plan.pictures_converted, 1);
    assert_eq!(plan.pictures_skipped, 1);
}

#[test]
fn nothing_is_coded_before_the_buffer_opens() {
    let data = frames(&[(2, 0), (3, 1), (1, 2)]);
    let plan = plan(&data, &TranscoderState::new(), UnitRequest::default());
    assert_eq!(plan.pictures_converted, 1);
    assert_eq!(plan.pictures_skipped, 2);
    assert_eq!(plan.jobs[0].source, 2);
}

#[test]
fn a_unit_that_codes_nothing_leaves_the_description_owed() {
    let data = frames(&[(2, 0), (2, 1)]);
    let plan = plan(&data, &TranscoderState::new(), UnitRequest::default());
    assert!(!plan.described);
    assert!(plan.parts.is_empty());
    assert!(!plan.state.initialized);
    assert!(plan.state.awaiting_idr);
}

#[test]
fn a_change_of_description_restarts_the_buffer() {
    let first = plan(
        &frames(&IPBB),
        &TranscoderState::new(),
        UnitRequest::default(),
    );
    let mut other = Vec::new();
    sequence(&mut other, 32, 16);
    picture_header(&mut other, 1, 0);
    slice(&mut other, "1");
    let second = plan(&other, &first.state, UnitRequest::default());
    assert!(second.described);
    assert!(context(&second, 0).real_idr);
    assert_eq!(second.state.description.width, 32);
    // The same description needs neither.
    let third = plan(&frames(&IPBB), &first.state, UnitRequest::default());
    assert!(!third.described);
    assert!(!context(&third, 0).real_idr);
    assert_eq!(context(&third, 0).frame_num, 3);
    assert_eq!(context(&third, 0).poc, 16);
}

#[test]
fn each_job_holds_a_stream_of_its_own() {
    let data = frames(&IPBB);
    let plan = plan(&data, &TranscoderState::new(), UnitRequest::default());
    let whole = parse_elementary_stream(&data).unwrap();
    for job in &plan.jobs {
        let stream = &job.data[JOB_HEADER_LEN..];
        let pictures = parse_elementary_stream(stream).unwrap();
        let picture = pictures.last().unwrap();
        let source = &whole[job.source];
        assert_eq!(pictures.len(), 1);
        assert_eq!(
            picture.header.temporal_reference,
            source.header.temporal_reference
        );
        assert_eq!(
            picture.header.picture_coding_type,
            source.header.picture_coding_type
        );
        assert_eq!(picture.slices.len(), source.slices.len());
        assert_eq!(
            stream_sequence_description(stream),
            stream_sequence_description(&data)
        );
    }
}

#[test]
fn the_timeline_has_a_sample_for_every_picture_the_plan_codes() {
    for data in [
        frames(&IPBB),
        frames(&OPEN),
        frames(&[(2, 0), (1, 1), (3, 2), (2, 4), (3, 3)]),
        fields(&[(1, 0, 1), (2, 0, 2), (2, 1, 1), (2, 2, 3)]),
    ] {
        let plan = plan(&data, &TranscoderState::new(), UnitRequest::default());
        let timeline = mpeg2_video_timeline(&data, false, &[]).unwrap();
        assert_eq!(
            plan.pictures_converted,
            timeline.presentation_indices.len()
        );
    }
}

#[test]
fn a_stream_without_pictures_is_refused() {
    let refused = plan_unit(
        &[0, 0, 1, 0xb7],
        &TranscoderState::new(),
        TranscodeOptions::default(),
        UnitRequest::default(),
        &[],
    );
    assert_eq!(refused.err(), Some(Error::NoPictures));
}

#[test]
fn a_sequence_header_without_its_marker_is_refused() {
    let mut data = frames(&IPBB);
    // The marker is the last bit of the eighth header byte but five.
    data[10] &= !0x20;
    assert_eq!(
        parse_elementary_stream(&data).err(),
        Some(Error::MissingMarker)
    );
}

fn output(decoded: bool, byte: u8, errors: u64) -> PictureOutput {
    PictureOutput {
        decoded,
        stats: Stats {
            errors,
            intra_macroblocks: 1,
            ..Stats::default()
        },
        bitstream: vec![byte],
    }
}

#[test]
fn a_unit_goes_out_and_comes_back() {
    let data = frames(&IPBB);
    let mut conversion = IncrementalTranscoder::new(TranscodeOptions::default());
    assert!(conversion.awaiting_random_access());
    assert!(conversion.split_field_samples());
    let jobs = conversion.begin(&data).unwrap();
    assert_eq!(jobs.len(), 4);
    let outputs: Vec<PictureOutput> = (0..4).map(|i| output(true, 0x10 + i, 0)).collect();
    let result = match conversion.complete(&data, &outputs).unwrap() {
        Step::Done(result) => result,
        Step::Again(_) => panic!("nothing was damaged"),
    };
    assert_eq!(result.pictures_converted, 4);
    assert_eq!(result.stats.intra_macroblocks, 4);
    assert!(result.undecodable.is_empty());
    // Each job's bytes stand in the place held for them: the IDR in front of its copy,
    // the others behind one another at the end.
    let end = result.bitstream.len();
    assert_eq!(&result.bitstream[end - 3..], &[0x11, 0x12, 0x13]);
    assert!(!conversion.awaiting_random_access());
}

#[test]
fn damage_is_answered_by_planning_again() {
    let data = frames(&IPBB);
    let mut conversion = IncrementalTranscoder::new(TranscodeOptions::default());
    conversion.begin(&data).unwrap();
    // The P picture does not decode.
    let outputs = [
        output(true, 1, 0),
        output(false, 2, 1),
        output(true, 3, 0),
        output(true, 4, 0),
    ];
    let again = match conversion.complete(&data, &outputs).unwrap() {
        Step::Again(jobs) => jobs,
        Step::Done(_) => panic!("a picture was damaged"),
    };
    // Without it the B pictures have only one reference, so only the IDR is left.
    assert_eq!(again.len(), 1);
    assert_eq!(conversion.errors(), 1);
    let result = match conversion.complete(&data, &[output(true, 9, 0)]).unwrap() {
        Step::Done(result) => result,
        Step::Again(_) => panic!("the second attempt is the last"),
    };
    assert_eq!(result.undecodable, [false, true]);
    assert_eq!(result.pictures_converted, 1);
    assert_eq!(result.pictures_skipped, 3);
    assert_eq!(result.stats.errors, 1);
}

#[test]
fn pictures_have_to_be_out_to_come_back() {
    let data = frames(&IPBB);
    let mut conversion = IncrementalTranscoder::new(TranscodeOptions::default());
    assert_eq!(
        conversion.complete(&data, &[]).err(),
        Some(Error::NoUnit)
    );
    conversion.begin(&data).unwrap();
    assert_eq!(
        conversion.complete(&data, &[]).err(),
        Some(Error::OutputCount {
            given: 0,
            planned: 4
        })
    );
}

#[test]
fn an_abandoned_unit_changes_nothing() {
    let data = frames(&IPBB);
    let other = frames(&OPEN);
    let mut once = IncrementalTranscoder::new(TranscodeOptions::default());
    let mut twice = IncrementalTranscoder::new(TranscodeOptions::default());
    twice.begin(&other).unwrap();
    assert_eq!(once.begin(&data).unwrap(), twice.begin(&data).unwrap());
}

#[test]
fn requests_wait_until_there_is_something_to_ask_of() {
    let data = frames(&IPBB);
    let mut conversion = IncrementalTranscoder::new(TranscodeOptions::default());
    conversion.request_random_access_point();
    conversion.request_recovery_point();
    assert!(!conversion.random_access_pending);
    assert!(!conversion.recovery_point_pending);
    conversion.begin(&data).unwrap();
    let outputs: Vec<PictureOutput> = (0..4).map(|_| output(true, 0, 0)).collect();
    conversion.complete(&data, &outputs).unwrap();
    conversion.request_random_access_point();
    conversion.request_description();
    assert!(conversion.awaiting_random_access());
    let jobs = conversion.begin(&data).unwrap();
    let first = PictureContext::decode(&jobs[0]).unwrap();
    assert!(first.real_idr);
    conversion.complete(&data, &outputs).unwrap();
    assert!(!conversion.random_access_pending);
    assert!(!conversion.description_pending);
}

#[test]
fn passthrough_samples_lie_in_order() {
    let data = fields(&[(1, 0, 1), (2, 0, 2), (2, 1, 1), (2, 1, 2), (1, 2, 3)]);
    let unit = mpeg2_passthrough_unit(&data, false).unwrap();
    assert_eq!(unit.timeline.field_pairs, [true, true, false]);
    assert_eq!(unit.samples.len(), unit.timeline.presentation_indices.len());
    let mut at = 0;
    for (sample, &pair) in unit.samples.iter().zip(&unit.timeline.field_pairs) {
        assert_eq!(sample.start, at);
        assert_eq!(sample.field_end.is_some(), pair);
        if let Some(cut) = sample.field_end {
            assert!(sample.start < cut && cut < sample.end);
        }
        at = sample.end;
    }
    assert_eq!(at, data.len() - 4);
    assert!(unit.samples[0].sync && !unit.samples[1].sync && unit.samples[2].sync);
    let timeline = mpeg2_video_timeline(&data, false, &[]).unwrap();
    assert_eq!(timeline.presentation_times, unit.timeline.presentation_times);
    assert_eq!(timeline.field_pairs, unit.timeline.field_pairs);
}

#[test]
fn a_dropped_pair_leaves_its_bytes_to_the_next_sample() {
    let mut data = Vec::new();
    sequence(&mut data, 16, 32);
    sequence_extension(&mut data, false);
    group(&mut data);
    for (kind, structure) in [(1, 1), (2, 2)] {
        picture_header(&mut data, kind, 0);
        picture_coding(&mut data, structure);
        slice(&mut data, if kind == 1 { "1" } else { "00011" });
    }
    let first_end = data.len();
    // The second field of this pair has lost its slices.
    picture_header(&mut data, 2, 1);
    picture_coding(&mut data, 1);
    slice(&mut data, "00011");
    picture_header(&mut data, 2, 1);
    picture_coding(&mut data, 2);
    picture_header(&mut data, 1, 2);
    picture_coding(&mut data, 3);
    slice(&mut data, "1");
    let end = data.len();
    data.extend_from_slice(&[0, 0, 1, 0xb7]);
    let unit = mpeg2_passthrough_unit(&data, false).unwrap();
    assert_eq!(unit.samples.len(), 2);
    assert_eq!((unit.samples[0].start, unit.samples[0].end), (0, first_end));
    assert_eq!((unit.samples[1].start, unit.samples[1].end), (first_end, end));
}
