//! Video packaged as fragmented MP4.
use mpeg2toh264::container::adts::AacConfig;
use mpeg2toh264::container::fmp4::boxes::{boxed, full_box};
use mpeg2toh264::container::fmp4::init::{descriptor, make_avc_c};
use mpeg2toh264::container::fmp4::payload::{
    recovery_sample_index, split_annex_b, video_samples, VideoPayload,
};
use mpeg2toh264::container::fmp4::timing::insert_recovery_copy_timing;
use mpeg2toh264::container::fmp4::{
    h264_gop_to_fmp4, h264_to_fmp4, mpeg2_fragment_duration, mpeg2_gop_to_fmp4,
    mpeg2_passthrough_unit, mpeg2_sample_timing, mpeg2_to_fmp4, mpeg2_video_timeline,
    Fmp4AudioSamples, Mpeg2VideoTimeline, SampleTiming, UnitLeadIn,
};
use mpeg2toh264::error::Error;

const SPS: [u8; 6] = [0x67, 100, 0, 51, 0xaa, 0xbb];
const PPS: [u8; 3] = [0x68, 0xcc, 0xdd];

fn annex_b(units: &[&[u8]]) -> Vec<u8> {
    let mut out = Vec::new();
    for unit in units {
        out.extend_from_slice(&[0, 0, 0, 1]);
        out.extend_from_slice(unit);
    }
    out
}

fn timeline(indices: &[u32]) -> Mpeg2VideoTimeline {
    Mpeg2VideoTimeline {
        width: 720,
        height: 480,
        sample_duration: 3003,
        presentation_times: Vec::new(),
        sample_durations: Vec::new(),
        sample_scans: Vec::new(),
        presentation_indices: indices.to_vec(),
        field_pairs: vec![false; indices.len()],
        split_field_samples: false,
        sample_aspect_ratio: None,
        hold_ticks: 0,
    }
}

fn be32(data: &[u8], at: usize) -> usize {
    u32::from_be_bytes([data[at], data[at + 1], data[at + 2], data[at + 3]]) as usize
}

/// The boxes that `data` is made of, by type and content.
fn boxes(data: &[u8]) -> Vec<(&[u8], &[u8])> {
    let mut out = Vec::new();
    let mut at = 0;
    while at < data.len() {
        let size = be32(data, at);
        assert!(size >= 8 && at + size <= data.len());
        out.push((&data[at + 4..at + 8], &data[at + 8..at + size]));
        at += size;
    }
    out
}

fn find<'a>(data: &'a [u8], path: &[&[u8; 4]]) -> &'a [u8] {
    let mut inside = data;
    for kind in path {
        inside = boxes(inside)
            .into_iter()
            .find(|(name, _)| name == &kind.as_slice())
            .expect("the box is there")
            .1;
    }
    inside
}

#[test]
fn boxes_carry_their_lengths() {
    assert_eq!(boxed(b"free", &[1, 2]), [0, 0, 0, 10, b'f', b'r', b'e', b'e', 1, 2]);
    assert_eq!(
        full_box(b"mfhd", 1, 0x020304, &[9]),
        [0, 0, 0, 13, b'm', b'f', b'h', b'd', 1, 2, 3, 4, 9]
    );
}

#[test]
fn descriptors_carry_their_lengths_in_seven_bit_groups() {
    let long = vec![7; 200];
    let bytes = descriptor(5, &long);
    assert_eq!(bytes[0], 5);
    assert_eq!(&bytes[bytes.len() - 200..], &long[..]);
}

#[test]
fn parameter_sets_are_described_in_avcc() {
    let avcc = make_avc_c(&SPS, &PPS).unwrap();
    assert_eq!(&avcc[4..8], b"avcC");
    assert_eq!(&avcc[8..12], &[1, 100, 0, 51]);
    assert!(avcc.windows(SPS.len()).any(|w| w == SPS));
    assert_eq!(make_avc_c(&SPS[..2], &PPS).err(), Some(Error::ShortParameterSet));
}

#[test]
fn a_presentation_holds_every_sample() {
    let h264 = annex_b(&[&SPS, &PPS, &[0x65, 1, 2], &[0x41, 3], &[0x41, 4, 5, 6]]);
    let output = h264_to_fmp4(&h264, &timeline(&[1, 2, 3])).unwrap();
    assert_eq!(output.sample_count, 3);
    assert_eq!(output.mime_codec, "video/mp4; codecs=\"avc1.640033\"");
    assert_eq!(boxes(&output.init_segment)[0].0, b"ftyp");
    let mdat = find(&output.media_segment, &[b"mdat"]);
    // Each unit behind its length.
    assert!(mdat.ends_with(&[0, 0, 0, 4, 0x41, 4, 5, 6]));
}

#[test]
fn the_run_points_at_the_first_sample() {
    let h264 = annex_b(&[&SPS, &PPS, &[0x65, 1, 2], &[0x41, 3]]);
    let output = h264_to_fmp4(&h264, &timeline(&[1, 2])).unwrap();
    let media = &output.media_segment;
    let trun = find(media, &[b"moof", b"traf", b"trun"]);
    let offset = be32(trun, 8);
    let moof = boxes(media)
        .iter()
        .take_while(|(name, _)| name != &b"moof")
        .map(|(_, inside)| inside.len() + 8)
        .sum::<usize>();
    let mdat = find(media, &[b"mdat"]);
    assert_eq!(&media[moof + offset..moof + offset + mdat.len()], mdat);
}

#[test]
fn a_fragment_without_parameter_sets_has_no_initialization_segment() {
    let h264 = annex_b(&[&[0x41, 3], &[0x41, 4]]);
    let fragment = h264_gop_to_fmp4(&h264, &timeline(&[1, 2]), 7, 90_000, None, None).unwrap();
    assert!(fragment.init_segment.is_empty());
    assert!(fragment.mime_codec.is_empty());
    assert_eq!(fragment.sample_count, 2);
    assert_eq!(fragment.duration, 6006);
    let mfhd = find(&fragment.media_segment, &[b"moof", b"mfhd"]);
    assert_eq!(be32(mfhd, 4), 7);
    // The unit is decoded a frame ahead of display.
    let tfdt = find(&fragment.media_segment, &[b"moof", b"traf", b"tfdt"]);
    assert_eq!(be32(tfdt, 8), 90_000 - 3003);
}

#[test]
fn sound_shares_a_fragment() {
    let config = AacConfig {
        sample_rate: 48_000,
        channel_count: 2,
        audio_specific_config: vec![0x11, 0x90],
    };
    let audio = Fmp4AudioSamples {
        config: config.clone(),
        samples: vec![b"aac1".to_vec(), b"aac22".to_vec()],
        base_decode_time: 1024,
    };
    let h264 = annex_b(&[&SPS, &PPS, &[0x65, 1]]);
    let fragment =
        h264_gop_to_fmp4(&h264, &timeline(&[1]), 1, 0, Some(&config), Some(&audio)).unwrap();
    assert!(fragment.mime_codec.contains("mp4a.40.2"));
    let mdat = find(&fragment.media_segment, &[b"mdat"]);
    assert!(mdat.ends_with(b"aac1aac22"));
    let tracks = boxes(find(&fragment.media_segment, &[b"moof"]))
        .iter()
        .filter(|(name, _)| name == &b"traf")
        .count();
    assert_eq!(tracks, 2);
}

#[test]
fn what_cannot_be_packaged_is_told_apart() {
    let without = annex_b(&[&[0x65, 1]]);
    assert_eq!(
        h264_to_fmp4(&without, &timeline(&[1])).err(),
        Some(Error::MissingParameterSets)
    );
    let h264 = annex_b(&[&SPS, &PPS, &[0x65, 1]]);
    assert_eq!(
        h264_to_fmp4(&h264, &timeline(&[1, 2, 3])).err(),
        Some(Error::SampleCount {
            samples: 1,
            timeline: 3
        })
    );
}

#[test]
fn recovery_copies_need_time_to_borrow() {
    let empty = SampleTiming {
        durations: Vec::new(),
        compositions: Vec::new(),
        reorder_delay: 0,
    };
    let timing = |durations: Vec<u32>, compositions: Vec<u32>| SampleTiming {
        durations,
        compositions,
        reorder_delay: 0,
    };
    let failure = |mut timing: SampleTiming, index, copies| {
        insert_recovery_copy_timing(&mut timing, index, copies).err()
    };
    assert_eq!(failure(empty, 0, 2), Some(Error::RecoveryWithoutContent));
    assert_eq!(
        failure(timing(vec![10, 2], vec![0, 0]), 1, 2),
        Some(Error::RecoveryAfterTooShort)
    );
    assert_eq!(
        failure(timing(vec![10, 2], vec![0, 0]), 2, 2),
        Some(Error::RecoveryBeforeTooShort)
    );
}

#[test]
fn units_are_told_apart_by_their_start_codes() {
    let data = annex_b(&[&[9, 0xf0], &[0x65, 1], &[0x41, 2]]);
    let units = split_annex_b(&data);
    assert_eq!(units, [&[9, 0xf0][..], &[0x65, 1][..], &[0x41, 2][..]]);
    // A delimiter opens a sample, and what follows it belongs to it.
    assert_eq!(video_samples(&units).len(), 1);
    let sei = annex_b(&[&[0x41, 1], &[6, 6, 1, 0xe4, 0x80], &[0x65, 2], &[0x41, 3]]);
    assert_eq!(recovery_sample_index(&split_annex_b(&sei)), Some(1));
}

#[test]
fn an_avc_sample_is_units_behind_their_lengths() {
    let unit: [u8; 3] = [0x65, 7, 8];
    let payload = VideoPayload::avc(vec![vec![&unit[..]]], &[]);
    assert_eq!(payload.len(), 1);
    assert!(!payload.is_empty());
    assert_eq!(payload.sample_bytes(0), 7);
    assert_eq!(payload.total_bytes(), 7);
}

/// Three MPEG-1 pictures of one macroblock, I P B, none of them decodable.
fn stream(frame_rate_code: u8) -> Vec<u8> {
    let mut out = vec![0, 0, 1, 0xb3, 1, 0, 0x10, 0x10 | frame_rate_code, 0, 0xfa, 0x20, 0xa0];
    for (at, kind) in [(0u8, 1u8), (2, 2), (1, 3)] {
        out.extend_from_slice(&[0, 0, 1, 0, at >> 2, (at << 6) | (kind << 3) | 7, 0xff, 0xf8, 0]);
        out.extend_from_slice(&[0, 0, 1, 1, 0x10, 0x20]);
    }
    out.extend_from_slice(&[0, 0, 1, 0xb7]);
    out
}

#[test]
fn a_timeline_shows_each_picture_when_it_is_due() {
    let timeline = mpeg2_video_timeline(&stream(3), false, &[]).unwrap();
    assert_eq!(timeline.presentation_indices, [1, 3, 2]);
    assert_eq!(timeline.sample_duration, 3600);
    assert_eq!(timeline.presentation_times, [0, 7200, 3600]);
    let timing = mpeg2_sample_timing(&timeline, UnitLeadIn::Nothing);
    assert_eq!(timing.durations, [3600; 3]);
    assert_eq!(timing.compositions, [3600, 7200, 0]);
    assert_eq!(mpeg2_fragment_duration(&timeline, UnitLeadIn::Nothing), 10_800);
    // A picture that would not decode gets no sample.
    let damaged = mpeg2_video_timeline(&stream(3), false, &[false, true]).unwrap();
    assert_eq!(damaged.presentation_indices, [1]);
}

#[test]
fn an_unknown_frame_rate_is_refused() {
    assert_eq!(
        mpeg2_video_timeline(&stream(15), false, &[]).err(),
        Some(Error::FrameRateCode { code: 15 })
    );
    assert_eq!(
        mpeg2_video_timeline(&[], false, &[]).err(),
        Some(Error::NoPictures)
    );
}

#[test]
fn passthrough_keeps_every_byte() {
    let es = stream(3);
    let unit = mpeg2_passthrough_unit(&es, false).unwrap();
    let output = mpeg2_to_fmp4(&es, &unit).unwrap();
    assert_eq!(output.sample_count, 3);
    let mdat = find(&output.media_segment, &[b"mdat"]);
    assert_eq!(mdat, &es[..es.len() - 4]);
    let fragment = mpeg2_gop_to_fmp4(
        &es,
        &unit,
        2,
        0,
        UnitLeadIn::FirstPicture,
        true,
        true,
        None,
        None,
    )
    .unwrap();
    assert_eq!(find(&fragment.media_segment, &[b"mdat"]), mdat);
    assert!(!fragment.init_segment.is_empty());
}
