//! When the samples of a unit are decoded and shown, and what each of them holds.
use mpeg2toh264::container::fmp4::boxes::Buf;
use mpeg2toh264::container::fmp4::init::{fixed16_16, track_width, VideoCodec};
use mpeg2toh264::container::fmp4::payload::{mpeg2_payload, mpeg2_sync_samples, VideoPayload};
use mpeg2toh264::container::fmp4::timing::{
    content_sample_count, insert_recovery_copy_timing, recovery_extra_samples,
};
use mpeg2toh264::container::fmp4::{
    mpeg2_sample_timing, Mpeg2Sample, Mpeg2Unit, Mpeg2VideoTimeline, SampleTiming, UnitLeadIn,
};
use mpeg2toh264::mpeg2::headers::SampleAspectRatio;


/// 29.97 fps, and deliberately odd so a halved field duration cannot be
/// exact: the two halves still have to add up to the frame.
const FRAME: u32 = 3003;

fn timeline(indices: &[u32], field_pairs: &[bool], split: bool) -> Mpeg2VideoTimeline {
    Mpeg2VideoTimeline {
        width: 720,
        height: 480,
        sample_duration: FRAME,
        presentation_times: Vec::new(),
        sample_durations: Vec::new(),
        sample_scans: Vec::new(),
        presentation_indices: indices.to_vec(),
        field_pairs: field_pairs.to_vec(),
        split_field_samples: split,
        sample_aspect_ratio: None,
        hold_ticks: 0,
    }
}

/// Decode order I P B B, as an open group of pictures is coded.
const IPBB: [u32; 4] = [1, 4, 2, 3];

#[test]
fn repeated_first_fields_extend_their_own_samples() {
    let mut timeline = timeline(&IPBB, &[false; 4], false);
    timeline.presentation_times = vec![0, 10_511, 3_003, 7_508];
    timeline.sample_durations = vec![3_003, 4_505, 4_505, 3_003];

    let timing = mpeg2_sample_timing(&timeline, UnitLeadIn::Nothing);

    assert_eq!(timing.durations, [3_003, 4_505, 4_505, 3_003]);
    assert_eq!(timing.compositions, [4_505, 12_013, 0, 0]);
    assert_eq!(timing.reorder_delay, 4_505);
}

/// Decode order I P P P, a group coded without B pictures, which displays
/// in the order it was coded in.
const IPPP: [u32; 4] = [1, 2, 3, 4];

#[test]
fn a_split_field_recovery_copy_adds_three_samples() {
    assert_eq!(recovery_extra_samples(33, 30, true, true), Some(3));
    assert_eq!(recovery_extra_samples(33, 30, true, false), None);
}

/// The delay is what the decode timeline of a unit is set back by, and the
/// units share one timeline, so a unit with nothing to reorder has to be
/// set back as far as its neighbours. Measuring it from this unit alone
/// left the group without B pictures a frame later than the group before
/// it, which put its last sample on the decode time of the next group's
/// first -- an overlap MSE resolves by dropping buffered frames back to a
/// random access point.
#[test]
fn a_unit_with_nothing_to_reorder_is_still_held_back_a_frame() {
    let reordered = mpeg2_sample_timing(&timeline(&IPBB, &[false; 4], false), UnitLeadIn::Nothing);
    let in_order = mpeg2_sample_timing(&timeline(&IPPP, &[false; 4], false), UnitLeadIn::Nothing);
    assert_eq!(in_order.reorder_delay, reordered.reorder_delay);
    assert_eq!(in_order.reorder_delay, FRAME as i64);
    // Every picture displays a frame after it decodes, so none of them
    // moved: the offsets carry the delay rather than cancelling it.
    assert_eq!(in_order.compositions, vec![FRAME; 4]);
}

#[test]
fn recovery_samples_have_distinct_presentation_times() {
    let mut timing = SampleTiming {
        durations: vec![10, 10],
        compositions: vec![0, 10],
        reorder_delay: 0,
    };
    insert_recovery_copy_timing(&mut timing, 1, 2).expect("timing has room");

    assert_eq!(timing.durations, vec![10, 1, 1, 8]);
    assert_eq!(timing.compositions, vec![0, 1, 1, 8]);
    let mut decode_time = 0u32;
    let presentation_times: Vec<u32> = timing
        .durations
        .iter()
        .zip(&timing.compositions)
        .map(|(&duration, &composition)| {
            let presentation = decode_time + composition;
            decode_time += duration;
            presentation
        })
        .collect();
    assert_eq!(presentation_times, vec![0, 11, 12, 20]);
}

/// A split field pair is still on screen when its copy decodes: the second
/// field displays half a frame after the first, and the copy decodes at
/// the first field's display instant. Timing the copies from their own
/// decode instant put them between the two fields, which presented the
/// frame as top, top, bottom, copy, bottom -- two fields of one parity in
/// a row, at every recovery point whose source intra picture was a pair.
#[test]
fn recovery_copies_of_a_field_pair_follow_its_second_field() {
    let mut timing = SampleTiming {
        // A field pair, then the leading pictures that display ahead of it.
        durations: vec![5, 5, 10, 10, 10],
        compositions: vec![30, 30, 0, 0, 40],
        reorder_delay: 0,
    };
    insert_recovery_copy_timing(&mut timing, 4, 3).expect("timing has room");

    let mut decode_time = 0u32;
    let presentation_times: Vec<u32> = timing
        .durations
        .iter()
        .zip(&timing.compositions)
        .map(|(&duration, &composition)| {
            let presentation = decode_time + composition;
            decode_time += duration;
            presentation
        })
        .collect();
    // The pair displays at 30 and 35, and the three copies pick up from
    // there rather than from 30, where the second field still follows.
    assert_eq!(presentation_times, vec![30, 35, 10, 20, 36, 37, 38, 70]);
}

/// The clone in front of a unit holds the empty slots an open group's
/// dropped leading pictures left. Holding the pair's first field over them
/// left its second field a whole hole later, which tore the pair across
/// two frames and put every field behind it on the wrong half of one.
#[test]
fn a_clone_holds_the_second_field_of_the_pair_it_opens_on() {
    // Two empty leading slots in front of a group of field pairs.
    let leading = [3, 6, 4, 5];
    let timing =
        mpeg2_sample_timing(&timeline(&leading, &[true; 4], true), UnitLeadIn::IdrClone);
    let mut decode_time = 0u32;
    let presentation_times: Vec<u32> = timing
        .durations
        .iter()
        .zip(&timing.compositions)
        .map(|(&duration, &composition)| {
            let presentation = decode_time + composition;
            decode_time += duration;
            presentation
        })
        .collect();
    let half = FRAME / 2;
    // The pair opens the unit a field apart, and the clone takes the frame
    // the pair belongs to, two frames on.
    assert_eq!(presentation_times[0], FRAME);
    assert_eq!(presentation_times[1], FRAME + half);
    assert_eq!(presentation_times[2], FRAME * 3);
    assert_eq!(timing.durations[2], FRAME);
    // Nothing behind the clone moved, and the unit is as long as it was.
    assert_eq!(
        &presentation_times[3..],
        &[
            FRAME * 6,
            FRAME * 6 + half,
            FRAME * 4,
            FRAME * 4 + half,
            FRAME * 5,
            FRAME * 5 + half
        ]
    );
    assert_eq!(timing.durations.iter().sum::<u32>(), FRAME * 6);
}

#[test]
fn field_pairs_kept_together_take_one_sample_each() {
    let timing = mpeg2_sample_timing(&timeline(&IPBB, &[true; 4], false), UnitLeadIn::Nothing);
    assert_eq!(timing.durations, vec![FRAME; 4]);
    assert_eq!(timing.reorder_delay, FRAME as i64);
    // The anchors lead their display slots; the B pictures catch up.
    assert_eq!(timing.compositions, vec![FRAME, FRAME * 3, 0, 0]);
}

#[test]
fn split_field_pairs_take_two_samples_half_a_frame_apart() {
    let timing = mpeg2_sample_timing(&timeline(&IPBB, &[true; 4], true), UnitLeadIn::Nothing);
    assert_eq!(
        timing.durations,
        vec![1501, 1502, 1501, 1502, 1501, 1502, 1501, 1502]
    );
    // Every field lands where its frame would have, then half a frame on.
    let mut decode_time = 0i64;
    let presentations: Vec<i64> = timing
        .durations
        .iter()
        .zip(&timing.compositions)
        .map(|(&duration, &composition)| {
            let at = decode_time + composition as i64;
            decode_time += duration as i64;
            at
        })
        .collect();
    let delay = timing.reorder_delay;
    assert_eq!(
        presentations,
        vec![
            delay,
            delay + 1501,
            delay + FRAME as i64 * 3,
            delay + FRAME as i64 * 3 + 1501,
            delay + FRAME as i64,
            delay + FRAME as i64 + 1501,
            delay + FRAME as i64 * 2,
            delay + FRAME as i64 * 2 + 1501,
        ]
    );
}

#[test]
fn splitting_leaves_frame_pictures_and_the_total_alone() {
    let mixed = [true, false, true, false];
    let split = mpeg2_sample_timing(&timeline(&IPBB, &mixed, true), UnitLeadIn::Nothing);
    let whole = mpeg2_sample_timing(&timeline(&IPBB, &mixed, false), UnitLeadIn::Nothing);
    assert_eq!(split.durations, vec![1501, 1502, FRAME, 1501, 1502, FRAME]);
    let total = |timing: &SampleTiming| timing.durations.iter().map(|&d| d as u64).sum::<u64>();
    assert_eq!(total(&split), total(&whole));
    assert_eq!(split.reorder_delay, whole.reorder_delay);
}

#[test]
fn a_split_pair_counts_as_two_samples() {
    let mixed = [true, false, true, false];
    assert_eq!(content_sample_count(&timeline(&IPBB, &mixed, true)), 6);
    assert_eq!(content_sample_count(&timeline(&IPBB, &mixed, false)), 4);
}

/// A passthrough unit of four pictures, alternating field pairs with
/// frames, laid over an elementary stream of one byte per coded picture --
/// a field pair taking two of them.
fn passthrough_unit(split: bool) -> Mpeg2Unit {
    let mixed = [true, false, true, false];
    let mut samples = Vec::new();
    let mut at = 0;
    for (index, &pair) in mixed.iter().enumerate() {
        let field_end = pair.then(|| at + 1);
        let end = at + if pair { 2 } else { 1 };
        samples.push(Mpeg2Sample {
            start: at,
            field_end,
            end,
            sync: index == 0,
        });
        at = end;
    }
    Mpeg2Unit {
        timeline: timeline(&IPBB, &mixed, split),
        samples,
        sequence_header_len: 0,
    }
}

#[test]
fn splitting_a_carried_field_pair_moves_a_boundary_and_nothing_else() {
    // Both fields are separate coded pictures already, so this is a matter
    // of not joining them: the same bytes reach the mdat either way, in the
    // same order, and only how many samples claim them changes.
    let es: Vec<u8> = (0..6).collect();
    let split = mpeg2_payload(&es, &passthrough_unit(true));
    let whole = mpeg2_payload(&es, &passthrough_unit(false));

    assert_eq!(split.len(), 6, "two field pairs take two samples each");
    assert_eq!(whole.len(), 4);
    assert_eq!(split.total_bytes(), whole.total_bytes());
    // The sample count has to match what the timing was worked out for, or
    // the fragment describes samples the mdat does not hold.
    assert_eq!(
        split.len(),
        mpeg2_sample_timing(
            &timeline(&IPBB, &[true, false, true, false], true),
            UnitLeadIn::Nothing
        )
        .durations
        .len()
    );
    let bytes = |payload: &VideoPayload<'_>| {
        let mut out = Buf::new();
        for index in 0..payload.len() {
            payload.write_sample(index, &mut out);
        }
        out.into_vec()
    };
    assert_eq!(bytes(&split), bytes(&whole));
    assert_eq!(bytes(&split), es);
}

#[test]
fn only_the_sample_a_restart_opens_on_is_a_sync_sample() {
    // A decoder starts on a whole picture, never on the second field of
    // one, and only where a restart point was asked for.
    assert_eq!(
        mpeg2_sync_samples(&passthrough_unit(true), true),
        vec![true, false, false, false, false, false]
    );
    assert_eq!(
        mpeg2_sync_samples(&passthrough_unit(true), false),
        vec![false; 6]
    );
}

#[test]
fn the_track_is_as_wide_as_the_picture_is_to_be_seen() {
    let sar = |width, height| Some(SampleAspectRatio { width, height });
    // The two anamorphic shapes a broadcast comes in, and the square
    // sample that needs no stretch at all.
    assert_eq!(track_width(1440, sar(4, 3)), fixed16_16(1920));
    assert_eq!(track_width(720, sar(8, 9)), fixed16_16(640));
    assert_eq!(track_width(1920, sar(1, 1)), fixed16_16(1920));
    assert_eq!(track_width(1920, None), fixed16_16(1920));
    // A ratio that does not divide the width evenly keeps its fraction
    // rather than landing on a pixel: 704 * 40 / 33 is 853 and a third.
    assert_eq!(track_width(704, sar(40, 33)), 853 * 65536 + 21845);
}

#[test]
fn a_timeline_knows_its_first_picture_both_ways() {
    let mut line = timeline(&[3, 6, 1, 2], &[false; 4], false);
    assert_eq!(line.first_coded_presentation_time(), 6006);
    assert_eq!(line.first_presentation_time(), 0);
    assert_eq!(line.presentation_time_at(1), 15015);
    assert_eq!(line.duration_at(1), 3003);
    line.presentation_times = vec![7508, 18018, 3003, 4505];
    line.sample_durations = vec![3003, 3003, 1502, 3003];
    assert_eq!(line.first_coded_presentation_time(), 7508);
    assert_eq!(line.first_presentation_time(), 3003);
    assert_eq!(line.duration_at(2), 1502);
}

#[test]
fn codecs_have_names() {
    let avc = VideoCodec::Avc {
        sps: &[0x67, 0x64, 0x00, 0x2a],
        pps: &[0x68],
    };
    assert_eq!(avc.codecs_parameter(), "avc1.64002a");
    let mpeg2 = VideoCodec::Mpeg2 {
        sequence_header: &[0, 0, 1, 0xb3],
    };
    assert_eq!(mpeg2.codecs_parameter(), "mp4v.61");
}

#[test]
fn a_unit_spans_its_lead_in() {
    let total = |timeline: &Mpeg2VideoTimeline, lead_in: UnitLeadIn| {
        mpeg2_sample_timing(timeline, lead_in)
            .durations
            .iter()
            .sum::<u32>()
    };
    // Nothing leads in.
    let mut frames = timeline(&IPBB, &[false; 4], false);
    let alone = total(&frames, UnitLeadIn::Nothing);
    assert_eq!(alone, 4 * FRAME);
    assert_eq!(total(&frames, UnitLeadIn::FirstPicture), alone);
    assert_eq!(total(&frames, UnitLeadIn::IdrClone), alone + 1, "a clone lasts a tick");
    let pairs = timeline(&IPBB, &[true; 4], true);
    assert_eq!(total(&pairs, UnitLeadIn::IdrClone), alone, "which a pair can lend");
    // Two slots do.
    frames.presentation_indices = vec![3, 6, 4, 5];
    for lead_in in [UnitLeadIn::FirstPicture, UnitLeadIn::IdrClone] {
        assert_eq!(total(&frames, lead_in), alone + 2 * FRAME);
    }
}
