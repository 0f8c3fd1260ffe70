//! One picture from its job to its access unit.
use mpeg2toh264::bitreader::BitReader;
use mpeg2toh264::container::fmp4::payload::{split_annex_b, unit_kind};
use mpeg2toh264::error::Error;
use mpeg2toh264::h264::mb::b_mb_type;
use mpeg2toh264::h264::params::write_sps;
use mpeg2toh264::h264::params::SpsConfig;
use mpeg2toh264::job::{
    PictureContext, RefLayout, ShortTermFrames, TranscoderState, JOB_HEADER_LEN,
};
use mpeg2toh264::container::fmp4::boxes::Buf;
use mpeg2toh264::mpeg2::constants::PictureStructure;
use mpeg2toh264::mpeg2::headers::parse_elementary_stream;
use mpeg2toh264::mpeg2::macroblock::MacroblockGrid;
use mpeg2toh264::transcode::encoder::decode_picture;
use mpeg2toh264::transcode::intra::{
    clip_sample, unscan_8x8, unscan_chroma, ReconstructedPicture,
};
use mpeg2toh264::transcode::macroblocks::Residual;
use mpeg2toh264::transcode::motion::{make_macroblock, motion_left, partition, Neighbours};
use mpeg2toh264::transcode::picture::{write_picture, PictureShape};
use mpeg2toh264::transcode::residual::{pair_qp, pick_field_block, FieldTargetSet};
use mpeg2toh264::transcode::syntax::{
    short_term_ref_lists, write_access_unit_delimiter, write_recovery_point_sei,
};
use mpeg2toh264::transcode::{
    plan_unit, PictureEncoder, Stats, TranscodeOptions, UnitRequest,
};

struct Bits {
    bytes: Vec<u8>,
    count: usize,
}

impl Bits {
    fn new() -> Self {
        Bits {
            bytes: Vec::new(),
            count: 0,
        }
    }

    fn u(&mut self, value: u32, width: usize) -> &mut Self {
        for shift in (0..width).rev() {
            if self.count % 8 == 0 {
                self.bytes.push(0);
            }
            let last = self.bytes.len() - 1;
            self.bytes[last] |= (((value >> shift) & 1) as u8) << (7 - self.count % 8);
            self.count += 1;
        }
        self
    }

    fn append(&self, stream: &mut Vec<u8>, code: u8) {
        stream.extend_from_slice(&[0, 0, 1, code]);
        stream.extend_from_slice(&self.bytes);
    }
}

/// MPEG-1 video of one intra macroblock a picture, I then P.
fn stream() -> Vec<u8> {
    let mut stream = Vec::new();
    let mut b = Bits::new();
    b.u(16, 12).u(16, 12).u(1, 4).u(3, 4).u(1000, 18).u(1, 1);
    b.u(20, 10).u(0, 1).u(0, 1).u(0, 1);
    b.append(&mut stream, 0xb3);
    for (kind, at) in [(1, 0), (2, 1)] {
        let mut b = Bits::new();
        b.u(at, 10).u(kind, 3).u(0xffff, 16);
        if kind == 2 {
            b.u(0, 1).u(1, 3);
        }
        b.u(0, 1);
        b.append(&mut stream, 0);
        let mut b = Bits::new();
        b.u(2, 5).u(0, 1).u(1, 1);
        if kind == 1 {
            b.u(1, 1);
        } else {
            b.u(3, 5);
        }
        for block in 0..6 {
            if block < 4 {
                b.u(4, 3);
            } else {
                b.u(0, 2);
            }
            b.u(2, 2);
        }
        b.append(&mut stream, 1);
    }
    stream.extend_from_slice(&[0, 0, 1, 0xb7]);
    stream
}

fn jobs() -> Vec<Vec<u8>> {
    let data = stream();
    plan_unit(
        &data,
        &TranscoderState::new(),
        TranscodeOptions::default(),
        UnitRequest::default(),
        &[],
    )
    .unwrap()
    .take_jobs()
}

#[test]
fn a_job_is_decoded_planned_and_put_together() {
    let mut encoder = PictureEncoder::new();
    for (index, job) in jobs().iter().enumerate() {
        let decoded = encoder.decode(job).unwrap();
        assert!(decoded.decoded);
        let shape = decoded.shape();
        assert_eq!((shape.mb_width, shape.mb_height), (1, 1));
        let mut stats = decoded.stats;
        let plans = encoder.plan_macroblocks(&decoded, &mut stats);
        assert_eq!(plans.len(), 1);
        assert_eq!(stats.intra_macroblocks, 1);
        // The picture that opens the buffer predicts from itself; the other one from
        // the constant.
        assert_eq!(plans[0].motion.is_none(), index == 0);
        if let Some(motion) = plans[0].motion {
            assert_eq!(motion.mb_type, b_mb_type::L0_16X16);
            assert_eq!(motion.whole.ref_idx_l0, decoded.context.layout.flat);
        }
        match plans[0].residual {
            Residual::Own(Some(scale)) => {
                assert_eq!(scale.quantiser_scale, 4);
                assert!(scale.intra);
                assert!(scale.mpeg1);
            }
            _ => panic!("an intra macroblock carries levels"),
        }
        let output = encoder.encode(&decoded, &vec![vec![true, false, true]], stats);
        assert!(output.decoded);
        let units = split_annex_b(&output.bitstream);
        assert_eq!(units.len(), 1);
        assert_eq!(unit_kind(units[0]), if index == 0 { 5 } else { 1 });
    }
}

#[test]
fn a_damaged_job_becomes_nothing() {
    let mut job = jobs().remove(0);
    // Break the macroblock type behind the slice header: no type is all zeros.
    let slice = job.windows(4).position(|w| w == [0, 0, 1, 1]).unwrap();
    job[slice + 4] = 0x12;
    for byte in &mut job[slice + 5..] {
        *byte = 0;
    }
    let mut encoder = PictureEncoder::new();
    let decoded = encoder.decode(&job).unwrap();
    assert!(!decoded.decoded);
    assert_eq!(decoded.stats.errors, 1);
    let output = encoder.encode(&decoded, &Vec::new(), decoded.stats);
    assert!(!output.decoded);
    assert!(output.bitstream.is_empty());
}

#[test]
fn a_job_that_cannot_be_read_is_refused() {
    let mut encoder = PictureEncoder::new();
    assert_eq!(
        encoder.decode(&[0; 10]).err(),
        Some(Error::JobHeader)
    );
    let job = jobs().remove(0);
    assert_eq!(
        encoder.decode(&job[..JOB_HEADER_LEN]).err(),
        Some(Error::JobPictures {
            found: 0,
            expected: 1
        })
    );
}

#[test]
fn a_context_comes_back_as_it_went() {
    let job = jobs().remove(1);
    let context = PictureContext::decode(&job).unwrap();
    let mut out = Buf::new();
    context.encode(&mut out);
    assert_eq!(out.into_vec(), job[..JOB_HEADER_LEN]);
    assert_eq!(context.frame_num, 2);
    assert_eq!(context.poc, 4);
    assert_eq!(context.weight_scale, [16; 64]);
}

#[test]
fn a_picture_without_slices_is_empty_and_not_damaged() {
    let mut data = stream();
    // Keep the headers of the first picture and nothing of its slice.
    let slice = data.windows(4).position(|w| w == [0, 0, 1, 1]).unwrap();
    data.truncate(slice);
    let pictures = parse_elementary_stream(&data).unwrap();
    let mut grid = MacroblockGrid::new();
    let mut stats = Stats::default();
    let whole = decode_picture(
        &mut BitReader::new(&data),
        &pictures[0],
        &mut grid,
        &mut stats,
    );
    assert!(!whole);
    assert_eq!(stats.errors, 0);
}

fn shape(mb_width: usize, mb_height: usize) -> PictureShape {
    PictureShape {
        mb_width,
        mb_height,
        mbaff: false,
        pair: false,
        structure: PictureStructure::Frame,
        source_intra: false,
    }
}

#[test]
fn every_macroblock_is_visited_once() {
    let fields = |structure| PictureShape {
        mbaff: true,
        pair: true,
        structure,
        ..shape(3, 4)
    };
    for shape in [
        shape(3, 5),
        PictureShape {
            mbaff: true,
            ..shape(3, 4)
        },
        fields(PictureStructure::TopField),
        fields(PictureStructure::BottomField),
    ] {
        let mut seen = vec![false; shape.macroblock_count()];
        for position in 0..shape.macroblock_count() {
            let place = shape.place_at(position);
            let at = place.mb_y * shape.mb_width + place.mb_x;
            assert!(!seen[at]);
            seen[at] = true;
        }
        assert!(seen.iter().all(|&seen| seen));
    }
    // Pairs go top then bottom; a bottom field first starts on the second row.
    let pairs = PictureShape {
        mbaff: true,
        ..shape(3, 4)
    };
    assert_eq!(pairs.place_at(1).mb_y, 1);
    assert_eq!(pairs.place_at(2).mb_x, 1);
    assert_eq!(pairs.halves_of(&pairs.place_at(7)), (6, 9));
    let bottom = fields(PictureStructure::BottomField);
    assert_eq!(bottom.place_at(0).mb_y, 1);
    assert!(bottom.place_at(6).second);
    assert_eq!(bottom.source_of(&bottom.place_at(7)), (true, 1));
}

fn field_context(real_idr: bool) -> PictureContext {
    let mut short_term = ShortTermFrames::new();
    if !real_idr {
        short_term.push(1);
        short_term.push(2);
    }
    let held = short_term.count as u32;
    PictureContext {
        frame_num: if real_idr { 0 } else { 3 },
        poc: if real_idr { 0 } else { 8 },
        is_reference: true,
        layout: RefLayout {
            count: held + 1,
            fwd_l0: 0,
            fwd_l1: 0,
            bwd_l0: -1,
            bwd_l1: -1,
            flat: held as i32,
            l1_short_term_delta: if real_idr { None } else { Some(1) },
            anchor_second_field: false,
        },
        short_term,
        options: TranscodeOptions::default(),
        mbaff: true,
        real_idr,
        recovery_intra: false,
        weight_scale: [16; 64],
        picture_count: 2,
    }
}

#[test]
fn split_fields_are_access_units_of_their_own() {
    let pair = PictureShape {
        mbaff: true,
        pair: true,
        structure: PictureStructure::TopField,
        source_intra: true,
        ..shape(1, 2)
    };
    let coded = vec![vec![true], vec![false, true]];
    let mut context = field_context(true);
    let split = write_picture(&context, &pair, &coded);
    let kinds: Vec<u8> = split_annex_b(&split).iter().map(|u| unit_kind(u)).collect();
    // Only the first field of a pair is the IDR.
    assert_eq!(kinds, [5, 9, 1]);
    context.options.split_field_samples = false;
    let whole = write_picture(&context, &pair, &coded);
    let kinds: Vec<u8> = split_annex_b(&whole).iter().map(|u| unit_kind(u)).collect();
    assert_eq!(kinds, [5, 1]);
    let content = write_picture(&field_context(false), &pair, &coded);
    let units = split_annex_b(&content);
    assert_eq!(units[0][0], 0x41, "a reference picture that is no IDR");
}

#[test]
fn the_lists_of_a_picture_with_one_that_follows_it() {
    let mut frames = ShortTermFrames::new();
    frames.push(4);
    frames.push(5);
    let backs = |list: &mpeg2toh264::h264::slice::RefPicList| -> Vec<(u32, bool)> {
        list.entries[..list.count]
            .iter()
            .map(|entry| (entry.frames_back, entry.same_parity))
            .collect()
    };
    let [l0, l1] = short_term_ref_lists(&frames, 6, true, false);
    assert_eq!(backs(&l0), [(2, true), (1, true)]);
    assert_eq!(backs(&l1), [(1, true), (2, true)]);
    let [l0, l1] = short_term_ref_lists(&frames, 6, false, true);
    assert_eq!(backs(&l0), [(1, true), (1, false), (2, true), (2, false)]);
    assert_eq!(backs(&l1), [(1, false), (1, true), (2, true), (2, false)]);
    // Frame numbers start again behind 255.
    let mut frames = ShortTermFrames::new();
    frames.push(255);
    let [l0, _] = short_term_ref_lists(&frames, 1, false, false);
    assert_eq!(backs(&l0), [(2, true)]);
}

#[test]
fn the_window_keeps_the_newest_three() {
    let mut frames = ShortTermFrames::new();
    for frame_num in 1..6 {
        frames.push(frame_num);
    }
    assert_eq!(&frames.frames[..frames.count], &[3, 4, 5]);
}

#[test]
fn the_small_units() {
    assert_eq!(write_access_unit_delimiter(), [0, 0, 0, 1, 9, 0xf0]);
    assert_eq!(
        write_recovery_point_sei(),
        [0, 0, 0, 1, 6, 6, 1, 0xe4, 0x80]
    );
    // A three inside a unit keeps a start code from showing through.
    let sps = write_sps(&SpsConfig {
        width: 16,
        height: 16,
        level_idc: 51,
        frame_mbs_only: true,
        max_num_ref_frames: 4,
        log2_max_frame_num_minus4: 4,
        log2_max_poc_lsb_minus4: 12,
        max_num_reorder_frames: Some(1),
        max_dec_frame_buffering: Some(4),
        sample_aspect_ratio: None,
        centered_chroma: false,
    });
    assert!(sps[4..].windows(3).all(|w| w != [0, 0, 1]));
}

#[test]
fn what_neighbours_predict_is_taken_off() {
    let prediction = mpeg2toh264::transcode::predict::Prediction {
        mb_type: b_mb_type::L0_16X16,
        ref_idx_l0: 1,
        ref_idx_l1: -1,
        mv_l0: [10, -4],
        mv_l1: [0, 0],
    };
    let near = Neighbours {
        l0: [3, 1],
        l1: [100, 100],
    };
    let part = partition(&prediction, true, &near);
    assert_eq!((part.mvd_l0x, part.mvd_l0y), (7, -5));
    assert_eq!((part.mvd_l1x, part.mvd_l1y), (0, 0));
    let left = motion_left(&prediction, true);
    assert_eq!((left.mv_l0x, left.mv_l0y), (10, -4));
    assert_eq!(left.ref_idx_l1, -1);
    let plan = mpeg2toh264::transcode::motion::MotionPlan {
        whole: prediction,
        halves: None,
        mb_type: prediction.mb_type,
    };
    let frame = shape(2, 2);
    let mut context = field_context(false);
    context.mbaff = false;
    context.picture_count = 1;
    let mb = make_macroblock(
        &context,
        &frame,
        &frame.place_at(3),
        &plan,
        &near,
        &[near, near],
        30,
        26,
    );
    assert_eq!((mb.mb_x, mb.mb_y), (1, 1));
    assert_eq!((mb.mvd_l0x, mb.mvd_l0y), (7, -5));
    assert_eq!(mb.num_ref_idx_l0_minus1, 2);
    assert!(mb.partitions.is_none());
}

#[test]
fn the_pair_shares_its_blocks_out() {
    let upper = FieldTargetSet {
        converted: true,
        active: [true, false, true, false],
    };
    let lower = FieldTargetSet {
        converted: false,
        active: [false, false, false, true],
    };
    let sets = [upper, lower];
    let top = pick_field_block(&sets, 0, 0).unwrap();
    assert_eq!((top.half, top.index, top.converted), (0, 0, true));
    assert!(pick_field_block(&sets, 0, 1).is_none());
    let bottom = pick_field_block(&sets, 1, 3).unwrap();
    assert_eq!((bottom.half, bottom.index, bottom.converted), (1, 3, false));
    assert_eq!(pair_qp(Some(30), Some(28), 26), 28);
    assert_eq!(pair_qp(None, Some(31), 26), 31);
    assert_eq!(pair_qp(None, None, 26), 26);
}

#[test]
fn blocks_are_put_back_where_they_belong() {
    assert_eq!(clip_sample(-3), 0);
    assert_eq!(clip_sample(300), 255);
    assert_eq!(clip_sample(127), 127);
    let mut picture = ReconstructedPicture::new(32, 16);
    let mut residual = [0; 64];
    residual[9] = -200;
    picture.store_luma(1, 0, 3, 100, Some(&residual));
    assert_eq!(picture.luma[8 * 32 + 24], 100);
    assert_eq!(picture.luma[9 * 32 + 25], 0);
    assert_eq!(picture.luma[8 * 32 + 23], 0);
    picture.store_luma(0, 0, 0, 50, None);
    assert_eq!(picture.luma[7 * 32 + 7], 50);
    picture.store_chroma(1, 1, 0, 1, 60, &[5; 16]);
    assert_eq!(picture.chroma_width(), 16);
    assert_eq!(picture.cr[3 * 16 + 15], 65);
    assert_eq!(picture.cb[3 * 16 + 15], 0);
    picture.clear();
    assert!(picture.luma.iter().all(|&sample| sample == 0));
}

#[test]
fn levels_leave_their_scan() {
    let mut levels = [0; 64];
    levels[2] = 7;
    let mut scan = [0usize; 64];
    for (k, place) in scan.iter_mut().enumerate() {
        *place = 63 - k;
    }
    assert_eq!(unscan_8x8(&levels, &scan)[61], 7);
    let mut order = [0usize; 16];
    for (k, place) in order.iter_mut().enumerate() {
        *place = k;
    }
    order.swap(1, 4);
    let mut ac = [0; 15];
    ac[0] = 9;
    assert_eq!(unscan_chroma(&ac, &order, 2)[4], 9);
    assert_eq!(unscan_chroma(&ac, &order, 1), [0; 16]);
}
