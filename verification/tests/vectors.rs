//! Vectors as the syntax tells them, and steps from one macroblock to the next.
use mpeg2toh264::h264::mb::{b_mb_type, MbMotion};
use mpeg2toh264::h264::mvmap::map_vector;
use mpeg2toh264::h264::mvpred::MotionField;
use mpeg2toh264::job::{PictureContext, RefLayout, ShortTermFrames};
use mpeg2toh264::mpeg2::constants::PictureStructure;
use mpeg2toh264::transcode::macroblocks::{MacroblockPlan, Residual};
use mpeg2toh264::transcode::motion::{make_macroblock, MotionPlan, Neighbours};
use mpeg2toh264::transcode::picture::{PictureShape, Place};
use mpeg2toh264::transcode::predict::Prediction;
use mpeg2toh264::transcode::residual::{FieldTargetSet, LevelScale};
use mpeg2toh264::transcode::steps::{scales_for, ChosenSteps, StepChain};
use mpeg2toh264::transcode::vectors::{predict_vectors, Predicted};
use mpeg2toh264::transcode::TranscodeOptions;

fn moves(ref_idx: i32, x: i32, y: i32) -> MbMotion {
    MbMotion {
        ref_idx_l0: ref_idx,
        ref_idx_l1: -1,
        mv_l0x: x,
        mv_l0y: y,
        mv_l1x: 0,
        mv_l1y: 0,
    }
}

#[test]
fn nothing_coded_predicts_nothing() {
    let field = MotionField::new(2, 2);
    assert_eq!(field.predict(0, 0, 0, 0), [0, 0]);
    assert_eq!(field.predict_16x8(1, 1, 1, 0, 0), [0, 0]);
}

#[test]
fn the_median_of_three_neighbours_is_predicted() {
    let mut field = MotionField::new(3, 2);
    field.set(0, 0, &moves(0, 100, 0));
    field.set(1, 0, &moves(0, 8, -4));
    field.set(2, 0, &moves(0, 20, 12));
    field.set(0, 1, &moves(0, -16, 4));
    // Left, above, above right.
    assert_eq!(field.predict(1, 1, 0, 0), [8, 4]);
    // The last column has nothing above and to the right, and looks to the left.
    field.set(1, 1, &moves(0, 2, 2));
    assert_eq!(field.predict(2, 1, 0, 0), [8, 2]);
    // Nobody uses list 1.
    assert_eq!(field.predict(1, 1, 1, 0), [0, 0]);
}

#[test]
fn the_only_neighbour_with_the_reference_is_followed() {
    let mut field = MotionField::new(3, 2);
    field.set(1, 0, &moves(1, 8, -4));
    field.set(2, 0, &moves(0, 20, 12));
    field.set(0, 1, &moves(0, -16, 4));
    assert_eq!(field.predict(1, 1, 0, 1), [8, -4]);
    // Two name it: the median again.
    assert_eq!(field.predict(1, 1, 0, 0), [8, 4]);
}

#[test]
fn the_first_row_follows_its_left() {
    let mut field = MotionField::new(2, 1);
    field.set(0, 0, &moves(2, 6, 7));
    assert_eq!(field.predict(1, 0, 0, 0), [6, 7]);
}

#[test]
fn halves_follow_what_lies_above_and_to_the_left() {
    let mut field = MotionField::new(2, 2);
    field.set(0, 0, &moves(0, 40, 0));
    field.set(1, 0, &moves(0, 8, -4));
    field.set_16x8(0, 1, 0, &moves(0, -16, 4));
    field.set_16x8(0, 1, 1, &moves(0, -32, 16));
    assert_eq!(field.predict_16x8(1, 1, 0, 0, 0), [8, -4]);
    field.set_16x8(1, 1, 0, &moves(0, 1, 1));
    assert_eq!(field.predict_16x8(1, 1, 1, 0, 0), [-32, 16]);
    // Another reference: the median of what lies left, above and beyond that.
    assert_eq!(field.predict_16x8(1, 1, 1, 0, 5), [-16, 4]);
    field.reset();
    assert_eq!(field.predict_16x8(1, 1, 0, 0, 0), [0, 0]);
}

fn from_l0(x: i32, y: i32) -> Prediction {
    Prediction {
        mb_type: b_mb_type::L0_16X16,
        ref_idx_l0: 0,
        ref_idx_l1: -1,
        mv_l0: [x, y],
        mv_l1: [0, 0],
    }
}

fn whole(x: i32, y: i32) -> MotionPlan {
    MotionPlan {
        whole: from_l0(x, y),
        halves: None,
        mb_type: b_mb_type::L0_16X16,
    }
}

fn planned(shape: &PictureShape, plans: &[MotionPlan]) -> Vec<MacroblockPlan> {
    plans
        .iter()
        .enumerate()
        .map(|(position, motion)| MacroblockPlan {
            place: shape.place_at(position),
            from_mate: false,
            address: position,
            motion: Some(*motion),
            residual: Residual::Own(None),
        })
        .collect()
}

fn near_l0(x: i32, y: i32) -> Neighbours {
    Neighbours {
        l0: [x, y],
        l1: [0, 0],
    }
}

#[test]
fn vectors_are_told_against_what_was_coded_before() {
    let shape = PictureShape {
        mb_width: 2,
        mb_height: 2,
        mbaff: false,
        pair: false,
        structure: PictureStructure::Frame,
        source_intra: false,
    };
    let plans = planned(
        &shape,
        &[whole(4, 0), whole(8, 4), whole(12, 8), whole(0, 0)],
    );
    let predicted = predict_vectors(&shape, &plans);
    let wholes: Vec<Neighbours> = predicted.iter().map(|p| p.unwrap().whole).collect();
    assert_eq!(
        wholes,
        vec![
            near_l0(0, 0),
            near_l0(4, 0),
            // Above and above right, and nothing to the left.
            near_l0(4, 0),
            // Left, above and above left.
            near_l0(8, 4),
        ]
    );
}

#[test]
fn either_field_of_a_pair_starts_anew() {
    let shape = PictureShape {
        mb_width: 1,
        mb_height: 4,
        mbaff: false,
        pair: true,
        structure: PictureStructure::TopField,
        source_intra: false,
    };
    let plans = planned(
        &shape,
        &[whole(4, 0), whole(8, 4), whole(12, 8), whole(0, 0)],
    );
    let predicted = predict_vectors(&shape, &plans);
    let wholes: Vec<Neighbours> = predicted.iter().map(|p| p.unwrap().whole).collect();
    assert_eq!(
        wholes,
        vec![
            near_l0(0, 0),
            near_l0(4, 0),
            near_l0(0, 0),
            near_l0(12, 8),
        ]
    );
}

#[test]
fn a_slice_that_predicts_from_itself_has_no_vectors() {
    let shape = PictureShape {
        mb_width: 1,
        mb_height: 1,
        mbaff: false,
        pair: false,
        structure: PictureStructure::Frame,
        source_intra: true,
    };
    let mut plans = planned(&shape, &[whole(4, 0)]);
    plans[0].motion = None;
    let predicted: Vec<Option<Predicted>> = predict_vectors(&shape, &plans);
    assert_eq!(predicted, vec![None]);
}

#[test]
fn a_pair_is_coded_at_the_finer_step() {
    let set = FieldTargetSet {
        active: [false; 4],
        converted: false,
    };
    let pair = Residual::Pair {
        targets: [set, set],
        scales: [Some(8), Some(16)],
    };
    let place = |mb_y| Place {
        second: false,
        field: mb_y % 2,
        mb_x: 0,
        mb_y,
    };
    assert_eq!(scales_for(&pair), [Some(8), Some(16)]);
    let mut chain = StepChain::new();
    assert_eq!(chain.next(&place(0), &pair, [Some(30), Some(24)]), 24);
    chain.wrote(24);
    assert_eq!(chain.next(&place(1), &pair, [Some(30), Some(24)]), 24);
    chain.wrote(20);
    // Nothing to code: whatever came before.
    assert_eq!(chain.next(&place(0), &pair, [None, None]), 20);
}

#[test]
fn what_carries_no_levels_goes_on_with_the_step_before() {
    let place = Place {
        second: false,
        field: 0,
        mb_x: 0,
        mb_y: 0,
    };
    let levels = LevelScale {
        quantiser_scale: 10,
        intra: false,
        mpeg1: false,
        intra_dc_precision: 0,
        field_lines: false,
    };
    let mut chain = StepChain::new();
    assert_eq!(chain.next(&place, &Residual::Own(None), [None, None]), 26);
    let own = Residual::Own(Some(levels));
    assert_eq!(scales_for(&own), [Some(10), None]);
    assert_eq!(chain.next(&place, &own, [Some(31), None]), 31);
    chain.wrote(31);
    assert_eq!(chain.next(&place, &Residual::Own(None), [None, None]), 31);
}

#[test]
fn a_chosen_step_is_remembered() {
    let mut steps = ChosenSteps::new();
    assert_eq!(steps.get(112), None);
    steps.insert(112, 45);
    steps.insert(2, 0);
    assert_eq!(steps.get(112), Some(45));
    assert_eq!(steps.get(2), Some(0));
    assert_eq!(steps.get(3), None);
}

fn context() -> PictureContext {
    let mut short_term = ShortTermFrames::new();
    short_term.push(1);
    PictureContext {
        frame_num: 2,
        poc: 4,
        is_reference: true,
        layout: RefLayout {
            count: 2,
            fwd_l0: 0,
            fwd_l1: 0,
            bwd_l0: -1,
            bwd_l1: -1,
            flat: 1,
            l1_short_term_delta: Some(1),
            anchor_second_field: false,
        },
        short_term,
        options: TranscodeOptions::default(),
        mbaff: false,
        real_idr: false,
        recovery_intra: false,
        weight_scale: [16; 64],
        picture_count: 1,
    }
}

#[test]
fn a_decoder_that_adds_the_differences_has_the_vectors() {
    let shape = PictureShape {
        mb_width: 3,
        mb_height: 3,
        mbaff: false,
        pair: false,
        structure: PictureStructure::Frame,
        source_intra: false,
    };
    let vectors: Vec<[i32; 2]> = (0..9)
        .map(|i: i32| [(i * 37) % 61 - 30, (i * 53) % 41 - 20])
        .collect();
    let motions: Vec<MotionPlan> = vectors.iter().map(|v| whole(v[0], v[1])).collect();
    let plans = planned(&shape, &motions);
    let predicted = predict_vectors(&shape, &plans);
    let context = context();
    let mut field = MotionField::new(3, 3);
    for (position, plan) in plans.iter().enumerate() {
        let near = predicted[position].unwrap();
        let mb = make_macroblock(
            &context,
            &shape,
            &plan.place,
            &motions[position],
            &near.whole,
            &near.halves,
            26,
            26,
        );
        assert_eq!((mb.mb_x, mb.mb_y), (position % 3, position / 3));
        let base = field.predict(mb.mb_x, mb.mb_y, 0, mb.ref_idx_l0);
        let decoded = [base[0] + mb.mvd_l0x, base[1] + mb.mvd_l0y];
        assert_eq!(decoded, vectors[position]);
        field.set(mb.mb_x, mb.mb_y, &moves(mb.ref_idx_l0, decoded[0], decoded[1]));
    }
}

#[test]
fn a_half_sample_on_one_axis_is_the_average_of_two_whole_ones() {
    let picture = |x: i32, y: i32| (x * x * 7 + y * 13 + x * y).rem_euclid(256);
    let (column, row) = (20, 30);
    for (x, y) in [(0i32, 0i32), (6, -4), (5, 2), (-5, 2), (4, 7), (-4, -7)] {
        let (at_x, at_y) = (column + x.div_euclid(2), row + y.div_euclid(2));
        let wanted = if x % 2 != 0 {
            (picture(at_x, at_y) + picture(at_x + 1, at_y) + 1) / 2
        } else if y % 2 != 0 {
            (picture(at_x, at_y) + picture(at_x, at_y + 1) + 1) / 2
        } else {
            picture(at_x, at_y)
        };
        let mapped = map_vector(x, y);
        let whole = |v: [i32; 2]| {
            assert_eq!((v[0] % 4, v[1] % 4), (0, 0));
            picture(column + v[0] / 4, row + v[1] / 4)
        };
        let got = match mapped.b {
            Some(b) => (whole(mapped.a) + whole(b) + 1) / 2,
            None => whole(mapped.a),
        };
        assert_eq!(got, wanted, "({x}, {y})");
    }
}
