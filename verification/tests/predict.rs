//! How vectors and reference indices are mapped.
use mpeg2toh264::h264::mb::b_mb_type;
use mpeg2toh264::job::RefLayout;
use mpeg2toh264::mpeg2::constants::mb_flag;
use mpeg2toh264::mpeg2::macroblock::Macroblock;
use mpeg2toh264::mpeg2::motion_type;
use mpeg2toh264::transcode::options::Stats;
use mpeg2toh264::transcode::predict::{
    count_field_pair_vector, dual_prime_opposite, field_picture_ref_index,
    field_picture_selected_parity, frame_vector, prediction_for, prediction_for_field,
    prediction_for_field_picture, rounded_half, FieldSetting, Prediction,
};

#[test]
fn an_uncoded_p_field_vector_infers_same_parity() {
    assert_eq!(field_picture_selected_parity(false, 0, 0, 1, 0), 1);
    assert_eq!(
        field_picture_selected_parity(false, mb_flag::MOTION_FORWARD, 0, 1, 0),
        0
    );
}

#[test]
fn h262_half_rounds_ties_away_from_zero() {
    assert_eq!(rounded_half(3), 2);
    assert_eq!(rounded_half(-3), -2);
    assert_eq!(rounded_half(2), 1);
    assert_eq!(rounded_half(-2), -1);
}

#[test]
fn dual_prime_uses_the_field_distance_and_parity_offset() {
    let coded = [3, -3];
    let differential = [1, -1];
    assert_eq!(
        dual_prime_opposite(coded, differential, 0, true, true),
        [3, -4],
        "top field is one field interval from the opposite reference"
    );
    assert_eq!(
        dual_prime_opposite(coded, differential, 1, true, true),
        [6, -5],
        "bottom field is three field intervals from the opposite reference"
    );
}

#[test]
fn b_field_lists_start_with_the_current_parity() {
    assert_eq!(field_picture_ref_index(0, 0, 0, false, true), 0);
    assert_eq!(field_picture_ref_index(0, 1, 0, false, true), 1);
    assert_eq!(field_picture_ref_index(0, 1, 1, false, true), 0);
    assert_eq!(field_picture_ref_index(0, 0, 1, false, true), 1);
}

#[test]
fn p_field_lists_also_start_with_the_current_parity() {
    assert_eq!(field_picture_ref_index(0, 0, 0, false, true), 0);
    assert_eq!(field_picture_ref_index(0, 1, 0, false, true), 1);
    assert_eq!(field_picture_ref_index(0, 1, 1, false, true), 0);
    assert_eq!(field_picture_ref_index(0, 0, 1, false, true), 1);
}

#[test]
fn a_second_reference_field_keeps_the_first_field_at_index_one() {
    // The older same-parity field remains first. The already decoded first
    // field of the current pair is the opposite-parity entry immediately
    // after it.
    assert_eq!(field_picture_ref_index(0, 1, 1, true, true), 0);
    assert_eq!(field_picture_ref_index(0, 0, 1, true, true), 1);
}

/// A macroblock with nothing but motion.
fn moving(flags: i32, motion_type: i32, mv: [i32; 8]) -> Macroblock {
    Macroblock {
        address: 0,
        skipped: false,
        flags,
        quantiser_scale_code: 1,
        motion_type,
        dct_type: 0,
        cbp: 0,
        mv,
        dmvector: [1, -1],
        field_select: [0; 4],
        mv_count: 2,
        blocks: [[0; 64]; 6],
        coded_blocks: [false; 6],
    }
}

/// Past, future, flat, in list 0; future, past, flat in list 1.
const BOTH_WAYS: RefLayout = RefLayout {
    count: 3,
    fwd_l0: 0,
    fwd_l1: 1,
    bwd_l0: 1,
    bwd_l1: 0,
    flat: 2,
    l1_short_term_delta: None,
    anchor_second_field: false,
};

const FORWARD_ONLY: RefLayout = RefLayout {
    count: 2,
    fwd_l0: 0,
    fwd_l1: 0,
    bwd_l0: -1,
    bwd_l1: -1,
    flat: 1,
    l1_short_term_delta: None,
    anchor_second_field: false,
};

fn l0(ref_idx_l0: i32, mv_l0: [i32; 2]) -> Prediction {
    Prediction {
        mb_type: b_mb_type::L0_16X16,
        ref_idx_l0,
        ref_idx_l1: -1,
        mv_l0,
        mv_l1: [0, 0],
    }
}

fn l1(ref_idx_l1: i32, mv_l1: [i32; 2]) -> Prediction {
    Prediction {
        mb_type: b_mb_type::L1_16X16,
        ref_idx_l0: -1,
        ref_idx_l1,
        mv_l0: [0, 0],
        mv_l1,
    }
}

fn bi(ref_idx: [i32; 2], mv_l0: [i32; 2], mv_l1: [i32; 2]) -> Prediction {
    Prediction {
        mb_type: b_mb_type::BI_16X16,
        ref_idx_l0: ref_idx[0],
        ref_idx_l1: ref_idx[1],
        mv_l0,
        mv_l1,
    }
}

const FRAME: i32 = motion_type::FRAME_OR_16X8;

#[test]
fn a_frame_macroblock_goes_where_its_vectors_point() {
    let mut stats = Stats::default();
    let mut predict = |mb: Option<&Macroblock>, intra: bool| {
        prediction_for(mb, intra, &BOTH_WAYS, &mut stats)
    };
    let forward = moving(mb_flag::MOTION_FORWARD, FRAME, [4, -6, 0, 0, 0, 0, 0, 0]);
    assert_eq!(predict(None, false), l0(2, [0, 0]), "the flat prediction");
    assert_eq!(predict(Some(&forward), true), l0(2, [0, 0]));
    assert_eq!(predict(Some(&forward), false), l0(0, [8, -12]));
    // Half a sample across: the two whole samples beside it, through both lists.
    let half = moving(mb_flag::MOTION_FORWARD, FRAME, [3, -2, 0, 0, 0, 0, 0, 0]);
    assert_eq!(predict(Some(&half), false), bi([0, 1], [4, -4], [8, -4]));
    // Half a sample both ways: the two lines beside it.
    let backward = moving(mb_flag::MOTION_BACKWARD, FRAME, [0, 0, -3, 5, 0, 0, 0, 0]);
    assert_eq!(predict(Some(&backward), false), bi([1, 0], [-6, 8], [-6, 12]));
    let whole = moving(mb_flag::MOTION_BACKWARD, FRAME, [0, 0, -2, 4, 0, 0, 0, 0]);
    assert_eq!(predict(Some(&whole), false), l1(0, [-4, 8]));
    let both = moving(
        mb_flag::MOTION_FORWARD | mb_flag::MOTION_BACKWARD,
        FRAME,
        [1, 2, -3, 5, 0, 0, 0, 0],
    );
    assert_eq!(predict(Some(&both), false), bi([0, 0], [2, 4], [-6, 10]));
    assert_eq!(
        stats,
        Stats {
            integer_vectors: 2,
            single_axis_half_vectors: 1,
            both_axis_half_vectors: 1,
            bidirectional_vectors: 1,
            ..Stats::default()
        }
    );
}

#[test]
fn two_field_vectors_make_one_frame_vector() {
    let mb = moving(
        mb_flag::MOTION_FORWARD,
        motion_type::FIELD,
        [3, 2, 7, -1, 4, -6, -2, -3],
    );
    assert_eq!(frame_vector(&mb, false), [4, -4]);
    assert_eq!(frame_vector(&mb, true), [3, -4]);
    let frame = Macroblock {
        motion_type: FRAME,
        ..mb
    };
    assert_eq!(frame_vector(&frame, false), [3, 2]);
    assert_eq!(frame_vector(&frame, true), [7, -1]);
}

#[test]
fn a_frame_vector_finds_its_line_in_the_fields() {
    let predict = |field: usize, mv: [i32; 2]| {
        let mb = moving(
            mb_flag::MOTION_FORWARD,
            FRAME,
            [mv[0], mv[1], 0, 0, 0, 0, 0, 0],
        );
        prediction_for_field(Some(&mb), field, true, &BOTH_WAYS, false)
    };
    assert_eq!(
        prediction_for_field(None, 0, true, &BOTH_WAYS, false),
        l0(4, [0, 0])
    );
    // One line down from the bottom field is the top field's next line.
    assert_eq!(predict(1, [4, 2]), l0(1, [8, 4]));
    assert_eq!(predict(1, [4, 4]), l0(0, [8, 4]));
    // Between two lines: one in each field.
    assert_eq!(predict(0, [4, 3]), bi([1, 2], [8, 0], [8, 4]));
    // Between two samples of one line.
    assert_eq!(predict(0, [3, 4]), bi([0, 2], [4, 4], [8, 4]));
}

#[test]
fn a_field_vector_names_its_field() {
    let mut mb = moving(
        mb_flag::MOTION_FORWARD,
        motion_type::FIELD,
        [9, 9, 9, 9, 2, 4, 9, 9],
    );
    assert_eq!(
        prediction_for_field(Some(&mb), 1, true, &BOTH_WAYS, false),
        l0(1, [4, 8])
    );
    mb.field_select[2] = 1;
    assert_eq!(
        prediction_for_field(Some(&mb), 1, true, &BOTH_WAYS, false),
        l0(0, [4, 8])
    );
    let dual = moving(
        mb_flag::MOTION_FORWARD,
        motion_type::DUAL_PRIME,
        [3, -3, 0, 0, 0, 0, 0, 0],
    );
    assert_eq!(
        prediction_for_field(Some(&dual), 0, true, &BOTH_WAYS, false),
        bi([0, 3], [6, -6], [6, -8])
    );
}

#[test]
fn field_pictures_name_fields() {
    let mut stats = Stats::default();
    let setting = FieldSetting {
        field: 0,
        second_reference_field: false,
        flat_field_idx: 5,
    };
    let mut predict = |mb: Option<&Macroblock>, layout: &RefLayout| {
        prediction_for_field_picture(mb, setting, 0, false, layout, &mut stats)
    };
    let second = RefLayout {
        anchor_second_field: true,
        ..FORWARD_ONLY
    };
    let mut mb = moving(mb_flag::MOTION_FORWARD, FRAME, [2, 4, 0, 0, 0, 0, 0, 0]);
    assert_eq!(predict(None, &FORWARD_ONLY), l0(5, [0, 0]));
    assert_eq!(predict(None, &second), l1(0, [0, 0]));
    assert_eq!(predict(Some(&mb), &second), l0(0, [4, 8]));
    assert_eq!(predict(Some(&mb), &FORWARD_ONLY), l0(0, [4, 8]));
    mb.field_select[0] = 1;
    assert_eq!(predict(Some(&mb), &FORWARD_ONLY), l0(1, [4, 8]));
    // The same field through the second list, where the two parities are exchanged.
    mb.mv[1] = 5;
    assert_eq!(predict(Some(&mb), &FORWARD_ONLY), bi([1, 0], [4, 8], [4, 12]));
    mb.field_select[0] = 0;
    assert_eq!(predict(Some(&mb), &FORWARD_ONLY), bi([0, 1], [4, 8], [4, 12]));
    let dual = moving(
        mb_flag::MOTION_FORWARD,
        motion_type::DUAL_PRIME,
        [3, -3, 0, 0, 0, 0, 0, 0],
    );
    assert_eq!(predict(Some(&dual), &FORWARD_ONLY), bi([0, 0], [6, -6], [6, -8]));
    assert_eq!(
        stats,
        Stats {
            integer_vectors: 2,
            single_axis_half_vectors: 2,
            bidirectional_vectors: 2,
            ..Stats::default()
        }
    );
}

#[test]
fn a_pair_counts_the_vector_of_its_frame() {
    let mut stats = Stats::default();
    for (flags, mv) in [
        (mb_flag::MOTION_FORWARD, [2, 4, 1, 1, 0, 0, 0, 0]),
        (mb_flag::MOTION_FORWARD, [3, 4, 1, 1, 0, 0, 0, 0]),
        (mb_flag::MOTION_BACKWARD, [2, 4, 1, 1, 0, 0, 0, 0]),
        (
            mb_flag::MOTION_FORWARD | mb_flag::MOTION_BACKWARD,
            [2, 4, 1, 1, 0, 0, 0, 0],
        ),
    ] {
        count_field_pair_vector(Some(&moving(flags, FRAME, mv)), false, &BOTH_WAYS, &mut stats);
    }
    count_field_pair_vector(None, false, &BOTH_WAYS, &mut stats);
    assert_eq!(
        stats,
        Stats {
            integer_vectors: 1,
            single_axis_half_vectors: 1,
            both_axis_half_vectors: 1,
            bidirectional_vectors: 1,
            ..Stats::default()
        }
    );
}
