//! What a decoder makes of levels.
use mpeg2toh264::h264::params::{ZIGZAG_4X4, ZIGZAG_8X8};
use mpeg2toh264::h264::reconstruct::{
    chroma_dc_terms, chroma_qp, chroma_residual_4x4, residual_8x8, ChromaBlockLevels,
    InverseScale8x8, FIELD_SCAN_4X4, FIELD_SCAN_8X8,
};
use mpeg2toh264::mpeg2::constants::PictureStructure;
use mpeg2toh264::transcode::intra::IntraState;
use mpeg2toh264::transcode::picture::PictureShape;

fn state() -> IntraState {
    IntraState::new(&PictureShape {
        mb_width: 1,
        mb_height: 1,
        mbaff: false,
        pair: false,
        structure: PictureStructure::Frame,
        source_intra: true,
    })
}

#[test]
fn scales_are_weights_times_norms() {
    let mut weights = [16; 64];
    weights[9] = 255;
    let scale = InverseScale8x8::new(&weights);
    assert_eq!(scale.factors[0][0], 320);
    assert_eq!(scale.factors[0][1], 16 * 19);
    assert_eq!(scale.factors[0][9], 255 * 18);
    assert_eq!(scale.factors[5][18], 16 * 58);
    assert_eq!(scale.factors[3][2], 16 * 35);
    assert_eq!(scale.factors[4][10], 16 * 38);
}

#[test]
fn a_first_level_moves_the_whole_block() {
    let scale = InverseScale8x8::new(&[16; 64]);
    let mut levels = [0; 64];
    assert_eq!(residual_8x8(&levels, 20, &scale), [0; 64]);
    levels[0] = 3;
    // 3 * 320 at step 36 is 960, and 992 / 64 is 15.
    assert_eq!(residual_8x8(&levels, 36, &scale), [15; 64]);
    levels[0] = -3;
    assert_eq!(residual_8x8(&levels, 36, &scale), [-15; 64]);
    // At step 24 the product is rounded down by four steps of six less two: 960 / 4.
    levels[0] = 3;
    assert_eq!(residual_8x8(&levels, 24, &scale), [(240 + 32) / 64; 64]);
}

#[test]
fn a_horizontal_frequency_makes_columns() {
    let scale = InverseScale8x8::new(&[16; 64]);
    let mut levels = [0; 64];
    levels[4] = 4;
    // 4 * 320 = 1280 with the signs of the fourth frequency.
    let row: [i32; 8] = [20, -20, -20, 20, 20, -20, -20, 20];
    let residual = residual_8x8(&levels, 36, &scale);
    for y in 0..8 {
        assert_eq!(&residual[8 * y..8 * y + 8], &row);
    }
    levels[4] = 0;
    levels[32] = 4;
    let turned = residual_8x8(&levels, 36, &scale);
    for y in 0..8 {
        for x in 0..8 {
            assert_eq!(turned[8 * y + x], row[y]);
        }
    }
}

#[test]
fn an_odd_frequency_runs_through_both_roundings() {
    let scale = InverseScale8x8::new(&[16; 64]);
    let mut levels = [0; 64];
    levels[1] = 8;
    // 8 * 304 = 2432: three halves, five quarters, three quarters and three eighths of it.
    let residual = residual_8x8(&levels, 36, &scale);
    let expected = [3648, 3040, 1824, 912, -912, -1824, -3040, -3648];
    for x in 0..8 {
        let value: i32 = expected[x];
        assert_eq!(residual[x], (value + 32) >> 6);
    }
}

#[test]
fn chroma_terms_come_from_all_four_levels() {
    // 10 * 2^0 / 2 each.
    assert_eq!(chroma_dc_terms(&[1, 0, 0, 0], 0), [5, 5, 5, 5]);
    assert_eq!(chroma_dc_terms(&[0, 1, 0, 0], 0), [5, -5, 5, -5]);
    assert_eq!(chroma_dc_terms(&[0, 0, 1, 0], 0), [5, 5, -5, -5]);
    assert_eq!(chroma_dc_terms(&[0, 0, 0, 1], 0), [5, -5, -5, 5]);
    // 11 is halved down.
    assert_eq!(chroma_dc_terms(&[-1, 0, 0, 0], 1), [-6; 4]);
    assert_eq!(chroma_dc_terms(&[1, 2, 3, 4], 13), [220, -44, -88, 0]);
}

#[test]
fn chroma_blocks_are_transformed_back() {
    assert_eq!(chroma_residual_4x4(&[0; 16], 640, 20), [10; 16]);
    let mut levels = [0; 16];
    levels[2] = 16;
    // 16 * 10 * 2^2 = 640 with the signs of the second frequency.
    let row = [10, -10, -10, 10];
    let residual = chroma_residual_4x4(&levels, 0, 12);
    for y in 0..4 {
        assert_eq!(&residual[4 * y..4 * y + 4], &row);
    }
}

#[test]
fn chroma_steps_fall_behind() {
    assert_eq!(chroma_qp(20, -6), 14);
    assert_eq!(chroma_qp(3, -6), 0);
    assert_eq!(chroma_qp(36, -6), 29);
    assert_eq!(chroma_qp(51, 0), 39);
    assert_eq!(chroma_qp(51, 12), 39);
    assert_eq!(chroma_qp(40, -6), 32);
}

#[test]
fn scans_visit_every_place() {
    for scan in [&ZIGZAG_8X8, &FIELD_SCAN_8X8] {
        let mut seen = [false; 64];
        for &place in scan {
            assert!(!seen[place]);
            seen[place] = true;
        }
    }
    for scan in [&ZIGZAG_4X4, &FIELD_SCAN_4X4] {
        let mut seen = [false; 16];
        for &place in scan {
            assert!(!seen[place]);
            seen[place] = true;
        }
    }
}

#[test]
fn levels_are_put_back_together() {
    let scale = InverseScale8x8::new(&[16; 64]);
    let mut state = state();
    let mut levels = [0; 64];
    levels[0] = 3;
    state.store_luma(0, 0, 3, 100, Some(&levels), 36, &scale, &ZIGZAG_8X8);
    assert_eq!(state.picture.luma[8 * 16 + 8], 115);
    assert_eq!(state.picture.luma[8 * 16 + 7], 0);
    // The second level of a field's scan stands below the first.
    levels[0] = 0;
    levels[6] = 4;
    state.store_luma(0, 0, 0, 100, Some(&levels), 36, &scale, &FIELD_SCAN_8X8);
    assert_eq!(state.picture.luma[0], 120);
    assert_eq!(state.picture.luma[16], 80);
    state.store_luma(0, 0, 0, 90, None, 36, &scale, &ZIGZAG_8X8);
    assert_eq!(state.picture.luma[0], 90);
}

#[test]
fn unwritten_chroma_levels_add_nothing() {
    let levels = ChromaBlockLevels {
        dc: [128, 0, 0, 0],
        ac: [[0; 15]; 4],
    };
    let mut moved = levels;
    moved.ac[1][1] = 16;
    let mut state = state();
    let prediction = [[100; 4], [50; 4]];
    // 128 * 10 / 2 = 640 for every block.
    state.store_chroma(0, 0, &prediction, &[levels, moved], 0, 1, &ZIGZAG_4X4);
    assert!(state.picture.cb.iter().all(|&sample| sample == 110));
    assert!(state.picture.cr.iter().all(|&sample| sample == 60));
    state.store_chroma(0, 0, &prediction, &[levels, moved], 0, 0, &ZIGZAG_4X4);
    assert!(state.picture.cb.iter().all(|&sample| sample == 100));
    state.store_chroma(0, 0, &prediction, &[levels, moved], 0, 2, &ZIGZAG_4X4);
    assert!(state.picture.cb.iter().all(|&sample| sample == 110));
    // A vertical frequency of 16 * 13 in the second block of the other component.
    assert_eq!(state.picture.cr[0], 60);
    let column: Vec<u8> = (0..4).map(|y| state.picture.cr[8 * y + 4]).collect();
    let term = |value: i32| (50 + ((640 + value + 32) >> 6)) as u8;
    assert_eq!(column, [term(208), term(104), term(-104), term(-208)]);
}
