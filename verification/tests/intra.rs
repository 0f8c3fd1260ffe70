//! Blocks that are predicted from the samples beside them.
use mpeg2toh264::h264::intra::{chroma_dc, luma_8x8_dc, CodingOrder};
use mpeg2toh264::mpeg2::constants::PictureStructure;
use mpeg2toh264::transcode::intra::{row_of, IntraState};
use mpeg2toh264::transcode::picture::PictureShape;

fn frame(mb_width: usize, mb_height: usize, mbaff: bool) -> CodingOrder {
    CodingOrder {
        mb_width,
        mb_height,
        mbaff,
    }
}

fn shape(mbaff: bool, pair: bool) -> PictureShape {
    PictureShape {
        mb_width: 2,
        mb_height: 2,
        mbaff,
        pair,
        structure: PictureStructure::Frame,
        source_intra: true,
    }
}

#[test]
fn a_block_with_nothing_beside_it_is_grey() {
    let plane = [7u8; 32 * 32];
    assert_eq!(luma_8x8_dc(&plane, 32, &frame(2, 2, false), 0, 0, 0), 128);
    assert_eq!(chroma_dc(&plane[..16 * 16], 16, &frame(2, 2, false), 0, 0), [128; 4]);
}

#[test]
fn flat_neighbours_predict_themselves() {
    let plane = [77u8; 32 * 32];
    let order = frame(2, 2, false);
    for blk in 0..4 {
        assert_eq!(luma_8x8_dc(&plane, 32, &order, 1, 1, blk), 77);
    }
    assert_eq!(chroma_dc(&plane[..16 * 16], 16, &order, 1, 1), [77; 4]);
}

#[test]
fn neighbours_are_smoothed_before_they_are_averaged() {
    // The row above block 2 of the only macroblock: block 0 over its last line, and
    // block 1 to the right of it.
    let mut plane = [0u8; 16 * 16];
    plane[7 * 16 + 8] = 64;
    let order = frame(1, 1, false);
    // The last sample above is (0 + 0 + 64 + 2) / 4 = 16, and 16 / 8 rounds to 2.
    assert_eq!(luma_8x8_dc(&plane, 16, &order, 0, 0, 2), 2);
    // Block 3 has nothing to its right: above it stand 64 and zeros, and to its left
    // zeros. The first sample is (0 + 128 + 0 + 2) / 4 = 32, the second
    // (64 + 0 + 0 + 2) / 4 = 16: 48 + 8 over 16 is 3.
    assert_eq!(luma_8x8_dc(&plane, 16, &order, 0, 0, 3), 3);
}

#[test]
fn the_left_column_is_smoothed_too() {
    let mut plane = [10u8; 16 * 16];
    plane[7] = 50;
    // Block 1 has only its left: 50 for its first line and 10 for the others. The first
    // two come to (3 * 50 + 10 + 2) / 4 = 40 and (50 + 20 + 10 + 2) / 4 = 20.
    assert_eq!(
        luma_8x8_dc(&plane, 16, &frame(1, 1, false), 0, 0, 1),
        (40 + 20 + 6 * 10 + 4) / 8
    );
}

#[test]
fn chroma_blocks_choose_their_side() {
    let mut plane = [0u8; 16 * 16];
    // The macroblock at the lower right has 100 above it and 20 to its left.
    for x in 8..16 {
        plane[7 * 16 + x] = 100;
    }
    for y in 8..16 {
        plane[y * 16 + 7] = 20;
    }
    let order = frame(2, 2, false);
    assert_eq!(chroma_dc(&plane, 16, &order, 1, 1), [60, 100, 20, 60]);
    // With nothing above, what is to the left does for all.
    assert_eq!(chroma_dc(&plane, 16, &frame(2, 2, false), 1, 0), [0; 4]);
}

#[test]
fn pairs_are_coded_top_and_bottom() {
    let mut plane = [0u8; 32 * 32];
    for sample in &mut plane[..16 * 32] {
        *sample = 90;
    }
    // In raster order the macroblock to the upper right is coded before the one at the
    // lower left; in pairs it is coded behind it.
    let mut edge = plane;
    edge[15 * 32 + 16] = 10;
    let raster = luma_8x8_dc(&edge, 32, &frame(2, 2, false), 0, 1, 1);
    let paired = luma_8x8_dc(&edge, 32, &frame(2, 2, true), 0, 1, 1);
    // (90 + 180 + 10 + 2) / 4 = 70 for the last of eight above; zeros to the left.
    assert_eq!(raster, (7 * 90 + 70 + (90 + 2) / 4 + 8) / 16);
    assert_eq!(paired, (8 * 90 + (90 + 2) / 4 + 8) / 16);
}

#[test]
fn what_is_stored_is_predicted_from() {
    let mut state = IntraState::new(&shape(false, false));
    assert_eq!(state.predict_luma(0, 0, 0), 128);
    state.picture.store_luma(0, 0, 0, 40, None);
    assert_eq!(state.predict_luma(0, 0, 1), 40);
    state.picture.store_chroma(1, 0, 0, 1, 30, &[0; 16]);
    state.picture.store_chroma(1, 0, 0, 3, 30, &[0; 16]);
    assert_eq!(state.predict_chroma(1, 0), [[0; 4], [30; 4]]);
}

#[test]
fn a_missing_macroblock_continues_its_neighbours() {
    let mut state = IntraState::new(&shape(false, false));
    for blk in 0..4 {
        state.picture.store_luma(0, 0, blk, 60, None);
    }
    state.conceal_luma(1, 0);
    assert!(state.picture.luma[..16 * 32].iter().all(|&sample| sample == 60));
    let mut empty = IntraState::new(&shape(false, false));
    empty.conceal_luma(0, 0);
    assert_eq!(empty.picture.luma[15 * 32 + 15], 128);
}

#[test]
fn macroblocks_come_in_turn() {
    let fields = shape(true, true);
    let state = IntraState::new(&fields);
    assert_eq!(state.order, frame(2, 1, false));
    assert_eq!((state.picture.width, state.picture.height), (32, 16));
    assert_eq!(row_of(&fields, &fields.place_at(1)), 0);
    let pairs = shape(true, false);
    assert_eq!(IntraState::new(&pairs).order, frame(2, 2, true));
    assert_eq!(row_of(&pairs, &pairs.place_at(3)), 1);
}
