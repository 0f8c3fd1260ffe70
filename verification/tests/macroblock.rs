//! The syntax of macroblocks.
use mpeg2toh264::bitreader::BitReader;
use mpeg2toh264::mpeg2::block::{escape_level, mirror_single_vector_predictors};
use mpeg2toh264::mpeg2::macroblock::{address_increment, full_pel_to_half_pel};
use mpeg2toh264::mpeg2::vlc::VlcTable;
use mpeg2toh264::mpeg2::vlc_tables::EOB;

fn bits(text: &str) -> Vec<u8> {
    let mut bytes = vec![0; text.len().div_ceil(8) + 4];
    for (i, bit) in text.bytes().enumerate() {
        assert!(bit == b'0' || bit == b'1');
        bytes[i / 8] |= (bit - b'0') << (7 - i % 8);
    }
    bytes
}

#[test]
fn mpeg1_escape_levels_consume_their_variable_width() {
    for (encoded, expected) in [
        ("00000001", 1),
        ("01111111", 127),
        ("11111111", -1),
        ("10000001", -127),
        ("0000000010000000", 128),
        ("0000000011111111", 255),
        ("1000000000000001", -255),
        ("1000000010000000", -128),
    ] {
        let data = bits(&format!("{encoded}10"));
        let mut r = BitReader::new(&data);
        assert_eq!(escape_level(&mut r, true).unwrap(), expected);
        assert_eq!(r.bit_pos(), encoded.len());
        assert_eq!(VlcTable::Coefficients0.decode(&mut r).unwrap(), EOB);
    }
    let data = bits("11111000000010");
    let mut r = BitReader::new(&data);
    assert_eq!(escape_level(&mut r, false).unwrap(), -128);
    assert_eq!(r.bit_pos(), 12);
    assert_eq!(VlcTable::Coefficients0.decode(&mut r).unwrap(), EOB);
    for invalid in ["0000000000000000", "1000000000000000"] {
        let data = bits(invalid);
        assert!(escape_level(&mut BitReader::new(&data), true).is_err());
    }
}

#[test]
fn mpeg1_stuffing_can_surround_macroblock_address_escapes() {
    let data = bits("000000011110000000100000000001111011");
    let mut r = BitReader::new(&data);
    assert_eq!(address_increment(&mut r, true).unwrap(), Some(35));
    assert_eq!(r.bit_pos(), 36);
    assert_eq!(address_increment(&mut r, true).unwrap(), None);
    assert!(address_increment(&mut BitReader::new(&data), false).is_err());
}

#[test]
fn full_pel_vectors_scale_each_direction_independently() {
    let original = [1, -2, 3, -4, 5, -6, 7, -8];
    let mut mv = original;
    full_pel_to_half_pel(&mut mv, true, false);
    assert_eq!(mv, [2, -4, 3, -4, 10, -12, 7, -8]);
    let mut mv = original;
    full_pel_to_half_pel(&mut mv, false, true);
    assert_eq!(mv, [1, -2, 6, -8, 5, -6, 14, -16]);
}

#[test]
fn one_vector_motion_updates_both_r_predictors() {
    let mut pmv = [11, -12, 21, -22, 99, 99, 99, 99];
    mirror_single_vector_predictors(&mut pmv, true, true);
    assert_eq!(pmv, [11, -12, 21, -22, 11, -12, 21, -22]);
}
