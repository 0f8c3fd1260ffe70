//! Codes that are written, and codes that are read.
use mpeg2toh264::bitreader::{find_start_codes, BitReader};
use mpeg2toh264::error::Error;
use mpeg2toh264::h264::bitwriter::BitWriter;
use mpeg2toh264::h264::mb::{b16x8_mb_type, PredictionMode};
use mpeg2toh264::h264::mvmap::{map_vector, native_position, VectorKind};
use mpeg2toh264::h264::nal::to_nal_unit;
use mpeg2toh264::h264::params::frame_geometry;
use mpeg2toh264::mpeg2::block::{escape_level, half_down, signed_dc_differential};
use mpeg2toh264::mpeg2::constants::QUANTISER_SCALE;
use mpeg2toh264::mpeg2::macroblock::address_increment;
use mpeg2toh264::mpeg2::vlc::VlcTable;
use mpeg2toh264::mpeg2::vlc_tables::EOB;

fn written(write: fn(&mut BitWriter)) -> Vec<u8> {
    let mut w = BitWriter::new();
    write(&mut w);
    w.bytes().to_vec()
}

#[test]
fn exp_golomb_codes() {
    // 1 010 011 00100 00101 is 0 1 2 3 4.
    assert_eq!(
        written(|w| {
            for value in 0..5 {
                w.ue(value);
            }
        }),
        [0b1010_0110, 0b0100_0010, 0b1000_0000]
    );
    // 1, -1, 2, -2 take the places 1 to 4.
    assert_eq!(
        written(|w| {
            for value in [1, -1, 2, -2] {
                w.se(value);
            }
        }),
        [0b0100_1100, 0b1000_0101]
    );
    assert_eq!(
        written(|w| {
            w.u(12, 0xabc);
            w.flag(true);
            w.rbsp_trailing_bits();
        }),
        [0xab, 0b1100_1100]
    );
}

#[test]
fn start_codes_are_kept_out_of_units() {
    assert_eq!(
        to_nal_unit(&[0, 0, 1, 0, 0, 0, 0, 0, 3], 3, 7),
        [0, 0, 0, 1, 0x67, 0, 0, 3, 1, 0, 0, 3, 0, 0, 3, 0, 3]
    );
}

#[test]
fn geometry_in_macroblocks() {
    let g = frame_geometry(1920, 1080, false);
    assert_eq!((g.mb_width, g.mb_height, g.map_units), (120, 68, 34));
    assert_eq!((g.crop_right, g.crop_bottom), (0, 2));
    let g = frame_geometry(20, 18, true);
    assert_eq!((g.mb_width, g.mb_height), (2, 2));
    assert_eq!((g.crop_right, g.crop_bottom), (6, 7));
}

#[test]
fn half_samples_are_two_whole_ones() {
    let whole = map_vector(4, -6);
    assert_eq!(whole.kind, VectorKind::Integer);
    assert_eq!((whole.a, whole.b), ([8, -12], None));
    let half = map_vector(5, 2);
    assert_eq!(half.kind, VectorKind::HalfOneAxis);
    let b = half.b.unwrap();
    assert_eq!((half.a[0] + b[0], half.a[1], b[1]), (20, 4, 4));
    assert_eq!(half.a[0] % 4, 0);
    assert_eq!(map_vector(1, 1).kind, VectorKind::HalfBothAxes);
    assert_eq!(native_position(-3, 7), [-6, 14]);
}

#[test]
fn types_of_split_macroblocks() {
    assert_eq!(b16x8_mb_type(PredictionMode::L0, PredictionMode::L0), 4);
    assert_eq!(b16x8_mb_type(PredictionMode::L1, PredictionMode::Bi), 14);
    assert_eq!(b16x8_mb_type(PredictionMode::Bi, PredictionMode::Bi), 20);
}

#[test]
fn bits_are_read_most_significant_first() {
    let data = [0b1010_0101, 0xff];
    let mut r = BitReader::new(&data);
    assert_eq!(r.u(3), 0b101);
    assert_eq!(r.peek(5), 0b00101);
    assert_eq!(r.bit_pos(), 3);
    assert_eq!(r.u(13), 0b0_0101_1111_1111);
    assert_eq!(r.u(8), 0, "there is nothing behind the end but zeros");
}

#[test]
fn start_codes_are_found() {
    let codes = find_start_codes(&[9, 0, 0, 1, 0xb3, 0, 0, 0, 1, 0x05, 1]);
    assert_eq!(codes.len(), 2);
    assert_eq!((codes[0].offset, codes[0].code, codes[0].payload_offset), (1, 0xb3, 5));
    assert_eq!((codes[1].offset, codes[1].code), (6, 5));
}

#[test]
fn variable_length_codes() {
    // end_of_block and an escape of the first coefficient table.
    let data = [0b1000_0000, 0, 0, 0];
    assert_eq!(
        VlcTable::Coefficients0.decode(&mut BitReader::new(&data)),
        Ok(EOB)
    );
    assert_eq!(
        VlcTable::MotionCode.decode(&mut BitReader::new(&[0b0110_0000, 0, 0])),
        Ok(-1)
    );
    assert_eq!(
        VlcTable::DcSizeLuma.decode(&mut BitReader::new(&[0b1000_0000, 0, 0])),
        Ok(0)
    );
    assert_eq!(
        VlcTable::TypeI.decode(&mut BitReader::new(&[0, 0, 0])),
        Err(Error::InvalidCode)
    );
}

#[test]
fn what_stands_behind_a_code_does_not_matter() {
    for table in [
        VlcTable::AddressIncrement,
        VlcTable::TypeI,
        VlcTable::TypeP,
        VlcTable::TypeB,
        VlcTable::CodedBlockPattern,
        VlcTable::MotionCode,
        VlcTable::Dmvector,
        VlcTable::DcSizeLuma,
        VlcTable::DcSizeChroma,
    ] {
        let mut decoded = 0;
        for bits in 0..(1u32 << 12) {
            let string = bits << 20;
            let bytes = string.to_be_bytes();
            let mut r = BitReader::new(&bytes);
            let value = match table.decode(&mut r) {
                Ok(value) => value,
                Err(_) => continue,
            };
            decoded += 1;
            let length = r.bit_pos();
            let other = string ^ (u32::MAX >> length);
            let bytes = other.to_be_bytes();
            let mut r = BitReader::new(&bytes);
            assert_eq!(table.decode(&mut r), Ok(value));
            assert_eq!(r.bit_pos(), length);
        }
        assert!(decoded > 0);
    }
}

#[test]
fn levels_that_the_syntax_rules_out() {
    assert_eq!(
        escape_level(&mut BitReader::new(&[0, 0, 0, 0]), true),
        Err(Error::EscapeLevel { level: 0 })
    );
    // An escape with no increment behind it.
    let data = [0b0000_0001, 0b0000_0000, 0b0000_0000, 0];
    assert_eq!(
        address_increment(&mut BitReader::new(&data), true),
        Err(Error::UnterminatedAddressEscape)
    );
}

#[test]
fn differences_of_dc() {
    // Size three: 100 to 111 are 4 to 7, 000 to 011 are -7 to -4.
    assert_eq!(signed_dc_differential(&mut BitReader::new(&[0b1010_0000]), 3), 5);
    assert_eq!(signed_dc_differential(&mut BitReader::new(&[0b0010_0000]), 3), -6);
    assert_eq!(half_down(-3), -2);
    assert_eq!(half_down(5), 2);
}

#[test]
fn quantiser_scales() {
    assert_eq!(QUANTISER_SCALE[0][31], 62);
    assert_eq!(QUANTISER_SCALE[1][8], 8);
    assert_eq!(QUANTISER_SCALE[1][31], 112);
}
