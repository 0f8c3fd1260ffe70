//! What the headers of an elementary stream say.
use mpeg2toh264::h264::bitwriter::BitWriter;
use mpeg2toh264::container::fmp4::timeline::complementary_field;
use mpeg2toh264::mpeg2::constants::{mb_flag, PictureStructure, PictureType};
use mpeg2toh264::mpeg2::headers::{
    parse_elementary_stream, picture_geometry, picture_sequence_description,
    pictures_interlacing, scan_table, stream_sequence_description, Picture, SampleAspectRatio,
};
use mpeg2toh264::mpeg2::macroblock::Macroblock;
use mpeg2toh264::transcode::residual::{
    chroma_matrix, field_chroma_source, luma_matrix, scale_levels, source_field_targets,
};

// Header-only elementary streams exercise version detection without a
// video encoder or any dependency on coefficient decoding.
fn headers(mpeg2: bool, aspect: u32) -> Vec<u8> {
    let mut stream = vec![0, 0, 1, 0xb3];
    let mut w = BitWriter::new();
    for (n, value) in [
        (12, 640),
        (12, 480),
        (4, aspect),
        (4, 3),
        (18, 1),
        (1, 1),
        (10, 1),
        (1, 0),
        (1, 0),
        (1, 0),
    ] {
        w.u(n, value);
    }
    stream.extend_from_slice(w.bytes());
    if mpeg2 {
        stream.extend_from_slice(&[0, 0, 1, 0xb5]);
        w.clear();
        for (n, value) in [
            (4, 1),
            (8, 0x48),
            (1, 1),
            (2, 1),
            (2, 0),
            (2, 0),
            (12, 0),
            (1, 1),
            (8, 0),
            (1, 0),
            (2, 0),
            (5, 0),
        ] {
            w.u(n, value);
        }
        stream.extend_from_slice(w.bytes());
    }
    stream.extend_from_slice(&[0, 0, 1, 0]);
    w.clear();
    w.u(10, 0);
    w.u(3, 1);
    w.u(16, 0xffff);
    w.u(1, 0);
    w.u(2, 0); // byte alignment before the next start code
    stream.extend_from_slice(w.bytes());
    stream
}

#[test]
fn sequence_extension_selects_version_and_aspect_semantics() {
    for (mpeg2, expected) in [
        (
            false,
            SampleAspectRatio {
                width: 10000,
                height: 7031,
            },
        ),
        (
            true,
            SampleAspectRatio {
                width: 4,
                height: 3,
            },
        ),
    ] {
        let data = headers(mpeg2, 3);
        let pictures = parse_elementary_stream(&data).unwrap();
        assert_eq!(pictures.len(), 1);
        assert_eq!(pictures[0].is_mpeg1, !mpeg2);
        let parsed = picture_sequence_description(&pictures[0]);
        let peeked = stream_sequence_description(&data).unwrap();
        assert_eq!(parsed.sample_aspect_ratio, Some(expected));
        assert_eq!(parsed.centered_chroma, !mpeg2);
        assert_eq!(peeked, parsed);
    }
}

#[test]
fn chroma_siting_alone_changes_the_sequence_description() {
    let mpeg1 = stream_sequence_description(&headers(false, 1)).unwrap();
    let mpeg2 = stream_sequence_description(&headers(true, 1)).unwrap();
    assert_eq!(mpeg1.sample_aspect_ratio, mpeg2.sample_aspect_ratio);
    assert_eq!(mpeg1.width, mpeg2.width);
    assert_eq!(mpeg1.height, mpeg2.height);
    assert_eq!(mpeg1.mbaff, mpeg2.mbaff);
    assert_ne!(mpeg1, mpeg2);
}

#[test]
fn mpeg1_square_pels_and_reserved_aspects() {
    for (aspect, expected) in [
        (
            1,
            Some(SampleAspectRatio {
                width: 1,
                height: 1,
            }),
        ),
        (
            14,
            Some(SampleAspectRatio {
                width: 2000,
                height: 2403,
            }),
        ),
        (0, None),
        (15, None),
    ] {
        let data = headers(false, aspect);
        assert_eq!(
            stream_sequence_description(&data)
                .unwrap()
                .sample_aspect_ratio,
            expected
        );
    }
}

fn picture(mpeg2: bool) -> Picture {
    parse_elementary_stream(&headers(mpeg2, 1)).unwrap().remove(0)
}

#[test]
fn fields_have_half_the_rows() {
    let mut pic = picture(true);
    pic.sequence.vertical_size = 486;
    let frame = picture_geometry(&pic);
    assert_eq!((frame.width, frame.height), (640, 486));
    assert_eq!((frame.mb_width, frame.mb_height, frame.frame_mb_height), (40, 31, 31));
    assert!(!frame.is_field_picture);
    pic.coding.picture_structure = PictureStructure::BottomField;
    let field = picture_geometry(&pic);
    assert_eq!((field.mb_width, field.mb_height, field.frame_mb_height), (40, 16, 31));
    assert!(field.is_field_picture);
}

#[test]
fn a_picture_names_its_scan() {
    let mut pic = picture(true);
    assert_eq!(scan_table(&pic)[..4], [0, 1, 8, 16]);
    pic.coding.alternate_scan = true;
    assert_eq!(scan_table(&pic)[..4], [0, 8, 16, 24]);
}

#[test]
fn the_first_interlaced_picture_gives_the_order() {
    let mut film = picture(true);
    film.coding.progressive_frame = true;
    film.coding.top_field_first = false;
    let mut live = film.clone();
    live.coding.progressive_frame = false;
    let mut field = live.clone();
    field.coding.picture_structure = PictureStructure::TopField;
    let order = |pictures: &[Picture]| {
        let interlacing = pictures_interlacing(pictures);
        (interlacing.interlaced, interlacing.top_field_first)
    };
    assert_eq!(order(&[]), (false, true));
    assert_eq!(order(&[film.clone()]), (false, true));
    assert_eq!(order(&[film.clone(), live.clone(), field.clone()]), (true, false));
    assert_eq!(order(&[film, field, live]), (true, true));
}

#[test]
fn a_field_is_completed_by_the_other_one_of_its_frame() {
    let mut top = picture(true);
    top.coding.picture_structure = PictureStructure::TopField;
    let mut bottom = top.clone();
    bottom.coding.picture_structure = PictureStructure::BottomField;
    assert!(complementary_field(Some(&bottom), &top).is_some());
    assert!(complementary_field(Some(&top), &bottom).is_some());
    assert!(complementary_field(Some(&top), &top).is_none(), "the same parity");
    assert!(complementary_field(None, &top).is_none());
    bottom.header.picture_coding_type = PictureType::P;
    assert!(complementary_field(Some(&bottom), &top).is_some(), "a P field beside an I field");
    assert!(complementary_field(Some(&top), &bottom).is_none(), "but not ahead of it");
    bottom.header.temporal_reference += 1;
    assert!(complementary_field(Some(&bottom), &top).is_none(), "another frame");
}

fn macroblock(flags: i32, coded_blocks: [bool; 6]) -> Macroblock {
    let mut blocks = [[0; 64]; 6];
    blocks[5][3] = 7;
    Macroblock {
        address: 0,
        skipped: false,
        flags,
        quantiser_scale_code: 5,
        motion_type: 0,
        dct_type: 0,
        cbp: 0,
        mv: [0; 8],
        dmvector: [0; 2],
        field_select: [0; 4],
        mv_count: 0,
        blocks,
        coded_blocks,
    }
}

#[test]
fn levels_are_scaled_by_what_their_picture_says() {
    let mut pic = picture(true);
    pic.quant.intra[1] = 17;
    pic.quant.chroma_intra[1] = 18;
    assert_eq!(luma_matrix(&pic, true)[..2], [8, 17]);
    assert_eq!(chroma_matrix(&pic, true)[..2], [8, 18]);
    assert_eq!(luma_matrix(&pic, false)[..2], [16, 16]);
    assert_eq!(chroma_matrix(&pic, false)[..2], [16, 16]);

    let intra = macroblock(mb_flag::INTRA, [true, true, true, true, false, true]);
    let scale = scale_levels(&pic, false, Some(&intra)).unwrap();
    assert_eq!(scale.quantiser_scale, 10);
    assert!(scale.intra && !scale.mpeg1 && !scale.field_lines);
    assert!(scale_levels(&pic, false, None).is_none());
    let still = macroblock(mb_flag::MOTION_FORWARD, [false; 6]);
    assert!(scale_levels(&pic, false, Some(&still)).is_none());

    let cr = field_chroma_source(&pic, Some(&intra), 1);
    assert_eq!(cr.levels.unwrap()[3], 7);
    assert_eq!(cr.weight_scale[1], 18);
    assert_eq!(cr.quantiser_scale, 10);
    assert!(cr.intra);
    assert!(field_chroma_source(&pic, Some(&intra), 0).levels.is_none());
    let nothing = field_chroma_source(&pic, None, 1);
    assert!(nothing.levels.is_none() && nothing.quantiser_scale == 0);

    // Non-linear scales.
    pic.coding.q_scale_type = 1;
    let mut coarse = intra.clone();
    coarse.quantiser_scale_code = 31;
    assert_eq!(scale_levels(&pic, false, Some(&coarse)).unwrap().quantiser_scale, 112);
}

#[test]
fn frame_blocks_reach_both_fields() {
    let mut mb = macroblock(mb_flag::PATTERN, [true, false, false, false, false, false]);
    let split = source_field_targets(Some(&mb));
    assert!(split.converted);
    assert_eq!(split.active, [true, false, true, false]);
    mb.dct_type = 1;
    let kept = source_field_targets(Some(&mb));
    assert!(!kept.converted);
    assert_eq!(kept.active, [true, false, false, false]);
    mb.skipped = true;
    assert_eq!(source_field_targets(Some(&mb)).active, [false; 4]);
    assert_eq!(source_field_targets(None).active, [false; 4]);
}
