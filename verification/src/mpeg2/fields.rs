//! Where the fields of the headers lie, and what they mean.
use crate::bitreader;
use crate::bitreader::StartCode;
use crate::bits;
use crate::mpeg2::constants::{
    PictureStructure, ALTERNATE_SCAN, DEFAULT_INTRA_QUANT, DEFAULT_NON_INTRA_QUANT,
    QUANTISER_SCALE, ZIGZAG_SCAN,
};
use crate::mpeg2::headers;
use crate::mpeg2::headers::{
    PictureCodingExtension, PictureHeader, PictureView, SequenceExtension, SequenceHeader,
};
use crate::mpeg2::syntax;
use vstd::arithmetic::power2;
use vstd::prelude::*;

verus! {

/// The number in the `n` bits that begin `from` bits behind `pos`.
pub open spec fn field(data: Seq<u8>, pos: nat, from: int, n: nat) -> int {
    bits::bits(data, pos + from, n) as int
}

/// A field of up to 30 bits is a number of that many bits.
proof fn lemma_field(data: Seq<u8>, pos: nat, from: int, n: nat)
    requires
        n <= 30,
    ensures
        0 <= field(data, pos, from, n) < 0x4000_0000,
        n == 1 ==> field(data, pos, from, n) < 2,
        n == 2 ==> field(data, pos, from, n) < 4,
{
    power2::lemma2_to64();
    bits::lemma_bits_bound(data, pos + from, n);
    if n < 30 {
        power2::lemma_pow2_strictly_increases(n, 30);
    }
}

/// A sequence header: the size in twelve bits each, four of aspect ratio and four of frame
/// rate, eighteen of bit rate, a marker, ten of buffer size, a flag, and the two matrices.
pub proof fn law_sequence_headers_are_laid_out(data: Seq<u8>, pos: nat)
    requires
        pos + 64 <= 8 * data.len(),
    ensures
        ({
            let outcome = syntax::sequence_header_at(data, pos).1;
            &&& outcome is Ok <==> field(data, pos, 50, 1) == 1
            &&& outcome is Ok ==> ({
                let (header, quant) = outcome->Ok_0;
                &&& header.horizontal_size == field(data, pos, 0, 12)
                &&& header.vertical_size == field(data, pos, 12, 12)
                &&& header.aspect_ratio_information == field(data, pos, 24, 4)
                &&& header.frame_rate_code == field(data, pos, 28, 4)
                &&& header.bit_rate_value == field(data, pos, 32, 18)
                &&& header.vbv_buffer_size_value == field(data, pos, 51, 10)
                &&& header.constrained_parameters_flag == (field(data, pos, 61, 1) == 1)
                &&& field(data, pos, 62, 1) == 0 ==> quant.intra == DEFAULT_INTRA_QUANT@
                    && quant.chroma_intra == DEFAULT_INTRA_QUANT@
                &&& field(data, pos, 62, 1) == 0 && field(data, pos, 63, 1) == 0
                    ==> quant.non_intra == DEFAULT_NON_INTRA_QUANT@ && quant.chroma_non_intra
                    == DEFAULT_NON_INTRA_QUANT@
                &&& field(data, pos, 62, 1) == 1 ==> quant.intra == syntax::matrix_at(
                    data,
                    pos + 63,
                    64,
                ).1 && quant.chroma_intra == quant.intra
            })
        }),
{
    reveal(syntax::sequence_header_at);
    lemma_field(data, pos, 0, 12);
    lemma_field(data, pos, 12, 12);
    lemma_field(data, pos, 24, 4);
    lemma_field(data, pos, 28, 4);
    lemma_field(data, pos, 32, 18);
    lemma_field(data, pos, 51, 10);
    lemma_field(data, pos, 62, 1);
}

/// A matrix of quantiser weights comes a byte a weight, in zigzag order.
pub proof fn law_matrices_are_read_along_the_scan(data: Seq<u8>, pos: nat, count: nat, k: int)
    requires
        0 <= k < count <= 64,
        pos + 512 <= 8 * data.len(),
    ensures
        ({
            let (end, matrix) = syntax::matrix_at(data, pos, count);
            &&& end == pos + 8 * count
            &&& matrix.len() == 64
            &&& matrix[ZIGZAG_SCAN@[k] as int] == field(data, pos, 8 * k, 8)
        }),
    decreases count,
{
    lemma_matrix_end(data, pos, (count - 1) as nat);
    lemma_field(data, pos, 8 * (count - 1), 8);
    lemma_field(data, pos, 8 * k, 8);
    crate::mpeg2::constants::lemma_scans_in_range();
    law_the_zigzag_scan_is_the_figure();
    if k < count - 1 {
        law_matrices_are_read_along_the_scan(data, pos, (count - 1) as nat, k);
        assert(ZIGZAG_SCAN@[k] != ZIGZAG_SCAN@[count - 1]);
    }
}

/// Where a matrix ends.
proof fn lemma_matrix_end(data: Seq<u8>, pos: nat, count: nat)
    requires
        count <= 64,
        pos + 512 <= 8 * data.len(),
    ensures
        syntax::matrix_at(data, pos, count).0 == pos + 8 * count,
        syntax::matrix_at(data, pos, count).1.len() == 64,
    decreases count,
{
    if count > 0 {
        lemma_matrix_end(data, pos, (count - 1) as nat);
    }
}

/// A sequence extension, behind its identifier. The high bits of the size stand in front of
/// the twelve that the header has.
pub proof fn law_sequence_extensions_are_laid_out(data: Seq<u8>, pos: nat, before: SequenceHeader)
    requires
        pos + 44 <= 8 * data.len(),
        before.horizontal_size < 0x1000,
        before.vertical_size < 0x1000,
    ensures
        ({
            let outcome = syntax::sequence_extension_at(data, pos, before);
            &&& outcome is Ok <==> field(data, pos, 27, 1) == 1
            &&& outcome is Ok ==> ({
                let (header, extension) = outcome->Ok_0;
                &&& header.horizontal_size == 0x1000 * field(data, pos, 11, 2)
                    + before.horizontal_size
                &&& header.vertical_size == 0x1000 * field(data, pos, 13, 2)
                    + before.vertical_size
                &&& header.aspect_ratio_information == before.aspect_ratio_information
                &&& header.frame_rate_code == before.frame_rate_code
                &&& extension.profile_and_level == field(data, pos, 0, 8)
                &&& extension.progressive_sequence == (field(data, pos, 8, 1) == 1)
                &&& extension.chroma_format == field(data, pos, 9, 2)
                &&& extension.bit_rate_extension == field(data, pos, 15, 12)
                &&& extension.vbv_buffer_size_extension == field(data, pos, 28, 8)
                &&& extension.low_delay == (field(data, pos, 36, 1) == 1)
                &&& extension.frame_rate_extension_n == field(data, pos, 37, 2)
                &&& extension.frame_rate_extension_d == field(data, pos, 39, 5)
            })
        }),
{
    reveal(syntax::sequence_extension_at);
    lemma_field(data, pos, 0, 8);
    lemma_field(data, pos, 9, 2);
    lemma_field(data, pos, 11, 2);
    lemma_field(data, pos, 13, 2);
    lemma_field(data, pos, 15, 12);
    lemma_field(data, pos, 28, 8);
    lemma_field(data, pos, 37, 2);
    lemma_field(data, pos, 39, 5);
    lemma_high_bits(before.horizontal_size, field(data, pos, 11, 2) as u32);
    lemma_high_bits(before.vertical_size, field(data, pos, 13, 2) as u32);
}

/// High bits stand in front of twelve low ones.
proof fn lemma_high_bits(low: u32, high: u32)
    requires
        low < 0x1000,
        high < 4,
    ensures
        syntax::extended_size(low, high) == 0x1000 * high + low,
{
    assert(low | (high << 12) == 0x1000 * high + low) by (bit_vector)
        requires
            low < 0x1000,
            high < 4,
    ;
}

/// A picture header: ten bits of temporal reference, three of type, sixteen of buffer delay,
/// and for each direction that the type predicts from, a flag for whole samples and three
/// bits of `f_code`: forward first.
pub proof fn law_picture_headers_are_laid_out(data: Seq<u8>, pos: nat)
    requires
        pos + 37 <= 8 * data.len(),
    ensures
        ({
            let header = syntax::picture_header_at(data, pos);
            let code = field(data, pos, 10, 3);
            &&& header.temporal_reference == field(data, pos, 0, 10)
            &&& code == 1 <==> header.picture_coding_type is I
            &&& code == 2 <==> header.picture_coding_type is P
            &&& code == 3 <==> header.picture_coding_type is B
            &&& header.vbv_delay == field(data, pos, 13, 16)
            &&& code == 2 || code == 3 ==> header.full_pel_forward_vector == (field(
                data,
                pos,
                29,
                1,
            ) == 1) && header.forward_f_code == field(data, pos, 30, 3)
            &&& code == 3 ==> header.full_pel_backward_vector == (field(data, pos, 33, 1) == 1)
                && header.backward_f_code == field(data, pos, 34, 3)
            &&& code == 1 ==> !header.full_pel_forward_vector && header.forward_f_code == 0
            &&& code == 1 || code == 2 ==> !header.full_pel_backward_vector
                && header.backward_f_code == 0
        }),
{
    reveal(syntax::picture_header_at);
    lemma_field(data, pos, 0, 10);
    lemma_field(data, pos, 10, 3);
    lemma_field(data, pos, 13, 16);
    lemma_field(data, pos, 30, 3);
    lemma_field(data, pos, 34, 3);
}

/// A picture coding extension, behind its identifier: the `f_code`s, forward before backward
/// and horizontal before vertical, and the flags in their order.
pub proof fn law_picture_extensions_are_laid_out(data: Seq<u8>, pos: nat)
    requires
        pos + 30 <= 8 * data.len(),
    ensures
        ({
            let coding = syntax::picture_coding_extension_at(data, pos);
            let structure = field(data, pos, 18, 2);
            &&& coding.f_code@[0]@[0] == field(data, pos, 0, 4)
            &&& coding.f_code@[0]@[1] == field(data, pos, 4, 4)
            &&& coding.f_code@[1]@[0] == field(data, pos, 8, 4)
            &&& coding.f_code@[1]@[1] == field(data, pos, 12, 4)
            &&& coding.intra_dc_precision == field(data, pos, 16, 2)
            &&& structure == 1 <==> coding.picture_structure is TopField
            &&& structure == 2 <==> coding.picture_structure is BottomField
            &&& structure == 3 <==> coding.picture_structure is Frame
            &&& coding.top_field_first == (field(data, pos, 20, 1) == 1)
            &&& coding.frame_pred_frame_dct == (field(data, pos, 21, 1) == 1)
            &&& coding.concealment_motion_vectors == (field(data, pos, 22, 1) == 1)
            &&& coding.q_scale_type == field(data, pos, 23, 1)
            &&& coding.intra_vlc_format == field(data, pos, 24, 1)
            &&& coding.alternate_scan == (field(data, pos, 25, 1) == 1)
            &&& coding.repeat_first_field == (field(data, pos, 26, 1) == 1)
            &&& coding.chroma_420_type == (field(data, pos, 27, 1) == 1)
            &&& coding.progressive_frame == (field(data, pos, 28, 1) == 1)
        }),
{
    reveal(syntax::picture_coding_extension_at);
    lemma_field(data, pos, 0, 4);
    lemma_field(data, pos, 4, 4);
    lemma_field(data, pos, 8, 4);
    lemma_field(data, pos, 12, 4);
    lemma_field(data, pos, 16, 2);
    lemma_field(data, pos, 18, 2);
    lemma_field(data, pos, 23, 1);
    lemma_field(data, pos, 24, 1);
}

/// A slice header without extra information: five bits of quantiser scale and a zero, and in
/// MPEG-2 pictures of more than 2800 lines three bits in front that count rows by 128. The
/// macroblocks begin behind it.
pub proof fn law_slice_headers_are_laid_out(
    data: Seq<u8>,
    pos: nat,
    code: u8,
    picture: PictureView,
)
    requires
        pos + 9 <= 8 * data.len() <= usize::MAX,
        ({
            let tall = !picture.is_mpeg1 && picture.sequence.vertical_size > 2800;
            field(
                data,
                pos,
                if tall {
                    8
                } else {
                    5
                },
                1,
            ) == 0
        }),
    ensures
        ({
            let slice = syntax::slice_at(data, pos, code, picture);
            let tall = !picture.is_mpeg1 && picture.sequence.vertical_size > 2800;
            &&& tall ==> slice.vertical_position == 128 * field(data, pos, 0, 3) + code
            &&& tall ==> slice.quantiser_scale_code == field(data, pos, 3, 5)
            &&& tall ==> slice.data_start_bit == pos + 9
            &&& !tall ==> slice.vertical_position == code
            &&& !tall ==> slice.quantiser_scale_code == field(data, pos, 0, 5)
            &&& !tall ==> slice.data_start_bit == pos + 6
        }),
{
    reveal(syntax::slice_at);
    power2::lemma2_to64();
    lemma_field(data, pos, 0, 3);
    lemma_field(data, pos, 0, 5);
    lemma_field(data, pos, 3, 5);
    bits::lemma_bits_bound(data, pos as int, 3);
}

/// What MPEG-1 leaves unsaid: frames of progressive 4:2:0 video with eight bits of DC,
/// vectors of frames, and for both axes of a direction the `f_code` of the header, of which
/// zero counts as one.
pub proof fn law_mpeg1_has_its_defaults(header: PictureHeader, s: int, t: int)
    requires
        0 <= s < 2,
        0 <= t < 2,
    ensures
        ({
            let coding = PictureCodingExtension::absent(header);
            let own = if s == 0 {
                header.forward_f_code
            } else {
                header.backward_f_code
            };
            &&& own > 0 ==> coding.f_code@[s]@[t] == own
            &&& own == 0 ==> coding.f_code@[s]@[t] == 1
            &&& coding.picture_structure is Frame
            &&& coding.frame_pred_frame_dct && coding.progressive_frame
            &&& coding.intra_dc_precision == 0 && coding.q_scale_type == 0
            &&& coding.intra_vlc_format == 0 && !coding.alternate_scan
            &&& !coding.repeat_first_field && !coding.concealment_motion_vectors
            &&& SequenceExtension::absent().progressive_sequence
            &&& SequenceExtension::absent().chroma_format == 1
            &&& SequenceExtension::absent().frame_rate_extension_n == 0
            &&& SequenceExtension::absent().frame_rate_extension_d == 0
        }),
{
}

/// The quantiser scales: a linear one of twice the code, and one that goes up by one to
/// eight, then by two, by four and by eight, for eight codes each.
pub proof fn law_quantiser_scales_follow_their_rules(code: int)
    requires
        1 <= code < 32,
    ensures
        QUANTISER_SCALE@[0]@[code] == 2 * code,
        code <= 8 ==> QUANTISER_SCALE@[1]@[code] == code,
        8 < code <= 16 ==> QUANTISER_SCALE@[1]@[code] == 8 + 2 * (code - 8),
        16 < code <= 24 ==> QUANTISER_SCALE@[1]@[code] == 24 + 4 * (code - 16),
        24 < code ==> QUANTISER_SCALE@[1]@[code] == 56 + 8 * (code - 24),
{
}

/// The turn of each position of a block in the zigzag scan, row by row.
pub open spec fn zigzag_figure() -> Seq<int> {
    seq![
        0, 1, 5, 6, 14, 15, 27, 28,
        2, 4, 7, 13, 16, 26, 29, 42,
        3, 8, 12, 17, 25, 30, 41, 43,
        9, 11, 18, 24, 31, 40, 44, 53,
        10, 19, 23, 32, 39, 45, 52, 54,
        20, 22, 33, 38, 46, 51, 55, 60,
        21, 34, 37, 47, 50, 56, 59, 61,
        35, 36, 48, 49, 57, 58, 62, 63,
    ]
}

/// The turn of each position of a block in the alternate scan, row by row.
pub open spec fn alternate_figure() -> Seq<int> {
    seq![
        0, 4, 6, 20, 22, 36, 38, 52,
        1, 5, 7, 21, 23, 37, 39, 53,
        2, 8, 19, 24, 34, 40, 50, 54,
        3, 9, 18, 25, 35, 41, 51, 55,
        10, 17, 26, 30, 42, 46, 56, 60,
        11, 16, 27, 31, 43, 47, 57, 61,
        12, 15, 28, 32, 44, 48, 58, 62,
        13, 14, 29, 33, 45, 49, 59, 63,
    ]
}

/// The zigzag scan comes to each position when its figure says, and so to each once.
pub proof fn law_the_zigzag_scan_is_the_figure()
    ensures
        forall|i: int|
            0 <= i < 64 ==> 0 <= #[trigger] ZIGZAG_SCAN@[i] < 64
                && zigzag_figure()[ZIGZAG_SCAN@[i] as int] == i,
        forall|i: int, j: int|
            0 <= i < j < 64 ==> #[trigger] ZIGZAG_SCAN@[i] != #[trigger] ZIGZAG_SCAN@[j],
{
    assert forall|i: int, j: int| 0 <= i < j < 64 implies #[trigger] ZIGZAG_SCAN@[i]
        != #[trigger] ZIGZAG_SCAN@[j] by {
        assert(zigzag_figure()[ZIGZAG_SCAN@[i] as int] == i);
        assert(zigzag_figure()[ZIGZAG_SCAN@[j] as int] == j);
    }
}

/// The alternate scan comes to each position when its figure says, and so to each once.
pub proof fn law_the_alternate_scan_is_the_figure()
    ensures
        forall|i: int|
            0 <= i < 64 ==> 0 <= #[trigger] ALTERNATE_SCAN@[i] < 64
                && alternate_figure()[ALTERNATE_SCAN@[i] as int] == i,
        forall|i: int, j: int|
            0 <= i < j < 64 ==> #[trigger] ALTERNATE_SCAN@[i] != #[trigger] ALTERNATE_SCAN@[j],
{
    assert forall|i: int, j: int| 0 <= i < j < 64 implies #[trigger] ALTERNATE_SCAN@[i]
        != #[trigger] ALTERNATE_SCAN@[j] by {
        assert(alternate_figure()[ALTERNATE_SCAN@[i] as int] == i);
        assert(alternate_figure()[ALTERNATE_SCAN@[j] as int] == j);
    }
}

/// The scan of a picture is the alternate one exactly where its extension says so.
pub proof fn law_the_extension_picks_the_scan(coding: PictureCodingExtension, i: int)
    requires
        0 <= i < 64,
    ensures
        coding.alternate_scan ==> headers::scan_of(coding)[i] == ALTERNATE_SCAN@[i],
        !coding.alternate_scan ==> headers::scan_of(coding)[i] == ZIGZAG_SCAN@[i],
{
}

/// A picture takes as many macroblocks as cover it and no more: in a frame rows of sixteen
/// lines, in a field of sixteen lines of its own, which are thirty-two of the frame.
pub proof fn law_macroblocks_cover_the_picture(
    sequence: SequenceHeader,
    structure: PictureStructure,
)
    requires
        sequence.wf(),
    ensures
        ({
            let g = headers::geometry_of(sequence, structure);
            let lines = if structure is Frame {
                16int
            } else {
                32
            };
            &&& g.width == sequence.horizontal_size && g.height == sequence.vertical_size
            &&& g.width <= 16 * g.mb_width < g.width + 16
            &&& g.height <= lines * g.mb_height < g.height + lines
            &&& g.height <= 16 * g.frame_mb_height < g.height + 16
            &&& g.is_field_picture <==> !(structure is Frame)
        }),
{
}

/// Bits are read from the top of each byte on: eight of them at the front of a byte are the
/// byte, and one of them is the half, the quarter or the next part of its range.
pub proof fn law_bytes_are_their_bits(data: Seq<u8>, i: int, n: nat)
    requires
        0 <= i < data.len(),
        n <= 8,
    ensures
        n == 1 ==> bits::bits(data, 8 * i, n) == data[i] / 128,
        n == 2 ==> bits::bits(data, 8 * i, n) == data[i] / 64,
        n == 3 ==> bits::bits(data, 8 * i, n) == data[i] / 32,
        n == 4 ==> bits::bits(data, 8 * i, n) == data[i] / 16,
        n == 5 ==> bits::bits(data, 8 * i, n) == data[i] / 8,
        n == 6 ==> bits::bits(data, 8 * i, n) == data[i] / 4,
        n == 7 ==> bits::bits(data, 8 * i, n) == data[i] / 2,
        n == 8 ==> bits::bits(data, 8 * i, n) == data[i],
{
    let b = data[i] as nat;
    let p = 8 * i;
    assert((8 * i) / 8 == i && (8 * i) % 8 == 0);
    assert((8 * i + 1) / 8 == i && (8 * i + 1) % 8 == 1);
    assert((8 * i + 2) / 8 == i && (8 * i + 2) % 8 == 2);
    assert((8 * i + 3) / 8 == i && (8 * i + 3) % 8 == 3);
    assert((8 * i + 4) / 8 == i && (8 * i + 4) % 8 == 4);
    assert((8 * i + 5) / 8 == i && (8 * i + 5) % 8 == 5);
    assert((8 * i + 6) / 8 == i && (8 * i + 6) % 8 == 6);
    assert((8 * i + 7) / 8 == i && (8 * i + 7) % 8 == 7);
    lemma_parts_of_a_byte(b);
    assert(bits::bits(data, p, 1) == 2 * bits::bits(data, p, 0) + bits::bit_at(data, p + 0));
    assert(bits::bits(data, p, 1) == b / 128);
    assert(bits::bits(data, p, 2) == 2 * bits::bits(data, p, 1) + bits::bit_at(data, p + 1));
    assert(bits::bits(data, p, 2) == b / 64);
    assert(bits::bits(data, p, 3) == 2 * bits::bits(data, p, 2) + bits::bit_at(data, p + 2));
    assert(bits::bits(data, p, 3) == b / 32);
    assert(bits::bits(data, p, 4) == 2 * bits::bits(data, p, 3) + bits::bit_at(data, p + 3));
    assert(bits::bits(data, p, 4) == b / 16);
    assert(bits::bits(data, p, 5) == 2 * bits::bits(data, p, 4) + bits::bit_at(data, p + 4));
    assert(bits::bits(data, p, 5) == b / 8);
    assert(bits::bits(data, p, 6) == 2 * bits::bits(data, p, 5) + bits::bit_at(data, p + 5));
    assert(bits::bits(data, p, 6) == b / 4);
    assert(bits::bits(data, p, 7) == 2 * bits::bits(data, p, 6) + bits::bit_at(data, p + 6));
    assert(bits::bits(data, p, 7) == b / 2);
    assert(bits::bits(data, p, 8) == 2 * bits::bits(data, p, 7) + bits::bit_at(data, p + 7));
    assert(bits::bits(data, p, 8) == b);
}

/// The parts of a byte: each half of what is left is twice the one before and a bit.
proof fn lemma_parts_of_a_byte(b: nat)
    requires
        b < 256,
    ensures
        (b / 128) % 2 == b / 128,
        2 * (b / 128) + (b / 64) % 2 == b / 64,
        2 * (b / 64) + (b / 32) % 2 == b / 32,
        2 * (b / 32) + (b / 16) % 2 == b / 16,
        2 * (b / 16) + (b / 8) % 2 == b / 8,
        2 * (b / 8) + (b / 4) % 2 == b / 4,
        2 * (b / 4) + (b / 2) % 2 == b / 2,
        2 * (b / 2) + b % 2 == b,
        (b / 1) % 2 == b % 2,
{
}

/// A run of bits that goes on into the next byte is the two runs together.
pub proof fn law_runs_of_bits_join(data: Seq<u8>, pos: int, a: nat)
    ensures
        bits::bits(data, pos, a + 8) == 256 * bits::bits(data, pos, a) + bits::bits(
            data,
            pos + a,
            8,
        ),
{
    power2::lemma2_to64();
    bits::lemma_bits_split(data, pos, a, 8);
    assert(bits::bits(data, pos, a) * 256 == 256 * bits::bits(data, pos, a)) by (nonlinear_arith);
}

/// Whether a start code stands at `at`: two zero bytes, a one, and the code.
pub open spec fn code_at(data: Seq<u8>, at: int) -> bool {
    at + 3 < data.len() && data[at] == 0 && data[at + 1] == 0 && data[at + 2] == 1
}

/// Whether one of the codes is the one that stands at `at`.
pub open spec fn finds(codes: Seq<StartCode>, data: Seq<u8>, at: int) -> bool {
    exists|k: int|
        0 <= k < codes.len() && (#[trigger] codes[k]).offset == at && codes[k].code == data[at + 3]
            && codes[k].payload_offset == at + 4
}

/// Every start code is found, with the byte behind it and where what follows begins.
pub proof fn law_start_codes_are_found(data: Seq<u8>, from: int, at: int)
    requires
        0 <= from <= at,
        data.len() <= usize::MAX,
        code_at(data, at),
    ensures
        finds(bitreader::start_codes(data, from), data, at),
    decreases data.len() - from,
{
    let codes = bitreader::start_codes(data, from);
    if bitreader::is_start_code(data, from) {
        if at == from {
            assert(codes[0].offset == at);
        } else {
            assert(data[from + 2] == 1);
            assert(at >= from + 3);
            let rest = bitreader::start_codes(data, from + 3);
            law_start_codes_are_found(data, from + 3, at);
            let k = choose|k: int|
                0 <= k < rest.len() && (#[trigger] rest[k]).offset == at && rest[k].code == data[at
                    + 3] && rest[k].payload_offset == at + 4;
            assert(codes[k + 1] == rest[k]);
        }
    } else {
        law_start_codes_are_found(data, from + 1, at);
    }
}

/// Nothing is taken for a start code that is none, and they come in the order they stand.
pub proof fn law_only_start_codes_are_found(data: Seq<u8>, from: int, k: int)
    requires
        0 <= from,
        data.len() <= usize::MAX,
        0 <= k < bitreader::start_codes(data, from).len(),
    ensures
        ({
            let codes = bitreader::start_codes(data, from);
            &&& from <= codes[k].offset
            &&& code_at(data, codes[k].offset as int)
            &&& k > 0 ==> codes[k - 1].offset < codes[k].offset
        }),
    decreases data.len() - from,
{
    let codes = bitreader::start_codes(data, from);
    if bitreader::is_start_code(data, from) {
        let rest = bitreader::start_codes(data, from + 3);
        if k > 0 {
            assert(codes[k] == rest[k - 1]);
            law_only_start_codes_are_found(data, from + 3, k - 1);
            if k > 1 {
                assert(codes[k - 1] == rest[k - 2]);
            }
        }
    } else {
        law_only_start_codes_are_found(data, from + 1, k);
    }
}

/// The samples of an MPEG-2 picture are as wide as make its size the shape that it is shown in:
/// four to three, sixteen to nine, or 221 to 100. Square samples are square.
pub proof fn law_samples_make_the_shape(sequence: SequenceHeader)
    requires
        sequence.wf(),
        sequence.horizontal_size > 0,
        sequence.vertical_size > 0,
    ensures
        ({
            let code = sequence.aspect_ratio_information;
            let sar = headers::display_sample_aspect_ratio(sequence);
            &&& code == 1 ==> sar is Some && sar->Some_0.width == 1 && sar->Some_0.height == 1
            &&& 2 <= code <= 4 ==> sar is Some
            &&& code == 0 || code > 4 ==> sar is None
            &&& code == 2 ==> shaped(sequence, sar->Some_0.width as int, sar->Some_0.height as int, 4, 3)
            &&& code == 3 ==> shaped(sequence, sar->Some_0.width as int, sar->Some_0.height as int, 16, 9)
            &&& code == 4 ==> shaped(
                sequence,
                sar->Some_0.width as int,
                sar->Some_0.height as int,
                221,
                100,
            )
        }),
{
    let code = sequence.aspect_ratio_information;
    if code == 2 {
        lemma_shaped(sequence, 4, 3);
    } else if code == 3 {
        lemma_shaped(sequence, 16, 9);
    } else if code == 4 {
        lemma_shaped(sequence, 221, 100);
    }
}

/// Whether samples of this width and height make the picture `w` to `h`.
pub open spec fn shaped(sequence: SequenceHeader, width: int, height: int, w: int, h: int) -> bool {
    width * (h * sequence.horizontal_size) == height * (w * sequence.vertical_size)
}

/// A ratio in its lowest terms is the same ratio.
proof fn lemma_shaped(sequence: SequenceHeader, w: nat, h: nat)
    requires
        sequence.wf(),
        sequence.horizontal_size > 0,
        sequence.vertical_size > 0,
        1 <= w <= 221,
        1 <= h <= 100,
    ensures
        ({
            let a = w * sequence.vertical_size as nat;
            let b = h * sequence.horizontal_size as nat;
            let sar = headers::in_lowest_terms(a, b);
            &&& sar is Some
            &&& shaped(sequence, sar->Some_0.width as int, sar->Some_0.height as int, w as int, h as int)
        }),
{
    let a = w * sequence.vertical_size as nat;
    let b = h * sequence.horizontal_size as nat;
    assert(0 < a <= 221 * 0x4000 && 0 < b <= 100 * 0x4000) by (nonlinear_arith)
        requires
            a == w * sequence.vertical_size as nat,
            b == h * sequence.horizontal_size as nat,
            1 <= w <= 221,
            1 <= h <= 100,
            0 < sequence.vertical_size < 0x4000,
            0 < sequence.horizontal_size < 0x4000,
    ;
    headers::lemma_common_divisor(a, b);
    let g = headers::common_divisor(a, b) as int;
    let p = a as int / g;
    let q = b as int / g;
    vstd::arithmetic::div_mod::lemma_fundamental_div_mod(a as int, g);
    vstd::arithmetic::div_mod::lemma_fundamental_div_mod(b as int, g);
    assert(p <= a && q <= b && p >= 0 && q >= 0) by (nonlinear_arith)
        requires
            a == g * p,
            b == g * q,
            g >= 1,
            a > 0,
            b > 0,
    ;
    assert(p * b == q * a) by (nonlinear_arith)
        requires
            a == g * p,
            b == g * q,
    ;
}

} // verus!
