//! The header syntax itself: what each header says, bit by bit, and its reader.
use crate::bitreader::BitReader;
use crate::bits;
use crate::error::Error;
use crate::mpeg2::constants;
use crate::mpeg2::constants::{start_code, PictureStructure, PictureType, ZIGZAG_SCAN};
use crate::mpeg2::headers;
use crate::mpeg2::headers::{
    Picture, PictureCodingExtension, PictureHeader, PictureView, QuantMatrices, QuantView,
    SequenceExtension, SequenceHeader, Slice,
};
use vstd::arithmetic::power2;
use vstd::prelude::*;

verus! {

/// The first `count` entries of a quantiser matrix that stands at `pos`, put where
/// the zigzag scan says. The rest of the matrix is zero.
pub open spec fn matrix_at(data: Seq<u8>, pos: nat, count: nat) -> (nat, Seq<i32>)
    decreases count,
{
    if count == 0 {
        (pos, Seq::new(64, |i: int| 0i32))
    } else {
        let (at, matrix) = matrix_at(data, pos, (count - 1) as nat);
        (
            bits::advance(data, at, 8),
            matrix.update(ZIGZAG_SCAN@[count - 1] as int, bits::bits(data, at as int, 8) as i32),
        )
    }
}

/// A flag and, where it is set, a quantiser matrix.
pub open spec fn loaded_matrix_at(data: Seq<u8>, pos: nat) -> (nat, Option<Seq<i32>>) {
    let at = bits::advance(data, pos, 1);
    if bits::bits(data, pos as int, 1) == 1 {
        let (end, matrix) = matrix_at(data, at, 64);
        (end, Some(matrix))
    } else {
        (at, None)
    }
}

/// Quantiser matrices are transmitted in scan order; store them in raster order.
fn read_quant_matrix(r: &mut BitReader<'_>) -> (matrix: [i32; 64])
    requires
        old(r).wf(),
    ensures
        final(r).wf(),
        final(r).data() == old(r).data(),
        (final(r).at(), matrix@) == matrix_at(old(r).data(), old(r).at(), 64),
{
    let mut matrix: [i32; 64] = [0; 64];
    let mut i: usize = 0;
    assert(matrix@ =~= Seq::new(64, |i: int| 0i32));
    while i < 64
        invariant
            r.wf(),
            r.data() == old(r).data(),
            i <= 64,
            (r.at(), matrix@) == matrix_at(old(r).data(), old(r).at(), i as nat),
        decreases 64 - i,
    {
        proof {
            constants::lemma_scans_in_range();
            power2::lemma2_to64();
        }
        let value: u32 = r.u(8);
        matrix[ZIGZAG_SCAN[i]] = value as i32;
        i = i + 1;
    }
    matrix
}

/// A flag and, where it is set, a quantiser matrix.
fn read_loaded_matrix(r: &mut BitReader<'_>) -> (matrix: Option<[i32; 64]>)
    requires
        old(r).wf(),
    ensures
        final(r).wf(),
        final(r).data() == old(r).data(),
        final(r).at() == loaded_matrix_at(old(r).data(), old(r).at()).0,
        match matrix {
            Some(m) => loaded_matrix_at(old(r).data(), old(r).at()).1 == Some(m@),
            None => loaded_matrix_at(old(r).data(), old(r).at()).1 is None,
        },
{
    if r.flag() {
        Some(read_quant_matrix(r))
    } else {
        None
    }
}

/// A sequence header at `pos`, and the matrices it leaves in effect.
#[verifier::opaque]
pub open spec fn sequence_header_at(data: Seq<u8>, pos: nat) -> (
    nat,
    Result<(SequenceHeader, QuantView), Error>,
) {
    let p1 = bits::advance(data, pos, 12);
    let p2 = bits::advance(data, p1, 12);
    let p3 = bits::advance(data, p2, 4);
    let p4 = bits::advance(data, p3, 4);
    let p5 = bits::advance(data, p4, 18);
    let p6 = bits::advance(data, p5, 1);
    if bits::bits(data, p5 as int, 1) != 1 {
        (p6, Err(Error::MissingMarker))
    } else {
        let p7 = bits::advance(data, p6, 10);
        let p8 = bits::advance(data, p7, 1);
        let header = SequenceHeader {
            horizontal_size: bits::bits(data, pos as int, 12) as u32,
            vertical_size: bits::bits(data, p1 as int, 12) as u32,
            aspect_ratio_information: bits::bits(data, p2 as int, 4) as u32,
            frame_rate_code: bits::bits(data, p3 as int, 4) as u32,
            bit_rate_value: bits::bits(data, p4 as int, 18) as u32,
            vbv_buffer_size_value: bits::bits(data, p6 as int, 10) as u32,
            constrained_parameters_flag: bits::bits(data, p7 as int, 1) == 1,
        };
        let (p9, intra) = loaded_matrix_at(data, p8);
        let (p10, non_intra) = loaded_matrix_at(data, p9);
        let quant = with_non_intra(with_intra(headers::default_matrices(), intra), non_intra);
        (p10, Ok((header, quant)))
    }
}

/// A newly loaded intra matrix serves luma and chroma.
pub open spec fn with_intra(quant: QuantView, matrix: Option<Seq<i32>>) -> QuantView {
    match matrix {
        Some(m) => QuantView { intra: m, chroma_intra: m, ..quant },
        None => quant,
    }
}

/// A newly loaded non-intra matrix serves luma and chroma.
pub open spec fn with_non_intra(quant: QuantView, matrix: Option<Seq<i32>>) -> QuantView {
    match matrix {
        Some(m) => QuantView { non_intra: m, chroma_non_intra: m, ..quant },
        None => quant,
    }
}

pub fn read_sequence_header(r: &mut BitReader<'_>) -> (result: Result<
    (SequenceHeader, QuantMatrices),
    Error,
>)
    requires
        old(r).wf(),
    ensures
        final(r).wf(),
        final(r).data() == old(r).data(),
        final(r).at() == sequence_header_at(old(r).data(), old(r).at()).0,
        match result {
            Ok((header, quant)) => sequence_header_at(old(r).data(), old(r).at()).1 == Ok::<
                (SequenceHeader, QuantView),
                Error,
            >((header, quant@)) && header.wf() && header.horizontal_size < 4096
                && header.vertical_size < 4096,
            Err(e) => sequence_header_at(old(r).data(), old(r).at()).1 == Err::<
                (SequenceHeader, QuantView),
                Error,
            >(e),
        },
{
    proof {
        reveal(sequence_header_at);
        power2::lemma2_to64();
    }
    let horizontal_size: u32 = r.u(12);
    let vertical_size: u32 = r.u(12);
    let aspect_ratio_information: u32 = r.u(4);
    let frame_rate_code: u32 = r.u(4);
    let bit_rate_value: u32 = r.u(18);
    match r.marker() {
        Ok(()) => {},
        Err(e) => return Err(e),
    }
    let vbv_buffer_size_value: u32 = r.u(10);
    let constrained_parameters_flag: bool = r.flag();
    let header = SequenceHeader {
        horizontal_size,
        vertical_size,
        aspect_ratio_information,
        frame_rate_code,
        bit_rate_value,
        vbv_buffer_size_value,
        constrained_parameters_flag,
    };
    // A sequence header always resets the matrices: any not loaded here revert
    // to the defaults (clause 6.3.11).
    let mut quant = QuantMatrices::default();
    if let Some(matrix) = read_loaded_matrix(r) {
        quant.intra = matrix;
        quant.chroma_intra = matrix;
    }
    if let Some(matrix) = read_loaded_matrix(r) {
        quant.non_intra = matrix;
        quant.chroma_non_intra = matrix;
    }
    Ok((header, quant))
}

/// A dimension with the two high bits that an extension carries for it.
pub open spec fn extended_size(size: u32, high: u32) -> u32 {
    size | (high << 12)
}

proof fn lemma_extended_size(size: u32, high: u32)
    requires
        size < 0x4000,
        high < 4,
    ensures
        extended_size(size, high) < 0x4000,
        size < 4096 ==> extended_size(size, high) == size + 4096 * high,
{
    assert((size | (high << 12)) < 0x4000) by (bit_vector)
        requires
            size < 0x4000,
            high < 4,
    ;
    assert(size < 4096 ==> (size | (high << 12)) == size + 4096 * high) by (bit_vector)
        requires
            high < 4,
    ;
}

/// A sequence extension at `pos`, and the header with the dimensions it extends.
/// The dimensions stay as they were where the marker is missing.
#[verifier::opaque]
pub open spec fn sequence_extension_at(data: Seq<u8>, pos: nat, header: SequenceHeader) -> Result<
    (SequenceHeader, SequenceExtension),
    Error,
> {
    let p1 = bits::advance(data, pos, 8);
    let p2 = bits::advance(data, p1, 1);
    let p3 = bits::advance(data, p2, 2);
    let p4 = bits::advance(data, p3, 2);
    let p5 = bits::advance(data, p4, 2);
    let p6 = bits::advance(data, p5, 12);
    let p7 = bits::advance(data, p6, 1);
    let p8 = bits::advance(data, p7, 8);
    let p9 = bits::advance(data, p8, 1);
    let p10 = bits::advance(data, p9, 2);
    if bits::bits(data, p6 as int, 1) != 1 {
        Err(Error::MissingMarker)
    } else {
        Ok(
            (
                SequenceHeader {
                    horizontal_size: extended_size(
                        header.horizontal_size,
                        bits::bits(data, p3 as int, 2) as u32,
                    ),
                    vertical_size: extended_size(
                        header.vertical_size,
                        bits::bits(data, p4 as int, 2) as u32,
                    ),
                    ..header
                },
                SequenceExtension {
                    profile_and_level: bits::bits(data, pos as int, 8) as u32,
                    progressive_sequence: bits::bits(data, p1 as int, 1) == 1,
                    chroma_format: bits::bits(data, p2 as int, 2) as u32,
                    bit_rate_extension: bits::bits(data, p5 as int, 12) as u32,
                    vbv_buffer_size_extension: bits::bits(data, p7 as int, 8) as u32,
                    low_delay: bits::bits(data, p8 as int, 1) == 1,
                    frame_rate_extension_n: bits::bits(data, p9 as int, 2) as u32,
                    frame_rate_extension_d: bits::bits(data, p10 as int, 5) as u32,
                },
            ),
        )
    }
}

pub fn read_sequence_extension(
    r: &mut BitReader<'_>,
    seq: &SequenceHeader,
) -> (result: Result<(SequenceHeader, SequenceExtension), Error>)
    requires
        old(r).wf(),
        seq.wf(),
    ensures
        final(r).wf(),
        final(r).data() == old(r).data(),
        result == sequence_extension_at(old(r).data(), old(r).at(), *seq),
        result is Ok ==> result->Ok_0.0.wf() && result->Ok_0.1.wf(),
{
    proof {
        reveal(sequence_extension_at);
        power2::lemma2_to64();
    }
    let profile_and_level: u32 = r.u(8);
    let progressive_sequence: bool = r.flag();
    let chroma_format: u32 = r.u(2);
    let horizontal_size_extension: u32 = r.u(2);
    let vertical_size_extension: u32 = r.u(2);
    let bit_rate_extension: u32 = r.u(12);
    match r.marker() {
        Ok(()) => {},
        Err(e) => return Err(e),
    }
    let vbv_buffer_size_extension: u32 = r.u(8);
    let low_delay: bool = r.flag();
    let frame_rate_extension_n: u32 = r.u(2);
    let frame_rate_extension_d: u32 = r.u(5);

    // The extension carries the top 2 bits of each dimension.
    proof {
        lemma_extended_size(seq.horizontal_size, horizontal_size_extension);
        lemma_extended_size(seq.vertical_size, vertical_size_extension);
    }
    let header = SequenceHeader {
        horizontal_size: seq.horizontal_size | (horizontal_size_extension << 12),
        vertical_size: seq.vertical_size | (vertical_size_extension << 12),
        aspect_ratio_information: seq.aspect_ratio_information,
        frame_rate_code: seq.frame_rate_code,
        bit_rate_value: seq.bit_rate_value,
        vbv_buffer_size_value: seq.vbv_buffer_size_value,
        constrained_parameters_flag: seq.constrained_parameters_flag,
    };
    Ok(
        (
            header,
            SequenceExtension {
                profile_and_level,
                progressive_sequence,
                chroma_format,
                bit_rate_extension,
                vbv_buffer_size_extension,
                low_delay,
                frame_rate_extension_n,
                frame_rate_extension_d,
            },
        ),
    )
}

/// The matrices in effect after a quantiser matrix extension at `pos`.
#[verifier::opaque]
pub open spec fn quant_extension_at(data: Seq<u8>, pos: nat, quant: QuantView) -> QuantView {
    let (p1, intra) = loaded_matrix_at(data, pos);
    let (p2, non_intra) = loaded_matrix_at(data, p1);
    let (p3, chroma_intra) = loaded_matrix_at(data, p2);
    let (p4, chroma_non_intra) = loaded_matrix_at(data, p3);
    let luma = with_non_intra(with_intra(quant, intra), non_intra);
    QuantView {
        chroma_intra: match chroma_intra {
            Some(m) => m,
            None => luma.chroma_intra,
        },
        chroma_non_intra: match chroma_non_intra {
            Some(m) => m,
            None => luma.chroma_non_intra,
        },
        ..luma
    }
}

pub fn read_quant_matrix_extension(r: &mut BitReader<'_>, quant: &mut QuantMatrices)
    requires
        old(r).wf(),
    ensures
        final(r).wf(),
        final(r).data() == old(r).data(),
        final(quant)@ == quant_extension_at(old(r).data(), old(r).at(), old(quant)@),
{
    proof {
        reveal(quant_extension_at);
    }
    if let Some(matrix) = read_loaded_matrix(r) {
        quant.intra = matrix;
        quant.chroma_intra = matrix;
    }
    if let Some(matrix) = read_loaded_matrix(r) {
        quant.non_intra = matrix;
        quant.chroma_non_intra = matrix;
    }
    if let Some(matrix) = read_loaded_matrix(r) {
        quant.chroma_intra = matrix;
    }
    if let Some(matrix) = read_loaded_matrix(r) {
        quant.chroma_non_intra = matrix;
    }
}

/// Where the extra information at `pos` ends: each byte of it has a one in front,
/// and a zero closes it.
pub open spec fn extra_information_end(data: Seq<u8>, pos: nat) -> nat
    decreases 8 * data.len() - pos,
{
    if pos < 8 * data.len() && bits::bits(data, pos as int, 1) == 1 {
        extra_information_end(data, bits::advance(data, bits::advance(data, pos, 1), 8))
    } else {
        bits::advance(data, pos, 1)
    }
}

fn skip_extra_information(r: &mut BitReader<'_>)
    requires
        old(r).wf(),
    ensures
        final(r).wf(),
        final(r).data() == old(r).data(),
        final(r).at() == extra_information_end(old(r).data(), old(r).at()),
{
    while r.peek(1) == 1
        invariant
            r.wf(),
            r.data() == old(r).data(),
            extra_information_end(r.data(), r.at()) == extra_information_end(
                old(r).data(),
                old(r).at(),
            ),
        decreases 8 * r.data().len() - r.at(),
    {
        proof {
            if r.at() == 8 * r.data().len() {
                bits::lemma_bits_past_end(r.data(), r.at() as int, 1);
            }
        }
        r.skip(1);
        r.skip(8);
    }
    r.skip(1);
}

/// A picture header at `pos`.
#[verifier::opaque]
pub open spec fn picture_header_at(data: Seq<u8>, pos: nat) -> PictureHeader {
    let p1 = bits::advance(data, pos, 10);
    let p2 = bits::advance(data, p1, 3);
    let p3 = bits::advance(data, p2, 16);
    let p4 = bits::advance(data, p3, 1);
    let p5 = bits::advance(data, p4, 3);
    let p6 = bits::advance(data, p5, 1);
    let kind = PictureType::of_code(bits::bits(data, p1 as int, 3) as int);
    let forward = kind is P || kind is B;
    let backward = kind is B;
    PictureHeader {
        temporal_reference: bits::bits(data, pos as int, 10) as u32,
        picture_coding_type: kind,
        vbv_delay: bits::bits(data, p2 as int, 16) as u32,
        full_pel_forward_vector: forward && bits::bits(data, p3 as int, 1) == 1,
        forward_f_code: if forward {
            bits::bits(data, p4 as int, 3) as u32
        } else {
            0
        },
        full_pel_backward_vector: backward && bits::bits(data, p5 as int, 1) == 1,
        backward_f_code: if backward {
            bits::bits(data, p6 as int, 3) as u32
        } else {
            0
        },
    }
}

pub fn read_picture_header(r: &mut BitReader<'_>) -> (header: PictureHeader)
    requires
        old(r).wf(),
    ensures
        final(r).wf(),
        final(r).data() == old(r).data(),
        header == picture_header_at(old(r).data(), old(r).at()),
        header.wf(),
{
    proof {
        reveal(picture_header_at);
        power2::lemma2_to64();
    }
    let temporal_reference: u32 = r.u(10);
    let picture_coding_type = PictureType::from_code(r.u(3));
    let vbv_delay: u32 = r.u(16);
    let mut full_pel_forward_vector: bool = false;
    let mut forward_f_code: u32 = 0;
    let mut full_pel_backward_vector: bool = false;
    let mut backward_f_code: u32 = 0;
    if picture_coding_type == PictureType::P || picture_coding_type == PictureType::B {
        full_pel_forward_vector = r.flag();
        forward_f_code = r.u(3);
    }
    if picture_coding_type == PictureType::B {
        full_pel_backward_vector = r.flag();
        backward_f_code = r.u(3);
    }
    skip_extra_information(r);
    PictureHeader {
        temporal_reference,
        picture_coding_type,
        vbv_delay,
        full_pel_forward_vector,
        forward_f_code,
        full_pel_backward_vector,
        backward_f_code,
    }
}

/// A picture coding extension at `pos`.
#[verifier::opaque]
pub open spec fn picture_coding_extension_at(data: Seq<u8>, pos: nat) -> PictureCodingExtension {
    let p1 = bits::advance(data, pos, 4);
    let p2 = bits::advance(data, p1, 4);
    let p3 = bits::advance(data, p2, 4);
    let p4 = bits::advance(data, p3, 4);
    let p5 = bits::advance(data, p4, 2);
    let p6 = bits::advance(data, p5, 2);
    let p7 = bits::advance(data, p6, 1);
    let p8 = bits::advance(data, p7, 1);
    let p9 = bits::advance(data, p8, 1);
    let p10 = bits::advance(data, p9, 1);
    let p11 = bits::advance(data, p10, 1);
    let p12 = bits::advance(data, p11, 1);
    let p13 = bits::advance(data, p12, 1);
    let p14 = bits::advance(data, p13, 1);
    PictureCodingExtension {
        f_code: [
            [bits::bits(data, pos as int, 4) as u32, bits::bits(data, p1 as int, 4) as u32],
            [bits::bits(data, p2 as int, 4) as u32, bits::bits(data, p3 as int, 4) as u32],
        ],
        intra_dc_precision: bits::bits(data, p4 as int, 2) as u32,
        picture_structure: PictureStructure::of_code(bits::bits(data, p5 as int, 2) as int),
        top_field_first: bits::bits(data, p6 as int, 1) == 1,
        frame_pred_frame_dct: bits::bits(data, p7 as int, 1) == 1,
        concealment_motion_vectors: bits::bits(data, p8 as int, 1) == 1,
        q_scale_type: bits::bits(data, p9 as int, 1) as usize,
        intra_vlc_format: bits::bits(data, p10 as int, 1) as u32,
        alternate_scan: bits::bits(data, p11 as int, 1) == 1,
        repeat_first_field: bits::bits(data, p12 as int, 1) == 1,
        chroma_420_type: bits::bits(data, p13 as int, 1) == 1,
        progressive_frame: bits::bits(data, p14 as int, 1) == 1,
    }
}

pub fn read_picture_coding_extension(r: &mut BitReader<'_>) -> (coding: PictureCodingExtension)
    requires
        old(r).wf(),
    ensures
        final(r).wf(),
        final(r).data() == old(r).data(),
        coding == picture_coding_extension_at(old(r).data(), old(r).at()),
        coding.wf(),
{
    proof {
        reveal(picture_coding_extension_at);
        power2::lemma2_to64();
    }
    let f00: u32 = r.u(4);
    let f01: u32 = r.u(4);
    let f10: u32 = r.u(4);
    let f11: u32 = r.u(4);
    let intra_dc_precision: u32 = r.u(2);
    let picture_structure = PictureStructure::from_code(r.u(2));
    let top_field_first: bool = r.flag();
    let frame_pred_frame_dct: bool = r.flag();
    let concealment_motion_vectors: bool = r.flag();
    let q_scale_type: usize = r.u(1) as usize;
    let intra_vlc_format: u32 = r.u(1);
    let alternate_scan: bool = r.flag();
    let repeat_first_field: bool = r.flag();
    let chroma_420_type: bool = r.flag();
    let progressive_frame: bool = r.flag();
    if r.flag() {
        // composite_display_flag
        r.skip(1 + 3 + 1 + 7 + 8);
    }
    PictureCodingExtension {
        f_code: [[f00, f01], [f10, f11]],
        intra_dc_precision,
        picture_structure,
        top_field_first,
        frame_pred_frame_dct,
        concealment_motion_vectors,
        q_scale_type,
        intra_vlc_format,
        alternate_scan,
        repeat_first_field,
        chroma_420_type,
        progressive_frame,
    }
}

/// A slice header at `pos`, behind the start code `code`.
#[verifier::opaque]
pub open spec fn slice_at(data: Seq<u8>, pos: nat, code: u8, picture: PictureView) -> Slice {
    let tall = !picture.is_mpeg1 && picture.sequence.vertical_size > 2800;
    let p1 = if tall {
        bits::advance(data, pos, 3)
    } else {
        pos
    };
    let p2 = bits::advance(data, p1, 5);
    let p3 = if bits::bits(data, p2 as int, 1) == 1 {
        // intra_slice_flag, intra_slice and the reserved bits.
        bits::advance(data, bits::advance(data, bits::advance(data, p2, 1), 1), 7)
    } else {
        p2
    };
    Slice {
        vertical_position: if tall {
            (code + 128 * bits::bits(data, pos as int, 3)) as u32
        } else {
            code as u32
        },
        quantiser_scale_code: bits::bits(data, p1 as int, 5) as u32,
        data_start_bit: extra_information_end(data, p3) as usize,
        data_end_bit: None,
    }
}

pub fn read_slice_header(
    r: &mut BitReader<'_>,
    code: u8,
    picture: &Picture,
) -> (slice: Slice)
    requires
        old(r).wf(),
        code >= 1,
        code <= start_code::SLICE_MAX,
    ensures
        final(r).wf(),
        final(r).data() == old(r).data(),
        slice == slice_at(old(r).data(), old(r).at(), code, picture@),
        slice.wf(),
{
    proof {
        reveal(slice_at);
        power2::lemma2_to64();
    }
    let mut vertical_position: u32 = code as u32;
    if !picture.is_mpeg1 && picture.sequence.vertical_size > 2800 {
        // slice_vertical_position_extension
        vertical_position = vertical_position + 128 * r.u(3);
    }
    let quantiser_scale_code: u32 = r.u(5);
    if r.peek(1) == 1 {
        r.skip(1);  // intra_slice_flag
        r.skip(1);  // intra_slice
        r.skip(7);  // reserved_bits
        skip_extra_information(r);
    } else {
        proof {
            assert(extra_information_end(r.data(), r.at()) == bits::advance(r.data(), r.at(), 1));
        }
        r.skip(1);  // extra_bit_slice == 0
    }
    Slice { vertical_position, quantiser_scale_code, data_start_bit: r.bit_pos(), data_end_bit: None }
}

} // verus!
