//! Header layer parsing: everything above the macroblock.
//!
//! The output of this pass is what the H.264 side needs to build its parameter
//! sets and slice headers, plus the bit ranges of the slices whose macroblock
//! layer is coded again.
use crate::bitreader;
use crate::bitreader::{find_start_codes, BitReader, StartCode};
use crate::bits;
use crate::error::Error;
use crate::mpeg2::constants::{
    chroma_format, extension, start_code, PictureStructure, PictureType, ALTERNATE_SCAN,
    DEFAULT_INTRA_QUANT, DEFAULT_NON_INTRA_QUANT, ZIGZAG_SCAN,
};
use crate::mpeg2::syntax;
use crate::mpeg2::syntax::{
    read_picture_coding_extension, read_picture_header, read_quant_matrix_extension,
    read_sequence_extension, read_sequence_header, read_slice_header,
};
use vstd::prelude::*;

verus! {

#[derive(Clone, Copy, Debug, PartialEq, Eq, Structural)]
pub struct SequenceHeader {
    pub horizontal_size: u32,
    pub vertical_size: u32,
    pub aspect_ratio_information: u32,
    pub frame_rate_code: u32,
    pub bit_rate_value: u32,
    pub vbv_buffer_size_value: u32,
    pub constrained_parameters_flag: bool,
}

impl SequenceHeader {
    /// The header holds what its fields, and the extension's, have bits for.
    pub open spec fn wf(self) -> bool {
        &&& self.horizontal_size < 0x4000
        &&& self.vertical_size < 0x4000
        &&& self.aspect_ratio_information < 16
        &&& self.frame_rate_code < 16
    }
}

#[derive(Clone, Copy, Debug, PartialEq, Eq, Structural)]
pub struct SequenceExtension {
    pub profile_and_level: u32,
    pub progressive_sequence: bool,
    pub chroma_format: u32,
    pub bit_rate_extension: u32,
    pub vbv_buffer_size_extension: u32,
    pub low_delay: bool,
    pub frame_rate_extension_n: u32,
    pub frame_rate_extension_d: u32,
}

impl SequenceExtension {
    /// The extension holds what its fields have bits for.
    pub open spec fn wf(self) -> bool {
        self.frame_rate_extension_n < 4 && self.frame_rate_extension_d < 32
    }

    /// What a picture without a sequence extension is coded under.
    pub open spec fn absent() -> SequenceExtension {
        SequenceExtension {
            profile_and_level: 0,
            progressive_sequence: true,
            chroma_format: chroma_format::C420,
            bit_rate_extension: 0,
            vbv_buffer_size_extension: 0,
            low_delay: false,
            frame_rate_extension_n: 0,
            frame_rate_extension_d: 0,
        }
    }

    /// What a picture carrying no sequence extension is treated as, i.e. the
    /// MPEG-1 style case.
    pub fn mpeg1_default() -> (extension: Self)
        ensures
            extension == SequenceExtension::absent(),
    {
        SequenceExtension {
            profile_and_level: 0,
            progressive_sequence: true,
            chroma_format: chroma_format::C420,
            bit_rate_extension: 0,
            vbv_buffer_size_extension: 0,
            low_delay: false,
            frame_rate_extension_n: 0,
            frame_rate_extension_d: 0,
        }
    }
}

#[derive(Clone, Copy, Debug, PartialEq, Eq, Structural)]
pub struct SampleAspectRatio {
    pub width: u32,
    pub height: u32,
}

/// The greatest common divisor, by Euclid.
pub open spec fn common_divisor(a: nat, b: nat) -> nat
    decreases b,
{
    if b == 0 {
        a
    } else {
        common_divisor(b, a % b)
    }
}

/// The common divisor divides both numbers, and is zero only for two zeros.
pub proof fn lemma_common_divisor(a: nat, b: nat)
    ensures
        common_divisor(a, b) == 0 <==> a == 0 && b == 0,
        common_divisor(a, b) > 0 ==> a % common_divisor(a, b) == 0,
        common_divisor(a, b) > 0 ==> b % common_divisor(a, b) == 0,
    decreases b,
{
    if b > 0 {
        let r = a % b;
        lemma_common_divisor(b, r);
        let g = common_divisor(b, r) as int;
        vstd::arithmetic::div_mod::lemma_fundamental_div_mod(a as int, b as int);
        vstd::arithmetic::div_mod::lemma_fundamental_div_mod(b as int, g);
        vstd::arithmetic::div_mod::lemma_fundamental_div_mod(r as int, g);
        let q = a as int / b as int;
        let x = b as int / g;
        let y = r as int / g;
        assert(a == g * (x * q + y)) by (nonlinear_arith)
            requires
                a == b * q + r,
                b == g * x,
                r == g * y,
        ;
        vstd::arithmetic::div_mod::lemma_mod_multiples_basic(x * q + y, g);
        assert(g * (x * q + y) == (x * q + y) * g) by (nonlinear_arith);
    } else if a > 0 {
        vstd::arithmetic::div_mod::lemma_mod_self_0(a as int);
    }
}

fn gcd(a: u32, b: u32) -> (g: u32)
    ensures
        g == common_divisor(a as nat, b as nat),
{
    let mut x: u32 = a;
    let mut y: u32 = b;
    while y != 0
        invariant
            common_divisor(x as nat, y as nat) == common_divisor(a as nat, b as nat),
        decreases y,
    {
        let t: u32 = x % y;
        x = y;
        y = t;
    }
    x
}

/// How the pictures of a coded unit were captured.
#[derive(Clone, Copy, PartialEq, Eq, Debug, Structural)]
pub struct Interlacing {
    /// Whether any picture holds two moments rather than one, which is what a
    /// deinterlacer is for and what nothing else here can tell a player.
    pub interlaced: bool,
    /// Which of the two moments came first, where there are two. Nothing in a
    /// progressive picture is ordered by it, so it is only worth reading with
    /// `interlaced`.
    pub top_field_first: bool,
}

impl Default for Interlacing {
    fn default() -> (interlacing: Self)
        ensures
            interlacing == (Interlacing { interlaced: false, top_field_first: true }),
    {
        Interlacing {
            interlaced: false,
            // Every interlaced broadcast format worth the name is top field
            // first, so a stream that never says is assumed to be one.
            top_field_first: true,
        }
    }
}

/// Whether a picture coded so holds two moments rather than one.
pub open spec fn holds_two_moments(coding: PictureCodingExtension) -> bool {
    match coding.picture_structure {
        PictureStructure::TopField => true,
        PictureStructure::BottomField => true,
        PictureStructure::Frame => !coding.progressive_frame,
        PictureStructure::Reserved => false,
    }
}

/// Which field of a picture of two moments comes first.
pub open spec fn first_field_is_top(coding: PictureCodingExtension) -> bool {
    match coding.picture_structure {
        PictureStructure::TopField => true,
        PictureStructure::Frame => coding.top_field_first,
        _ => false,
    }
}

/// The field order of the first picture, from picture `i` on, that holds two
/// moments. Without one it is top field first.
pub open spec fn first_field_order(pictures: Seq<Picture>, i: int) -> bool
    decreases pictures.len() - i,
{
    if i < 0 || i >= pictures.len() {
        true
    } else if holds_two_moments(pictures[i].coding) {
        first_field_is_top(pictures[i].coding)
    } else {
        first_field_order(pictures, i + 1)
    }
}

/// Read the field order out of a unit's pictures.
///
/// A picture says it in one of two ways. Coded as two field pictures, it is
/// interlaced by construction and the field that came first is whichever one
/// was coded first. Coded as a frame, `progressive_frame` says whether its two
/// fields hold one moment or two, and `top_field_first` orders them where they
/// hold two. A unit that mixes the two -- which is legal, and which a station
/// switching between film and live camera produces -- counts as interlaced if
/// any of it is, since that is the part a viewer would see combed.
pub fn pictures_interlacing(pictures: &[Picture]) -> (interlacing: Interlacing)
    ensures
        interlacing.interlaced == exists|i: int|
            0 <= i < pictures@.len() && holds_two_moments((#[trigger] pictures@[i]).coding),
        interlacing.top_field_first == first_field_order(pictures@, 0),
{
    let mut interlaced: bool = false;
    let mut top_field_first: bool = true;
    let mut i: usize = 0;
    while i < pictures.len()
        invariant
            i <= pictures@.len(),
            interlaced == exists|k: int|
                0 <= k < i && holds_two_moments((#[trigger] pictures@[k]).coding),
            interlaced ==> top_field_first == first_field_order(pictures@, 0),
            !interlaced ==> top_field_first && first_field_order(pictures@, i as int)
                == first_field_order(pictures@, 0),
        decreases pictures@.len() - i,
    {
        let coding = &pictures[i].coding;
        let (two, top) = match coding.picture_structure {
            PictureStructure::TopField => (true, true),
            PictureStructure::BottomField => (true, false),
            PictureStructure::Frame => (!coding.progressive_frame, coding.top_field_first),
            PictureStructure::Reserved => (false, false),
        };
        assert(two == holds_two_moments(pictures@[i as int].coding));
        // The first picture that has an order to give is the one to take it
        // from: later ones in the same unit are the same field pair or the
        // pairs after it.
        if two && !interlaced {
            interlaced = true;
            top_field_first = top;
        }
        i = i + 1;
    }
    Interlacing { interlaced, top_field_first }
}

/// The shape of a display, as its width and height in whole numbers.
pub open spec fn display_shape(aspect_ratio_information: u32) -> Option<(nat, nat)> {
    if aspect_ratio_information == 2 {
        Some((4, 3))
    } else if aspect_ratio_information == 3 {
        Some((16, 9))
    } else if aspect_ratio_information == 4 {
        Some((221, 100))
    } else {
        None
    }
}

/// A ratio in lowest terms. There is none of two zeros.
pub open spec fn in_lowest_terms(width: nat, height: nat) -> Option<SampleAspectRatio> {
    let divisor = common_divisor(width, height);
    if divisor == 0 {
        None
    } else {
        Some(
            SampleAspectRatio {
                width: (width / divisor) as u32,
                height: (height / divisor) as u32,
            },
        )
    }
}

/// The pixel aspect ratio of an MPEG-2 sequence: the display's, divided by the
/// picture's.
pub open spec fn display_sample_aspect_ratio(sequence: SequenceHeader) -> Option<
    SampleAspectRatio,
> {
    if sequence.aspect_ratio_information == 1 {
        Some(SampleAspectRatio { width: 1, height: 1 })
    } else {
        match display_shape(sequence.aspect_ratio_information) {
            Some((w, h)) => in_lowest_terms(
                w * sequence.vertical_size as nat,
                h * sequence.horizontal_size as nat,
            ),
            None => None,
        }
    }
}

/// The pel height that an MPEG-1 sequence signals, where a pel is 10000 wide.
pub open spec fn pel_height(aspect_ratio_information: u32) -> Option<nat> {
    if aspect_ratio_information == 1 {
        Some(10000)
    } else if aspect_ratio_information == 2 {
        Some(6735)
    } else if aspect_ratio_information == 3 {
        Some(7031)
    } else if aspect_ratio_information == 4 {
        Some(7615)
    } else if aspect_ratio_information == 5 {
        Some(8055)
    } else if aspect_ratio_information == 6 {
        Some(8437)
    } else if aspect_ratio_information == 7 {
        Some(8935)
    } else if aspect_ratio_information == 8 {
        Some(9157)
    } else if aspect_ratio_information == 9 {
        Some(9815)
    } else if aspect_ratio_information == 10 {
        Some(10255)
    } else if aspect_ratio_information == 11 {
        Some(10695)
    } else if aspect_ratio_information == 12 {
        Some(10950)
    } else if aspect_ratio_information == 13 {
        Some(11575)
    } else if aspect_ratio_information == 14 {
        Some(12015)
    } else {
        None
    }
}

/// The pixel aspect ratio of a sequence, under either standard.
pub open spec fn sample_aspect_ratio_of(sequence: SequenceHeader, is_mpeg1: bool) -> Option<
    SampleAspectRatio,
> {
    if is_mpeg1 {
        match pel_height(sequence.aspect_ratio_information) {
            Some(height) => in_lowest_terms(10000, height),
            None => None,
        }
    } else {
        display_sample_aspect_ratio(sequence)
    }
}

/// Convert MPEG-2 display aspect ratio signalling to a pixel aspect ratio.
pub fn sequence_sample_aspect_ratio(sequence: &SequenceHeader) -> (ratio: Option<
    SampleAspectRatio,
>)
    requires
        221 * sequence.vertical_size <= u32::MAX,
        100 * sequence.horizontal_size <= u32::MAX,
    ensures
        ratio == display_sample_aspect_ratio(*sequence),
{
    if sequence.aspect_ratio_information == 1 {
        return Some(SampleAspectRatio { width: 1, height: 1 });
    }
    let display: (u32, u32) = match sequence.aspect_ratio_information {
        2 => (4, 3),
        3 => (16, 9),
        4 => (221, 100),
        _ => return None,
    };
    assert(display.0 * sequence.vertical_size <= 221 * sequence.vertical_size) by (nonlinear_arith)
        requires
            display.0 <= 221,
    ;
    assert(display.1 * sequence.horizontal_size <= 100 * sequence.horizontal_size)
        by (nonlinear_arith)
        requires
            display.1 <= 100,
    ;
    let width: u32 = display.0 * sequence.vertical_size;
    let height: u32 = display.1 * sequence.horizontal_size;
    let divisor: u32 = gcd(width, height);
    if divisor == 0 {
        return None;
    }
    Some(SampleAspectRatio { width: width / divisor, height: height / divisor })
}

/// MPEG-1 signals pel height/width, unlike MPEG-2's display aspect ratio.
pub fn source_sample_aspect_ratio(sequence: &SequenceHeader, is_mpeg1: bool) -> (ratio: Option<
    SampleAspectRatio,
>)
    requires
        !is_mpeg1 ==> 221 * sequence.vertical_size <= u32::MAX && 100 * sequence.horizontal_size
            <= u32::MAX,
    ensures
        ratio == sample_aspect_ratio_of(*sequence, is_mpeg1),
{
    if !is_mpeg1 {
        return sequence_sample_aspect_ratio(sequence);
    }
    let height: u32 = match sequence.aspect_ratio_information {
        1 => 10000,
        2 => 6735,
        3 => 7031,
        4 => 7615,
        5 => 8055,
        6 => 8437,
        7 => 8935,
        8 => 9157,
        9 => 9815,
        10 => 10255,
        11 => 10695,
        12 => 10950,
        13 => 11575,
        14 => 12015,
        _ => return None,
    };
    let divisor: u32 = gcd(10000, height);
    proof {
        lemma_common_divisor(10000, height as nat);
    }
    Some(SampleAspectRatio { width: 10000 / divisor, height: height / divisor })
}

/// What the H.264 parameter sets and the MP4 initialization segment are built
/// out of, as the sequence header states it.
///
/// A broadcast is not one sequence from end to end: a station switching between
/// its main service and a sub-channel, or between an HD programme and an SD
/// commercial, sends a new sequence header and codes everything after it
/// differently. Everything here is something the SPS or the MP4 sample entry
/// carries, so a stream that changes any of it has to be described again -- and
/// nothing else in the sequence header needs a decoder to be told twice.
///
/// The quantiser matrices are deliberately not here, although the PPS declares
/// the non-intra one as its scaling list. Some broadcast encoders adapt them
/// picture by picture, several times within one group of pictures, and a
/// picture whose matrices differ from the unit's is still coded.
#[derive(Clone, Copy, PartialEq, Eq, Debug, Structural)]
pub struct SequenceDescription {
    pub width: u32,
    pub height: u32,
    /// Whether frames are coded as complementary field pairs, which is what the
    /// H.264 side represents as macroblock-adaptive frame/field coding and
    /// declares in the SPS.
    pub mbaff: bool,
    pub sample_aspect_ratio: Option<SampleAspectRatio>,
    /// MPEG-1 places chroma at the center of each 2x2 luma group.
    pub centered_chroma: bool,
}

impl Default for SequenceDescription {
    fn default() -> (description: Self)
        ensures
            description == (SequenceDescription {
                width: 0,
                height: 0,
                mbaff: false,
                sample_aspect_ratio: None,
                centered_chroma: false,
            }),
    {
        SequenceDescription {
            width: 0,
            height: 0,
            mbaff: false,
            sample_aspect_ratio: None,
            centered_chroma: false,
        }
    }
}

/// The description of pictures coded under `sequence` and, where there is one,
/// its extension.
pub open spec fn description_of(
    sequence: SequenceHeader,
    sequence_ext: Option<SequenceExtension>,
) -> SequenceDescription {
    SequenceDescription {
        width: sequence.horizontal_size,
        height: sequence.vertical_size,
        mbaff: match sequence_ext {
            Some(extension) => !extension.progressive_sequence,
            None => false,
        },
        sample_aspect_ratio: sample_aspect_ratio_of(sequence, sequence_ext is None),
        centered_chroma: sequence_ext is None,
    }
}

/// The description a picture was coded under.
pub open spec fn picture_description(picture: PictureView) -> SequenceDescription {
    SequenceDescription {
        width: picture.sequence.horizontal_size,
        height: picture.sequence.vertical_size,
        mbaff: !picture.sequence_ext.progressive_sequence,
        sample_aspect_ratio: sample_aspect_ratio_of(picture.sequence, picture.is_mpeg1),
        centered_chroma: picture.is_mpeg1,
    }
}

/// The description one already-parsed picture was coded under.
pub fn picture_sequence_description(picture: &Picture) -> (description: SequenceDescription)
    requires
        !picture.is_mpeg1 ==> 221 * picture.sequence.vertical_size <= u32::MAX && 100
            * picture.sequence.horizontal_size <= u32::MAX,
    ensures
        description == picture_description(picture@),
{
    SequenceDescription {
        width: picture.sequence.horizontal_size,
        height: picture.sequence.vertical_size,
        mbaff: !picture.sequence_ext.progressive_sequence,
        centered_chroma: picture.is_mpeg1,
        sample_aspect_ratio: source_sample_aspect_ratio(&picture.sequence, picture.is_mpeg1),
    }
}

/// All four quantiser matrices, held in raster order.
#[derive(Clone, Copy, Debug)]
pub struct QuantMatrices {
    pub intra: [i32; 64],
    pub non_intra: [i32; 64],
    pub chroma_intra: [i32; 64],
    pub chroma_non_intra: [i32; 64],
}

/// The four quantiser matrices as sequences.
#[verifier::ext_equal]
pub struct QuantView {
    pub intra: Seq<i32>,
    pub non_intra: Seq<i32>,
    pub chroma_intra: Seq<i32>,
    pub chroma_non_intra: Seq<i32>,
}

impl View for QuantMatrices {
    type V = QuantView;

    open spec fn view(&self) -> QuantView {
        QuantView {
            intra: self.intra@,
            non_intra: self.non_intra@,
            chroma_intra: self.chroma_intra@,
            chroma_non_intra: self.chroma_non_intra@,
        }
    }
}

/// The matrices a sequence starts with.
pub open spec fn default_matrices() -> QuantView {
    QuantView {
        intra: DEFAULT_INTRA_QUANT@,
        non_intra: DEFAULT_NON_INTRA_QUANT@,
        chroma_intra: DEFAULT_INTRA_QUANT@,
        chroma_non_intra: DEFAULT_NON_INTRA_QUANT@,
    }
}

impl Default for QuantMatrices {
    fn default() -> (quant: Self)
        ensures
            quant@ == default_matrices(),
    {
        QuantMatrices {
            intra: DEFAULT_INTRA_QUANT,
            non_intra: DEFAULT_NON_INTRA_QUANT,
            chroma_intra: DEFAULT_INTRA_QUANT,
            chroma_non_intra: DEFAULT_NON_INTRA_QUANT,
        }
    }
}

#[derive(Clone, Copy, Debug, PartialEq, Eq, Structural)]
pub struct PictureHeader {
    pub temporal_reference: u32,
    pub picture_coding_type: PictureType,
    pub vbv_delay: u32,
    /// Present for P and B pictures; MPEG-1 style whole-pel MV flag.
    pub full_pel_forward_vector: bool,
    pub forward_f_code: u32,
    pub full_pel_backward_vector: bool,
    pub backward_f_code: u32,
}

impl PictureHeader {
    /// The header holds what its fields have bits for.
    pub open spec fn wf(self) -> bool {
        self.temporal_reference < 1024 && self.forward_f_code < 8 && self.backward_f_code < 8
    }
}

#[derive(Clone, Copy, Debug)]
pub struct PictureCodingExtension {
    /// `f_code[r][s]`: r = 0 forward / 1 backward, s = 0 horizontal / 1 vertical.
    pub f_code: [[u32; 2]; 2],
    pub intra_dc_precision: u32,
    pub picture_structure: PictureStructure,
    pub top_field_first: bool,
    pub frame_pred_frame_dct: bool,
    pub concealment_motion_vectors: bool,
    pub q_scale_type: usize,
    pub intra_vlc_format: u32,
    pub alternate_scan: bool,
    pub repeat_first_field: bool,
    pub chroma_420_type: bool,
    pub progressive_frame: bool,
}

/// `max(1, f_code)`, the width of an MPEG-1 motion vector component.
pub open spec fn at_least_one(f_code: u32) -> u32 {
    if f_code < 1 {
        1
    } else {
        f_code
    }
}

impl PictureCodingExtension {
    /// The extension holds what its fields have bits for.
    pub open spec fn wf(self) -> bool {
        &&& self.f_code@[0]@[0] < 16
        &&& self.f_code@[0]@[1] < 16
        &&& self.f_code@[1]@[0] < 16
        &&& self.f_code@[1]@[1] < 16
        &&& self.intra_dc_precision < 4
        &&& self.q_scale_type < 2
        &&& self.intra_vlc_format < 2
    }

    /// What a picture without a coding extension is coded under.
    pub open spec fn absent(header: PictureHeader) -> PictureCodingExtension {
        let f = at_least_one(header.forward_f_code);
        let b = at_least_one(header.backward_f_code);
        PictureCodingExtension {
            f_code: [[f, f], [b, b]],
            intra_dc_precision: 0,
            picture_structure: PictureStructure::Frame,
            top_field_first: false,
            frame_pred_frame_dct: true,
            concealment_motion_vectors: false,
            q_scale_type: 0,
            intra_vlc_format: 0,
            alternate_scan: false,
            repeat_first_field: false,
            chroma_420_type: true,
            progressive_frame: true,
        }
    }

    /// Default picture coding extension, for the MPEG-1 style case where a
    /// picture carries no extension at all. MPEG-2 streams always have one, but
    /// defaulting keeps the picture record total.
    pub fn mpeg1_default(header: &PictureHeader) -> (coding: Self)
        ensures
            coding == PictureCodingExtension::absent(*header),
    {
        let f: u32 = if header.forward_f_code < 1 {
            1
        } else {
            header.forward_f_code
        };
        let b: u32 = if header.backward_f_code < 1 {
            1
        } else {
            header.backward_f_code
        };
        PictureCodingExtension {
            f_code: [[f, f], [b, b]],
            intra_dc_precision: 0,
            picture_structure: PictureStructure::Frame,
            top_field_first: false,
            frame_pred_frame_dct: true,
            concealment_motion_vectors: false,
            q_scale_type: 0,
            intra_vlc_format: 0,
            alternate_scan: false,
            repeat_first_field: false,
            chroma_420_type: true,
            progressive_frame: true,
        }
    }
}

#[derive(Clone, Copy, Debug, PartialEq, Eq, Structural)]
pub struct Slice {
    /// `slice_vertical_position`, i.e. the macroblock row this slice starts in (1-based).
    pub vertical_position: u32,
    pub quantiser_scale_code: u32,
    /// Bit offset of the first `macroblock()` in the stream buffer.
    pub data_start_bit: usize,
    /// Bit offset one past the last macroblock (start of the next start code).
    pub data_end_bit: Option<usize>,
}

impl Slice {
    /// The slice names a row the syntax can name.
    pub open spec fn wf(self) -> bool {
        1 <= self.vertical_position < 1072 && self.quantiser_scale_code < 32
    }
}

#[derive(Clone, Debug)]
pub struct Picture {
    /// No sequence extension was present: use MPEG-1 syntax and inverse quantisation.
    pub is_mpeg1: bool,
    /// True when a `group_of_pictures_header` preceded this picture, which is
    /// where `temporal_reference` restarts. Coded order alone cannot tell:
    /// within a group `temporal_reference` already runs backwards whenever B
    /// pictures are present.
    pub starts_gop: bool,
    pub header: PictureHeader,
    pub coding: PictureCodingExtension,
    /// Sequence state in effect for this picture.
    pub sequence: SequenceHeader,
    pub sequence_ext: SequenceExtension,
    pub quant: QuantMatrices,
    pub slices: Vec<Slice>,
    /// Byte range of the sequence-level headers standing in front of this
    /// picture: from its sequence header to one past the last thing that
    /// changed the description, which is the sequence extension and any
    /// quantiser matrix extension that arrived before it.
    ///
    /// This is what a converter has to put in front of the picture's own bytes
    /// for a fresh parse to describe it the way this walk did. Normally it is
    /// the block a sequence opens with, a hundred-odd bytes holding no picture
    /// at all. A stream that changes its quantiser matrices part way through a
    /// sequence stretches the range over the pictures in between, which is why
    /// a reader takes the last picture of a prefixed stream rather than the
    /// first.
    pub context_start: usize,
    pub context_end: usize,
}

/// A picture as a mathematical value.
#[verifier::ext_equal]
pub struct PictureView {
    pub is_mpeg1: bool,
    pub starts_gop: bool,
    pub header: PictureHeader,
    pub coding: PictureCodingExtension,
    pub sequence: SequenceHeader,
    pub sequence_ext: SequenceExtension,
    pub quant: QuantView,
    pub slices: Seq<Slice>,
    pub context_start: int,
    pub context_end: int,
}

impl View for Picture {
    type V = PictureView;

    open spec fn view(&self) -> PictureView {
        PictureView {
            is_mpeg1: self.is_mpeg1,
            starts_gop: self.starts_gop,
            header: self.header,
            coding: self.coding,
            sequence: self.sequence,
            sequence_ext: self.sequence_ext,
            quant: self.quant@,
            slices: self.slices@,
            context_start: self.context_start as int,
            context_end: self.context_end as int,
        }
    }
}

impl PictureView {
    /// Every field holds what the syntax has bits for.
    pub open spec fn wf(self) -> bool {
        &&& self.header.wf()
        &&& self.coding.wf()
        &&& self.sequence.wf()
        &&& self.sequence_ext.wf()
        &&& forall|i: int| 0 <= i < self.slices.len() ==> (#[trigger] self.slices[i]).wf()
    }
}

/// Derived, ready-to-use view of the picture geometry.
#[derive(Clone, Copy, Debug, PartialEq, Eq, Structural)]
pub struct PictureGeometry {
    pub width: u32,
    pub height: u32,
    pub mb_width: usize,
    pub mb_height: usize,
    pub frame_mb_height: usize,
    pub is_field_picture: bool,
}

/// The geometry of a picture: its size, and in macroblocks of 16x16 how many it
/// takes to cover the picture, and its frame.
pub open spec fn geometry_of(
    sequence: SequenceHeader,
    structure: PictureStructure,
) -> PictureGeometry {
    PictureGeometry {
        width: sequence.horizontal_size,
        height: sequence.vertical_size,
        mb_width: ((sequence.horizontal_size + 15) / 16) as usize,
        mb_height: if structure == PictureStructure::Frame {
            ((sequence.vertical_size + 15) / 16) as usize
        } else {
            ((sequence.vertical_size + 31) / 32) as usize
        },
        frame_mb_height: ((sequence.vertical_size + 15) / 16) as usize,
        is_field_picture: structure != PictureStructure::Frame,
    }
}

pub fn picture_geometry(pic: &Picture) -> (geometry: PictureGeometry)
    requires
        pic.sequence.horizontal_size + 15 <= u32::MAX,
        pic.sequence.vertical_size + 31 <= u32::MAX,
    ensures
        geometry == geometry_of(pic.sequence, pic.coding.picture_structure),
{
    let width: u32 = pic.sequence.horizontal_size;
    let height: u32 = pic.sequence.vertical_size;
    let mb_width: usize = ((width + 15) / 16) as usize;
    // Field pictures code half the macroblock rows.
    let frame_mb_height: usize = ((height + 15) / 16) as usize;
    let is_field_picture: bool = pic.coding.picture_structure != PictureStructure::Frame;
    let mb_height: usize = if is_field_picture {
        ((height + 31) / 32) as usize
    } else {
        frame_mb_height
    };
    PictureGeometry { width, height, mb_width, mb_height, frame_mb_height, is_field_picture }
}

/// The scan that orders a picture's coefficients.
pub open spec fn scan_of(coding: PictureCodingExtension) -> Seq<usize> {
    if coding.alternate_scan {
        ALTERNATE_SCAN@
    } else {
        ZIGZAG_SCAN@
    }
}

pub fn scan_table(pic: &Picture) -> (scan: &'static [usize; 64])
    ensures
        scan@ == scan_of(pic.coding),
{
    if pic.coding.alternate_scan {
        &ALTERNATE_SCAN
    } else {
        &ZIGZAG_SCAN
    }
}

/// What a parse has gathered when it has come to some start code.
#[verifier::ext_equal]
pub struct ParseState {
    /// The sequence header in effect.
    pub sequence: Option<SequenceHeader>,
    pub extension: Option<SequenceExtension>,
    pub quant: QuantView,
    /// The pictures so far. The last one is still open.
    pub pictures: Seq<PictureView>,
    pub saw_gop_header: bool,
    pub context_start: int,
    pub context_end: int,
}

impl ParseState {
    /// Where a parse starts.
    pub open spec fn initial() -> ParseState {
        ParseState {
            sequence: None,
            extension: None,
            quant: default_matrices(),
            pictures: Seq::empty(),
            saw_gop_header: false,
            context_start: 0,
            context_end: 0,
        }
    }
}

/// The pictures with the last slice ended at bit `end`, unless it has ended
/// already.
#[verifier::opaque]
pub open spec fn slice_ended(pictures: Seq<PictureView>, end: usize) -> Seq<PictureView> {
    if pictures.len() == 0 || pictures.last().slices.len() == 0
        || pictures.last().slices.last().data_end_bit is Some {
        pictures
    } else {
        let picture = pictures.last();
        let slice = Slice { data_end_bit: Some(end), ..picture.slices.last() };
        pictures.update(
            pictures.len() - 1,
            PictureView {
                slices: picture.slices.update(picture.slices.len() - 1, slice),
                ..picture
            },
        )
    }
}

/// The pictures with the open one changed to `picture`.
pub open spec fn last_replaced(pictures: Seq<PictureView>, picture: PictureView) -> Seq<
    PictureView,
> {
    pictures.update(pictures.len() - 1, picture)
}

/// What a parse has gathered behind the extension at bit `pos`, which ends at byte
/// `ends_at`.
#[verifier::opaque]
pub open spec fn extension_step(
    data: Seq<u8>,
    pos: nat,
    ends_at: int,
    state: ParseState,
) -> Result<ParseState, Error> {
    let id = bits::bits(data, pos as int, 4);
    let body = bits::advance(data, pos, 4);
    if id == extension::SEQUENCE {
        match state.sequence {
            Some(header) => match syntax::sequence_extension_at(data, body, header) {
                Ok((header, extension)) => Ok(
                    ParseState {
                        sequence: Some(header),
                        extension: Some(extension),
                        context_end: ends_at,
                        ..state
                    },
                ),
                Err(e) => Err(e),
            },
            None => Ok(state),
        }
    } else if id == extension::QUANT_MATRIX {
        let quant = syntax::quant_extension_at(data, body, state.quant);
        Ok(
            ParseState {
                quant,
                context_end: ends_at,
                pictures: if state.pictures.len() > 0 {
                    last_replaced(state.pictures, PictureView { quant, ..state.pictures.last() })
                } else {
                    state.pictures
                },
                ..state
            },
        )
    } else if id == extension::PICTURE_CODING && state.pictures.len() > 0 {
        let coding = syntax::picture_coding_extension_at(data, body);
        Ok(
            ParseState {
                pictures: last_replaced(
                    state.pictures,
                    PictureView { coding, ..state.pictures.last() },
                ),
                ..state
            },
        )
    } else {
        Ok(state)
    }
}

/// What a parse has gathered behind the picture header at bit `pos`.
#[verifier::opaque]
pub open spec fn picture_step(data: Seq<u8>, pos: nat, state: ParseState) -> ParseState {
    match state.sequence {
        Some(sequence) => {
            let header = syntax::picture_header_at(data, pos);
            let picture = PictureView {
                is_mpeg1: state.extension is None,
                starts_gop: state.saw_gop_header,
                header,
                coding: PictureCodingExtension::absent(header),
                sequence,
                sequence_ext: match state.extension {
                    Some(extension) => extension,
                    None => SequenceExtension::absent(),
                },
                quant: state.quant,
                slices: Seq::empty(),
                context_start: state.context_start,
                context_end: state.context_end,
            };
            ParseState {
                pictures: state.pictures.push(picture),
                saw_gop_header: false,
                ..state
            }
        },
        // A recording can begin in the middle of a group. A picture before the
        // first sequence header has nothing to be decoded with.
        None => state,
    }
}

/// What a parse has gathered behind the header that `code` introduces and that
/// ends at byte `ends_at`.
pub open spec fn parse_step(
    data: Seq<u8>,
    code: StartCode,
    ends_at: int,
    before: ParseState,
) -> Result<ParseState, Error> {
    // A start code terminates whatever slice was in progress.
    let state = ParseState {
        pictures: slice_ended(before.pictures, (8 * code.offset) as usize),
        ..before
    };
    let pos = bits::advance(data, 0, (8 * code.payload_offset) as nat);
    if code.code == start_code::SEQUENCE_HEADER {
        match syntax::sequence_header_at(data, pos).1 {
            Ok((header, quant)) => Ok(
                ParseState {
                    sequence: Some(header),
                    quant,
                    extension: None,
                    context_start: code.offset as int,
                    context_end: ends_at,
                    ..state
                },
            ),
            Err(e) => Err(e),
        }
    } else if code.code == start_code::EXTENSION {
        extension_step(data, pos, ends_at, state)
    } else if code.code == start_code::PICTURE {
        Ok(picture_step(data, pos, state))
    } else if code.code == start_code::GROUP {
        Ok(ParseState { saw_gop_header: true, ..state })
    } else if start_code::SLICE_MIN <= code.code <= start_code::SLICE_MAX
        && state.pictures.len() > 0 {
        let picture = state.pictures.last();
        let slice = syntax::slice_at(data, pos, code.code, picture);
        Ok(
            ParseState {
                pictures: last_replaced(
                    state.pictures,
                    PictureView { slices: picture.slices.push(slice), ..picture },
                ),
                ..state
            },
        )
    } else {
        Ok(state)
    }
}

/// Where the header that `codes[k]` introduces ends: at the next start code.
pub open spec fn header_end(data: Seq<u8>, codes: Seq<StartCode>, k: int) -> int {
    if k + 1 < codes.len() {
        codes[k + 1].offset as int
    } else {
        data.len() as int
    }
}

/// The pictures of `data`, from the start code `codes[k]` on.
pub open spec fn parse_codes(
    data: Seq<u8>,
    codes: Seq<StartCode>,
    k: int,
    state: ParseState,
) -> Result<Seq<PictureView>, Error>
    decreases codes.len() - k,
{
    if k < 0 || k >= codes.len() {
        Ok(slice_ended(state.pictures, (8 * data.len()) as usize))
    } else {
        match parse_step(data, codes[k], header_end(data, codes, k), state) {
            Ok(next) => parse_codes(data, codes, k + 1, next),
            Err(e) => Err(e),
        }
    }
}

/// The pictures of an elementary stream.
pub open spec fn parsed(data: Seq<u8>) -> Result<Seq<PictureView>, Error> {
    parse_codes(data, bitreader::start_codes(data, 0), 0, ParseState::initial())
}

/// The pictures as mathematical values.
pub open spec fn picture_views(pictures: Seq<Picture>) -> Seq<PictureView> {
    Seq::new(pictures.len(), |i: int| pictures[i]@)
}

/// Every picture is well formed.
pub open spec fn all_wf(pictures: Seq<PictureView>) -> bool {
    forall|i: int| 0 <= i < pictures.len() ==> (#[trigger] pictures[i]).wf()
}

/// Start codes stand inside the data.
pub proof fn lemma_start_codes_inside(data: Seq<u8>, at: int)
    requires
        0 <= at,
        data.len() <= usize::MAX,
    ensures
        forall|k: int|
            0 <= k < bitreader::start_codes(data, at).len() ==> {
                let code = #[trigger] bitreader::start_codes(data, at)[k];
                &&& at <= code.offset
                &&& code.payload_offset == code.offset + 4
                &&& code.payload_offset <= data.len()
                &&& code.code == data[code.offset + 3]
            },
    decreases data.len() - at,
{
    if at + 3 < data.len() {
        if bitreader::is_start_code(data, at) {
            lemma_start_codes_inside(data, at + 3);
            let rest = bitreader::start_codes(data, at + 3);
            let all = bitreader::start_codes(data, at);
            assert forall|k: int| 0 <= k < all.len() implies {
                let code = #[trigger] all[k];
                &&& at <= code.offset
                &&& code.payload_offset == code.offset + 4
                &&& code.payload_offset <= data.len()
                &&& code.code == data[code.offset + 3]
            } by {
                if k > 0 {
                    assert(all[k] == rest[k - 1]);
                }
            }
        } else {
            lemma_start_codes_inside(data, at + 1);
            assert(bitreader::start_codes(data, at) == bitreader::start_codes(data, at + 1));
        }
    } else {
        assert(bitreader::start_codes(data, at).len() == 0);
    }
}

/// A parse under way.
struct Parser {
    sequence: Option<SequenceHeader>,
    extension: Option<SequenceExtension>,
    quant: QuantMatrices,
    pictures: Vec<Picture>,
    saw_gop_header: bool,
    // The sequence description in hand: where its header starts, and one past
    // the last thing that changed it. Recorded on each picture so that one
    // picture can be re-parsed on its own; see [`Picture::context_start`].
    context_start: usize,
    context_end: usize,
}

impl View for Parser {
    type V = ParseState;

    closed spec fn view(&self) -> ParseState {
        ParseState {
            sequence: self.sequence,
            extension: self.extension,
            quant: self.quant@,
            pictures: picture_views(self.pictures@),
            saw_gop_header: self.saw_gop_header,
            context_start: self.context_start as int,
            context_end: self.context_end as int,
        }
    }
}

impl Parser {
    spec fn wf(&self) -> bool {
        &&& self.sequence is Some ==> self.sequence->Some_0.wf()
        &&& self.extension is Some ==> self.extension->Some_0.wf()
        &&& all_wf(picture_views(self.pictures@))
    }

    /// End the last slice of the last picture at bit `end`, unless it has ended.
    fn end_slice(&mut self, end: usize)
        requires
            old(self).wf(),
        ensures
            final(self).wf(),
            final(self)@ == (ParseState {
                pictures: slice_ended(old(self)@.pictures, end),
                ..old(self)@
            }),
    {
        proof {
            reveal(slice_ended);
        }
        let count: usize = self.pictures.len();
        if count == 0 {
            return;
        }
        let ghost before = self@.pictures;
        let slices: usize = self.pictures[count - 1].slices.len();
        if slices == 0 {
            return;
        }
        let slice = self.pictures[count - 1].slices[slices - 1];
        if slice.data_end_bit.is_none() {
            assert(before[count - 1].wf());
            self.pictures[count - 1].slices[slices - 1] = Slice {
                vertical_position: slice.vertical_position,
                quantiser_scale_code: slice.quantiser_scale_code,
                data_start_bit: slice.data_start_bit,
                data_end_bit: Some(end),
            };
            assert(self@.pictures =~= slice_ended(before, end));
        }
    }

    fn extension(&mut self, r: &mut BitReader<'_>, ends_at: usize) -> (result: Result<(), Error>)
        requires
            old(self).wf(),
            old(r).wf(),
        ensures
            final(r).wf(),
            final(self).wf(),
            match result {
                Ok(()) => extension_step(old(r).data(), old(r).at(), ends_at as int, old(self)@)
                    == Ok::<ParseState, Error>(final(self)@),
                Err(e) => extension_step(old(r).data(), old(r).at(), ends_at as int, old(self)@)
                    == Err::<ParseState, Error>(e),
            },
    {
        proof {
            reveal(extension_step);
        }
        let ghost before = self@.pictures;
        let count: usize = self.pictures.len();
        let id: u32 = r.u(4);
        if id == extension::SEQUENCE {
            if let Some(header) = self.sequence {
                match read_sequence_extension(r, &header) {
                    Ok((header, extension)) => {
                        self.sequence = Some(header);
                        self.extension = Some(extension);
                    },
                    Err(e) => return Err(e),
                }
                self.context_end = ends_at;
            }
        } else if id == extension::QUANT_MATRIX {
            self.context_end = ends_at;
            // Applies from the next picture onwards; the already-emitted
            // pictures keep the matrices they were coded with, which value
            // semantics give for free.
            read_quant_matrix_extension(r, &mut self.quant);
            if count > 0 {
                assert(before[count - 1].wf());
                self.pictures[count - 1].quant = self.quant;
                assert(self@.pictures =~= last_replaced(
                    before,
                    PictureView { quant: self.quant@, ..before.last() },
                ));
            }
        } else if id == extension::PICTURE_CODING {
            if count > 0 {
                let coding = read_picture_coding_extension(r);
                assert(before[count - 1].wf());
                self.pictures[count - 1].coding = coding;
                assert(self@.pictures =~= last_replaced(
                    before,
                    PictureView { coding, ..before.last() },
                ));
            }
        }
        Ok(())
    }

    fn picture(&mut self, r: &mut BitReader<'_>)
        requires
            old(self).wf(),
            old(r).wf(),
        ensures
            final(r).wf(),
            final(self).wf(),
            final(self)@ == picture_step(old(r).data(), old(r).at(), old(self)@),
    {
        proof {
            reveal(picture_step);
        }
        // A transport-stream recording can begin in the middle of a GOP.
        // Pictures before the first sequence header have no dimensions or
        // coding parameters with which to decode them, so discard that
        // incomplete prefix and start at the first self-describing unit.
        if let Some(sequence) = self.sequence {
            let ghost before = self@.pictures;
            let header = read_picture_header(r);
            let picture = Picture {
                is_mpeg1: self.extension.is_none(),
                starts_gop: self.saw_gop_header,
                coding: PictureCodingExtension::mpeg1_default(&header),
                header,
                sequence,
                sequence_ext: match self.extension {
                    Some(extension) => extension,
                    None => SequenceExtension::mpeg1_default(),
                },
                quant: self.quant,
                slices: Vec::new(),
                context_start: self.context_start,
                context_end: self.context_end,
            };
            assert(picture@.wf());
            self.pictures.push(picture);
            assert(self@.pictures =~= before.push(picture@));
            self.saw_gop_header = false;
        }
    }

    /// Take in the header that `sc` introduces.
    fn step(&mut self, data: &[u8], sc: StartCode, ends_at: usize) -> (result: Result<(), Error>)
        requires
            old(self).wf(),
            8 * data@.len() <= usize::MAX,
            sc.payload_offset == sc.offset + 4,
            sc.payload_offset <= data@.len(),
        ensures
            final(self).wf(),
            match result {
                Ok(()) => parse_step(data@, sc, ends_at as int, old(self)@) == Ok::<
                    ParseState,
                    Error,
                >(final(self)@),
                Err(e) => parse_step(data@, sc, ends_at as int, old(self)@) == Err::<
                    ParseState,
                    Error,
                >(e),
            },
    {
        // A start code terminates whatever slice was in progress.
        self.end_slice(sc.offset * 8);
        let ghost before = self@.pictures;
        let count: usize = self.pictures.len();
        let mut r = BitReader::at_bit(data, sc.payload_offset * 8);
        if sc.code == start_code::SEQUENCE_HEADER {
            match read_sequence_header(&mut r) {
                Ok((header, matrices)) => {
                    self.sequence = Some(header);
                    self.quant = matrices;
                },
                Err(e) => return Err(e),
            }
            self.extension = None;
            self.context_start = sc.offset;
            self.context_end = ends_at;
        } else if sc.code == start_code::EXTENSION {
            return self.extension(&mut r, ends_at);
        } else if sc.code == start_code::PICTURE {
            self.picture(&mut r);
        } else if sc.code == start_code::GROUP {
            self.saw_gop_header = true;
        } else if sc.code >= start_code::SLICE_MIN && sc.code <= start_code::SLICE_MAX {
            if count > 0 {
                let slice = read_slice_header(&mut r, sc.code, &self.pictures[count - 1]);
                assert(before[count - 1].wf());
                self.pictures[count - 1].slices.push(slice);
                assert(self@.pictures =~= last_replaced(
                    before,
                    PictureView { slices: before.last().slices.push(slice), ..before.last() },
                ));
            }
        }
        Ok(())
    }
}

/// Parse a full MPEG-2 elementary stream into pictures.
///
/// Slices are recorded as bit ranges rather than being decoded here: the
/// macroblock layer is re-coded rather than reconstructed, so it is handled by a
/// separate pass that can run per-slice.
pub fn parse_elementary_stream(data: &[u8]) -> (result: Result<Vec<Picture>, Error>)
    requires
        8 * data@.len() <= usize::MAX,
    ensures
        match result {
            Ok(pictures) => parsed(data@) == Ok::<Seq<PictureView>, Error>(
                picture_views(pictures@),
            ) && all_wf(picture_views(pictures@)),
            Err(e) => parsed(data@) == Err::<Seq<PictureView>, Error>(e),
        },
{
    let codes = find_start_codes(data);
    let mut parser = Parser {
        sequence: None,
        extension: None,
        quant: QuantMatrices::default(),
        pictures: Vec::new(),
        saw_gop_header: false,
        context_start: 0,
        context_end: 0,
    };
    assert(parser@ =~= ParseState::initial());
    let mut position: usize = 0;
    proof {
        lemma_start_codes_inside(data@, 0);
    }
    while position < codes.len()
        invariant
            8 * data@.len() <= usize::MAX,
            codes@ == bitreader::start_codes(data@, 0),
            position <= codes@.len(),
            forall|k: int|
                0 <= k < codes@.len() ==> {
                    let code = #[trigger] codes@[k];
                    &&& code.payload_offset == code.offset + 4
                    &&& code.payload_offset <= data@.len()
                },
            parser.wf(),
            parse_codes(data@, codes@, position as int, parser@) == parsed(data@),
        decreases codes@.len() - position,
    {
        // Where this header stops, which is where the next one starts.
        let ends_at: usize = if position + 1 < codes.len() {
            codes[position + 1].offset
        } else {
            data.len()
        };
        match parser.step(data, codes[position], ends_at) {
            Ok(()) => {},
            Err(e) => return Err(e),
        }
        position = position + 1;
    }
    parser.end_slice(data.len() * 8);
    Ok(parser.pictures)
}

/// The description of the first picture from byte `at` on that a sequence header
/// covers, where `sequence` and `extension` are in effect.
pub open spec fn first_description(
    data: Seq<u8>,
    at: int,
    sequence: Option<SequenceHeader>,
    extension: Option<SequenceExtension>,
) -> Option<SequenceDescription>
    decreases data.len() - at,
{
    if at < 0 || at + 3 >= data.len() {
        None
    } else if !bitreader::is_start_code(data, at) {
        first_description(data, at + 1, sequence, extension)
    } else {
        let code = data[at + 3];
        let pos = bits::advance(data, 0, (8 * (at + 4)) as nat);
        if code == start_code::SEQUENCE_HEADER {
            match syntax::sequence_header_at(data, pos).1 {
                Ok((header, _)) => first_description(data, at + 3, Some(header), None),
                Err(_) => None,
            }
        } else if code == start_code::EXTENSION && bits::bits(data, pos as int, 4)
            == extension::SEQUENCE && sequence is Some {
            match syntax::sequence_extension_at(data, bits::advance(data, pos, 4), sequence->Some_0) {
                Ok((header, ext)) => first_description(data, at + 3, Some(header), Some(ext)),
                Err(_) => None,
            }
        } else if code == start_code::PICTURE && sequence is Some {
            Some(description_of(sequence->Some_0, extension))
        } else {
            first_description(data, at + 3, sequence, extension)
        }
    }
}

/// The description the first picture of `data` is coded under, read from the
/// headers standing in front of it and nothing else.
///
/// This is [`picture_sequence_description`] of what [`parse_elementary_stream`]
/// would return first, reached without parsing the unit: whoever is packaging a
/// unit has to know whether it is described by what went out already *before*
/// the unit is planned, because the answer decides whether the unit opens at a
/// random access point and that is an input to the plan. It stops at the first
/// picture, which in a unit is a few hundred bytes in.
///
/// `None` when the data holds no picture that a sequence header describes,
/// which is a unit nothing can be said about and which is left to the parse.
pub fn stream_sequence_description(data: &[u8]) -> (description: Option<SequenceDescription>)
    requires
        8 * data@.len() <= usize::MAX,
    ensures
        description == first_description(data@, 0, None, None),
{
    let mut sequence: Option<SequenceHeader> = None;
    let mut sequence_ext: Option<SequenceExtension> = None;
    let mut at: usize = 0;
    while at < data.len() && data.len() - at > 3
        invariant
            8 * data@.len() <= usize::MAX,
            at <= data@.len(),
            sequence is Some ==> sequence->Some_0.wf(),
            first_description(data@, at as int, sequence, sequence_ext) == first_description(
                data@,
                0,
                None,
                None,
            ),
        decreases data@.len() - at,
    {
        if data[at] != 0 || data[at + 1] != 0 || data[at + 2] != 1 {
            at = at + 1;
            continue;
        }
        let code: u8 = data[at + 3];
        let mut r = BitReader::at_bit(data, (at + 4) * 8);
        if code == start_code::SEQUENCE_HEADER {
            match read_sequence_header(&mut r) {
                Ok((header, _)) => {
                    sequence = Some(header);
                    sequence_ext = None;
                },
                Err(_) => return None,
            }
        } else if code == start_code::EXTENSION {
            if r.u(4) == extension::SEQUENCE {
                if let Some(header) = sequence {
                    match read_sequence_extension(&mut r, &header) {
                        Ok((header, extension)) => {
                            sequence = Some(header);
                            sequence_ext = Some(extension);
                        },
                        Err(_) => return None,
                    }
                }
            }
        } else if code == start_code::PICTURE {
            // Pictures no sequence header describes are discarded by the parse
            // rather than ending it, so this walk passes over them too: the
            // first picture that counts is the first one a header covers, and
            // the two have to agree on which that is.
            if let Some(sequence) = sequence {
                return Some(
                    SequenceDescription {
                        width: sequence.horizontal_size,
                        height: sequence.vertical_size,
                        mbaff: match sequence_ext {
                            Some(extension) => !extension.progressive_sequence,
                            None => false,
                        },
                        centered_chroma: sequence_ext.is_none(),
                        sample_aspect_ratio: source_sample_aspect_ratio(
                            &sequence,
                            sequence_ext.is_none(),
                        ),
                    },
                );
            }
        }
        // Nothing shorter than the code byte can begin another start code.
        at = at + 3;
    }
    None
}

/// Two pictures coded under the same sequence-level headers.
spec fn same_sequence(a: PictureView, b: PictureView) -> bool {
    a.is_mpeg1 == b.is_mpeg1 && a.sequence == b.sequence && a.sequence_ext == b.sequence_ext
}

/// A picture once recorded keeps its sequence headers over one more header.
proof fn lemma_step_keeps_first(data: Seq<u8>, code: StartCode, ends_at: int, state: ParseState)
    requires
        state.pictures.len() > 0,
    ensures
        match parse_step(data, code, ends_at, state) {
            Ok(next) => next.pictures.len() > 0 && same_sequence(
                next.pictures[0],
                state.pictures[0],
            ),
            Err(_) => true,
        },
{
    reveal(slice_ended);
    reveal(extension_step);
    reveal(picture_step);
    let ended = slice_ended(state.pictures, (8 * code.offset) as usize);
    assert(ended.len() == state.pictures.len());
    assert(same_sequence(ended[0], state.pictures[0]));
}

/// A picture once recorded keeps its sequence headers while the parse goes on.
proof fn lemma_first_kept(data: Seq<u8>, codes: Seq<StartCode>, k: int, state: ParseState)
    requires
        0 <= k,
        state.pictures.len() > 0,
    ensures
        match parse_codes(data, codes, k, state) {
            Ok(pictures) => pictures.len() > 0 && same_sequence(
                pictures[0],
                state.pictures[0],
            ),
            Err(_) => true,
        },
    decreases codes.len() - k,
{
    if k < codes.len() {
        lemma_step_keeps_first(data, codes[k], header_end(data, codes, k), state);
        match parse_step(data, codes[k], header_end(data, codes, k), state) {
            Ok(next) => {
                lemma_first_kept(data, codes, k + 1, next);
            },
            Err(_) => {},
        }
    } else {
        reveal(slice_ended);
    }
}

/// The walk over the headers alone and the parse agree from byte `at` on.
proof fn lemma_descriptions_agree(
    data: Seq<u8>,
    at: int,
    codes: Seq<StartCode>,
    k: int,
    state: ParseState,
)
    requires
        0 <= at,
        0 <= k <= codes.len(),
        8 * data.len() <= usize::MAX,
        codes.skip(k) == bitreader::start_codes(data, at),
        state.pictures.len() == 0,
    ensures
        match parse_codes(data, codes, k, state) {
            Ok(pictures) => first_description(data, at, state.sequence, state.extension)
                == if pictures.len() > 0 {
                Some(picture_description(pictures[0]))
            } else {
                None
            },
            Err(_) => true,
        },
    decreases data.len() - at,
{
    let rest = bitreader::start_codes(data, at);
    assert(codes.skip(k).len() == codes.len() - k);
    assert(slice_ended(state.pictures, (8 * data.len()) as usize) == state.pictures) by {
        reveal(slice_ended);
    }
    if at + 3 < data.len() {
        if !bitreader::is_start_code(data, at) {
            lemma_descriptions_agree(data, at + 1, codes, k, state);
        } else {
            let code = StartCode {
                offset: at as usize,
                code: data[at + 3],
                payload_offset: (at + 4) as usize,
            };
            assert(rest[0] == code);
            assert(codes[k] == codes.skip(k)[0]);
            assert(codes[k] == code);
            assert(codes.skip(k + 1) =~= rest.skip(1)) by {
                assert(codes.skip(k).skip(1) =~= codes.skip(k + 1));
            }
            assert(rest.skip(1) =~= bitreader::start_codes(data, at + 3));
            reveal(slice_ended);
            reveal(extension_step);
            reveal(picture_step);
            match parse_step(data, code, header_end(data, codes, k), state) {
                Ok(next) => {
                    if next.pictures.len() == 0 {
                        lemma_descriptions_agree(data, at + 3, codes, k + 1, next);
                    } else {
                        lemma_first_kept(data, codes, k + 1, next);
                    }
                },
                Err(_) => {},
            }
        }
    }
}

/// Reading the headers alone says of a stream what parsing it says of its first
/// picture: the same description where there is a picture, nothing where there is
/// none.
pub proof fn law_stream_description_is_first_pictures(data: Seq<u8>)
    requires
        8 * data.len() <= usize::MAX,
        parsed(data) is Ok,
    ensures
        first_description(data, 0, None, None) == if parsed(data)->Ok_0.len() > 0 {
            Some(picture_description(parsed(data)->Ok_0[0]))
        } else {
            None
        },
{
    let codes = bitreader::start_codes(data, 0);
    assert(codes.skip(0) =~= codes);
    lemma_descriptions_agree(data, 0, codes, 0, ParseState::initial());
}

/// Where the last slice of a picture ends, in bits.
pub open spec fn last_slice_end(picture: PictureView) -> Option<usize> {
    if picture.slices.len() == 0 {
        None
    } else {
        picture.slices.last().data_end_bit
    }
}

/// The slices of the pictures end in the order of the pictures, the last of them
/// at bit `limit` or before. Only the last picture's may not have ended yet.
pub open spec fn ends_in_order(pictures: Seq<PictureView>, limit: int) -> bool {
    &&& forall|i: int|
        0 <= i < pictures.len() - 1 && (#[trigger] pictures[i]).slices.len() > 0 ==> last_slice_end(
            pictures[i],
        ) is Some
    &&& forall|i: int|
        0 <= i < pictures.len() && last_slice_end(#[trigger] pictures[i]) is Some
            ==> last_slice_end(pictures[i])->Some_0 <= limit
    &&& forall|i: int, j: int|
        0 <= i < j < pictures.len() && last_slice_end(#[trigger] pictures[i]) is Some
            && last_slice_end(#[trigger] pictures[j]) is Some ==> last_slice_end(
            pictures[i],
        )->Some_0 <= last_slice_end(pictures[j])->Some_0
}

/// The sequence-level headers of every picture are a range of the data.
pub open spec fn contexts_in_range(pictures: Seq<PictureView>, len: int) -> bool {
    forall|i: int|
        0 <= i < pictures.len() ==> 0 <= (#[trigger] pictures[i]).context_start
            <= pictures[i].context_end <= len
}

/// The pictures of a finished parse: their slices have all ended, in the order of
/// the pictures and inside the data, and so do their headers.
pub open spec fn laid_out(pictures: Seq<PictureView>, len: int) -> bool {
    &&& ends_in_order(pictures, 8 * len)
    &&& contexts_in_range(pictures, len)
    &&& forall|i: int|
        0 <= i < pictures.len() && (#[trigger] pictures[i]).slices.len() > 0 ==> last_slice_end(
            pictures[i],
        ) is Some
}

/// Ending the open slice behind all others keeps the order.
proof fn lemma_slice_ended_in_order(pictures: Seq<PictureView>, end: usize)
    requires
        ends_in_order(pictures, end as int),
    ensures
        ends_in_order(slice_ended(pictures, end), end as int),
        slice_ended(pictures, end).len() == pictures.len(),
        forall|i: int|
            0 <= i < pictures.len() && (#[trigger] slice_ended(pictures, end)[i]).slices.len() > 0
                ==> last_slice_end(slice_ended(pictures, end)[i]) is Some,
        forall|i: int|
            0 <= i < pictures.len() ==> {
                let p = #[trigger] slice_ended(pictures, end)[i];
                &&& p.context_start == pictures[i].context_start
                &&& p.context_end == pictures[i].context_end
            },
{
    reveal(slice_ended);
    let ended = slice_ended(pictures, end);
    if pictures.len() > 0 {
        let last = pictures.len() - 1;
        assert(forall|i: int| 0 <= i < last ==> ended[i] == pictures[i]);
        assert(last_slice_end(ended[last]) is Some ==> (last_slice_end(ended[last])->Some_0 == end
            || last_slice_end(ended[last]) == last_slice_end(pictures[last])));
    }
}

/// One more header keeps the pictures in order.
proof fn lemma_step_in_order(data: Seq<u8>, code: StartCode, ends_at: int, state: ParseState)
    requires
        8 * code.offset <= usize::MAX,
        code.offset <= ends_at <= data.len(),
        ends_in_order(state.pictures, 8 * code.offset),
        contexts_in_range(state.pictures, data.len() as int),
        0 <= state.context_start <= state.context_end <= code.offset,
    ensures
        match parse_step(data, code, ends_at, state) {
            Ok(next) => ends_in_order(next.pictures, 8 * code.offset) && contexts_in_range(
                next.pictures,
                data.len() as int,
            ) && 0 <= next.context_start <= next.context_end <= ends_at,
            Err(_) => true,
        },
{
    let end = (8 * code.offset) as usize;
    lemma_slice_ended_in_order(state.pictures, end);
    let ended = slice_ended(state.pictures, end);
    assert(contexts_in_range(ended, data.len() as int));
    let before = ParseState { pictures: ended, ..state };
    let pos = bits::advance(data, 0, (8 * code.payload_offset) as nat);
    match parse_step(data, code, ends_at, state) {
        Ok(next) => {
            if code.code == start_code::EXTENSION {
                reveal(extension_step);
                if next.pictures != ended {
                    let last = ended.len() - 1;
                    assert(next.pictures.len() == ended.len());
                    assert(forall|i: int| 0 <= i < last ==> next.pictures[i] == ended[i]);
                    assert(next.pictures[last].slices == ended[last].slices);
                    assert(next.pictures[last].context_start == ended[last].context_start);
                    assert(next.pictures[last].context_end == ended[last].context_end);
                    lemma_same_ends(ended, next.pictures, 8 * code.offset);
                }
            } else if code.code == start_code::PICTURE {
                reveal(picture_step);
                if next.pictures != ended {
                    assert(next.pictures.len() == ended.len() + 1);
                    assert(forall|i: int| 0 <= i < ended.len() ==> next.pictures[i] == ended[i]);
                }
            } else if next.pictures != ended {
                let last = ended.len() - 1;
                assert(next.pictures.len() == ended.len());
                assert(forall|i: int| 0 <= i < last ==> next.pictures[i] == ended[i]);
                assert(next.pictures[last].context_start == ended[last].context_start);
                assert(next.pictures[last].context_end == ended[last].context_end);
                assert(last_slice_end(next.pictures[last]) is None) by {
                    reveal(syntax::slice_at);
                }
            }
        },
        Err(_) => {},
    }
}

/// Pictures with the same slices end alike.
proof fn lemma_same_ends(a: Seq<PictureView>, b: Seq<PictureView>, limit: int)
    requires
        a.len() == b.len(),
        forall|i: int| 0 <= i < a.len() ==> (#[trigger] b[i]).slices == a[i].slices,
        ends_in_order(a, limit),
    ensures
        ends_in_order(b, limit),
{
    assert(forall|i: int|
        0 <= i < a.len() ==> last_slice_end(#[trigger] b[i]) == last_slice_end(a[i]));
}

/// Start codes stand in increasing order.
pub proof fn lemma_start_codes_increase(data: Seq<u8>, at: int)
    requires
        0 <= at,
        data.len() <= usize::MAX,
    ensures
        forall|i: int, j: int|
            0 <= i < j < bitreader::start_codes(data, at).len() ==> (
            #[trigger] bitreader::start_codes(data, at)[i]).offset < (
            #[trigger] bitreader::start_codes(data, at)[j]).offset,
    decreases data.len() - at,
{
    if at + 3 < data.len() {
        if bitreader::is_start_code(data, at) {
            lemma_start_codes_increase(data, at + 3);
            lemma_start_codes_inside(data, at + 3);
            let rest = bitreader::start_codes(data, at + 3);
            let all = bitreader::start_codes(data, at);
            assert forall|i: int, j: int| 0 <= i < j < all.len() implies (#[trigger] all[i]).offset
                < (#[trigger] all[j]).offset by {
                assert(all[j] == rest[j - 1]);
                if i > 0 {
                    assert(all[i] == rest[i - 1]);
                }
            }
        } else {
            lemma_start_codes_increase(data, at + 1);
            assert(bitreader::start_codes(data, at) == bitreader::start_codes(data, at + 1));
        }
    } else {
        assert(bitreader::start_codes(data, at).len() == 0);
    }
}

proof fn lemma_parse_in_order(data: Seq<u8>, k: int, state: ParseState)
    requires
        8 * data.len() <= usize::MAX,
        0 <= k <= bitreader::start_codes(data, 0).len(),
        ({
            let codes = bitreader::start_codes(data, 0);
            let limit = if k < codes.len() {
                codes[k].offset as int
            } else {
                data.len() as int
            };
            &&& ends_in_order(state.pictures, 8 * limit)
            &&& 0 <= state.context_start <= state.context_end <= limit
        }),
        contexts_in_range(state.pictures, data.len() as int),
    ensures
        match parse_codes(data, bitreader::start_codes(data, 0), k, state) {
            Ok(pictures) => laid_out(pictures, data.len() as int),
            Err(_) => true,
        },
    decreases bitreader::start_codes(data, 0).len() - k,
{
    let codes = bitreader::start_codes(data, 0);
    lemma_start_codes_inside(data, 0);
    lemma_start_codes_increase(data, 0);
    if k < codes.len() {
        let ends_at = header_end(data, codes, k);
        assert(codes[k].payload_offset <= data.len());
        if k + 1 < codes.len() {
            assert(codes[k].offset < codes[k + 1].offset);
            assert(codes[k + 1].payload_offset <= data.len());
        }
        lemma_step_in_order(data, codes[k], ends_at, state);
        match parse_step(data, codes[k], ends_at, state) {
            Ok(next) => {
                lemma_parse_in_order(data, k + 1, next);
            },
            Err(_) => {},
        }
    } else {
        lemma_slice_ended_in_order(state.pictures, (8 * data.len()) as usize);
    }
}

/// A parse lays its pictures out in the order they stand in the data.
pub proof fn law_parse_lays_out_in_order(data: Seq<u8>)
    requires
        8 * data.len() <= usize::MAX,
        parsed(data) is Ok,
    ensures
        laid_out(parsed(data)->Ok_0, data.len() as int),
{
    lemma_parse_in_order(data, 0, ParseState::initial());
}

} // verus!
