//! H.264 sequence and picture parameter sets.
//!
//! Several fields here are load-bearing for the conversion rather than free
//! choices, and are called out at their definitions:
//!
//! - High profile, because only it has the 8x8 transform and scaling lists that
//!   let MPEG-2 coefficients pass through.
//! - `weighted_pred_flag = 1` and `weighted_bipred_idc = 1`, which is how intra
//!   macroblocks reach a flat prediction without a manufactured reference
//!   picture. See [`crate::h264::slice`]; the weights every other reference
//!   index gets leave bi-prediction at the plain `(P0 + P1 + 1) >> 1` average,
//!   which is exactly MPEG-2's half-sample filter.
//! - `deblocking_filter_control_present_flag = 1`, so slices can switch the loop
//!   filter off. MPEG-2 has no in-loop filter, so leaving it on would alter
//!   every reconstructed picture.
use crate::h264::bitwriter;
use crate::h264::bitwriter::{nal_type, BitWriter};
use crate::h264::nal;
use crate::h264::nal::to_nal_unit;
use crate::mpeg2::headers::SampleAspectRatio;
use vstd::prelude::*;

verus! {

/// H.264's 8x8 zig-zag scan (Table 8-13), used to serialise scaling lists.
pub const ZIGZAG_8X8: [usize; 64] = [
    0, 1, 8, 16, 9, 2, 3, 10, 17, 24, 32, 25, 18, 11, 4, 5,
    12, 19, 26, 33, 40, 48, 41, 34, 27, 20, 13, 6, 7, 14, 21, 28,
    35, 42, 49, 56, 57, 50, 43, 36, 29, 22, 15, 23, 30, 37, 44, 51,
    58, 59, 52, 45, 38, 31, 39, 46, 53, 60, 61, 54, 47, 55, 62, 63,
];

/// H.264's 4x4 zig-zag scan, used to serialise the 4x4 scaling lists.
pub const ZIGZAG_4X4: [usize; 16] = [0, 1, 4, 8, 5, 2, 3, 6, 9, 12, 13, 10, 7, 11, 14, 15];

/// Flat weights, i.e. no frequency-dependent weighting at all.
pub const FLAT_4X4: [i32; 16] = [16, 16, 16, 16, 16, 16, 16, 16, 16, 16, 16, 16, 16, 16, 16, 16];

pub struct SpsConfig {
    /// Luma width in samples, before cropping.
    pub width: u32,
    pub height: u32,
    /// `level_idc`, e.g. 51 for level 5.1. This has to cover the bit rate and
    /// the access unit sizes, not just the frame size.
    pub level_idc: u32,
    /// False when the source is interlaced. MPEG-2 frame pictures mix frame-DCT
    /// and field-DCT macroblocks, which only macroblock-adaptive frame/field
    /// coding can represent, so interlaced sources need MBAFF.
    pub frame_mbs_only: bool,
    /// Size of the decoded picture buffer to request.
    pub max_num_ref_frames: u32,
    pub log2_max_frame_num_minus4: u32,
    pub log2_max_poc_lsb_minus4: u32,
    /// How many pictures may precede a picture in decoding order yet follow it
    /// in output order. Without this a decoder has no reason to hold pictures
    /// back and emits them in decoding order, which for a source with B pictures
    /// is not display order.
    pub max_num_reorder_frames: Option<u32>,
    /// Frames the decoder must be able to hold, at least `max_num_reorder_frames`.
    pub max_dec_frame_buffering: Option<u32>,
    /// Pixel width:height ratio carried in VUI.
    pub sample_aspect_ratio: Option<SampleAspectRatio>,
    /// Preserve MPEG-1 centered 4:2:0 chroma; false keeps MPEG-2 left siting.
    pub centered_chroma: bool,
}

pub struct PpsConfig<'a> {
    /// Initial QP, carried as `pic_init_qp_minus26`.
    pub init_qp: i32,
    /// The 8x8 luma scaling lists, in raster order, or `None` to leave the flat
    /// default in place. This is where the MPEG-2 quantiser matrices are
    /// carried: H.264's `normAdjust8x8` already performs the transform's
    /// basis-norm compensation, so `weightScale8x8` is a pure quantiser weight,
    /// the same role MPEG-2's W plays.
    pub scaling_8x8_intra: Option<&'a [i32; 64]>,
    pub scaling_8x8_inter: Option<&'a [i32; 64]>,
    /// Shifts chroma QP relative to luma, -12..12. Chroma otherwise inherits the
    /// luma QP through Table 8-15 with no way to refine it, and its path carries
    /// more rounding than luma's -- notably the 2x2 DC Hadamard, which is
    /// orthogonal but not orthonormal, so a half-step rounding of a DC level can
    /// reach four times that in the reconstructed value.
    pub chroma_qp_index_offset: i32,
}

/// Macroblock dimensions and the cropping needed to reach the coded size.
#[derive(Clone, Copy, Debug, PartialEq, Eq, Structural)]
pub struct FrameGeometry {
    pub mb_width: usize,
    pub mb_height: usize,
    pub map_units: usize,
    pub crop_right: u32,
    pub crop_bottom: u32,
    pub crop_unit_x: u32,
    pub crop_unit_y: u32,
}

/// The macroblocks it takes to cover `size` samples.
pub open spec fn macroblocks(size: u32) -> int {
    (size + 15) / 16
}

/// The geometry of frames of a size.
pub open spec fn geometry(width: u32, height: u32, frame_mbs_only: bool) -> FrameGeometry {
    // 4:2:0 crops in chroma units; vertically those double again when a picture
    // is not frame-only (clause 7.4.2.1.1).
    let unit_y: int = if frame_mbs_only {
        2
    } else {
        4
    };
    FrameGeometry {
        mb_width: macroblocks(width) as usize,
        mb_height: macroblocks(height) as usize,
        // With MBAFF or field coding, a map unit is a macroblock pair.
        map_units: if frame_mbs_only {
            macroblocks(height) as usize
        } else {
            (macroblocks(height) / 2) as usize
        },
        crop_right: ((16 * macroblocks(width) - width) / 2) as u32,
        crop_bottom: ((16 * macroblocks(height) - height) / unit_y) as u32,
        crop_unit_x: 2,
        crop_unit_y: unit_y as u32,
    }
}

pub fn frame_geometry(width: u32, height: u32, frame_mbs_only: bool) -> (g: FrameGeometry)
    requires
        width + 15 <= u32::MAX,
        height + 15 <= u32::MAX,
    ensures
        g == geometry(width, height, frame_mbs_only),
{
    let mb_width: u32 = (width + 15) / 16;
    let mb_height: u32 = (height + 15) / 16;
    // With MBAFF or field coding, a map unit is a macroblock pair.
    let map_units: u32 = if frame_mbs_only {
        mb_height
    } else {
        mb_height / 2
    };
    // 4:2:0 crops in chroma units; vertically those double again when a picture
    // is not frame-only (clause 7.4.2.1.1).
    let crop_unit_x: u32 = 2;
    let crop_unit_y: u32 = if frame_mbs_only {
        2
    } else {
        4
    };
    let crop_right: u32 = (mb_width * 16 - width) / crop_unit_x;
    let crop_bottom: u32 = (mb_height * 16 - height) / crop_unit_y;
    FrameGeometry {
        mb_width: mb_width as usize,
        mb_height: mb_height as usize,
        map_units: map_units as usize,
        crop_right,
        crop_bottom,
        crop_unit_x,
        crop_unit_y,
    }
}

/// What the cropping leaves of the coded macroblocks is the picture, wherever its
/// size is a whole number of cropping units.
pub proof fn law_cropping_leaves_the_picture(width: u32, height: u32, frame_mbs_only: bool)
    requires
        width + 15 <= u32::MAX,
        height + 15 <= u32::MAX,
        width % 2 == 0,
        height % (if frame_mbs_only {
            2u32
        } else {
            4u32
        }) == 0,
    ensures
        ({
            let g = geometry(width, height, frame_mbs_only);
            &&& 16 * g.mb_width - g.crop_unit_x * g.crop_right == width
            &&& 16 * g.mb_height - g.crop_unit_y * g.crop_bottom == height
        }),
{
    let g = geometry(width, height, frame_mbs_only);
    let unit: int = if frame_mbs_only {
        2
    } else {
        4
    };
    assert(g.crop_unit_x * g.crop_right == 2 * g.crop_right) by (nonlinear_arith)
        requires
            g.crop_unit_x == 2,
    ;
    assert(g.crop_unit_y * g.crop_bottom == unit * g.crop_bottom) by (nonlinear_arith)
        requires
            g.crop_unit_y == unit,
    ;
    if frame_mbs_only {
        assert(2 * g.crop_bottom == 16 * macroblocks(height) - height);
    } else {
        assert(4 * g.crop_bottom == 16 * macroblocks(height) - height);
    }
}

/// The difference that turns one scaling value into the next, in the range of the
/// syntax.
pub open spec fn scaling_delta(last: int, next: int) -> int {
    let delta = next - last;
    if delta > 127 {
        delta - 256
    } else if delta < -128 {
        delta + 256
    } else {
        delta
    }
}

/// The scan of a scaling list.
pub open spec fn scaling_scan(len: nat) -> Seq<usize> {
    if len == 16 {
        ZIGZAG_4X4@
    } else {
        ZIGZAG_8X8@
    }
}

/// The first `count` values of a scaling list, each coded by its difference from
/// the one before it.
pub open spec fn scaling_list_bits(list: Seq<i32>, count: nat) -> Seq<bool>
    decreases count,
{
    if count == 0 {
        Seq::empty()
    } else {
        let scan = scaling_scan(list.len());
        let last = if count == 1 {
            8
        } else {
            list[scan[count - 2] as int] as int
        };
        scaling_list_bits(list, (count - 1) as nat) + bitwriter::se_code(
            scaling_delta(last, list[scan[count - 1] as int] as int),
        )
    }
}

/// A scaling list that the syntax can carry: zero would mean to repeat the value
/// before it.
pub open spec fn is_scaling_list(list: Seq<i32>) -> bool {
    forall|i: int| 0 <= i < list.len() ==> 1 <= #[trigger] list[i] <= 255
}

/// Every entry of the scans is a position of its block.
pub proof fn lemma_scan_in_range(len: nat)
    requires
        len == 16 || len == 64,
    ensures
        scaling_scan(len).len() == len,
        forall|i: int| 0 <= i < len ==> 0 <= #[trigger] scaling_scan(len)[i] < len,
{
}

/// Serialise one scaling list. The syntax codes successive differences, and the
/// decoder treats a next value of zero as "hold the previous one for the rest of
/// the list" -- harmless here because scaling weights are always 1..255.
fn write_scaling_list(w: &mut BitWriter, list_raster: &[i32])
    requires
        old(w).wf(),
        list_raster@.len() == 16 || list_raster@.len() == 64,
        is_scaling_list(list_raster@),
    ensures
        final(w).wf(),
        final(w)@ == old(w)@ + scaling_list_bits(list_raster@, list_raster@.len()),
{
    let len: usize = list_raster.len();
    let mut last_scale: i32 = 8;
    let mut j: usize = 0;
    assert(w@ =~= old(w)@ + scaling_list_bits(list_raster@, 0));
    while j < len
        invariant
            len == list_raster@.len(),
            len == 16 || len == 64,
            is_scaling_list(list_raster@),
            j <= len,
            w.wf(),
            w@ == old(w)@ + scaling_list_bits(list_raster@, j as nat),
            1 <= last_scale <= 255,
            last_scale == if j == 0 {
                8
            } else {
                list_raster@[scaling_scan(len as nat)[j - 1] as int]
            },
        decreases len - j,
    {
        proof {
            lemma_scan_in_range(len as nat);
            assert(0 <= scaling_scan(len as nat)[j as int] < len);
        }
        let at: usize = if len == 16 {
            ZIGZAG_4X4[j]
        } else {
            ZIGZAG_8X8[j]
        };
        let next_scale: i32 = list_raster[at];
        let mut delta: i32 = next_scale - last_scale;
        if delta > 127 {
            delta = delta - 256;
        } else if delta < -128 {
            delta = delta + 256;
        }
        w.se(delta);
        j = j + 1;
        assert(w@ =~= old(w)@ + scaling_list_bits(list_raster@, j as nat));
        last_scale = next_scale;
    }
}

/// The SPS syntax up to the picture size (clause 7.3.2.1.1).
#[verifier::opaque]
pub open spec fn sps_profile_bits(cfg: SpsConfig) -> Seq<bool> {
    Seq::<bool>::empty() + bitwriter::digits(100, 8)  // profile_idc: High
         + bitwriter::bit(false)  // constraint_set0_flag
         + bitwriter::bit(false)  // constraint_set1_flag
         + bitwriter::bit(false)  // constraint_set2_flag
         + bitwriter::bit(false)  // constraint_set3_flag
         + bitwriter::bit(false)  // constraint_set4_flag
         + bitwriter::bit(false)  // constraint_set5_flag
         + bitwriter::digits(0, 2)  // reserved_zero_2bits
         + bitwriter::digits(cfg.level_idc as nat, 8) + bitwriter::ue_code(0)  // seq_parameter_set_id
         + bitwriter::ue_code(1)  // chroma_format_idc: 4:2:0
         + bitwriter::ue_code(0)  // bit_depth_luma_minus8
         + bitwriter::ue_code(0)  // bit_depth_chroma_minus8
         + bitwriter::bit(false)  // qpprime_y_zero_transform_bypass_flag
         + bitwriter::bit(false)  // seq_scaling_matrix_present_flag
         + bitwriter::ue_code(cfg.log2_max_frame_num_minus4 as nat) + bitwriter::ue_code(0)  // pic_order_cnt_type
         + bitwriter::ue_code(cfg.log2_max_poc_lsb_minus4 as nat) + bitwriter::ue_code(
        cfg.max_num_ref_frames as nat,
    ) + bitwriter::bit(false)  // gaps_in_frame_num_value_allowed_flag

}

/// `bits` with the picture size and the cropping behind them.
#[verifier::opaque]
pub open spec fn with_sps_size(bits: Seq<bool>, cfg: SpsConfig) -> Seq<bool> {
    let g = geometry(cfg.width, cfg.height, cfg.frame_mbs_only);
    let b1 = bits + bitwriter::ue_code((g.mb_width - 1) as nat) + bitwriter::ue_code(
        (g.map_units - 1) as nat,
    ) + bitwriter::bit(cfg.frame_mbs_only);
    let b2 = if cfg.frame_mbs_only {
        b1
    } else {
        b1 + bitwriter::bit(true)  // mb_adaptive_frame_field_flag

    };
    let cropping = g.crop_right > 0 || g.crop_bottom > 0;
    let b3 = b2 + bitwriter::bit(true)  // direct_8x8_inference_flag
     + bitwriter::bit(cropping);
    if cropping {
        b3 + bitwriter::ue_code(0) + bitwriter::ue_code(g.crop_right as nat) + bitwriter::ue_code(
            0,
        ) + bitwriter::ue_code(g.crop_bottom as nat)
    } else {
        b3
    }
}

/// The frames a decoder is told to hold.
pub open spec fn frame_buffering(cfg: SpsConfig, reorder: u32) -> u32 {
    match cfg.max_dec_frame_buffering {
        Some(frames) => frames,
        None => if reorder > cfg.max_num_ref_frames {
            reorder
        } else {
            cfg.max_num_ref_frames
        },
    }
}

/// `bits` with the video usability information behind them, where there is any.
#[verifier::opaque]
pub open spec fn with_vui(bits: Seq<bool>, cfg: SpsConfig) -> Seq<bool> {
    let reorder = cfg.max_num_reorder_frames;
    let sar = cfg.sample_aspect_ratio;
    let vui = reorder is Some || sar is Some || cfg.centered_chroma;
    let b1 = bits + bitwriter::bit(vui);  // vui_parameters_present_flag
    if !vui {
        b1
    } else {
        let b2 = b1 + bitwriter::bit(sar is Some);  // aspect_ratio_info_present_flag
        let b3 = match sar {
            Some(ratio) => b2 + bitwriter::digits(255, 8)  // aspect_ratio_idc: Extended_SAR
             + bitwriter::digits(ratio.width as nat, 16) + bitwriter::digits(
                ratio.height as nat,
                16,
            ),
            None => b2,
        };
        let b4 = b3 + bitwriter::bit(false)  // overscan_info_present_flag
         + bitwriter::bit(false)  // video_signal_type_present_flag
         + bitwriter::bit(cfg.centered_chroma);  // chroma_loc_info_present_flag
        let b5 = if cfg.centered_chroma {
            b4 + bitwriter::ue_code(1) + bitwriter::ue_code(1)  // both fields: center

        } else {
            b4
        };
        let b6 = b5 + bitwriter::bit(false)  // timing_info_present_flag
         + bitwriter::bit(false)  // nal_hrd_parameters_present_flag
         + bitwriter::bit(false)  // vcl_hrd_parameters_present_flag
         + bitwriter::bit(false)  // pic_struct_present_flag
         + bitwriter::bit(reorder is Some);  // bitstream_restriction_flag
        match reorder {
            Some(reorder) => b6 + bitwriter::bit(true)  // motion_vectors_over_pic_boundaries_flag
             + bitwriter::ue_code(0)  // max_bytes_per_pic_denom: unconstrained
             + bitwriter::ue_code(0)  // max_bits_per_mb_denom: unconstrained
             + bitwriter::ue_code(16)  // log2_max_mv_length_horizontal
             + bitwriter::ue_code(16)  // log2_max_mv_length_vertical
             + bitwriter::ue_code(reorder as nat) + bitwriter::ue_code(
                frame_buffering(cfg, reorder) as nat,
            ),
            None => b6,
        }
    }
}

/// The bits of a sequence parameter set.
pub open spec fn sps_bits(cfg: SpsConfig) -> Seq<bool> {
    with_vui(with_sps_size(sps_profile_bits(cfg), cfg), cfg)
}

/// A bit string closed as an RBSP.
pub open spec fn closed_rbsp(bits: Seq<bool>) -> Seq<u8> {
    bitwriter::packed(bits + bitwriter::trailing(bits.len()))
}

impl SpsConfig {
    /// There is a picture to describe, and every number has a code.
    pub open spec fn wf(self) -> bool {
        &&& 1 <= self.width <= u32::MAX - 15
        &&& self.height <= u32::MAX - 15
        &&& geometry(self.width, self.height, self.frame_mbs_only).map_units >= 1
        &&& self.log2_max_frame_num_minus4 < u32::MAX
        &&& self.log2_max_poc_lsb_minus4 < u32::MAX
        &&& self.max_num_ref_frames < u32::MAX
        &&& self.max_num_reorder_frames is Some ==> self.max_num_reorder_frames->Some_0 < u32::MAX
        &&& self.max_dec_frame_buffering is Some ==> self.max_dec_frame_buffering->Some_0 < u32::MAX
    }
}

fn write_sps_size(w: &mut BitWriter, cfg: &SpsConfig)
    requires
        old(w).wf(),
        cfg.wf(),
    ensures
        final(w).wf(),
        final(w)@ == with_sps_size(old(w)@, *cfg),
{
    proof {
        reveal(with_sps_size);
    }
    let g = frame_geometry(cfg.width, cfg.height, cfg.frame_mbs_only);
    w.ue(g.mb_width as u32 - 1);
    w.ue(g.map_units as u32 - 1);
    w.flag(cfg.frame_mbs_only);
    if !cfg.frame_mbs_only {
        w.flag(true);  // mb_adaptive_frame_field_flag
    }
    w.flag(true);  // direct_8x8_inference_flag
    let cropping: bool = g.crop_right > 0 || g.crop_bottom > 0;
    w.flag(cropping);
    if cropping {
        w.ue(0);  // frame_crop_left_offset
        w.ue(g.crop_right);
        w.ue(0);  // frame_crop_top_offset
        w.ue(g.crop_bottom);
    }
}

fn write_vui(w: &mut BitWriter, cfg: &SpsConfig)
    requires
        old(w).wf(),
        cfg.wf(),
    ensures
        final(w).wf(),
        final(w)@ == with_vui(old(w)@, *cfg),
{
    proof {
        reveal(with_vui);
    }
    let reorder = cfg.max_num_reorder_frames;
    let sar = cfg.sample_aspect_ratio;
    let vui: bool = reorder.is_some() || sar.is_some() || cfg.centered_chroma;
    w.flag(vui);  // vui_parameters_present_flag
    if vui {
        w.flag(sar.is_some());  // aspect_ratio_info_present_flag
        if let Some(sar) = sar {
            w.u(8, 255);  // aspect_ratio_idc: Extended_SAR
            w.u(16, sar.width);
            w.u(16, sar.height);
        }
        w.flag(false);  // overscan_info_present_flag
        w.flag(false);  // video_signal_type_present_flag
        w.flag(cfg.centered_chroma);  // chroma_loc_info_present_flag
        if cfg.centered_chroma {
            w.ue(1);  // chroma_sample_loc_type_top_field: center
            w.ue(1);  // chroma_sample_loc_type_bottom_field: center
        }
        w.flag(false);  // timing_info_present_flag
        w.flag(false);  // nal_hrd_parameters_present_flag
        w.flag(false);  // vcl_hrd_parameters_present_flag
        w.flag(false);  // pic_struct_present_flag
        w.flag(reorder.is_some());  // bitstream_restriction_flag
        if let Some(reorder) = reorder {
            w.flag(true);  // motion_vectors_over_pic_boundaries_flag
            w.ue(0);  // max_bytes_per_pic_denom: unconstrained
            w.ue(0);  // max_bits_per_mb_denom: unconstrained
            w.ue(16);  // log2_max_mv_length_horizontal
            w.ue(16);  // log2_max_mv_length_vertical
            w.ue(reorder);
            let buffering: u32 = match cfg.max_dec_frame_buffering {
                Some(frames) => frames,
                None => if reorder > cfg.max_num_ref_frames {
                    reorder
                } else {
                    cfg.max_num_ref_frames
                },
            };
            w.ue(buffering);
        }
    }
}

pub fn write_sps(cfg: &SpsConfig) -> (nal: Vec<u8>)
    requires
        cfg.wf(),
    ensures
        nal@ == nal::nal_unit(closed_rbsp(sps_bits(*cfg)), 3, nal_type::SPS as int),
{
    proof {
        reveal(sps_profile_bits);
    }
    let mut w = BitWriter::with_capacity(256);
    w.u(8, 100);  // profile_idc: High
    w.flag(false);  // constraint_set0_flag
    w.flag(false);  // constraint_set1_flag
    w.flag(false);  // constraint_set2_flag
    w.flag(false);  // constraint_set3_flag
    w.flag(false);  // constraint_set4_flag
    w.flag(false);  // constraint_set5_flag
    w.u(2, 0);  // reserved_zero_2bits
    w.u(8, cfg.level_idc);
    w.ue(0);  // seq_parameter_set_id
    // High profile block
    w.ue(1);  // chroma_format_idc: 4:2:0
    w.ue(0);  // bit_depth_luma_minus8
    w.ue(0);  // bit_depth_chroma_minus8
    w.flag(false);  // qpprime_y_zero_transform_bypass_flag
    w.flag(false);  // seq_scaling_matrix_present_flag: the lists live in the PPS
    w.ue(cfg.log2_max_frame_num_minus4);
    w.ue(0);  // pic_order_cnt_type 0: explicit POC, needed for B picture reordering
    w.ue(cfg.log2_max_poc_lsb_minus4);
    w.ue(cfg.max_num_ref_frames);
    w.flag(false);  // gaps_in_frame_num_value_allowed_flag
    assert(w@ == sps_profile_bits(*cfg));
    write_sps_size(&mut w, cfg);
    write_vui(&mut w, cfg);
    w.rbsp_trailing_bits();
    to_nal_unit(w.bytes(), 3, nal_type::SPS)
}

/// The PPS syntax up to the scaling lists (clause 7.3.2.2).
#[verifier::opaque]
pub open spec fn pps_head_bits(init_qp: int, chroma_offset: int) -> Seq<bool> {
    Seq::<bool>::empty() + bitwriter::ue_code(0)  // pic_parameter_set_id
     + bitwriter::ue_code(0)  // seq_parameter_set_id
     + bitwriter::bit(false)  // entropy_coding_mode_flag: CAVLC
     + bitwriter::bit(false)  // bottom_field_pic_order_in_frame_present_flag
     + bitwriter::ue_code(0)  // num_slice_groups_minus1
     + bitwriter::ue_code(0)  // num_ref_idx_l0_default_active_minus1
     + bitwriter::ue_code(0)  // num_ref_idx_l1_default_active_minus1
     + bitwriter::bit(true)  // weighted_pred_flag
     + bitwriter::digits(1, 2)  // weighted_bipred_idc: explicit
     + bitwriter::se_code(init_qp - 26)  // pic_init_qp_minus26
     + bitwriter::se_code(0)  // pic_init_qs_minus26
     + bitwriter::se_code(chroma_offset)  // chroma_qp_index_offset
     + bitwriter::bit(true)  // deblocking_filter_control_present_flag
     + bitwriter::bit(false)  // constrained_intra_pred_flag
     + bitwriter::bit(false)  // redundant_pic_cnt_present_flag
     + bitwriter::bit(true)  // transform_8x8_mode_flag

}

/// `bits` with `count` flat 4x4 lists behind them.
pub open spec fn with_flat_lists(bits: Seq<bool>, count: nat) -> Seq<bool>
    decreases count,
{
    if count == 0 {
        bits
    } else {
        with_flat_lists(bits, (count - 1) as nat) + bitwriter::bit(true) + scaling_list_bits(
            FLAT_4X4@,
            16,
        )
    }
}

/// `bits` with an 8x8 list behind them, or the flag that there is none.
pub open spec fn with_list(bits: Seq<bool>, list: Option<&[i32; 64]>) -> Seq<bool> {
    match list {
        Some(l) => bits + bitwriter::bit(true) + scaling_list_bits(l@, 64),
        None => bits + bitwriter::bit(false),
    }
}

/// The bits of a picture parameter set.
pub open spec fn pps_bits(cfg: PpsConfig<'_>) -> Seq<bool> {
    let head = pps_head_bits(cfg.init_qp as int, cfg.chroma_qp_index_offset as int);
    let any = cfg.scaling_8x8_intra is Some || cfg.scaling_8x8_inter is Some;
    let b1 = head + bitwriter::bit(any);
    // The six 4x4 lists are sent explicitly as flat, then the two 8x8 luma lists
    // carry the MPEG-2 quantiser matrices.
    let b2 = if any {
        with_list(with_list(with_flat_lists(b1, 6), cfg.scaling_8x8_intra), cfg.scaling_8x8_inter)
    } else {
        b1
    };
    b2 + bitwriter::se_code(cfg.chroma_qp_index_offset as int)
}

fn write_optional_list(w: &mut BitWriter, list: Option<&[i32; 64]>)
    requires
        old(w).wf(),
        list is Some ==> is_scaling_list(list->Some_0@),
    ensures
        final(w).wf(),
        final(w)@ == with_list(old(w)@, list),
{
    w.flag(list.is_some());
    if let Some(list) = list {
        write_scaling_list(w, list);
    }
}

pub fn write_pps(cfg: &PpsConfig<'_>) -> (nal: Vec<u8>)
    requires
        cfg.init_qp - 26 > i32::MIN,
        cfg.chroma_qp_index_offset > i32::MIN,
        cfg.scaling_8x8_intra is Some ==> is_scaling_list(cfg.scaling_8x8_intra->Some_0@),
        cfg.scaling_8x8_inter is Some ==> is_scaling_list(cfg.scaling_8x8_inter->Some_0@),
    ensures
        nal@ == nal::nal_unit(closed_rbsp(pps_bits(*cfg)), 3, nal_type::PPS as int),
{
    let mut w = BitWriter::with_capacity(256);
    w.ue(0);  // pic_parameter_set_id
    w.ue(0);  // seq_parameter_set_id
    w.flag(false);  // entropy_coding_mode_flag: CAVLC
    w.flag(false);  // bottom_field_pic_order_in_frame_present_flag
    w.ue(0);  // num_slice_groups_minus1
    w.ue(0);  // num_ref_idx_l0_default_active_minus1
    w.ue(0);  // num_ref_idx_l1_default_active_minus1
    // Explicit weighted prediction, which is what gives intra macroblocks their
    // flat prediction; see h264/slice.rs. Every other reference index is given
    // the default weight, so bi-prediction remains (P0 + P1 + 1) >> 1 and the
    // half-pel mapping keeps its exact rounding.
    w.flag(true);  // weighted_pred_flag
    w.u(2, 1);  // weighted_bipred_idc: explicit
    w.se(cfg.init_qp - 26);  // pic_init_qp_minus26
    w.se(0);  // pic_init_qs_minus26
    w.se(cfg.chroma_qp_index_offset);  // chroma_qp_index_offset
    w.flag(true);  // deblocking_filter_control_present_flag: slices switch it off
    w.flag(false);  // constrained_intra_pred_flag: no H.264 intra prediction is used
    w.flag(false);  // redundant_pic_cnt_present_flag
    // High profile extension
    w.flag(true);  // transform_8x8_mode_flag
    assert(w@ == pps_head_bits(cfg.init_qp as int, cfg.chroma_qp_index_offset as int)) by {
        reveal(pps_head_bits);
    }
    let any_scaling: bool = cfg.scaling_8x8_intra.is_some() || cfg.scaling_8x8_inter.is_some();
    w.flag(any_scaling);
    if any_scaling {
        // The six 4x4 lists are sent explicitly as flat 16. Leaving them absent
        // does not mean "no weighting": fall-back rule set A would substitute
        // H.264's default 4x4 matrices, which are far from flat, and chroma runs
        // through the 4x4 transform. Then the two 8x8 luma lists carry the
        // MPEG-2 quantiser matrices.
        let ghost head = w@;
        let mut sent: u32 = 0;
        while sent < 6
            invariant
                sent <= 6,
                w.wf(),
                w@ == with_flat_lists(head, sent as nat),
            decreases 6 - sent,
        {
            w.flag(true);
            write_scaling_list(&mut w, &FLAT_4X4);
            sent = sent + 1;
        }
        write_optional_list(&mut w, cfg.scaling_8x8_intra);
        write_optional_list(&mut w, cfg.scaling_8x8_inter);
    }
    w.se(cfg.chroma_qp_index_offset);  // second_chroma_qp_index_offset
    w.rbsp_trailing_bits();
    to_nal_unit(w.bytes(), 3, nal_type::PPS)
}

} // verus!
