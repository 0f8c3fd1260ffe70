//! What a decoder reads from the parameter sets.
use crate::h264::bitwriter;
use crate::h264::bitwriter::nal_type;
use crate::h264::header_reading;
use crate::h264::nal;
use crate::h264::params;
use crate::h264::params::{PpsConfig, SpsConfig};
use crate::h264::reading;
use vstd::arithmetic::power2;
use vstd::prelude::*;

verus! {

/// What a sequence parameter set says of the stream.
pub struct ProfileRead {
    pub profile_idc: nat,
    pub constraints: nat,
    pub level_idc: nat,
    pub id: int,
    pub chroma_format_idc: int,
    pub bit_depth_luma_minus8: int,
    pub bit_depth_chroma_minus8: int,
    pub transform_bypass: bool,
    pub scaling_matrix: bool,
    pub log2_max_frame_num_minus4: int,
    pub pic_order_cnt_type: int,
    pub log2_max_poc_lsb_minus4: int,
    pub max_num_ref_frames: int,
    pub gaps_in_frame_num: bool,
}

/// What it says of the size of pictures.
pub struct SizeRead {
    pub width_in_mbs: int,
    pub height_in_map_units: int,
    pub frame_mbs_only: bool,
    pub mb_adaptive: bool,
    pub direct_8x8_inference: bool,
    /// What is cut off at the left, the right, the top and the bottom.
    pub crop: Option<(int, int, int, int)>,
}

/// How pictures are shown and how many are held back.
pub struct UsabilityRead {
    /// The shape of a sample, where it is told: its code, and its width and height.
    pub aspect_ratio: Option<(nat, nat, nat)>,
    /// Where chroma samples stand, where it is told.
    pub chroma_location: Option<(int, int)>,
    /// How many pictures are reordered and how many are held, where it is told.
    pub buffering: Option<(int, int)>,
}

/// What a sequence parameter set says.
pub struct SpsRead {
    pub profile: ProfileRead,
    pub size: SizeRead,
    pub usability: Option<UsabilityRead>,
}

/// What stands between two pieces belongs to either.
proof fn lemma_moved(a: Seq<bool>, b: Seq<bool>, c: Seq<bool>)
    ensures
        (a + b) + c == a + (b + c),
{
    assert((a + b) + c =~= a + (b + c));
}

/// The next unsigned code behind what was written before.
proof fn lemma_next_ue(before: Seq<bool>, v: nat, rest: Seq<bool>)
    ensures
        before + bitwriter::ue_code(v) + rest == before + (bitwriter::ue_code(v) + rest),
        header_reading::take_ue(bitwriter::ue_code(v) + rest) == (v as int, rest),
{
    lemma_moved(before, bitwriter::ue_code(v), rest);
    header_reading::lemma_take_ue(v, rest);
}

/// The next signed code.
proof fn lemma_next_se(before: Seq<bool>, v: int, rest: Seq<bool>)
    ensures
        before + bitwriter::se_code(v) + rest == before + (bitwriter::se_code(v) + rest),
        header_reading::take_se(bitwriter::se_code(v) + rest) == (v, rest),
{
    lemma_moved(before, bitwriter::se_code(v), rest);
    header_reading::lemma_take_se(v, rest);
}

/// The next bit.
proof fn lemma_next_bit(before: Seq<bool>, b: bool, rest: Seq<bool>)
    ensures
        before + bitwriter::bit(b) + rest == before + (bitwriter::bit(b) + rest),
        header_reading::take_bit(bitwriter::bit(b) + rest) == (b, rest),
{
    lemma_moved(before, bitwriter::bit(b), rest);
    header_reading::lemma_take_bit(b, rest);
}

/// The next number of some digits.
proof fn lemma_next_digits(before: Seq<bool>, v: nat, n: nat, rest: Seq<bool>)
    ensures
        before + bitwriter::digits(v, n) + rest == before + (bitwriter::digits(v, n) + rest),
        header_reading::take_digits(bitwriter::digits(v, n) + rest, n) == (
            v % power2::pow2(n),
            rest,
        ),
{
    lemma_moved(before, bitwriter::digits(v, n), rest);
    header_reading::lemma_take_digits(v, n, rest);
}

/// The size of pictures (clause 7.3.2.1.1).
pub open spec fn take_size(bits: Seq<bool>) -> (SizeRead, Seq<bool>) {
    let (width, bits) = header_reading::take_ue(bits);
    let (height, bits) = header_reading::take_ue(bits);
    let (frame_mbs_only, bits) = header_reading::take_bit(bits);
    let (mb_adaptive, bits) = if frame_mbs_only {
        (false, bits)
    } else {
        header_reading::take_bit(bits)
    };
    let (direct_8x8_inference, bits) = header_reading::take_bit(bits);
    let (cropped, bits) = header_reading::take_bit(bits);
    let (crop, bits) = if cropped {
        let (left, bits) = header_reading::take_ue(bits);
        let (right, bits) = header_reading::take_ue(bits);
        let (top, bits) = header_reading::take_ue(bits);
        let (bottom, bits) = header_reading::take_ue(bits);
        (Some((left, right, top, bottom)), bits)
    } else {
        (None, bits)
    };
    (
        SizeRead {
            width_in_mbs: width + 1,
            height_in_map_units: height + 1,
            frame_mbs_only,
            mb_adaptive,
            direct_8x8_inference,
            crop,
        },
        bits,
    )
}

/// The size that was written.
pub open spec fn size_of(cfg: SpsConfig) -> SizeRead {
    let g = params::geometry(cfg.width, cfg.height, cfg.frame_mbs_only);
    SizeRead {
        width_in_mbs: g.mb_width as int,
        height_in_map_units: g.map_units as int,
        frame_mbs_only: cfg.frame_mbs_only,
        mb_adaptive: !cfg.frame_mbs_only,
        direct_8x8_inference: true,
        crop: if g.crop_right > 0 || g.crop_bottom > 0 {
            Some((0int, g.crop_right as int, 0int, g.crop_bottom as int))
        } else {
            None
        },
    }
}

/// The size reads back behind whatever was written before.
proof fn lemma_take_size(before: Seq<bool>, cfg: SpsConfig, rest: Seq<bool>) -> (bits: Seq<bool>)
    requires
        cfg.wf(),
    ensures
        params::with_sps_size(before, cfg) + rest == before + bits,
        take_size(bits) == (size_of(cfg), rest),
{
    reveal(params::with_sps_size);
    let g = params::geometry(cfg.width, cfg.height, cfg.frame_mbs_only);
    let only = cfg.frame_mbs_only;
    let cropping = g.crop_right > 0 || g.crop_bottom > 0;
    let p1 = before + bitwriter::ue_code((g.mb_width - 1) as nat);
    let p2 = p1 + bitwriter::ue_code((g.map_units - 1) as nat);
    let p3 = p2 + bitwriter::bit(only);
    let p4 = if only {
        p3
    } else {
        p3 + bitwriter::bit(true)
    };
    let p5 = p4 + bitwriter::bit(true);
    let p6 = p5 + bitwriter::bit(cropping);
    let r6 = if cropping {
        let q1 = p6 + bitwriter::ue_code(0);
        let q2 = q1 + bitwriter::ue_code(g.crop_right as nat);
        let q3 = q2 + bitwriter::ue_code(0);
        let s3 = bitwriter::ue_code(g.crop_bottom as nat) + rest;
        let s2 = bitwriter::ue_code(0) + s3;
        let s1 = bitwriter::ue_code(g.crop_right as nat) + s2;
        lemma_next_ue(q3, g.crop_bottom as nat, rest);
        lemma_next_ue(q2, 0, s3);
        lemma_next_ue(q1, g.crop_right as nat, s2);
        lemma_next_ue(p6, 0, s1);
        bitwriter::ue_code(0) + s1
    } else {
        rest
    };
    let r5 = bitwriter::bit(cropping) + r6;
    let r4 = bitwriter::bit(true) + r5;
    let r3 = if only {
        r4
    } else {
        bitwriter::bit(true) + r4
    };
    let r2 = bitwriter::bit(only) + r3;
    let r1 = bitwriter::ue_code((g.map_units - 1) as nat) + r2;
    lemma_next_bit(p5, cropping, r6);
    lemma_next_bit(p4, true, r5);
    if !only {
        lemma_next_bit(p3, true, r4);
    }
    lemma_next_bit(p2, only, r3);
    lemma_next_ue(p1, (g.map_units - 1) as nat, r2);
    lemma_next_ue(before, (g.mb_width - 1) as nat, r1);
    bitwriter::ue_code((g.mb_width - 1) as nat) + r1
}

/// What the stream is coded with.
pub open spec fn take_profile(bits: Seq<bool>) -> (ProfileRead, Seq<bool>) {
    let (profile_idc, bits) = header_reading::take_digits(bits, 8);
    let (c0, bits) = header_reading::take_bit(bits);
    let (c1, bits) = header_reading::take_bit(bits);
    let (c2, bits) = header_reading::take_bit(bits);
    let (c3, bits) = header_reading::take_bit(bits);
    let (c4, bits) = header_reading::take_bit(bits);
    let (c5, bits) = header_reading::take_bit(bits);
    let (reserved, bits) = header_reading::take_digits(bits, 2);
    let (level_idc, bits) = header_reading::take_digits(bits, 8);
    let (id, bits) = header_reading::take_ue(bits);
    let (chroma_format_idc, bits) = header_reading::take_ue(bits);
    let (bit_depth_luma_minus8, bits) = header_reading::take_ue(bits);
    let (bit_depth_chroma_minus8, bits) = header_reading::take_ue(bits);
    let (transform_bypass, bits) = header_reading::take_bit(bits);
    let (scaling_matrix, bits) = header_reading::take_bit(bits);
    let (log2_max_frame_num_minus4, bits) = header_reading::take_ue(bits);
    let (pic_order_cnt_type, bits) = header_reading::take_ue(bits);
    let (log2_max_poc_lsb_minus4, bits) = header_reading::take_ue(bits);
    let (max_num_ref_frames, bits) = header_reading::take_ue(bits);
    let (gaps_in_frame_num, bits) = header_reading::take_bit(bits);
    (
        ProfileRead {
            profile_idc,
            constraints: if c0 || c1 || c2 || c3 || c4 || c5 {
                1
            } else {
                reserved
            },
            level_idc,
            id,
            chroma_format_idc,
            bit_depth_luma_minus8,
            bit_depth_chroma_minus8,
            transform_bypass,
            scaling_matrix,
            log2_max_frame_num_minus4,
            pic_order_cnt_type,
            log2_max_poc_lsb_minus4,
            max_num_ref_frames,
            gaps_in_frame_num,
        },
        bits,
    )
}

/// What the stream was written to be coded with: the High profile without constraints,
/// 8-bit 4:2:0, and the lists in the picture parameter set.
pub open spec fn profile_of(cfg: SpsConfig) -> ProfileRead {
    ProfileRead {
        profile_idc: 100,
        constraints: 0,
        level_idc: cfg.level_idc as nat % 256,
        id: 0,
        chroma_format_idc: 1,
        bit_depth_luma_minus8: 0,
        bit_depth_chroma_minus8: 0,
        transform_bypass: false,
        scaling_matrix: false,
        log2_max_frame_num_minus4: cfg.log2_max_frame_num_minus4 as int,
        pic_order_cnt_type: 0,
        log2_max_poc_lsb_minus4: cfg.log2_max_poc_lsb_minus4 as int,
        max_num_ref_frames: cfg.max_num_ref_frames as int,
        gaps_in_frame_num: false,
    }
}

/// What the stream is coded with reads back.
proof fn lemma_take_profile(cfg: SpsConfig, rest: Seq<bool>) -> (bits: Seq<bool>)
    ensures
        params::sps_profile_bits(cfg) + rest == bits,
        take_profile(bits) == (profile_of(cfg), rest),
{
    reveal(params::sps_profile_bits);
    power2::lemma2_to64();
    let p0 = Seq::<bool>::empty();
    let p1 = p0 + bitwriter::digits(100, 8);
    let p2 = p1 + bitwriter::bit(false);
    let p3 = p2 + bitwriter::bit(false);
    let p4 = p3 + bitwriter::bit(false);
    let p5 = p4 + bitwriter::bit(false);
    let p6 = p5 + bitwriter::bit(false);
    let p7 = p6 + bitwriter::bit(false);
    let p8 = p7 + bitwriter::digits(0, 2);
    let p9 = p8 + bitwriter::digits(cfg.level_idc as nat, 8);
    let p10 = p9 + bitwriter::ue_code(0);
    let p11 = p10 + bitwriter::ue_code(1);
    let p12 = p11 + bitwriter::ue_code(0);
    let p13 = p12 + bitwriter::ue_code(0);
    let p14 = p13 + bitwriter::bit(false);
    let p15 = p14 + bitwriter::bit(false);
    let p16 = p15 + bitwriter::ue_code(cfg.log2_max_frame_num_minus4 as nat);
    let p17 = p16 + bitwriter::ue_code(0);
    let p18 = p17 + bitwriter::ue_code(cfg.log2_max_poc_lsb_minus4 as nat);
    let p19 = p18 + bitwriter::ue_code(cfg.max_num_ref_frames as nat);
    let r20 = rest;
    let r19 = bitwriter::bit(false) + r20;
    let r18 = bitwriter::ue_code(cfg.max_num_ref_frames as nat) + r19;
    let r17 = bitwriter::ue_code(cfg.log2_max_poc_lsb_minus4 as nat) + r18;
    let r16 = bitwriter::ue_code(0) + r17;
    let r15 = bitwriter::ue_code(cfg.log2_max_frame_num_minus4 as nat) + r16;
    let r14 = bitwriter::bit(false) + r15;
    let r13 = bitwriter::bit(false) + r14;
    let r12 = bitwriter::ue_code(0) + r13;
    let r11 = bitwriter::ue_code(0) + r12;
    let r10 = bitwriter::ue_code(1) + r11;
    let r9 = bitwriter::ue_code(0) + r10;
    let r8 = bitwriter::digits(cfg.level_idc as nat, 8) + r9;
    let r7 = bitwriter::digits(0, 2) + r8;
    let r6 = bitwriter::bit(false) + r7;
    let r5 = bitwriter::bit(false) + r6;
    let r4 = bitwriter::bit(false) + r5;
    let r3 = bitwriter::bit(false) + r4;
    let r2 = bitwriter::bit(false) + r3;
    let r1 = bitwriter::bit(false) + r2;
    let r0 = bitwriter::digits(100, 8) + r1;
    lemma_next_bit(p19, false, r20);
    lemma_next_ue(p18, cfg.max_num_ref_frames as nat, r19);
    lemma_next_ue(p17, cfg.log2_max_poc_lsb_minus4 as nat, r18);
    lemma_next_ue(p16, 0, r17);
    lemma_next_ue(p15, cfg.log2_max_frame_num_minus4 as nat, r16);
    lemma_next_bit(p14, false, r15);
    lemma_next_bit(p13, false, r14);
    lemma_next_ue(p12, 0, r13);
    lemma_next_ue(p11, 0, r12);
    lemma_next_ue(p10, 1, r11);
    lemma_next_ue(p9, 0, r10);
    lemma_next_digits(p8, cfg.level_idc as nat, 8, r9);
    lemma_next_digits(p7, 0, 2, r8);
    lemma_next_bit(p6, false, r7);
    lemma_next_bit(p5, false, r6);
    lemma_next_bit(p4, false, r5);
    lemma_next_bit(p3, false, r4);
    lemma_next_bit(p2, false, r3);
    lemma_next_bit(p1, false, r2);
    lemma_next_digits(p0, 100, 8, r1);
    assert(p0 + r0 =~= r0);
    r0
}

/// How pictures are shown and how many are held back (clause E.1.1). Where timing,
/// buffering for a hypothetical decoder or other things that this stream never tells are
/// told, nothing is made of them.
pub open spec fn take_usability(bits: Seq<bool>) -> (Option<UsabilityRead>, Seq<bool>) {
    let (told, bits) = header_reading::take_bit(bits);
    if !told {
        (None, bits)
    } else {
        let (aspect_ratio, bits) = take_aspect_ratio(bits);
        let (_, bits) = header_reading::take_bit(bits);
        let (_, bits) = header_reading::take_bit(bits);
        let (chroma_location, bits) = take_location(bits);
        let (_, bits) = header_reading::take_bit(bits);
        let (_, bits) = header_reading::take_bit(bits);
        let (_, bits) = header_reading::take_bit(bits);
        let (_, bits) = header_reading::take_bit(bits);
        let (buffering, bits) = take_buffering(bits);
        (Some(UsabilityRead { aspect_ratio, chroma_location, buffering }), bits)
    }
}

/// The shape of a sample, where it is told.
pub open spec fn take_aspect_ratio(bits: Seq<bool>) -> (Option<(nat, nat, nat)>, Seq<bool>) {
    let (told, bits) = header_reading::take_bit(bits);
    if told {
        let (code, bits) = header_reading::take_digits(bits, 8);
        let (width, bits) = header_reading::take_digits(bits, 16);
        let (height, bits) = header_reading::take_digits(bits, 16);
        (Some((code, width, height)), bits)
    } else {
        (None, bits)
    }
}

/// Where chroma samples stand, where it is told.
pub open spec fn take_location(bits: Seq<bool>) -> (Option<(int, int)>, Seq<bool>) {
    let (told, bits) = header_reading::take_bit(bits);
    if told {
        let (top, bits) = header_reading::take_ue(bits);
        let (bottom, bits) = header_reading::take_ue(bits);
        (Some((top, bottom)), bits)
    } else {
        (None, bits)
    }
}

/// How many pictures are reordered and how many are held, where it is told.
pub open spec fn take_buffering(bits: Seq<bool>) -> (Option<(int, int)>, Seq<bool>) {
    let (told, bits) = header_reading::take_bit(bits);
    if told {
        let (_, bits) = header_reading::take_bit(bits);
        let (_, bits) = header_reading::take_ue(bits);
        let (_, bits) = header_reading::take_ue(bits);
        let (_, bits) = header_reading::take_ue(bits);
        let (_, bits) = header_reading::take_ue(bits);
        let (reordered, bits) = header_reading::take_ue(bits);
        let (held, bits) = header_reading::take_ue(bits);
        (Some((reordered, held)), bits)
    } else {
        (None, bits)
    }
}

/// The code of a sample shape that is told by its width and height.
pub const EXTENDED_SAR: u8 = 255;

/// What was written of how pictures are shown.
pub open spec fn usability_of(cfg: SpsConfig) -> Option<UsabilityRead> {
    if cfg.max_num_reorder_frames is Some || cfg.sample_aspect_ratio is Some
        || cfg.centered_chroma {
        Some(
            UsabilityRead {
                aspect_ratio: match cfg.sample_aspect_ratio {
                    Some(ratio) => Some(
                        (
                            EXTENDED_SAR as nat,
                            ratio.width as nat % 0x1_0000,
                            ratio.height as nat % 0x1_0000,
                        ),
                    ),
                    None => None,
                },
                chroma_location: if cfg.centered_chroma {
                    Some((1int, 1int))
                } else {
                    None
                },
                buffering: match cfg.max_num_reorder_frames {
                    Some(reorder) => Some(
                        (reorder as int, params::frame_buffering(cfg, reorder) as int),
                    ),
                    None => None,
                },
            },
        )
    } else {
        None
    }
}

/// How many pictures are held back reads back.
proof fn lemma_take_buffering(before: Seq<bool>, cfg: SpsConfig, rest: Seq<bool>) -> (bits: Seq<
    bool,
>)
    ensures
        (match cfg.max_num_reorder_frames {
            Some(reorder) => before + bitwriter::bit(true) + bitwriter::bit(true)
                + bitwriter::ue_code(0) + bitwriter::ue_code(0) + bitwriter::ue_code(16)
                + bitwriter::ue_code(16) + bitwriter::ue_code(reorder as nat) + bitwriter::ue_code(
                params::frame_buffering(cfg, reorder) as nat,
            ) + rest,
            None => before + bitwriter::bit(false) + rest,
        }) == before + bits,
        take_buffering(bits) == (
            match cfg.max_num_reorder_frames {
                Some(reorder) => Some(
                    (reorder as int, params::frame_buffering(cfg, reorder) as int),
                ),
                None => None::<(int, int)>,
            },
            rest,
        ),
{
    match cfg.max_num_reorder_frames {
        Some(reorder) => {
            let held = params::frame_buffering(cfg, reorder) as nat;
            let p1 = before + bitwriter::bit(true);
            let p2 = p1 + bitwriter::bit(true);
            let p3 = p2 + bitwriter::ue_code(0);
            let p4 = p3 + bitwriter::ue_code(0);
            let p5 = p4 + bitwriter::ue_code(16);
            let p6 = p5 + bitwriter::ue_code(16);
            let p7 = p6 + bitwriter::ue_code(reorder as nat);
            let r7 = bitwriter::ue_code(held) + rest;
            let r6 = bitwriter::ue_code(reorder as nat) + r7;
            let r5 = bitwriter::ue_code(16) + r6;
            let r4 = bitwriter::ue_code(16) + r5;
            let r3 = bitwriter::ue_code(0) + r4;
            let r2 = bitwriter::ue_code(0) + r3;
            let r1 = bitwriter::bit(true) + r2;
            lemma_next_ue(p7, held, rest);
            lemma_next_ue(p6, reorder as nat, r7);
            lemma_next_ue(p5, 16, r6);
            lemma_next_ue(p4, 16, r5);
            lemma_next_ue(p3, 0, r4);
            lemma_next_ue(p2, 0, r3);
            lemma_next_bit(p1, true, r2);
            lemma_next_bit(before, true, r1);
            bitwriter::bit(true) + r1
        },
        None => {
            lemma_next_bit(before, false, rest);
            bitwriter::bit(false) + rest
        },
    }
}

/// Where chroma samples stand reads back.
proof fn lemma_take_location(before: Seq<bool>, centered: bool, rest: Seq<bool>) -> (bits: Seq<
    bool,
>)
    ensures
        (if centered {
            before + bitwriter::bit(true) + bitwriter::ue_code(1) + bitwriter::ue_code(1) + rest
        } else {
            before + bitwriter::bit(false) + rest
        }) == before + bits,
        take_location(bits) == (
            if centered {
                Some((1int, 1int))
            } else {
                None
            },
            rest,
        ),
{
    if centered {
        let p1 = before + bitwriter::bit(true);
        let p2 = p1 + bitwriter::ue_code(1);
        let r2 = bitwriter::ue_code(1) + rest;
        let r1 = bitwriter::ue_code(1) + r2;
        lemma_next_ue(p2, 1, rest);
        lemma_next_ue(p1, 1, r2);
        lemma_next_bit(before, true, r1);
        bitwriter::bit(true) + r1
    } else {
        lemma_next_bit(before, false, rest);
        bitwriter::bit(false) + rest
    }
}

/// The shape of a sample reads back.
proof fn lemma_take_aspect_ratio(before: Seq<bool>, cfg: SpsConfig, rest: Seq<bool>) -> (bits: Seq<
    bool,
>)
    ensures
        (match cfg.sample_aspect_ratio {
            Some(ratio) => before + bitwriter::bit(true) + bitwriter::digits(255, 8)
                + bitwriter::digits(ratio.width as nat, 16) + bitwriter::digits(
                ratio.height as nat,
                16,
            ) + rest,
            None => before + bitwriter::bit(false) + rest,
        }) == before + bits,
        take_aspect_ratio(bits) == (
            match cfg.sample_aspect_ratio {
                Some(ratio) => Some(
                    (
                        EXTENDED_SAR as nat,
                        ratio.width as nat % 0x1_0000,
                        ratio.height as nat % 0x1_0000,
                    ),
                ),
                None => None::<(nat, nat, nat)>,
            },
            rest,
        ),
{
    power2::lemma2_to64();
    match cfg.sample_aspect_ratio {
        Some(ratio) => {
            let p1 = before + bitwriter::bit(true);
            let p2 = p1 + bitwriter::digits(255, 8);
            let p3 = p2 + bitwriter::digits(ratio.width as nat, 16);
            let r3 = bitwriter::digits(ratio.height as nat, 16) + rest;
            let r2 = bitwriter::digits(ratio.width as nat, 16) + r3;
            let r1 = bitwriter::digits(255, 8) + r2;
            lemma_next_digits(p3, ratio.height as nat, 16, rest);
            lemma_next_digits(p2, ratio.width as nat, 16, r3);
            lemma_next_digits(p1, 255, 8, r2);
            lemma_next_bit(before, true, r1);
            bitwriter::bit(true) + r1
        },
        None => {
            lemma_next_bit(before, false, rest);
            bitwriter::bit(false) + rest
        },
    }
}

/// How pictures are shown reads back behind whatever was written before.
proof fn lemma_take_usability(before: Seq<bool>, cfg: SpsConfig, rest: Seq<bool>) -> (bits: Seq<
    bool,
>)
    ensures
        params::with_vui(before, cfg) + rest == before + bits,
        take_usability(bits) == (usability_of(cfg), rest),
{
    reveal(params::with_vui);
    let reorder = cfg.max_num_reorder_frames;
    let sar = cfg.sample_aspect_ratio;
    let vui = reorder is Some || sar is Some || cfg.centered_chroma;
    let b1 = before + bitwriter::bit(vui);
    if !vui {
        lemma_next_bit(before, false, rest);
        bitwriter::bit(false) + rest
    } else {
        let b3 = match sar {
            Some(ratio) => b1 + bitwriter::bit(true) + bitwriter::digits(255, 8)
                + bitwriter::digits(ratio.width as nat, 16) + bitwriter::digits(
                ratio.height as nat,
                16,
            ),
            None => b1 + bitwriter::bit(false),
        };
        let c1 = b3 + bitwriter::bit(false);
        let c2 = c1 + bitwriter::bit(false);
        let b5 = if cfg.centered_chroma {
            c2 + bitwriter::bit(true) + bitwriter::ue_code(1) + bitwriter::ue_code(1)
        } else {
            c2 + bitwriter::bit(false)
        };
        let d1 = b5 + bitwriter::bit(false);
        let d2 = d1 + bitwriter::bit(false);
        let d3 = d2 + bitwriter::bit(false);
        let d4 = d3 + bitwriter::bit(false);
        let s4 = lemma_take_buffering(d4, cfg, rest);
        let s3 = bitwriter::bit(false) + s4;
        let s2 = bitwriter::bit(false) + s3;
        let s1 = bitwriter::bit(false) + s2;
        let s0 = bitwriter::bit(false) + s1;
        lemma_next_bit(d3, false, s4);
        lemma_next_bit(d2, false, s3);
        lemma_next_bit(d1, false, s2);
        lemma_next_bit(b5, false, s1);
        let t2 = lemma_take_location(c2, cfg.centered_chroma, s0);
        let t1 = bitwriter::bit(false) + t2;
        let t0 = bitwriter::bit(false) + t1;
        lemma_next_bit(c1, false, t2);
        lemma_next_bit(b3, false, t1);
        let u = lemma_take_aspect_ratio(b1, cfg, t0);
        lemma_next_bit(before, true, u);
        bitwriter::bit(true) + u
    }
}

/// What a decoder reads from a sequence parameter set, and what stands behind it.
pub open spec fn read_sps(bits: Seq<bool>) -> (SpsRead, Seq<bool>) {
    let (profile, bits) = take_profile(bits);
    let (size, bits) = take_size(bits);
    let (usability, bits) = take_usability(bits);
    (SpsRead { profile, size, usability }, bits)
}

/// A decoder reads a sequence parameter set as it was written, and stops where it ends,
/// whatever stands behind it.
pub proof fn law_sequence_sets_read_back(cfg: SpsConfig, rest: Seq<bool>)
    requires
        cfg.wf(),
    ensures
        read_sps(params::sps_bits(cfg) + rest) == (
            SpsRead { profile: profile_of(cfg), size: size_of(cfg), usability: usability_of(cfg) },
            rest,
        ),
{
    let first = params::sps_profile_bits(cfg);
    let second = params::with_sps_size(first, cfg);
    let r2 = lemma_take_usability(second, cfg, rest);
    let r1 = lemma_take_size(first, cfg, r2);
    let r0 = lemma_take_profile(cfg, r1);
}

/// A decoder that takes the unit of a sequence parameter set apart reads what it was
/// written to say.
pub proof fn law_sequence_units_read_back(cfg: SpsConfig)
    requires
        cfg.wf(),
    ensures
        read_sps(
            reading::payload_bits(
                nal::nal_unit(params::closed_rbsp(params::sps_bits(cfg)), 3, nal_type::SPS as int),
            ),
        ).0 == (SpsRead {
            profile: profile_of(cfg),
            size: size_of(cfg),
            usability: usability_of(cfg),
        }),
{
    let bits = params::sps_bits(cfg);
    reading::law_units_carry_their_bits(bits, 3, nal_type::SPS as int);
    law_sequence_sets_read_back(cfg, bitwriter::trailing(bits.len()));
}

/// What a picture parameter set says in front of its lists.
pub struct PpsHead {
    pub id: int,
    pub sequence_set: int,
    pub arithmetic_coding: bool,
    pub bottom_field_order: bool,
    pub slice_groups_minus1: int,
    pub l0_default_minus1: int,
    pub l1_default_minus1: int,
    pub weighted: bool,
    pub weighted_both: nat,
    pub init_qp_minus26: int,
    pub init_qs_minus26: int,
    pub chroma_offset: int,
    pub deblocking_control: bool,
    pub constrained_intra: bool,
    pub redundant_pictures: bool,
    pub transform_8x8: bool,
}

/// What a picture parameter set says.
pub struct PpsRead {
    pub head: PpsHead,
    /// The 4x4 lists and the two 8x8 lists, in the order of the scan, where there are any.
    pub lists: Option<(Seq<Seq<int>>, Option<Seq<int>>, Option<Seq<int>>)>,
    pub second_chroma_offset: int,
}

/// What stands in front of the lists (clause 7.3.2.2).
pub open spec fn take_head(bits: Seq<bool>) -> (PpsHead, Seq<bool>) {
    let (id, bits) = header_reading::take_ue(bits);
    let (sequence_set, bits) = header_reading::take_ue(bits);
    let (arithmetic_coding, bits) = header_reading::take_bit(bits);
    let (bottom_field_order, bits) = header_reading::take_bit(bits);
    let (slice_groups_minus1, bits) = header_reading::take_ue(bits);
    let (l0_default_minus1, bits) = header_reading::take_ue(bits);
    let (l1_default_minus1, bits) = header_reading::take_ue(bits);
    let (weighted, bits) = header_reading::take_bit(bits);
    let (weighted_both, bits) = header_reading::take_digits(bits, 2);
    let (init_qp_minus26, bits) = header_reading::take_se(bits);
    let (init_qs_minus26, bits) = header_reading::take_se(bits);
    let (chroma_offset, bits) = header_reading::take_se(bits);
    let (deblocking_control, bits) = header_reading::take_bit(bits);
    let (constrained_intra, bits) = header_reading::take_bit(bits);
    let (redundant_pictures, bits) = header_reading::take_bit(bits);
    let (transform_8x8, bits) = header_reading::take_bit(bits);
    (
        PpsHead {
            id,
            sequence_set,
            arithmetic_coding,
            bottom_field_order,
            slice_groups_minus1,
            l0_default_minus1,
            l1_default_minus1,
            weighted,
            weighted_both,
            init_qp_minus26,
            init_qs_minus26,
            chroma_offset,
            deblocking_control,
            constrained_intra,
            redundant_pictures,
            transform_8x8,
        },
        bits,
    )
}

/// What was written in front of the lists.
pub open spec fn head_of(init_qp: int, offset: int) -> PpsHead {
    PpsHead {
        id: 0,
        sequence_set: 0,
        arithmetic_coding: false,
        bottom_field_order: false,
        slice_groups_minus1: 0,
        l0_default_minus1: 0,
        l1_default_minus1: 0,
        weighted: true,
        weighted_both: 1,
        init_qp_minus26: init_qp - 26,
        init_qs_minus26: 0,
        chroma_offset: offset,
        deblocking_control: true,
        constrained_intra: false,
        redundant_pictures: false,
        transform_8x8: true,
    }
}

/// What stands in front of the lists reads back.
proof fn lemma_take_head(init_qp: int, offset: int, rest: Seq<bool>) -> (bits: Seq<bool>)
    ensures
        params::pps_head_bits(init_qp, offset) + rest == bits,
        take_head(bits) == (head_of(init_qp, offset), rest),
{
    reveal(params::pps_head_bits);
    power2::lemma2_to64();
    let p0 = Seq::<bool>::empty();
    let p1 = p0 + bitwriter::ue_code(0);
    let p2 = p1 + bitwriter::ue_code(0);
    let p3 = p2 + bitwriter::bit(false);
    let p4 = p3 + bitwriter::bit(false);
    let p5 = p4 + bitwriter::ue_code(0);
    let p6 = p5 + bitwriter::ue_code(0);
    let p7 = p6 + bitwriter::ue_code(0);
    let p8 = p7 + bitwriter::bit(true);
    let p9 = p8 + bitwriter::digits(1, 2);
    let p10 = p9 + bitwriter::se_code(init_qp - 26);
    let p11 = p10 + bitwriter::se_code(0);
    let p12 = p11 + bitwriter::se_code(offset);
    let p13 = p12 + bitwriter::bit(true);
    let p14 = p13 + bitwriter::bit(false);
    let p15 = p14 + bitwriter::bit(false);
    let r16 = rest;
    let r15 = bitwriter::bit(true) + r16;
    let r14 = bitwriter::bit(false) + r15;
    let r13 = bitwriter::bit(false) + r14;
    let r12 = bitwriter::bit(true) + r13;
    let r11 = bitwriter::se_code(offset) + r12;
    let r10 = bitwriter::se_code(0) + r11;
    let r9 = bitwriter::se_code(init_qp - 26) + r10;
    let r8 = bitwriter::digits(1, 2) + r9;
    let r7 = bitwriter::bit(true) + r8;
    let r6 = bitwriter::ue_code(0) + r7;
    let r5 = bitwriter::ue_code(0) + r6;
    let r4 = bitwriter::ue_code(0) + r5;
    let r3 = bitwriter::bit(false) + r4;
    let r2 = bitwriter::bit(false) + r3;
    let r1 = bitwriter::ue_code(0) + r2;
    let r0 = bitwriter::ue_code(0) + r1;
    lemma_next_bit(p15, true, r16);
    lemma_next_bit(p14, false, r15);
    lemma_next_bit(p13, false, r14);
    lemma_next_bit(p12, true, r13);
    lemma_next_se(p11, offset, r12);
    lemma_next_se(p10, 0, r11);
    lemma_next_se(p9, init_qp - 26, r10);
    lemma_next_digits(p8, 1, 2, r9);
    lemma_next_bit(p7, true, r8);
    lemma_next_ue(p6, 0, r7);
    lemma_next_ue(p5, 0, r6);
    lemma_next_ue(p4, 0, r5);
    lemma_next_bit(p3, false, r4);
    lemma_next_bit(p2, false, r3);
    lemma_next_ue(p1, 0, r2);
    lemma_next_ue(p0, 0, r1);
    assert(p0 + r0 =~= r0);
    r0
}

/// A scaling list of `size` values, where there is one.
pub open spec fn take_scaling(bits: Seq<bool>, size: nat) -> (Option<Seq<int>>, Seq<bool>) {
    let (told, bits) = header_reading::take_bit(bits);
    if told {
        let (values, used) = reading::read_scaling_list(bits, size);
        (Some(values), bits.skip(used))
    } else {
        (None, bits)
    }
}

/// The first `n` of the 4x4 lists.
pub open spec fn take_small_lists(bits: Seq<bool>, n: nat) -> (Seq<Seq<int>>, Seq<bool>)
    decreases n,
{
    if n == 0 {
        (seq![], bits)
    } else {
        let (before, bits) = take_small_lists(bits, (n - 1) as nat);
        let (last, bits) = take_scaling(bits, 16);
        (before.push(last->Some_0), bits)
    }
}

/// A scaling list in the order of the scan.
pub open spec fn scanned(list: Seq<i32>) -> Seq<int> {
    Seq::new(list.len(), |j: int| list[params::scaling_scan(list.len())[j] as int] as int)
}

/// A scaling list reads back.
proof fn lemma_take_scaling(list: Seq<i32>, rest: Seq<bool>)
    requires
        params::is_scaling_list(list),
        list.len() == 16 || list.len() == 64,
    ensures
        take_scaling(
            bitwriter::bit(true) + (params::scaling_list_bits(list, list.len()) + rest),
            list.len(),
        ) == (Some(scanned(list)), rest),
{
    let code = params::scaling_list_bits(list, list.len());
    header_reading::lemma_take_bit(true, code + rest);
    reading::law_scaling_lists_read_back(list, list.len(), rest);
    assert((code + rest).skip(code.len() as int) =~= rest);
}

/// The 4x4 lists read back behind whatever was written before.
proof fn lemma_take_small_lists(before: Seq<bool>, n: nat, rest: Seq<bool>) -> (bits: Seq<bool>)
    ensures
        params::with_flat_lists(before, n) + rest == before + bits,
        take_small_lists(bits, n) == (
            Seq::new(n, |k: int| scanned(params::FLAT_4X4@)),
            rest,
        ),
    decreases n,
{
    if n == 0 {
        assert(Seq::new(n, |k: int| scanned(params::FLAT_4X4@)) =~= seq![]);
        rest
    } else {
        let code = params::scaling_list_bits(params::FLAT_4X4@, 16);
        let one = bitwriter::bit(true);
        let front = params::with_flat_lists(before, (n - 1) as nat);
        lemma_moved(front + one, code, rest);
        lemma_moved(front, one, code + rest);
        assert(params::is_scaling_list(params::FLAT_4X4@));
        lemma_take_scaling(params::FLAT_4X4@, rest);
        let bits = lemma_take_small_lists(before, (n - 1) as nat, one + (code + rest));
        assert(Seq::new((n - 1) as nat, |k: int| scanned(params::FLAT_4X4@)).push(
            scanned(params::FLAT_4X4@),
        ) =~= Seq::new(n, |k: int| scanned(params::FLAT_4X4@)));
        bits
    }
}

/// An 8x8 list that was written.
pub open spec fn list_of(list: Option<&[i32; 64]>) -> Option<Seq<int>> {
    match list {
        Some(l) => Some(scanned(l@)),
        None => None,
    }
}

/// An 8x8 list reads back behind whatever was written before.
proof fn lemma_take_list(before: Seq<bool>, list: Option<&[i32; 64]>, rest: Seq<bool>) -> (bits:
    Seq<bool>)
    requires
        list is Some ==> params::is_scaling_list(list->Some_0@),
    ensures
        params::with_list(before, list) + rest == before + bits,
        take_scaling(bits, 64) == (list_of(list), rest),
{
    match list {
        Some(l) => {
            let one = bitwriter::bit(true);
            let code = params::scaling_list_bits(l@, 64);
            lemma_moved(before + one, code, rest);
            lemma_moved(before, one, code + rest);
            lemma_take_scaling(l@, rest);
            one + (code + rest)
        },
        None => {
            lemma_next_bit(before, false, rest);
            bitwriter::bit(false) + rest
        },
    }
}

/// What a decoder reads from a picture parameter set, and what stands behind it.
pub open spec fn read_pps(bits: Seq<bool>) -> (PpsRead, Seq<bool>) {
    let (head, bits) = take_head(bits);
    let (told, bits) = header_reading::take_bit(bits);
    let (lists, bits) = if told {
        let (small, bits) = take_small_lists(bits, 6);
        let (intra, bits) = take_scaling(bits, 64);
        let (inter, bits) = take_scaling(bits, 64);
        (Some((small, intra, inter)), bits)
    } else {
        (None, bits)
    };
    let (second_chroma_offset, bits) = header_reading::take_se(bits);
    (PpsRead { head, lists, second_chroma_offset }, bits)
}

/// What a picture parameter set was written to say.
pub open spec fn pps_of(cfg: PpsConfig<'_>) -> PpsRead {
    PpsRead {
        head: head_of(cfg.init_qp as int, cfg.chroma_qp_index_offset as int),
        lists: if cfg.scaling_8x8_intra is Some || cfg.scaling_8x8_inter is Some {
            Some(
                (
                    Seq::new(6, |k: int| scanned(params::FLAT_4X4@)),
                    list_of(cfg.scaling_8x8_intra),
                    list_of(cfg.scaling_8x8_inter),
                ),
            )
        } else {
            None
        },
        second_chroma_offset: cfg.chroma_qp_index_offset as int,
    }
}

/// A decoder reads a picture parameter set as it was written: the flat 4x4 lists and the
/// quantiser matrices among the rest.
pub proof fn law_picture_sets_read_back(cfg: PpsConfig<'_>, rest: Seq<bool>)
    requires
        cfg.scaling_8x8_intra is Some ==> params::is_scaling_list(cfg.scaling_8x8_intra->Some_0@),
        cfg.scaling_8x8_inter is Some ==> params::is_scaling_list(cfg.scaling_8x8_inter->Some_0@),
    ensures
        read_pps(params::pps_bits(cfg) + rest) == (pps_of(cfg), rest),
{
    let init_qp = cfg.init_qp as int;
    let offset = cfg.chroma_qp_index_offset as int;
    let head = params::pps_head_bits(init_qp, offset);
    let any = cfg.scaling_8x8_intra is Some || cfg.scaling_8x8_inter is Some;
    let b1 = head + bitwriter::bit(any);
    let b2 = if any {
        params::with_list(
            params::with_list(params::with_flat_lists(b1, 6), cfg.scaling_8x8_intra),
            cfg.scaling_8x8_inter,
        )
    } else {
        b1
    };
    lemma_next_se(b2, offset, rest);
    let r3 = bitwriter::se_code(offset) + rest;
    let r0 = if any {
        let small = params::with_flat_lists(b1, 6);
        let both = params::with_list(small, cfg.scaling_8x8_intra);
        let r2 = lemma_take_list(both, cfg.scaling_8x8_inter, r3);
        let r1 = lemma_take_list(small, cfg.scaling_8x8_intra, r2);
        lemma_take_small_lists(b1, 6, r1)
    } else {
        r3
    };
    lemma_next_bit(head, any, r0);
    let bits = lemma_take_head(init_qp, offset, bitwriter::bit(any) + r0);
}

/// A decoder that takes the unit of a picture parameter set apart reads what it was
/// written to say.
pub proof fn law_picture_units_read_back(cfg: PpsConfig<'_>)
    requires
        cfg.scaling_8x8_intra is Some ==> params::is_scaling_list(cfg.scaling_8x8_intra->Some_0@),
        cfg.scaling_8x8_inter is Some ==> params::is_scaling_list(cfg.scaling_8x8_inter->Some_0@),
    ensures
        read_pps(
            reading::payload_bits(
                nal::nal_unit(params::closed_rbsp(params::pps_bits(cfg)), 3, nal_type::PPS as int),
            ),
        ).0 == pps_of(cfg),
{
    let bits = params::pps_bits(cfg);
    reading::law_units_carry_their_bits(bits, 3, nal_type::PPS as int);
    law_picture_sets_read_back(cfg, bitwriter::trailing(bits.len()));
}

} // verus!
