//! What the macroblocks of a slice say, and what they leave for those behind them.
use crate::bits;
use crate::error::Error;
use crate::mpeg2::block::MotionSpec;
use crate::mpeg2::coding;
use crate::mpeg2::headers::{PictureView, Slice};
use crate::mpeg2::macroblock;
use crate::mpeg2::macroblock::{MacroblockView, MotionView, SliceStateView};
use crate::mpeg2::vlc::VlcTable;
use vstd::arithmetic::power2;
use vstd::prelude::*;

verus! {

/// What stands between the type of a macroblock and its vectors: two bits of motion type
/// where it moves, one of DCT type where it has blocks, in a frame that leaves both open,
/// and five of quantiser scale where it brings its own. A frame that settles them has frame
/// motion and frame DCT; fields have no DCT type. What is not there does not move the
/// cursor.
pub proof fn law_modes_are_read_in_order(
    data: Seq<u8>,
    pos: nat,
    pic: PictureView,
    flags: i32,
    before: u32,
)
    requires
        pos + 8 <= 8 * data.len(),
    ensures
        ({
            let (end, motion, dct, scale) = macroblock::modes_at(data, pos, pic, flags, before);
            let frame = pic.coding.picture_structure is Frame;
            let settled = frame && pic.coding.frame_pred_frame_dct;
            let intra = flags & 1 != 0;
            let moves = flags & 12 != 0 || (intra && pic.coding.concealment_motion_vectors);
            let blocks = intra || flags & 2 != 0;
            let a = if moves && !settled {
                2int
            } else {
                0
            };
            let b = if frame && !settled && blocks {
                1int
            } else {
                0
            };
            let c = if flags & 16 != 0 {
                5int
            } else {
                0
            };
            &&& end == pos + a + b + c
            &&& a == 2 ==> motion == bits::bits(data, pos as int, 2)
            &&& !moves ==> motion == 0
            &&& moves && settled ==> motion == 2
            &&& b == 1 ==> dct == bits::bits(data, pos + a, 1)
            &&& b == 0 ==> dct == 0
            &&& c == 5 ==> scale == bits::bits(data, pos + a + b, 5)
            &&& c == 0 ==> scale == before
        }),
{
    reveal(macroblock::modes_at);
    power2::lemma2_to64();
    assert(8i32 | 4i32 == 12i32) by (bit_vector);
    bits::lemma_bits_bound(data, pos as int, 2);
    bits::lemma_bits_bound(data, pos as int, 1);
    bits::lemma_bits_bound(data, pos as int + 2, 1);
    bits::lemma_bits_bound(data, pos as int, 5);
    bits::lemma_bits_bound(data, pos as int + 1, 5);
    bits::lemma_bits_bound(data, pos as int + 2, 5);
    bits::lemma_bits_bound(data, pos as int + 3, 5);
}

/// A vector is written as its horizontal difference and then its vertical one, each with the
/// `f_code` of its own direction and axis, and arrives as the prediction moved by them. A
/// bit in front says which field is meant where there are two vectors or one of a field.
/// Vertical components of field vectors in frame pictures are predicted by half of what is
/// kept, and kept doubled.
pub proof fn law_a_vector_arrives(
    data: Seq<u8>,
    pos: nat,
    after_x: nat,
    at_y: nat,
    after_y: nat,
    pic: PictureView,
    format: MotionSpec,
    s: int,
    v: int,
    motion: MotionView,
    dx: int,
    dy: int,
)
    requires
        0 <= s < 2,
        0 <= v < 2,
        motion.pmv.len() == 8 && motion.mv.len() == 8 && motion.field_select.len() == 4,
        motion.dmvector.len() == 2,
        !format.dmv,
        pos + 1 <= 8 * data.len(),
        pic.coding.f_code@.len() == 2,
        1 <= pic.coding.f_code@[s]@[0] < 16,
        1 <= pic.coding.f_code@[s]@[1] < 16,
        ({
            let selects = format.count == 2 || format.field_format;
            let at_x = if selects {
                pos + 1
            } else {
                pos
            };
            let fx = power2::pow2((pic.coding.f_code@[s]@[0] - 1) as nat) as int;
            let fy = power2::pow2((pic.coding.f_code@[s]@[1] - 1) as nat) as int;
            let kept = motion.pmv[4 * v + 2 * s + 1] as int;
            let predicted = if format.field_format && pic.coding.picture_structure is Frame {
                kept / 2
            } else {
                kept
            };
            &&& coding::component_stands(data, at_x, after_x, at_y as int, pic.coding.f_code@[s]@[0], dx)
            &&& coding::component_stands(
                data,
                at_y,
                after_y,
                coding::component_end(after_y, pic.coding.f_code@[s]@[1], dy),
                pic.coding.f_code@[s]@[1],
                dy,
            )
            &&& -16 * fx <= motion.pmv[4 * v + 2 * s] <= 16 * fx - 1
            &&& -16 * fy <= predicted <= 16 * fy - 1
        }),
    ensures
        ({
            let (end, outcome) = macroblock::vector_at(data, pos, pic, format, s, v, motion);
            let fx = power2::pow2((pic.coding.f_code@[s]@[0] - 1) as nat) as int;
            let fy = power2::pow2((pic.coding.f_code@[s]@[1] - 1) as nat) as int;
            let i = 4 * v + 2 * s;
            let kept = motion.pmv[i + 1] as int;
            let halves = format.field_format && pic.coding.picture_structure is Frame;
            let predicted = if halves {
                kept / 2
            } else {
                kept
            };
            &&& outcome is Ok
            &&& end == coding::component_end(after_y, pic.coding.f_code@[s]@[1], dy)
            &&& ({
                let after = outcome->Ok_0;
                &&& coding::arrives(after.mv[i] as int, motion.pmv[i] + dx, fx)
                &&& coding::arrives(after.mv[i + 1] as int, predicted + dy, fy)
                &&& after.pmv[i] == after.mv[i]
                &&& after.pmv[i + 1] == if halves {
                    2 * after.mv[i + 1]
                } else {
                    after.mv[i + 1] as int
                }
                &&& forall|j: int|
                    0 <= j < 8 && j != i && j != i + 1 ==> after.mv[j] == motion.mv[j]
                        && #[trigger] after.pmv[j] == motion.pmv[j]
                &&& forall|j: int|
                    0 <= j < 4 && (j != 2 * v + s || !(format.count == 2 || format.field_format))
                        ==> #[trigger] after.field_select[j] == motion.field_select[j]
                &&& format.count == 2 || format.field_format ==> after.field_select[2 * v + s]
                    == bits::bits(data, pos as int, 1)
                &&& after.dmvector == motion.dmvector
                &&& after.mv_count == motion.mv_count
            })
        }),
{
    reveal(macroblock::vector_at);
    power2::lemma2_to64();
    bits::lemma_bits_bound(data, pos as int, 1);
    let i = 4 * v + 2 * s;
    let selects = format.count == 2 || format.field_format;
    let at_x: nat = if selects {
        pos + 1
    } else {
        pos
    };
    let halves = format.field_format && pic.coding.picture_structure is Frame;
    let f0 = pic.coding.f_code@[s]@[0];
    let f1 = pic.coding.f_code@[s]@[1];
    assert(macroblock::f_code_of(pic, i) == f0) by {
        assert((i / 2) % 2 == s);
        assert(i % 2 == 0);
    }
    assert(macroblock::f_code_of(pic, i + 1) == f1) by {
        assert(((i + 1) / 2) % 2 == s);
        assert((i + 1) % 2 == 1);
    }
    coding::law_a_difference_decodes_to_itself(data, at_x, after_x, f0, motion.pmv[i], false, dx);
    coding::law_a_difference_decodes_to_itself(
        data,
        at_y,
        after_y,
        f1,
        motion.pmv[i + 1],
        halves,
        dy,
    );
    let after = macroblock::vector_at(data, pos, pic, format, s, v, motion).1->Ok_0;
    assert(after.dmvector =~= motion.dmvector);
}

/// The predictors start from zero where a macroblock is intra and conceals nothing, and in a
/// P picture where it has no forward vector; elsewhere they are those of the macroblock
/// before.
pub proof fn law_predictors_start_over(pic: PictureView, flags: i32, pmv: Seq<i32>, i: int)
    requires
        pmv.len() == 8,
        0 <= i < 8,
    ensures
        ({
            let start = macroblock::starting_predictors(pic, flags, pmv);
            let intra = flags & 1 != 0;
            let forward = flags & 8 != 0;
            let over = if intra {
                !pic.coding.concealment_motion_vectors
            } else {
                pic.header.picture_coding_type is P && !forward
            };
            &&& over ==> start[i] == 0
            &&& !over ==> start[i] == pmv[i]
        }),
{
}

/// A skipped macroblock has no blocks and brings no quantiser scale. In a P picture it does
/// not move. In a B picture it goes in the directions of the macroblock before it, by the
/// vectors that predict the first: in a frame as a frame, in a field as a field of the same
/// parity.
pub proof fn law_skipped_macroblocks_repeat(
    pic: PictureView,
    state: SliceStateView,
    address: usize,
    i: int,
)
    requires
        state.pmv.len() == 8,
        0 <= i < 8,
    ensures
        ({
            let mb = macroblock::skipped_macroblock(pic, state, address);
            let frame = pic.coding.picture_structure is Frame;
            &&& mb.skipped
            &&& mb.address == address
            &&& mb.quantiser_scale_code == state.quantiser_scale_code
            &&& mb.cbp == 0 && mb.dct_type == 0 && mb.mv_count == 1
            &&& forall|k: int| 0 <= k < 6 ==> (#[trigger] mb.blocks[k]) is None
            &&& forall|k: int| 0 <= k < 4 ==> #[trigger] mb.field_select[k] == 0
            &&& pic.header.picture_coding_type is P ==> mb.flags == 0 && mb.mv[i] == 0
                && mb.motion_type == 0
            &&& pic.header.picture_coding_type is B && state.prev_flags is Some ==> ({
                let flags = state.prev_flags->Some_0;
                &&& mb.flags & 8 != 0 <==> flags & 8 != 0
                &&& mb.flags & 4 != 0 <==> flags & 4 != 0
                &&& mb.flags & 19 == 0
                &&& mb.motion_type == if frame {
                    2int
                } else {
                    1
                }
                &&& i < 2 && (flags & 8 != 0 || !frame) ==> mb.mv[i] == state.pmv[i]
                &&& 2 <= i < 4 && (flags & 4 != 0 || !frame) ==> mb.mv[i] == state.pmv[i]
                &&& frame && i < 2 && flags & 8 == 0 ==> mb.mv[i] == 0
                &&& frame && 2 <= i < 4 && flags & 4 == 0 ==> mb.mv[i] == 0
                &&& i >= 4 ==> mb.mv[i] == 0
            })
        }),
{
    if pic.header.picture_coding_type is B && state.prev_flags is Some {
        let flags = state.prev_flags->Some_0;
        lemma_directions(flags);
    }
}

/// The directions among the flags of a macroblock.
proof fn lemma_directions(flags: i32)
    ensures
        (flags & (8i32 | 4i32)) & 8 == flags & 8,
        (flags & (8i32 | 4i32)) & 4 == flags & 4,
        (flags & (8i32 | 4i32)) & 19 == 0,
{
    assert((flags & (8i32 | 4i32)) & 8 == flags & 8 && (flags & (8i32 | 4i32)) & 4 == flags & 4 && (
    flags & (8i32 | 4i32)) & 19 == 0) by (bit_vector);
}

/// Skipping resets the DC predictors, and in a P picture the vector predictors; in a B
/// picture those stay, and so do the quantiser scale and the directions in either.
pub proof fn law_skipping_starts_over(pic: PictureView, state: SliceStateView, i: int, c: int)
    requires
        state.pmv.len() == 8,
        0 <= i < 8,
        0 <= c < 3,
    ensures
        ({
            let after = macroblock::state_after_skip(pic, state);
            &&& after.dc_pred[c] == state.dc_pred_reset
            &&& pic.header.picture_coding_type is P ==> after.pmv[i] == 0
            &&& pic.header.picture_coding_type is B ==> after.pmv[i] == state.pmv[i]
            &&& after.quantiser_scale_code == state.quantiser_scale_code
            &&& after.prev_flags == state.prev_flags
            &&& after.dc_pred_reset == state.dc_pred_reset
        }),
{
}

/// A slice starts with the quantiser scale of its header, without motion, and with the DC
/// predictors at the middle of their range: 128 at eight bits of precision, twice that for
/// each bit more.
pub proof fn law_slices_start_afresh(pic: PictureView, slice: Slice, i: int, c: int)
    requires
        0 <= i < 8,
        0 <= c < 3,
        pic.coding.intra_dc_precision < 4,
    ensures
        ({
            let start = macroblock::slice_start(pic, slice);
            let middle = if pic.coding.intra_dc_precision == 0 {
                128int
            } else if pic.coding.intra_dc_precision == 1 {
                256
            } else if pic.coding.intra_dc_precision == 2 {
                512
            } else {
                1024
            };
            &&& start.quantiser_scale_code == slice.quantiser_scale_code
            &&& start.dc_pred[c] == middle
            &&& start.dc_pred_reset == middle
            &&& start.pmv[i] == 0
            &&& start.prev_flags is None
        }),
{
    power2::lemma2_to64();
    let p = pic.coding.intra_dc_precision;
    assert(p == 0 || p == 1 || p == 2 || p == 3);
}

/// Whether `n` address escapes stand one behind the other, the first at the first of the
/// `marks` and what follows the last at the last.
pub open spec fn escapes_stand(data: Seq<u8>, marks: Seq<nat>) -> bool {
    &&& marks.len() > 0
    &&& forall|k: int|
        0 <= k < marks.len() - 1 ==> #[trigger] VlcTable::AddressIncrement.decoded(data, marks[k])
            == (marks[k + 1], Ok::<i32, Error>(34i32))
    &&& forall|k: int|
        0 <= k < marks.len() ==> #[trigger] bits::bits(data, marks[k] as int, 23) != 0
}

/// Each escape in front of an address increment adds 33 to it.
pub proof fn law_escapes_add_thirty_three(
    data: Seq<u8>,
    marks: Seq<nat>,
    end: nat,
    increment: int,
    sum: int,
)
    requires
        escapes_stand(data, marks),
        1 <= increment <= 33,
        VlcTable::AddressIncrement.decoded(data, marks.last()) == (
            end,
            Ok::<i32, Error>(increment as i32),
        ),
    ensures
        macroblock::address_increment_at(data, marks[0], false, sum) == (
            end,
            Ok::<Option<int>, Error>(Some(sum + 33 * (marks.len() - 1) + increment)),
        ),
    decreases marks.len(),
{
    assert(bits::bits(data, marks[0] as int, 23) != 0);
    if marks.len() > 1 {
        let rest = marks.skip(1);
        assert(VlcTable::AddressIncrement.decoded(data, marks[0]) == (
            marks[1],
            Ok::<i32, Error>(34i32),
        ));
        assert forall|k: int| 0 <= k < rest.len() - 1 implies #[trigger] VlcTable::AddressIncrement.decoded(
            data,
            rest[k],
        ) == (rest[k + 1], Ok::<i32, Error>(34i32)) by {
            assert(rest[k] == marks[k + 1]);
            assert(rest[k + 1] == marks[k + 2]);
        }
        assert forall|k: int| 0 <= k < rest.len() implies #[trigger] bits::bits(
            data,
            rest[k] as int,
            23,
        ) != 0 by {
            assert(rest[k] == marks[k + 1]);
        }
        law_escapes_add_thirty_three(data, rest, end, increment, sum + 33);
        assert(rest[0] == marks[1]);
    }
}

/// Twenty-three zero bits end the macroblocks of a slice; behind an escape they are an error.
pub proof fn law_zeros_end_a_slice(data: Seq<u8>, pos: nat, sum: int)
    requires
        bits::bits(data, pos as int, 23) == 0,
    ensures
        macroblock::address_increment_at(data, pos, false, sum).0 == pos,
        sum == 0 ==> macroblock::address_increment_at(data, pos, false, sum).1 == Ok::<
            Option<int>,
            Error,
        >(None),
        sum != 0 ==> macroblock::address_increment_at(data, pos, false, sum).1 is Err,
{
}

/// Vectors in whole samples, which MPEG-1 may have for either direction, come out in half
/// samples; those of the other direction, and all of MPEG-2, stay as they are. Component
/// `[r][s][t]` is number `4 * r + 2 * s + t`.
pub proof fn law_full_samples_are_two_halves(
    mb: MacroblockView,
    pic: PictureView,
    r: int,
    s: int,
    t: int,
)
    requires
        mb.mv.len() == 8,
        0 <= r < 2,
        0 <= s < 2,
        0 <= t < 2,
        -0x4000_0000 <= mb.mv[4 * r + 2 * s + t] < 0x4000_0000,
    ensures
        ({
            let i = 4 * r + 2 * s + t;
            let full = pic.is_mpeg1 && if s == 0 {
                pic.header.full_pel_forward_vector
            } else {
                pic.header.full_pel_backward_vector
            };
            let after = macroblock::normalized(mb, pic);
            &&& full ==> after.mv[i] == 2 * mb.mv[i]
            &&& !full ==> after.mv[i] == mb.mv[i]
            &&& after == MacroblockView { mv: after.mv, ..mb }
        }),
{
}

/// A macroblock that is not intra leaves the DC predictors at their reset value; an intra one
/// has all its blocks. The address is the one that was asked for.
pub proof fn law_only_intra_predicts_dc(
    data: Seq<u8>,
    pos: nat,
    pic: PictureView,
    state: SliceStateView,
    address: usize,
    c: int,
)
    requires
        0 <= c < 3,
    ensures
        ({
            let outcome = macroblock::macroblock_at(data, pos, pic, state, address);
            outcome.written matches Some(mb) ==> {
                &&& mb.address == address
                &&& !mb.skipped
                &&& mb.flags & 1 == 0 ==> outcome.state.dc_pred[c] == state.dc_pred_reset
                &&& mb.flags & 1 != 0 ==> mb.cbp == 63
                &&& mb.quantiser_scale_code == outcome.state.quantiser_scale_code
                &&& outcome.state.dc_pred_reset == state.dc_pred_reset
            }
        }),
{
    reveal(macroblock::macroblock_at);
}

/// The row of a slice says which macroblock its first increment counts from: increment one is
/// the first macroblock of the row.
pub proof fn law_slices_begin_their_rows(
    data: Seq<u8>,
    pic: PictureView,
    slice: Slice,
    mb_width: int,
    grid: Seq<Option<MacroblockView>>,
)
    requires
        slice.data_start_bit <= 8 * data.len(),
        slice.vertical_position >= 1,
    ensures
        macroblock::slice_decoded(data, pic, slice, mb_width, grid) == macroblock::macroblocks_at(
            data,
            slice.data_start_bit as nat,
            pic,
            macroblock::slice_start(pic, slice),
            mb_width * (slice.vertical_position - 1) - 1,
            grid,
        ),
{
    assert((slice.vertical_position - 1) * mb_width == mb_width * (slice.vertical_position - 1))
        by (nonlinear_arith);
}

} // verus!
