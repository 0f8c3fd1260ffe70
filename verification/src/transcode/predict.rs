//! How the macroblocks of the source are predicted in H.264.
use crate::h264::mb::b_mb_type;
use crate::h264::mvmap;
use crate::h264::mvmap::{map_vector, native_position, MappedVector, VectorKind};
use crate::job::RefLayout;
use crate::mpeg2::block;
use crate::mpeg2::constants::mb_flag;
use crate::mpeg2::macroblock;
use crate::mpeg2::macroblock::{Macroblock, MacroblockView};
use crate::mpeg2::motion_type;
use crate::transcode::options;
use crate::transcode::options::Stats;
use vstd::prelude::*;

verus! {

/// How one macroblock is predicted, once the source's motion has been mapped.
#[derive(Clone, Copy, Debug, PartialEq, Eq)]
pub struct Prediction {
    pub mb_type: u32,
    pub ref_idx_l0: i32,
    pub ref_idx_l1: i32,
    pub mv_l0: [i32; 2],
    pub mv_l1: [i32; 2],
}

/// The index of a list that is not used.
pub const NO_REFERENCE: i32 = -1;

/// The indices are ones that a list can have.
pub open spec fn layout_small(layout: RefLayout) -> bool {
    &&& 0 <= layout.count <= 64
    &&& -1 <= layout.fwd_l0 <= 64
    &&& -1 <= layout.fwd_l1 <= 64
    &&& -1 <= layout.bwd_l0 <= 64
    &&& -1 <= layout.bwd_l1 <= 64
    &&& 0 <= layout.flat <= 64
}

/// A macroblock that is there has vectors that the syntax can express.
pub open spec fn source_small(mb: Option<&Macroblock>) -> bool {
    mb matches Some(m) ==> macroblock::motion_small(m@)
}

/// The macroblock that is there.
pub open spec fn source_view(mb: Option<&Macroblock>) -> Option<MacroblockView> {
    match mb {
        Some(m) => Some(m@),
        None => None,
    }
}

/// A prediction from list 0 alone.
pub open spec fn from_l0(ref_idx: int, mv: [i32; 2]) -> Prediction {
    Prediction {
        mb_type: b_mb_type::L0_16X16,
        ref_idx_l0: ref_idx as i32,
        ref_idx_l1: NO_REFERENCE,
        mv_l0: mv,
        mv_l1: [0, 0],
    }
}

/// A prediction from list 1 alone.
pub open spec fn from_l1(ref_idx: int, mv: [i32; 2]) -> Prediction {
    Prediction {
        mb_type: b_mb_type::L1_16X16,
        ref_idx_l0: NO_REFERENCE,
        ref_idx_l1: ref_idx as i32,
        mv_l0: [0, 0],
        mv_l1: mv,
    }
}

/// A prediction from both lists.
pub open spec fn from_both(l0: int, l1: int, mv_l0: [i32; 2], mv_l1: [i32; 2]) -> Prediction {
    Prediction {
        mb_type: b_mb_type::BI_16X16,
        ref_idx_l0: l0 as i32,
        ref_idx_l1: l1 as i32,
        mv_l0,
        mv_l1,
    }
}

/// The position of a vector, in quarter samples.
pub open spec fn native(x: i32, y: i32) -> [i32; 2] {
    [(2 * x) as i32, (2 * y) as i32]
}

/// The macroblock is predicted from the picture that follows it.
pub open spec fn goes_backward(mb: MacroblockView, layout: RefLayout) -> bool {
    layout.bwd_l0 >= 0 && macroblock::has_flag(mb.flags, mb_flag::MOTION_BACKWARD)
}

/// The macroblock is predicted from the picture before it.
pub open spec fn goes_forward(mb: MacroblockView, layout: RefLayout) -> bool {
    macroblock::has_flag(mb.flags, mb_flag::MOTION_FORWARD) || !goes_backward(mb, layout)
}

/// One vector of this kind is counted.
pub open spec fn one_vector(kind: VectorKind) -> Stats {
    match kind {
        VectorKind::Integer => Stats { integer_vectors: 1, ..options::no_counts() },
        VectorKind::HalfOneAxis => Stats { single_axis_half_vectors: 1, ..options::no_counts() },
        VectorKind::HalfBothAxes => Stats { both_axis_half_vectors: 1, ..options::no_counts() },
    }
}

/// One macroblock whose two predictions are both spoken for is counted.
pub open spec fn one_bidirectional() -> Stats {
    Stats { bidirectional_vectors: 1, ..options::no_counts() }
}

/// Count a vector.
fn count_vector(kind: VectorKind, stats: &mut Stats)
    requires
        old(stats).within(u64::MAX - 1),
    ensures
        *final(stats) == old(stats).plus(one_vector(kind)),
{
    match kind {
        VectorKind::Integer => {
            stats.integer_vectors = stats.integer_vectors + 1;
        },
        VectorKind::HalfOneAxis => {
            stats.single_axis_half_vectors = stats.single_axis_half_vectors + 1;
        },
        VectorKind::HalfBothAxes => {
            stats.both_axis_half_vectors = stats.both_axis_half_vectors + 1;
        },
    }
}

/// The vector of one direction in frame lines.
pub open spec fn frame_vector_of(mb: MacroblockView, backward: bool) -> (i32, i32) {
    let base: int = if backward {
        2
    } else {
        0
    };
    if mb.motion_type != motion_type::FIELD || mb.mv_count < 2 {
        (mb.mv[base], mb.mv[base + 1])
    } else {
        (
            ((mb.mv[base] + mb.mv[base + 4] + 1) / 2) as i32,
            (mb.mv[base + 1] + mb.mv[base + 5]) as i32,
        )
    }
}

/// The vector of one direction, in half samples. A frame-picture field
/// prediction carries one vector for each field; the macroblock is coded as a
/// single 16x16 partition, so the centre of the two predictions
/// is used. MPEG-2 vertical field vectors count field lines and therefore become
/// twice as large in frame-line coordinates.
pub fn frame_vector(mb: &Macroblock, backward: bool) -> (vector: [i32; 2])
    requires
        macroblock::motion_small(mb@),
    ensures
        vector == [frame_vector_of(mb@, backward).0, frame_vector_of(mb@, backward).1],
        -0x20_0000 <= vector[0] <= 0x20_0000,
        -0x20_0000 <= vector[1] <= 0x20_0000,
{
    let base: usize = if backward {
        2
    } else {
        0
    };
    let x: i32 = mb.mv[base];
    let y: i32 = mb.mv[base + 1];
    assert(-0x10_0000 <= mb@.mv[base as int] <= 0x10_0000);
    assert(-0x10_0000 <= mb@.mv[base + 1] <= 0x10_0000);
    if mb.motion_type != motion_type::FIELD || mb.mv_count < 2 {
        return [x, y];
    }
    assert(-0x10_0000 <= mb@.mv[base + 4] <= 0x10_0000);
    assert(-0x10_0000 <= mb@.mv[base + 5] <= 0x10_0000);
    // Halving with the tie going up.
    [block::half_down(x + mb.mv[base + 4] + 1), y + mb.mv[base + 5]]
}

/// The nearest integer to half a number, a half-integer rounded away from zero.
pub open spec fn away_from_zero_half(value: int) -> int {
    if value < 0 {
        -((1 - value) / 2)
    } else {
        (value + 1) / 2
    }
}

/// H.262 `// 2`: nearest integer, with a half-integer rounded away from zero.
pub fn rounded_half(value: i32) -> (half: i32)
    requires
        -0x4000_0000 <= value <= 0x4000_0000,
    ensures
        half == away_from_zero_half(value as int),
{
    if value < 0 {
        -((1 - value) / 2)
    } else {
        (value + 1) / 2
    }
}

/// A number and its opposite round to opposites, and no half is further than a half
/// away.
pub proof fn law_rounding_is_symmetric(value: int)
    ensures
        away_from_zero_half(-value) == -away_from_zero_half(value),
        value % 2 == 0 ==> 2 * away_from_zero_half(value) == value,
        value % 2 != 0 && value > 0 ==> 2 * away_from_zero_half(value) == value + 1,
        value % 2 != 0 && value < 0 ==> 2 * away_from_zero_half(value) == value - 1,
{
}

/// How many field intervals the opposite-parity field lies away.
pub open spec fn field_intervals(
    predicted_field: int,
    frame_picture: bool,
    top_field_first: bool,
) -> int {
    if !frame_picture || (predicted_field == 0) == top_field_first {
        1
    } else {
        3
    }
}

/// The opposite-parity vector of dual-prime prediction.
pub open spec fn opposite_vector(
    coded: (i32, i32),
    differential: (i32, i32),
    predicted_field: int,
    frame_picture: bool,
    top_field_first: bool,
) -> (i32, i32) {
    let n = field_intervals(predicted_field, frame_picture, top_field_first);
    let parity_offset: int = if predicted_field == 0 {
        -1
    } else {
        1
    };
    (
        (away_from_zero_half(coded.0 * n) + differential.0) as i32,
        (away_from_zero_half(coded.1 * n) + parity_offset + differential.1) as i32,
    )
}

/// Derive the opposite-parity vector of dual-prime prediction (H.262
/// 7.6.3.6). The coded vector addresses the same-parity field.
pub fn dual_prime_opposite(
    coded: [i32; 2],
    differential: [i32; 2],
    predicted_field: usize,
    frame_picture: bool,
    top_field_first: bool,
) -> (opposite: [i32; 2])
    requires
        -0x100_0000 <= coded[0] <= 0x100_0000,
        -0x100_0000 <= coded[1] <= 0x100_0000,
        -0x100_0000 <= differential[0] <= 0x100_0000,
        -0x100_0000 <= differential[1] <= 0x100_0000,
        predicted_field <= 1,
    ensures
        opposite == [
            opposite_vector(
                (coded[0], coded[1]),
                (differential[0], differential[1]),
                predicted_field as int,
                frame_picture,
                top_field_first,
            ).0,
            opposite_vector(
                (coded[0], coded[1]),
                (differential[0], differential[1]),
                predicted_field as int,
                frame_picture,
                top_field_first,
            ).1,
        ],
        -0x400_0000 <= opposite[0] <= 0x400_0000,
        -0x400_0000 <= opposite[1] <= 0x400_0000,
{
    let multiplier: i32 = if frame_picture {
        match (predicted_field, top_field_first) {
            (0, true) | (1, false) => 1,
            _ => 3,
        }
    } else {
        1
    };
    assert(multiplier == field_intervals(predicted_field as int, frame_picture, top_field_first));
    let parity_offset: i32 = if predicted_field == 0 {
        -1
    } else {
        1
    };
    [
        rounded_half(coded[0] * multiplier) + differential[0],
        rounded_half(coded[1] * multiplier) + parity_offset + differential[1],
    ]
}

/// A prediction from one direction, of which `primary` and `secondary` are the same
/// picture's indices in the two lists.
pub open spec fn one_direction(
    backward: bool,
    motion: MappedVector,
    lone: int,
    primary: int,
    secondary: int,
) -> Prediction {
    match motion.b {
        Some(b) => from_both(primary, secondary, motion.a, b),
        None => if backward {
            from_l1(lone, motion.a)
        } else {
            from_l0(lone, motion.a)
        },
    }
}

/// The macroblock of a frame coded as a frame, and what is counted of it.
pub open spec fn frame_prediction(
    mb: Option<MacroblockView>,
    intra: bool,
    layout: RefLayout,
) -> (Prediction, Stats) {
    match mb {
        Some(m) if !intra => {
            let backward = goes_backward(m, layout);
            let fwd = frame_vector_of(m, false);
            let bwd = frame_vector_of(m, true);
            if goes_forward(m, layout) && backward {
                (
                    from_both(
                        layout.fwd_l0 as int,
                        layout.bwd_l1 as int,
                        native(fwd.0, fwd.1),
                        native(bwd.0, bwd.1),
                    ),
                    one_bidirectional(),
                )
            } else if backward {
                let motion = mvmap::mapped(bwd.0, bwd.1);
                (
                    one_direction(
                        true,
                        motion,
                        layout.bwd_l1 as int,
                        layout.bwd_l0 as int,
                        layout.bwd_l1 as int,
                    ),
                    one_vector(motion.kind),
                )
            } else {
                let motion = mvmap::mapped(fwd.0, fwd.1);
                (
                    one_direction(
                        false,
                        motion,
                        layout.fwd_l0 as int,
                        layout.fwd_l0 as int,
                        layout.fwd_l1 as int,
                    ),
                    one_vector(motion.kind),
                )
            }
        },
        _ => (from_l0(layout.flat as int, [0, 0]), options::no_counts()),
    }
}

pub fn prediction_for(
    mb: Option<&Macroblock>,
    intra: bool,
    layout: &RefLayout,
    stats: &mut Stats,
) -> (prediction: Prediction)
    requires
        source_small(mb),
        layout_small(*layout),
        old(stats).within(u64::MAX - 1),
    ensures
        prediction == frame_prediction(source_view(mb), intra, *layout).0,
        *final(stats) == old(stats).plus(frame_prediction(source_view(mb), intra, *layout).1),
{
    proof {
        stats.lemma_plus_nothing();
    }
    if intra || mb.is_none() {
        // Intra macroblocks take the flat prediction that stands in for H.264
        // intra prediction; see h264/slice.rs.
        return Prediction {
            mb_type: b_mb_type::L0_16X16,
            ref_idx_l0: layout.flat,
            ref_idx_l1: NO_REFERENCE,
            mv_l0: [0, 0],
            mv_l1: [0, 0],
        };
    }
    let mb: &Macroblock = mb.unwrap();
    let has_backward: bool = layout.bwd_l0 >= 0 && macroblock::flagged(
        mb.flags,
        mb_flag::MOTION_BACKWARD,
    );
    let has_forward: bool = macroblock::flagged(mb.flags, mb_flag::MOTION_FORWARD) || !has_backward;

    if has_forward && has_backward {
        // Both slots go to the two directions, leaving none for the bilinear
        // pair, so H.264 interpolates each side itself. The averaging structure
        // still matches MPEG-2's; only the sub-sample filter differs.
        stats.bidirectional_vectors = stats.bidirectional_vectors + 1;
        let fwd: [i32; 2] = frame_vector(mb, false);
        let bwd: [i32; 2] = frame_vector(mb, true);
        return Prediction {
            mb_type: b_mb_type::BI_16X16,
            ref_idx_l0: layout.fwd_l0,
            // The backward picture's index in list 1, not its index in list 0:
            // the two lists hold the same pictures in opposite orders.
            ref_idx_l1: layout.bwd_l1,
            mv_l0: native_position(fwd[0], fwd[1]),
            mv_l1: native_position(bwd[0], bwd[1]),
        };
    }
    let use_backward: bool = has_backward;
    let vector: [i32; 2] = frame_vector(mb, use_backward);
    let mapped = map_vector(vector[0], vector[1]);
    count_vector(mapped.kind, stats);

    // The bilinear pair must reach the same picture through both lists.
    let primary: i32 = if use_backward {
        layout.bwd_l0
    } else {
        layout.fwd_l0
    };
    let secondary: i32 = if use_backward {
        layout.bwd_l1
    } else {
        layout.fwd_l1
    };
    match mapped.b {
        Some(b) => Prediction {
            mb_type: b_mb_type::BI_16X16,
            ref_idx_l0: primary,
            ref_idx_l1: secondary,
            mv_l0: mapped.a,
            mv_l1: b,
        },
        None => if use_backward {
            Prediction {
                mb_type: b_mb_type::L1_16X16,
                ref_idx_l0: NO_REFERENCE,
                ref_idx_l1: layout.bwd_l1,
                mv_l0: [0, 0],
                mv_l1: mapped.a,
            }
        } else {
            Prediction {
                mb_type: b_mb_type::L0_16X16,
                ref_idx_l0: layout.fwd_l0,
                ref_idx_l1: NO_REFERENCE,
                mv_l0: mapped.a,
                mv_l1: [0, 0],
            }
        },
    }
}

/// What is counted of a macroblock whose two halves are predicted as fields.
pub open spec fn field_pair_counts(
    mb: Option<MacroblockView>,
    intra: bool,
    layout: RefLayout,
) -> Stats {
    match mb {
        Some(m) if !intra => if goes_forward(m, layout) && goes_backward(m, layout) {
            one_bidirectional()
        } else {
            let vector = frame_vector_of(m, goes_backward(m, layout));
            one_vector(mvmap::kind_of(vector.0, vector.1))
        },
        _ => options::no_counts(),
    }
}

/// Preserve vector-fidelity statistics when only field prediction is emitted.
pub fn count_field_pair_vector(
    mb: Option<&Macroblock>,
    intra: bool,
    layout: &RefLayout,
    stats: &mut Stats,
)
    requires
        source_small(mb),
        old(stats).within(u64::MAX - 1),
    ensures
        *final(stats) == old(stats).plus(field_pair_counts(source_view(mb), intra, *layout)),
{
    proof {
        stats.lemma_plus_nothing();
    }
    if intra || mb.is_none() {
        return ;
    }
    let mb: &Macroblock = mb.unwrap();
    let backward: bool = layout.bwd_l0 >= 0 && macroblock::flagged(
        mb.flags,
        mb_flag::MOTION_BACKWARD,
    );
    let forward: bool = macroblock::flagged(mb.flags, mb_flag::MOTION_FORWARD) || !backward;
    if forward && backward {
        stats.bidirectional_vectors = stats.bidirectional_vectors + 1;
        return ;
    }
    let vector: [i32; 2] = frame_vector(mb, backward);
    let kind = if vector[0] % 2 == 0 && vector[1] % 2 == 0 {
        VectorKind::Integer
    } else if vector[0] % 2 == 0 || vector[1] % 2 == 0 {
        VectorKind::HalfOneAxis
    } else {
        VectorKind::HalfBothAxes
    };
    assert(kind == mvmap::kind_of(vector[0], vector[1]));
    count_vector(kind, stats);
}

/// The vector of one direction that a field of a macroblock of a frame is predicted
/// with.
pub open spec fn pair_vector(mb: MacroblockView, field: int, direction: int) -> (i32, i32) {
    let base = (if mb.motion_type == motion_type::FIELD {
        4 * field
    } else {
        0
    }) + 2 * direction;
    (mb.mv[base], mb.mv[base + 1])
}

/// The parity of the reference field that holds the line `lines` frame lines below a
/// line of `field`.
pub open spec fn line_parity(field: int, lines: int) -> int {
    (field + lines) % 2
}

/// The parity of the reference field that a field of a macroblock of a frame is
/// predicted from: the one that the source says, or, where it gives a vector in frame
/// lines, the one that holds the line the vector reaches.
pub open spec fn pair_parity(mb: MacroblockView, field: int, direction: int) -> int {
    if mb.motion_type == motion_type::FIELD {
        mb.field_select[2 * field + direction] as int
    } else {
        line_parity(field, pair_vector(mb, field, direction).1 as int / 2)
    }
}

/// The index of a field in a list of fields, each frame's field of the same parity
/// coming first.
pub open spec fn field_index(frame_ref: int, parity: int, field: int) -> int {
    2 * frame_ref + if parity != field {
        1int
    } else {
        0
    }
}

/// The vertical vector, in quarter samples of a field, from a line of `field` to the
/// line `lines` frame lines below it, in the reference field that holds that line.
pub open spec fn line_vector(field: int, lines: int, parity: int) -> int {
    2 * (field - parity) + 2 * lines
}

/// A vector between fields reaches the frame line that it is meant to: in the reference
/// field that holds the line it moves by whole field lines, and counted in frame lines
/// it moves by as many as were asked for.
pub proof fn law_line_vector_reaches_its_line(field: int, lines: int)
    requires
        field == 0 || field == 1,
    ensures
        ({
            let parity = line_parity(field, lines);
            let vector = line_vector(field, lines, parity);
            &&& vector % 4 == 0
            &&& 2 * (vector / 4) + parity - field == lines
        }),
{
}

/// The vector of one direction, in quarter samples of the reference field.
pub open spec fn pair_native(mb: MacroblockView, field: int, direction: int) -> [i32; 2] {
    let (x, y) = pair_vector(mb, field, direction);
    if mb.motion_type == motion_type::FIELD {
        native(x, y)
    } else {
        // A frame vector's vertical half sample is one quarter sample of a field.
        [(2 * x) as i32, (y + 2 * (field - pair_parity(mb, field, direction))) as i32]
    }
}

/// The prediction of a field from a vector in frame lines that falls between samples:
/// the two samples on either side, or the two lines, each from the field that holds
/// it.
pub open spec fn between_lines(
    x: i32,
    y: i32,
    field: int,
    primary: int,
    secondary: int,
) -> Prediction {
    let d = y as int / 2;
    let p = line_parity(field, d);
    if y % 2 != 0 {
        let q = line_parity(field, d + 1);
        from_both(
            field_index(primary, p, field),
            field_index(secondary, q, field),
            [(2 * x) as i32, line_vector(field, d, p) as i32],
            [(2 * x) as i32, line_vector(field, d + 1, q) as i32],
        )
    } else {
        let x0 = 4 * (x as int / 2);
        from_both(
            field_index(primary, p, field),
            field_index(secondary, p, field),
            [x0 as i32, line_vector(field, d, p) as i32],
            [(x0 + 4) as i32, line_vector(field, d, p) as i32],
        )
    }
}

/// The prediction of one field of a macroblock of a frame.
pub open spec fn pair_prediction(
    mb: Option<MacroblockView>,
    field: int,
    top_field_first: bool,
    layout: RefLayout,
    intra: bool,
) -> Prediction {
    match mb {
        Some(m) if !intra => {
            let backward = goes_backward(m, layout);
            let direction: int = if backward {
                1
            } else {
                0
            };
            let primary: int = if backward {
                layout.bwd_l0 as int
            } else {
                layout.fwd_l0 as int
            };
            let secondary: int = if backward {
                layout.bwd_l1 as int
            } else {
                layout.fwd_l1 as int
            };
            let lone: int = if backward {
                secondary
            } else {
                primary
            };
            let (x, y) = pair_vector(m, field, direction);
            let parity = pair_parity(m, field, direction);
            if m.motion_type == motion_type::DUAL_PRIME {
                let opposite = opposite_vector(
                    (m.mv[0], m.mv[1]),
                    (m.dmvector[0], m.dmvector[1]),
                    field,
                    true,
                    top_field_first,
                );
                from_both(
                    2 * layout.fwd_l0,
                    2 * layout.fwd_l1 + 1,
                    native(m.mv[0], m.mv[1]),
                    native(opposite.0, opposite.1),
                )
            } else if goes_forward(m, layout) && backward {
                from_both(
                    field_index(layout.fwd_l0 as int, pair_parity(m, field, 0), field),
                    field_index(layout.bwd_l1 as int, pair_parity(m, field, 1), field),
                    pair_native(m, field, 0),
                    pair_native(m, field, 1),
                )
            } else if m.motion_type == motion_type::FIELD {
                one_direction(
                    backward,
                    mvmap::mapped(x, y),
                    field_index(lone, parity, field),
                    field_index(primary, parity, field),
                    field_index(secondary, parity, field),
                )
            } else if x % 2 != 0 || y % 2 != 0 {
                between_lines(x, y, field, primary, secondary)
            } else if backward {
                from_l1(field_index(lone, parity, field), pair_native(m, field, direction))
            } else {
                from_l0(field_index(lone, parity, field), pair_native(m, field, direction))
            }
        },
        _ => from_l0(2 * layout.flat, [0, 0]),
    }
}

/// Whether a number is odd, counted from a line of a field.
fn parity_of(field: usize, lines: i32) -> (parity: usize)
    requires
        field <= 1,
        -0x40_0000 <= lines <= 0x40_0000,
    ensures
        parity == line_parity(field as int, lines as int),
        parity <= 1,
{
    let sum: i32 = field as i32 + lines;
    if sum % 2 == 0 {
        0
    } else {
        1
    }
}

/// The vector of one direction that a field of a macroblock of a frame is predicted
/// with.
fn vector_for(mb: &Macroblock, field: usize, direction: usize) -> (vector: (i32, i32))
    requires
        macroblock::motion_small(mb@),
        field <= 1,
        direction <= 1,
    ensures
        vector == pair_vector(mb@, field as int, direction as int),
        -0x10_0000 <= vector.0 <= 0x10_0000,
        -0x10_0000 <= vector.1 <= 0x10_0000,
{
    let base: usize = if mb.motion_type == motion_type::FIELD {
        4 * field + 2 * direction
    } else {
        2 * direction
    };
    assert(-0x10_0000 <= mb@.mv[base as int] <= 0x10_0000);
    assert(-0x10_0000 <= mb@.mv[base + 1] <= 0x10_0000);
    (mb.mv[base], mb.mv[base + 1])
}

/// The parity of the reference field that a field of a macroblock of a frame is
/// predicted from.
fn parity_for(mb: &Macroblock, field: usize, direction: usize) -> (parity: usize)
    requires
        macroblock::motion_small(mb@),
        field <= 1,
        direction <= 1,
    ensures
        parity == pair_parity(mb@, field as int, direction as int),
        parity <= 255,
{
    if mb.motion_type == motion_type::FIELD {
        mb.field_select[2 * field + direction] as usize
    } else {
        // A frame vertical vector counts half frame-lines.  When its
        // integer part crosses an odd number of frame lines, the exact
        // sample belongs to the opposite reference field.
        parity_of(field, block::half_down(vector_for(mb, field, direction).1))
    }
}

/// The index of a field in a list of fields.
fn index_of_field(frame_ref: i32, parity: usize, field: usize) -> (index: i32)
    requires
        -1 <= frame_ref <= 64,
    ensures
        index == field_index(frame_ref as int, parity as int, field as int),
{
    // MBAFF field lists expand each frame entry into same-parity then
    // opposite-parity fields for the current macroblock.
    if parity != field {
        2 * frame_ref + 1
    } else {
        2 * frame_ref
    }
}

/// The vector of one direction, in quarter samples of the reference field.
fn native_for(mb: &Macroblock, field: usize, direction: usize) -> (position: [i32; 2])
    requires
        macroblock::motion_small(mb@),
        field <= 1,
        direction <= 1,
    ensures
        position == pair_native(mb@, field as int, direction as int),
{
    let (x, y): (i32, i32) = vector_for(mb, field, direction);
    if mb.motion_type == motion_type::FIELD {
        native_position(x, y)
    } else {
        // Convert the frame-grid position to quarter samples of the
        // selected reference field.  The parity term is what turns an odd
        // whole-frame-line displacement into an integer position in the
        // opposite field instead of filtering between same-parity lines.
        [2 * x, y + 2 * (field as i32 - parity_for(mb, field, direction) as i32)]
    }
}

/// The vertical vector to a line.
fn vector_to_line(field: usize, lines: i32, parity: usize) -> (vector: i32)
    requires
        field <= 1,
        parity <= 1,
        -0x40_0000 <= lines <= 0x40_0000,
    ensures
        vector == line_vector(field as int, lines as int, parity as int),
{
    2 * (field as i32 - parity as i32) + 2 * lines
}

/// The prediction of a field from a vector in frame lines that falls between samples.
///
/// With a half-sample on one axis MPEG-2's bilinear prediction is the
/// rounded average of two integer samples.  Name the same source field
/// through both H.264 lists and reproduce that average, avoiding the
/// H.264 six-tap filter.  Two-axis halves retain H.264 horizontal
/// interpolation but still average the correct adjacent frame lines.
fn predict_between_lines(x: i32, y: i32, field: usize, primary: i32, secondary: i32) -> (prediction:
    Prediction)
    requires
        -0x10_0000 <= x <= 0x10_0000,
        -0x10_0000 <= y <= 0x10_0000,
        field <= 1,
        -1 <= primary <= 64,
        -1 <= secondary <= 64,
    ensures
        prediction == between_lines(x, y, field as int, primary as int, secondary as int),
{
    let d: i32 = block::half_down(y);
    let p: usize = parity_of(field, d);
    if y % 2 != 0 {
        let q: usize = parity_of(field, d + 1);
        Prediction {
            mb_type: b_mb_type::BI_16X16,
            ref_idx_l0: index_of_field(primary, p, field),
            ref_idx_l1: index_of_field(secondary, q, field),
            mv_l0: [2 * x, vector_to_line(field, d, p)],
            mv_l1: [2 * x, vector_to_line(field, d + 1, q)],
        }
    } else {
        let x0: i32 = 4 * block::half_down(x);
        Prediction {
            mb_type: b_mb_type::BI_16X16,
            ref_idx_l0: index_of_field(primary, p, field),
            ref_idx_l1: index_of_field(secondary, p, field),
            mv_l0: [x0, vector_to_line(field, d, p)],
            mv_l1: [x0 + 4, vector_to_line(field, d, p)],
        }
    }
}

/// Prediction for one field of an MPEG-2 field-motion macroblock.
pub fn prediction_for_field(
    mb: Option<&Macroblock>,
    field: usize,
    top_field_first: bool,
    layout: &RefLayout,
    intra: bool,
) -> (prediction: Prediction)
    requires
        source_small(mb),
        layout_small(*layout),
        field <= 1,
    ensures
        prediction == pair_prediction(
            source_view(mb),
            field as int,
            top_field_first,
            *layout,
            intra,
        ),
{
    // Nothing to predict from, so the flat constant it is -- for a macroblock
    // the source coded as intra, and for one it never coded at all.
    if intra || mb.is_none() {
        return Prediction {
            mb_type: b_mb_type::L0_16X16,
            ref_idx_l0: layout.flat * 2,
            ref_idx_l1: NO_REFERENCE,
            mv_l0: [0, 0],
            mv_l1: [0, 0],
        };
    }
    let mb: &Macroblock = mb.unwrap();
    let has_backward: bool = layout.bwd_l0 >= 0 && macroblock::flagged(
        mb.flags,
        mb_flag::MOTION_BACKWARD,
    );
    let has_forward: bool = macroblock::flagged(mb.flags, mb_flag::MOTION_FORWARD) || !has_backward;
    assert(-0x10_0000 <= mb@.mv[0] <= 0x10_0000);
    assert(-0x10_0000 <= mb@.mv[1] <= 0x10_0000);
    if mb.motion_type == motion_type::DUAL_PRIME {
        let opposite: [i32; 2] = dual_prime_opposite(
            [mb.mv[0], mb.mv[1]],
            mb.dmvector,
            field,
            true,
            top_field_first,
        );
        return Prediction {
            mb_type: b_mb_type::BI_16X16,
            ref_idx_l0: layout.fwd_l0 * 2,
            ref_idx_l1: layout.fwd_l1 * 2 + 1,
            mv_l0: native_position(mb.mv[0], mb.mv[1]),
            mv_l1: native_position(opposite[0], opposite[1]),
        };
    }
    if has_forward && has_backward {
        return Prediction {
            mb_type: b_mb_type::BI_16X16,
            ref_idx_l0: index_of_field(layout.fwd_l0, parity_for(mb, field, 0), field),
            ref_idx_l1: index_of_field(layout.bwd_l1, parity_for(mb, field, 1), field),
            mv_l0: native_for(mb, field, 0),
            mv_l1: native_for(mb, field, 1),
        };
    }
    let direction: usize = if has_backward {
        1
    } else {
        0
    };
    let primary: i32 = if has_backward {
        layout.bwd_l0
    } else {
        layout.fwd_l0
    };
    let secondary: i32 = if has_backward {
        layout.bwd_l1
    } else {
        layout.fwd_l1
    };
    let (x, y): (i32, i32) = vector_for(mb, field, direction);
    let parity: usize = parity_for(mb, field, direction);
    let mut lone: [i32; 2] = [0, 0];
    if mb.motion_type == motion_type::FIELD {
        let mapped = map_vector(x, y);
        match mapped.b {
            Some(b) => {
                return Prediction {
                    mb_type: b_mb_type::BI_16X16,
                    ref_idx_l0: index_of_field(primary, parity, field),
                    ref_idx_l1: index_of_field(secondary, parity, field),
                    mv_l0: mapped.a,
                    mv_l1: b,
                };
            },
            None => {
                lone = mapped.a;
            },
        }
    } else if x % 2 != 0 || y % 2 != 0 {
        return predict_between_lines(x, y, field, primary, secondary);
    } else {
        lone = native_for(mb, field, direction);
    }
    if has_backward {
        Prediction {
            mb_type: b_mb_type::L1_16X16,
            ref_idx_l0: NO_REFERENCE,
            ref_idx_l1: index_of_field(secondary, parity, field),
            mv_l0: [0, 0],
            mv_l1: lone,
        }
    } else {
        Prediction {
            mb_type: b_mb_type::L0_16X16,
            ref_idx_l0: index_of_field(primary, parity, field),
            ref_idx_l1: NO_REFERENCE,
            mv_l0: lone,
            mv_l1: [0, 0],
        }
    }
}

/// The parity that a vector of a field picture names: the same one where the source
/// codes no vector, and the one it signals otherwise.
pub open spec fn named_parity(
    skipped: bool,
    flags: i32,
    signalled: int,
    field: int,
    direction: int,
) -> int {
    if skipped || (direction == 0 && !macroblock::has_flag(flags, mb_flag::MOTION_FORWARD)) {
        field
    } else {
        signalled
    }
}

pub fn field_picture_selected_parity(
    skipped: bool,
    flags: i32,
    signalled: usize,
    field: usize,
    direction: usize,
) -> (parity: usize)
    ensures
        parity == named_parity(
            skipped,
            flags,
            signalled as int,
            field as int,
            direction as int,
        ),
{
    let inferred_forward: bool = direction == 0 && !macroblock::flagged(
        flags,
        mb_flag::MOTION_FORWARD,
    );
    if skipped || inferred_forward {
        field
    } else {
        signalled
    }
}

/// Where a field stands in the list of a field picture.
pub open spec fn field_picture_index(
    frame_ref: int,
    selected: int,
    current: int,
    second_reference_field: bool,
    forward_reference: bool,
) -> int {
    if second_reference_field && forward_reference {
        field_index(0, selected, current)
    } else {
        field_index(frame_ref, selected, current)
    }
}

/// Index an MPEG-2 top/bottom field in the H.264 field reference list.
///
/// Non-reference B pairs use the ordinary parity-relative alternation.  A
/// reference P pair is different after its first field has been decoded: that
/// field is inserted separately ahead of the older complementary pairs.
pub fn field_picture_ref_index(
    frame_ref: i32,
    selected: usize,
    current: usize,
    second_reference_field: bool,
    forward_reference: bool,
) -> (index: i32)
    requires
        -1 <= frame_ref <= 64,
    ensures
        index == field_picture_index(
            frame_ref as int,
            selected as int,
            current as int,
            second_reference_field,
            forward_reference,
        ),
{
    if second_reference_field && forward_reference {
        return index_of_field(0, selected, current);
    }
    // H.264 8.2.4.2.5 alternates fields starting with the parity of the
    // current field.  The index is therefore parity-relative for P fields as
    // well as B fields; using the MPEG top/bottom bit as an absolute offset
    // makes both selections address index 1 for a bottom P field.
    index_of_field(frame_ref, selected, current)
}

/// What the macroblocks of a coded field have in common.
#[derive(Clone, Copy, PartialEq, Eq, Debug, Structural)]
pub struct FieldSetting {
    /// Whether the field is the bottom one: 0 or 1.
    pub field: usize,
    /// Whether the field is the second of a pair that is held for reference.
    pub second_reference_field: bool,
    /// The index that carries the flat prediction.
    pub flat_field_idx: i32,
}

/// Where the reference of a macroblock of a field picture stands.
pub open spec fn field_picture_ref(
    mb: MacroblockView,
    setting: FieldSetting,
    partition: int,
    layout: RefLayout,
    frame_ref: i32,
    direction: int,
) -> int {
    let field = setting.field as int;
    field_picture_index(
        frame_ref as int,
        named_parity(
            mb.skipped,
            mb.flags,
            mb.field_select[2 * partition + direction] as int,
            field,
            direction,
        ),
        field,
        setting.second_reference_field,
        direction == 0 && frame_ref == layout.fwd_l0,
    )
}

/// The macroblock of a field picture, and what is counted of it.
#[verifier::opaque]
pub open spec fn field_picture_prediction(
    mb: Option<MacroblockView>,
    setting: FieldSetting,
    partition: int,
    intra: bool,
    layout: RefLayout,
) -> (Prediction, Stats) {
    match mb {
        Some(m) if !intra => {
            let field = setting.field as int;
            let base = 4 * partition;
            let backward = goes_backward(m, layout);
            let forward = goes_forward(m, layout);
            let fwd_ref = field_picture_ref(m, setting, partition, layout, layout.fwd_l0, 0);
            let fwd_native = native(m.mv[base], m.mv[base + 1]);
            if layout.anchor_second_field {
                // One entry, one index, and nowhere to put a second prediction.
                (from_l0(0, fwd_native), one_bidirectional())
            } else if m.motion_type == motion_type::DUAL_PRIME {
                let opposite = opposite_vector(
                    (m.mv[0], m.mv[1]),
                    (m.dmvector[0], m.dmvector[1]),
                    field,
                    false,
                    false,
                );
                (
                    from_both(
                        fwd_ref,
                        0,
                        native(m.mv[0], m.mv[1]),
                        native(opposite.0, opposite.1),
                    ),
                    one_bidirectional(),
                )
            } else if forward && backward {
                (
                    from_both(
                        fwd_ref,
                        field_picture_ref(m, setting, partition, layout, layout.bwd_l1, 1),
                        fwd_native,
                        native(m.mv[base + 2], m.mv[base + 3]),
                    ),
                    one_bidirectional(),
                )
            } else if layout.bwd_l0 < 0 {
                let motion = mvmap::mapped(m.mv[base], m.mv[base + 1]);
                let selected = named_parity(
                    m.skipped,
                    m.flags,
                    m.field_select[2 * partition] as int,
                    field,
                    0,
                );
                (
                    one_direction(
                        false,
                        motion,
                        fwd_ref,
                        fwd_ref,
                        // List 1 has the first two field entries exchanged.
                        if selected == field {
                            1
                        } else {
                            0
                        },
                    ),
                    one_vector(motion.kind),
                )
            } else {
                let direction: int = if backward {
                    1
                } else {
                    0
                };
                let motion = mvmap::mapped(
                    m.mv[base + 2 * direction],
                    m.mv[base + 2 * direction + 1],
                );
                let (primary, secondary) = if forward {
                    (layout.fwd_l0, layout.fwd_l1)
                } else {
                    (layout.bwd_l0, layout.bwd_l1)
                };
                (
                    one_direction(
                        !forward,
                        motion,
                        if forward {
                            fwd_ref
                        } else {
                            field_picture_ref(m, setting, partition, layout, layout.bwd_l1, 1)
                        },
                        field_picture_ref(m, setting, partition, layout, primary, direction),
                        field_picture_ref(m, setting, partition, layout, secondary, direction),
                    ),
                    one_vector(motion.kind),
                )
            }
        },
        _ => (
            if layout.anchor_second_field {
                from_l1(0, [0, 0])
            } else {
                from_l0(setting.flat_field_idx as int, [0, 0])
            },
            options::no_counts(),
        ),
    }
}

/// The longest component of a vector that a macroblock is predicted with.
pub const LONGEST_VECTOR: i32 = 0x1000_0000;

/// No component of a vector is longer than the longest.
pub open spec fn is_short(prediction: Prediction) -> bool {
    &&& -LONGEST_VECTOR <= prediction.mv_l0[0] <= LONGEST_VECTOR
    &&& -LONGEST_VECTOR <= prediction.mv_l0[1] <= LONGEST_VECTOR
    &&& -LONGEST_VECTOR <= prediction.mv_l1[0] <= LONGEST_VECTOR
    &&& -LONGEST_VECTOR <= prediction.mv_l1[1] <= LONGEST_VECTOR
}

/// A macroblock that is there has vectors that the syntax can express.
pub open spec fn view_small(mb: Option<MacroblockView>) -> bool {
    mb matches Some(m) ==> macroblock::motion_small(m)
}

/// The vectors of a frame macroblock are short.
pub proof fn lemma_frame_short(mb: Option<MacroblockView>, intra: bool, layout: RefLayout)
    requires
        view_small(mb),
    ensures
        is_short(frame_prediction(mb, intra, layout).0),
{
    if let Some(m) = mb {
        assert(forall|i: int| 0 <= i < 8 ==> -0x10_0000 <= #[trigger] m.mv[i] <= 0x10_0000);
        let fwd = frame_vector_of(m, false);
        let bwd = frame_vector_of(m, true);
        assert(-0x20_0000 <= fwd.0 <= 0x20_0000 && -0x20_0000 <= fwd.1 <= 0x20_0000);
        assert(-0x20_0000 <= bwd.0 <= 0x20_0000 && -0x20_0000 <= bwd.1 <= 0x20_0000);
    }
}

/// The vectors of a field macroblock of a frame are short.
pub proof fn lemma_pair_short(
    mb: Option<MacroblockView>,
    field: int,
    top_field_first: bool,
    layout: RefLayout,
    intra: bool,
)
    requires
        view_small(mb),
        field == 0 || field == 1,
    ensures
        is_short(pair_prediction(mb, field, top_field_first, layout, intra)),
{
    if let Some(m) = mb {
        assert(forall|i: int| 0 <= i < 8 ==> -0x10_0000 <= #[trigger] m.mv[i] <= 0x10_0000);
        let fwd = pair_vector(m, field, 0);
        let bwd = pair_vector(m, field, 1);
        assert(-0x10_0000 <= fwd.0 <= 0x10_0000 && -0x10_0000 <= fwd.1 <= 0x10_0000);
        assert(-0x10_0000 <= bwd.0 <= 0x10_0000 && -0x10_0000 <= bwd.1 <= 0x10_0000);
        lemma_opposite_short(m, field, true, top_field_first);
    }
}

/// The vectors of a macroblock of a coded field are short.
pub proof fn lemma_field_picture_short(
    mb: Option<MacroblockView>,
    setting: FieldSetting,
    partition: int,
    intra: bool,
    layout: RefLayout,
)
    requires
        view_small(mb),
        partition == 0 || partition == 1,
    ensures
        is_short(field_picture_prediction(mb, setting, partition, intra, layout).0),
{
    reveal(field_picture_prediction);
    if let Some(m) = mb {
        assert(forall|i: int| 0 <= i < 8 ==> -0x10_0000 <= #[trigger] m.mv[i] <= 0x10_0000);
        lemma_opposite_short(m, setting.field as int, false, false);
    }
}

/// A vector of dual-prime prediction is short.
proof fn lemma_opposite_short(
    m: MacroblockView,
    field: int,
    frame_picture: bool,
    top_field_first: bool,
)
    requires
        macroblock::motion_small(m),
    ensures
        ({
            let opposite = opposite_vector(
                (m.mv[0], m.mv[1]),
                (m.dmvector[0], m.dmvector[1]),
                field,
                frame_picture,
                top_field_first,
            );
            &&& -0x400_0000 <= opposite.0 <= 0x400_0000
            &&& -0x400_0000 <= opposite.1 <= 0x400_0000
        }),
{
    assert(-0x10_0000 <= m.mv[0] <= 0x10_0000);
    assert(-0x10_0000 <= m.mv[1] <= 0x10_0000);
    let n = field_intervals(field, frame_picture, top_field_first);
    assert(n == 1 || n == 3);
    assert(-0x30_0000 <= m.mv[0] * n <= 0x30_0000);
    assert(-0x30_0000 <= m.mv[1] * n <= 0x30_0000);
}

/// No more than one of anything is counted of a macroblock of a field picture.
pub proof fn lemma_counts_one(
    mb: Option<MacroblockView>,
    setting: FieldSetting,
    partition: int,
    intra: bool,
    layout: RefLayout,
)
    ensures
        field_picture_prediction(mb, setting, partition, intra, layout).1.within(1),
{
    reveal(field_picture_prediction);
}

/// Where the reference of a macroblock of a field picture stands.
fn ref_in_field_picture(
    mb: &Macroblock,
    setting: FieldSetting,
    partition: usize,
    layout: &RefLayout,
    frame_ref: i32,
    direction: usize,
) -> (index: i32)
    requires
        macroblock::motion_small(mb@),
        setting.field <= 1,
        partition <= 1,
        direction <= 1,
        -1 <= frame_ref <= 64,
    ensures
        index == field_picture_ref(
            mb@,
            setting,
            partition as int,
            *layout,
            frame_ref,
            direction as int,
        ),
{
    // Skipped MPEG-2 field macroblocks infer zero-vector, same-parity
    // prediction; no motion_vertical_field_select bit is present for the
    // parser to store.
    let selected: usize = field_picture_selected_parity(
        mb.skipped,
        mb.flags,
        mb.field_select[2 * partition + direction] as usize,
        setting.field,
        direction,
    );
    field_picture_ref_index(
        frame_ref,
        selected,
        setting.field,
        setting.second_reference_field,
        direction == 0 && frame_ref == layout.fwd_l0,
    )
}

/// Prediction for a macroblock that came from an MPEG-2 field picture and is
/// emitted as one macroblock of a coded field.
pub fn prediction_for_field_picture(
    mb: Option<&Macroblock>,
    setting: FieldSetting,
    partition: usize,
    intra: bool,
    layout: &RefLayout,
    stats: &mut Stats,
) -> (prediction: Prediction)
    requires
        source_small(mb),
        layout_small(*layout),
        setting.field <= 1,
        partition <= 1,
        old(stats).within(u64::MAX - 1),
    ensures
        prediction == field_picture_prediction(
            source_view(mb),
            setting,
            partition as int,
            intra,
            *layout,
        ).0,
        *final(stats) == old(stats).plus(
            field_picture_prediction(
                source_view(mb),
                setting,
                partition as int,
                intra,
                *layout,
            ).1,
        ),
{
    proof {
        stats.lemma_plus_nothing();
        reveal(field_picture_prediction);
    }
    if intra || mb.is_none() {
        // The index the slice header hung the flat weights on, which this has
        // to name exactly or the macroblock predicts from a picture instead of
        // from the constant its residual was taken against. On the second field
        // of a random access point those weights are on list 1, since list 0
        // has to keep the same field predictable.
        if layout.anchor_second_field {
            return Prediction {
                mb_type: b_mb_type::L1_16X16,
                ref_idx_l0: NO_REFERENCE,
                ref_idx_l1: 0,
                mv_l0: [0, 0],
                mv_l1: [0, 0],
            };
        }
        return Prediction {
            mb_type: b_mb_type::L0_16X16,
            ref_idx_l0: setting.flat_field_idx,
            ref_idx_l1: NO_REFERENCE,
            mv_l0: [0, 0],
            mv_l1: [0, 0],
        };
    }
    let mb: &Macroblock = mb.unwrap();
    let base: usize = 4 * partition;
    assert(forall|i: int| 0 <= i < 8 ==> -0x10_0000 <= #[trigger] mb.mv@[i] <= 0x10_0000) by {
        assert forall|i: int| 0 <= i < 8 implies -0x10_0000 <= #[trigger] mb.mv@[i]
            <= 0x10_0000 by {
            assert(mb@.mv[i] == mb.mv@[i]);
        }
    }
    // The second field of a random access point has one reference field and a
    // list 1 already spoken for by the flat prediction, so neither the dual
    // prime average nor the bilinear pair below has anywhere to put its second
    // prediction. H.264 interpolates the sub-sample position itself instead,
    // which is the same trade a bidirectional macroblock already makes.
    if layout.anchor_second_field {
        stats.bidirectional_vectors = stats.bidirectional_vectors + 1;
        return Prediction {
            mb_type: b_mb_type::L0_16X16,
            // One entry, one index. The source may name a parity the pair does
            // not hold, since MPEG-2 lets a P field reach back a frame further,
            // but nothing before the random access point was coded, so there is
            // nowhere else the prediction could have come from anyway.
            ref_idx_l0: 0,
            ref_idx_l1: NO_REFERENCE,
            mv_l0: native_position(mb.mv[base], mb.mv[base + 1]),
            mv_l1: [0, 0],
        };
    }
    let fwd_ref: i32 = ref_in_field_picture(mb, setting, partition, layout, layout.fwd_l0, 0);
    if mb.motion_type == motion_type::DUAL_PRIME {
        stats.bidirectional_vectors = stats.bidirectional_vectors + 1;
        let opposite: [i32; 2] = dual_prime_opposite(
            [mb.mv[0], mb.mv[1]],
            mb.dmvector,
            setting.field,
            false,
            false,
        );
        return Prediction {
            mb_type: b_mb_type::BI_16X16,
            ref_idx_l0: fwd_ref,
            // In a P-field B slice list 1 has the first two fields swapped, so
            // its entry 0 is the opposite-parity field of the same reference.
            ref_idx_l1: 0,
            mv_l0: native_position(mb.mv[0], mb.mv[1]),
            mv_l1: native_position(opposite[0], opposite[1]),
        };
    }
    let has_backward: bool = layout.bwd_l0 >= 0 && macroblock::flagged(
        mb.flags,
        mb_flag::MOTION_BACKWARD,
    );
    let has_forward: bool = macroblock::flagged(mb.flags, mb_flag::MOTION_FORWARD) || !has_backward;
    if has_forward && has_backward {
        stats.bidirectional_vectors = stats.bidirectional_vectors + 1;
        return Prediction {
            mb_type: b_mb_type::BI_16X16,
            ref_idx_l0: fwd_ref,
            ref_idx_l1: ref_in_field_picture(mb, setting, partition, layout, layout.bwd_l1, 1),
            mv_l0: native_position(mb.mv[base], mb.mv[base + 1]),
            mv_l1: native_position(mb.mv[base + 2], mb.mv[base + 3]),
        };
    }
    // A P field picture has no future reference, so the initial B-slice lists
    // contain the same past fields and H.264 8.2.4.2.3 swaps the first two
    // entries of list 1.  Use those two views of the same MPEG-2 reference to
    // reproduce a one-axis half sample as an integer-sample average, just as
    // the frame-picture path does.

    if layout.bwd_l0 < 0 {
        let motion = map_vector(mb.mv[base], mb.mv[base + 1]);
        count_vector(motion.kind, stats);
        let selected: usize = field_picture_selected_parity(
            mb.skipped,
            mb.flags,
            mb.field_select[2 * partition] as usize,
            setting.field,
            0,
        );
        return match motion.b {
            None => Prediction {
                mb_type: b_mb_type::L0_16X16,
                ref_idx_l0: fwd_ref,
                ref_idx_l1: NO_REFERENCE,
                mv_l0: motion.a,
                mv_l1: [0, 0],
            },
            Some(second) => Prediction {
                mb_type: b_mb_type::BI_16X16,
                ref_idx_l0: fwd_ref,
                // List 1 has the first two field entries exchanged: same parity is
                // entry 1 and opposite parity is entry 0.
                ref_idx_l1: if selected == setting.field {
                    1
                } else {
                    0
                },
                mv_l0: motion.a,
                mv_l1: second,
            },
        };
    }
    let direction: usize = if has_backward {
        1
    } else {
        0
    };
    let motion = map_vector(mb.mv[base + 2 * direction], mb.mv[base + 2 * direction + 1]);
    count_vector(motion.kind, stats);
    let use_backward: bool = !has_forward;
    let primary: i32 = if use_backward {
        layout.bwd_l0
    } else {
        layout.fwd_l0
    };
    let secondary: i32 = if use_backward {
        layout.bwd_l1
    } else {
        layout.fwd_l1
    };
    match motion.b {
        None => if use_backward {
            Prediction {
                mb_type: b_mb_type::L1_16X16,
                ref_idx_l0: NO_REFERENCE,
                ref_idx_l1: ref_in_field_picture(mb, setting, partition, layout, layout.bwd_l1, 1),
                mv_l0: [0, 0],
                mv_l1: motion.a,
            }
        } else {
            Prediction {
                mb_type: b_mb_type::L0_16X16,
                ref_idx_l0: fwd_ref,
                ref_idx_l1: NO_REFERENCE,
                mv_l0: motion.a,
                mv_l1: [0, 0],
            }
        },
        Some(second) => Prediction {
            mb_type: b_mb_type::BI_16X16,
            ref_idx_l0: ref_in_field_picture(mb, setting, partition, layout, primary, direction),
            ref_idx_l1: ref_in_field_picture(mb, setting, partition, layout, secondary, direction),
            mv_l0: motion.a,
            mv_l1: second,
        },
    }
}

} // verus!
