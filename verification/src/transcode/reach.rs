//! What a decoder reads when it follows a prediction.
//!
//! A source vector names a sample of a picture that has been decoded. These laws say that
//! what the two lists name, taken the way a decoder takes it, is that sample, or the two
//! samples whose average it is.
use crate::h264::mvmap;
use crate::job::RefLayout;
use crate::mpeg2::macroblock;
use crate::mpeg2::macroblock::MacroblockView;
use crate::transcode::predict;
use crate::transcode::predict::{FieldSetting, Prediction};
use vstd::prelude::*;

verus! {

/// The source predicts the macroblock from the picture before it.
pub open spec fn says_forward(mb: MacroblockView) -> bool {
    mb.flags & 8 != 0
}

/// The source predicts the macroblock from the picture behind it.
pub open spec fn says_backward(mb: MacroblockView) -> bool {
    mb.flags & 4 != 0
}

/// What one list of a prediction names: an entry of it, and how far away the sample lies,
/// in quarter samples.
pub struct Sighting {
    pub index: int,
    pub x: int,
    pub y: int,
}

/// What list 0 names.
pub open spec fn in_list_0(p: Prediction) -> Sighting {
    Sighting { index: p.ref_idx_l0 as int, x: p.mv_l0[0] as int, y: p.mv_l0[1] as int }
}

/// What list 1 names.
pub open spec fn in_list_1(p: Prediction) -> Sighting {
    Sighting { index: p.ref_idx_l1 as int, x: p.mv_l1[0] as int, y: p.mv_l1[1] as int }
}

impl Sighting {
    /// The frame of an entry of a list of fields: the fields come in twos.
    pub open spec fn frame(self) -> int {
        self.index / 2
    }

    /// The parity of an entry of a list of fields: those of the field's own come first.
    pub open spec fn parity(self, field: int) -> int {
        if self.index % 2 == 0 {
            field
        } else {
            1 - field
        }
    }

    /// How many half frame lines below the one that is predicted the sample lies. A
    /// quarter of a field line is half of a frame line, and the bottom field lies one
    /// frame line below the top one.
    pub open spec fn half_lines(self, field: int) -> int {
        self.y + 2 * (self.parity(field) - field)
    }

    /// The sample is one that the reference holds, not one between them.
    pub open spec fn is_whole(self) -> bool {
        self.x % 4 == 0 && self.y % 4 == 0
    }
}

/// The prediction comes from one list alone: from list 0 where `first` is set.
pub open spec fn is_lone(p: Prediction, first: bool) -> bool {
    if first {
        p.mb_type == 1 && p.ref_idx_l1 == -1 && p.mv_l1 == [0i32, 0i32]
    } else {
        p.mb_type == 2 && p.ref_idx_l0 == -1 && p.mv_l0 == [0i32, 0i32]
    }
}

/// The prediction is the average of both lists.
pub open spec fn is_average(p: Prediction) -> bool {
    p.mb_type == 3
}

/// Two sightings average to where the vector points, in half samples each way, and lie as
/// close to it as samples can: they are the two on either side along one axis, and whole
/// samples unless the vector falls between samples on both.
pub open spec fn straddles(
    a: (int, int),
    b: (int, int),
    vector: (int, int),
) -> bool {
    &&& a.0 + b.0 == 4 * vector.0
    &&& a.1 + b.1 == 4 * vector.1
    &&& if vector.1 % 2 != 0 {
        a.0 == b.0 && b.1 == a.1 + 4 && a.1 % 4 == 0
    } else {
        a.1 == b.1 && b.0 == a.0 + 4 && a.0 % 4 == 0
    }
}

/// The vector of a macroblock that is predicted as a frame: the one the source gives, or,
/// where it gives one for each field, the middle of the two, of which a line of a field
/// is two of the frame.
pub open spec fn is_frame_vector(mb: MacroblockView, direction: int, x: int, y: int) -> bool {
    if mb.motion_type == 1 && mb.mv_count >= 2 {
        &&& 0 <= 2 * x - (mb.mv[2 * direction] + mb.mv[4 + 2 * direction]) <= 1
        &&& y == mb.mv[2 * direction + 1] + mb.mv[4 + 2 * direction + 1]
    } else {
        x == mb.mv[2 * direction] && y == mb.mv[2 * direction + 1]
    }
}

/// A macroblock of a frame that goes both ways is predicted from the preceding picture
/// where its forward vector points, and from the following one where its backward vector
/// does, each of them a half sample for two quarters.
pub proof fn law_a_frame_goes_both_ways(mb: MacroblockView, layout: RefLayout)
    requires
        macroblock::motion_small(mb),
        predict::layout_small(layout),
        layout.bwd_l0 >= 0,
        says_forward(mb),
        says_backward(mb),
    ensures
        ({
            let (p, counts) = predict::frame_prediction(Some(mb), false, layout);
            let before = in_list_0(p);
            let behind = in_list_1(p);
            &&& is_average(p)
            &&& before.index == layout.fwd_l0
            &&& behind.index == layout.bwd_l1
            &&& before.x % 2 == 0 && before.y % 2 == 0
            &&& behind.x % 2 == 0 && behind.y % 2 == 0
            &&& is_frame_vector(mb, 0, before.x / 2, before.y / 2)
            &&& is_frame_vector(mb, 1, behind.x / 2, behind.y / 2)
            &&& counts.bidirectional_vectors == 1
            &&& counts.integer_vectors == 0
            &&& counts.single_axis_half_vectors == 0
            &&& counts.both_axis_half_vectors == 0
        }),
{
    assert(forall|i: int| 0 <= i < 8 ==> -0x10_0000 <= #[trigger] mb.mv[i] <= 0x10_0000);
}

/// A macroblock of a frame that goes one way is predicted from that picture alone, named
/// in either list: from the sample that its vector names, or from the two on either side.
pub proof fn law_a_frame_goes_one_way(
    mb: MacroblockView,
    layout: RefLayout,
    backward: bool,
    x: int,
    y: int,
)
    requires
        macroblock::motion_small(mb),
        predict::layout_small(layout),
        backward <==> says_backward(mb) && layout.bwd_l0 >= 0,
        backward ==> !says_forward(mb),
        is_frame_vector(
            mb,
            if backward {
                1
            } else {
                0
            },
            x,
            y,
        ),
    ensures
        ({
            let (p, counts) = predict::frame_prediction(Some(mb), false, layout);
            let a = in_list_0(p);
            let b = in_list_1(p);
            &&& counts.bidirectional_vectors == 0
            &&& if x % 2 == 0 && y % 2 == 0 {
                &&& is_lone(p, !backward)
                &&& backward ==> b == (Sighting {
                    index: layout.bwd_l1 as int,
                    x: 2 * x,
                    y: 2 * y,
                })
                &&& !backward ==> a == (Sighting {
                    index: layout.fwd_l0 as int,
                    x: 2 * x,
                    y: 2 * y,
                })
                &&& counts.integer_vectors == 1
                &&& counts.single_axis_half_vectors == 0
                &&& counts.both_axis_half_vectors == 0
            } else {
                &&& is_average(p)
                &&& a.index == if backward {
                    layout.bwd_l0
                } else {
                    layout.fwd_l0
                }
                &&& b.index == if backward {
                    layout.bwd_l1
                } else {
                    layout.fwd_l1
                }
                &&& straddles((a.x, a.y), (b.x, b.y), (x, y))
                &&& counts.integer_vectors == 0
                &&& counts.single_axis_half_vectors == if x % 2 == 0 || y % 2 == 0 {
                    1int
                } else {
                    0
                }
                &&& counts.both_axis_half_vectors == if x % 2 == 0 || y % 2 == 0 {
                    0int
                } else {
                    1
                }
            }
        }),
{
    assert(forall|i: int| 0 <= i < 8 ==> -0x10_0000 <= #[trigger] mb.mv[i] <= 0x10_0000);
}

/// What has no vector, or is coded as intra, is predicted from the constant, which stands
/// behind every picture of the list.
pub proof fn law_what_does_not_move_is_flat(
    mb: Option<MacroblockView>,
    intra: bool,
    layout: RefLayout,
    field: int,
    top_field_first: bool,
    setting: FieldSetting,
    partition: int,
)
    requires
        predict::layout_small(layout),
        intra || mb is None,
    ensures
        ({
            let p = predict::frame_prediction(mb, intra, layout).0;
            &&& is_lone(p, true)
            &&& in_list_0(p) == (Sighting { index: layout.flat as int, x: 0, y: 0 })
        }),
        ({
            let p = predict::pair_prediction(mb, field, top_field_first, layout, intra);
            &&& is_lone(p, true)
            &&& in_list_0(p).frame() == layout.flat
            &&& in_list_0(p).parity(field) == field
            &&& in_list_0(p).x == 0 && in_list_0(p).y == 0
        }),
        ({
            let p = predict::field_picture_prediction(
                mb,
                setting,
                partition,
                intra,
                layout,
            ).0;
            if layout.anchor_second_field {
                &&& is_lone(p, false)
                &&& in_list_1(p) == (Sighting { index: 0, x: 0, y: 0 })
            } else {
                &&& is_lone(p, true)
                &&& in_list_0(p) == (Sighting {
                    index: setting.flat_field_idx as int,
                    x: 0,
                    y: 0,
                })
            }
        }),
{
    reveal(predict::field_picture_prediction);
}

/// One list of a field macroblock of a frame names the sample that a vector of the source
/// reaches from the sample that is predicted. A field vector counts half samples of the
/// field that the source selects. A frame vector counts half samples of the frame, and
/// the field that is named holds the line it reaches, or the line above that.
pub open spec fn reaches(
    seen: Sighting,
    mb: MacroblockView,
    field: int,
    direction: int,
) -> bool {
    if mb.motion_type == 1 {
        &&& seen.parity(field) == mb.field_select[2 * field + direction]
        &&& seen.x == 2 * mb.mv[4 * field + 2 * direction]
        &&& seen.y == 2 * mb.mv[4 * field + 2 * direction + 1]
    } else {
        &&& seen.x == 2 * mb.mv[2 * direction]
        &&& seen.half_lines(field) == mb.mv[2 * direction + 1]
        &&& (field + mb.mv[2 * direction + 1] as int / 2) % 2 == seen.parity(field)
    }
}

/// A macroblock that goes both ways is predicted, in each field, from the line and the
/// column of the preceding picture that its forward vector reaches, and from those of the
/// following picture that its backward vector reaches.
#[verifier::spinoff_prover]
#[verifier::rlimit(60)]
pub proof fn law_a_field_goes_both_ways(
    mb: MacroblockView,
    field: int,
    top_field_first: bool,
    layout: RefLayout,
)
    requires
        macroblock::motion_small(mb),
        predict::layout_small(layout),
        layout.bwd_l0 >= 0,
        layout.fwd_l0 >= 0,
        layout.bwd_l1 >= 0,
        field == 0 || field == 1,
        mb.motion_type != 3,
        mb.motion_type == 1 ==> mb.field_select[2 * field] <= 1 && mb.field_select[2 * field + 1]
            <= 1,
        says_forward(mb),
        says_backward(mb),
    ensures
        ({
            let p = predict::pair_prediction(Some(mb), field, top_field_first, layout, false);
            &&& is_average(p)
            &&& in_list_0(p).frame() == layout.fwd_l0
            &&& in_list_1(p).frame() == layout.bwd_l1
            &&& reaches(in_list_0(p), mb, field, 0)
            &&& reaches(in_list_1(p), mb, field, 1)
        }),
{
    assert(forall|i: int| 0 <= i < 8 ==> -0x10_0000 <= #[trigger] mb.mv[i] <= 0x10_0000);
}

/// An entry of a list of fields is named by its frame and its parity.
proof fn lemma_field_index(frame: int, parity: int, field: int)
    requires
        field == 0 || field == 1,
        parity == 0 || parity == 1,
        0 <= frame <= 64,
    ensures
        ({
            let index = predict::field_index(frame, parity, field);
            &&& 0 <= index <= 129
            &&& index / 2 == frame
            &&& (if index % 2 == 0 {
                field
            } else {
                1 - field
            }) == parity
        }),
{
}

/// A vector in field lines is followed in the field that is selected.
proof fn lemma_in_field(
    x: i32,
    y: i32,
    backward: bool,
    parity: int,
    field: int,
    primary: int,
    secondary: int,
)
    requires
        -0x10_0000 <= x <= 0x10_0000,
        -0x10_0000 <= y <= 0x10_0000,
        field == 0 || field == 1,
        parity == 0 || parity == 1,
        0 <= primary <= 64,
        0 <= secondary <= 64,
    ensures
        ({
            let p = predict::one_direction(
                backward,
                mvmap::mapped(x, y),
                predict::field_index(
                    if backward {
                        secondary
                    } else {
                        primary
                    },
                    parity,
                    field,
                ),
                predict::field_index(primary, parity, field),
                predict::field_index(secondary, parity, field),
            );
            let a = in_list_0(p);
            let b = in_list_1(p);
            if x % 2 == 0 && y % 2 == 0 {
                let seen = if backward {
                    b
                } else {
                    a
                };
                &&& is_lone(p, !backward)
                &&& seen.frame() == if backward {
                    secondary
                } else {
                    primary
                }
                &&& seen.parity(field) == parity
                &&& seen.x == 2 * x && seen.y == 2 * y
                &&& seen.is_whole()
            } else {
                &&& is_average(p)
                &&& a.frame() == primary
                &&& b.frame() == secondary
                &&& a.parity(field) == parity
                &&& b.parity(field) == parity
                &&& straddles((a.x, a.y), (b.x, b.y), (x as int, y as int))
            }
        }),
{
    lemma_field_index(primary, parity, field);
    lemma_field_index(secondary, parity, field);
}

/// A vector of whole frame lines is followed in the field that holds the line.
proof fn lemma_on_line(mb: MacroblockView, field: int, direction: int, frame: int)
    requires
        macroblock::motion_small(mb),
        mb.motion_type != 1,
        field == 0 || field == 1,
        direction == 0 || direction == 1,
        0 <= frame <= 64,
        mb.mv[2 * direction] % 2 == 0,
        mb.mv[2 * direction + 1] % 2 == 0,
    ensures
        ({
            let position = predict::pair_native(mb, field, direction);
            let seen = Sighting {
                index: predict::field_index(
                    frame,
                    predict::pair_parity(mb, field, direction),
                    field,
                ) as i32 as int,
                x: position[0] as int,
                y: position[1] as int,
            };
            &&& seen.frame() == frame
            &&& reaches(seen, mb, field, direction)
            &&& seen.is_whole()
        }),
{
    let x = mb.mv[2 * direction];
    let y = mb.mv[2 * direction + 1];
    assert(-0x10_0000 <= mb.mv[2 * direction] <= 0x10_0000);
    assert(-0x10_0000 <= mb.mv[2 * direction + 1] <= 0x10_0000);
    let parity = predict::pair_parity(mb, field, direction);
    assert(predict::pair_vector(mb, field, direction) == (x, y));
    assert(parity == (field + y as int / 2) % 2);
    lemma_field_index(frame, parity, field);
}

/// A vector in frame lines that falls between samples is straddled.
proof fn lemma_between_lines(x: i32, y: i32, field: int, primary: int, secondary: int)
    requires
        -0x10_0000 <= x <= 0x10_0000,
        -0x10_0000 <= y <= 0x10_0000,
        field == 0 || field == 1,
        0 <= primary <= 64,
        0 <= secondary <= 64,
        x % 2 != 0 || y % 2 != 0,
    ensures
        ({
            let p = predict::between_lines(x, y, field, primary, secondary);
            let a = in_list_0(p);
            let b = in_list_1(p);
            &&& is_average(p)
            &&& a.frame() == primary
            &&& b.frame() == secondary
            &&& straddles(
                (a.x, 2 * a.half_lines(field)),
                (b.x, 2 * b.half_lines(field)),
                (x as int, y as int),
            )
            &&& a.y % 4 == 0 && b.y % 4 == 0
        }),
{
}

/// A macroblock that goes one way is predicted, in each field, from that picture alone:
/// from the sample that its vector reaches, or from the two on either side of it. Lines
/// are those of the frame where the vector counts those, each read from the field that
/// holds it, and those of the selected field where it counts those.
#[verifier::spinoff_prover]
#[verifier::rlimit(60)]
pub proof fn law_a_field_goes_one_way(
    mb: MacroblockView,
    field: int,
    top_field_first: bool,
    layout: RefLayout,
    backward: bool,
)
    requires
        macroblock::motion_small(mb),
        predict::layout_small(layout),
        layout.fwd_l0 >= 0,
        layout.fwd_l1 >= 0,
        backward ==> layout.bwd_l1 >= 0,
        field == 0 || field == 1,
        mb.motion_type != 3,
        mb.motion_type == 1 ==> mb.field_select[2 * field] <= 1 && mb.field_select[2 * field + 1]
            <= 1,
        backward <==> says_backward(mb) && layout.bwd_l0 >= 0,
        backward ==> !says_forward(mb),
    ensures
        ({
            let p = predict::pair_prediction(Some(mb), field, top_field_first, layout, false);
            let direction: int = if backward {
                1
            } else {
                0
            };
            let a = in_list_0(p);
            let b = in_list_1(p);
            let base: int = if mb.motion_type == 1 {
                4 * field + 2 * direction
            } else {
                2 * direction
            };
            let x = mb.mv[base] as int;
            let y = mb.mv[base + 1] as int;
            if x % 2 == 0 && y % 2 == 0 {
                &&& is_lone(p, !backward)
                &&& backward ==> b.frame() == layout.bwd_l1 && reaches(b, mb, field, 1)
                &&& !backward ==> a.frame() == layout.fwd_l0 && reaches(a, mb, field, 0)
                &&& backward ==> b.is_whole()
                &&& !backward ==> a.is_whole()
            } else {
                &&& is_average(p)
                &&& a.frame() == if backward {
                    layout.bwd_l0
                } else {
                    layout.fwd_l0
                }
                &&& b.frame() == if backward {
                    layout.bwd_l1
                } else {
                    layout.fwd_l1
                }
                &&& if mb.motion_type == 1 {
                    &&& a.parity(field) == mb.field_select[2 * field + direction]
                    &&& b.parity(field) == mb.field_select[2 * field + direction]
                    &&& straddles((a.x, a.y), (b.x, b.y), (x, y))
                } else {
                    // A frame line is two halves, and a whole one stands in its field.
                    &&& straddles(
                        (a.x, 2 * a.half_lines(field)),
                        (b.x, 2 * b.half_lines(field)),
                        (x, y),
                    )
                    &&& a.y % 4 == 0 && b.y % 4 == 0
                }
            }
        }),
{
    let direction: int = if backward {
        1
    } else {
        0
    };
    let base: int = if mb.motion_type == 1 {
        4 * field + 2 * direction
    } else {
        2 * direction
    };
    let x = mb.mv[base];
    let y = mb.mv[base + 1];
    assert(-0x10_0000 <= mb.mv[base] <= 0x10_0000 && -0x10_0000 <= mb.mv[base + 1] <= 0x10_0000);
    assert(predict::pair_vector(mb, field, direction) == (x, y));
    assert(predict::goes_backward(mb, layout) == backward);
    assert(!backward || !predict::goes_forward(mb, layout));
    let primary: int = if backward {
        layout.bwd_l0 as int
    } else {
        layout.fwd_l0 as int
    };
    let secondary: int = if backward {
        layout.bwd_l1 as int
    } else {
        layout.fwd_l1 as int
    };
    let p = predict::pair_prediction(Some(mb), field, top_field_first, layout, false);
    if mb.motion_type == 1 {
        let parity = mb.field_select[2 * field + direction] as int;
        assert(predict::pair_parity(mb, field, direction) == parity);
        lemma_in_field(x, y, backward, parity, field, primary, secondary);
    } else if x % 2 != 0 || y % 2 != 0 {
        lemma_between_lines(x, y, field, primary, secondary);
        assert(p == predict::between_lines(x, y, field, primary, secondary));
    } else {
        lemma_on_line(
            mb,
            field,
            direction,
            if backward {
                secondary
            } else {
                primary
            },
        );
    }
}

/// A number is half of another, rounded away from zero.
pub open spec fn is_half_away(half: int, whole: int) -> bool {
    if whole >= 0 {
        0 <= 2 * half - whole <= 1
    } else {
        0 <= whole - 2 * half <= 1
    }
}

/// The opposite field of dual-prime prediction lies on the line through the coded vector,
/// as far along it as fields lie apart in time, a line nearer or further for where the two
/// fields stand, and off it by the differential.
pub open spec fn is_opposite(
    x: int,
    y: int,
    mb: MacroblockView,
    field: int,
    intervals: int,
) -> bool {
    &&& is_half_away(x - mb.dmvector[0], intervals * mb.mv[0])
    &&& is_half_away(
        y - mb.dmvector[1] - if field == 0 {
            -1int
        } else {
            1
        },
        intervals * mb.mv[1],
    )
}

/// The opposite vector is one.
proof fn lemma_opposite(
    mb: MacroblockView,
    field: int,
    frame_picture: bool,
    top_field_first: bool,
    intervals: int,
)
    requires
        macroblock::motion_small(mb),
        field == 0 || field == 1,
        intervals == if frame_picture && (field == 0) != top_field_first {
            3int
        } else {
            1
        },
    ensures
        ({
            let opposite = predict::opposite_vector(
                (mb.mv[0], mb.mv[1]),
                (mb.dmvector[0], mb.dmvector[1]),
                field,
                frame_picture,
                top_field_first,
            );
            &&& is_opposite(opposite.0 as int, opposite.1 as int, mb, field, intervals)
            &&& -0x400_0000 <= opposite.0 <= 0x400_0000
            &&& -0x400_0000 <= opposite.1 <= 0x400_0000
        }),
{
    let x = mb.mv[0] as int;
    let y = mb.mv[1] as int;
    assert(-0x10_0000 <= x <= 0x10_0000 && -0x10_0000 <= y <= 0x10_0000);
    let n = predict::field_intervals(field, frame_picture, top_field_first);
    assert(n == intervals);
    assert(x * n == n * x && y * n == n * y) by (nonlinear_arith);
    if n == 1 {
        assert(n * x == x && n * y == y);
    } else {
        assert(n * x == 3 * x && n * y == 3 * y);
    }
}

/// Dual-prime prediction averages the field of the same parity at the coded vector with
/// the other field of the same frame. In a frame the field that comes first is one
/// interval away from the field of the other parity before it, and the one that comes
/// second is three.
#[verifier::spinoff_prover]
#[verifier::rlimit(60)]
pub proof fn law_dual_prime_averages_both_fields(
    mb: MacroblockView,
    field: int,
    top_field_first: bool,
    layout: RefLayout,
)
    requires
        macroblock::motion_small(mb),
        predict::layout_small(layout),
        layout.fwd_l0 >= 0,
        layout.fwd_l1 >= 0,
        field == 0 || field == 1,
        mb.motion_type == 3,
    ensures
        ({
            let p = predict::pair_prediction(Some(mb), field, top_field_first, layout, false);
            let a = in_list_0(p);
            let b = in_list_1(p);
            let first = (field == 0) == top_field_first;
            &&& is_average(p)
            &&& a.frame() == layout.fwd_l0
            &&& b.frame() == layout.fwd_l1
            &&& a.parity(field) == field
            &&& b.parity(field) == 1 - field
            &&& a.x == 2 * mb.mv[0] && a.y == 2 * mb.mv[1]
            &&& b.x % 2 == 0 && b.y % 2 == 0
            &&& is_opposite(
                b.x / 2,
                b.y / 2,
                mb,
                field,
                if first {
                    1
                } else {
                    3
                },
            )
        }),
{
    assert(-0x10_0000 <= mb.mv[0] <= 0x10_0000 && -0x10_0000 <= mb.mv[1] <= 0x10_0000);
    let first = (field == 0) == top_field_first;
    let n: int = if first {
        1
    } else {
        3
    };
    lemma_field_index(layout.fwd_l0 as int, field, field);
    lemma_field_index(layout.fwd_l1 as int, 1 - field, field);
    lemma_opposite(mb, field, true, top_field_first, n);
}

/// The parity that a macroblock of a field picture names: the field's own where the source
/// codes no vector.
pub open spec fn selects(mb: MacroblockView, setting: FieldSetting, slot: int, forward: bool) -> int {
    if mb.skipped || (forward && !says_forward(mb)) {
        setting.field as int
    } else {
        mb.field_select[slot] as int
    }
}

/// A macroblock of a field picture that goes both ways is predicted from the fields that
/// its vectors select, where those vectors point.
#[verifier::spinoff_prover]
#[verifier::rlimit(60)]
pub proof fn law_a_coded_field_goes_both_ways(
    mb: MacroblockView,
    setting: FieldSetting,
    partition: int,
    layout: RefLayout,
)
    requires
        macroblock::motion_small(mb),
        predict::layout_small(layout),
        layout.bwd_l0 >= 0,
        layout.fwd_l0 >= 0,
        layout.bwd_l1 >= 0,
        !layout.anchor_second_field,
        setting.field <= 1,
        partition == 0 || partition == 1,
        mb.motion_type != 3,
        mb.field_select[2 * partition] <= 1,
        mb.field_select[2 * partition + 1] <= 1,
        says_forward(mb),
        says_backward(mb),
    ensures
        ({
            let (p, counts) = predict::field_picture_prediction(
                Some(mb),
                setting,
                partition,
                false,
                layout,
            );
            let a = in_list_0(p);
            let b = in_list_1(p);
            let field = setting.field as int;
            &&& is_average(p)
            &&& a.frame() == if setting.second_reference_field {
                0
            } else {
                layout.fwd_l0
            }
            &&& b.frame() == layout.bwd_l1
            &&& a.parity(field) == selects(mb, setting, 2 * partition, true)
            &&& b.parity(field) == selects(mb, setting, 2 * partition + 1, false)
            &&& a.x == 2 * mb.mv[4 * partition]
            &&& a.y == 2 * mb.mv[4 * partition + 1]
            &&& b.x == 2 * mb.mv[4 * partition + 2]
            &&& b.y == 2 * mb.mv[4 * partition + 3]
            &&& counts.bidirectional_vectors == 1
        }),
{
    reveal(predict::field_picture_prediction);
    assert(forall|i: int| 0 <= i < 8 ==> -0x10_0000 <= #[trigger] mb.mv[i] <= 0x10_0000);
}

/// A macroblock of a field picture that goes one way between references is predicted from
/// the field that its vector selects, where that points, or from the two samples on either
/// side.
#[verifier::spinoff_prover]
#[verifier::rlimit(60)]
pub proof fn law_a_coded_field_goes_one_way(
    mb: MacroblockView,
    setting: FieldSetting,
    partition: int,
    layout: RefLayout,
    backward: bool,
)
    requires
        macroblock::motion_small(mb),
        predict::layout_small(layout),
        layout.bwd_l0 >= 0,
        layout.fwd_l0 >= 0,
        layout.fwd_l1 >= 0,
        layout.bwd_l1 >= 0,
        layout.fwd_l0 != layout.fwd_l1,
        !layout.anchor_second_field,
        !setting.second_reference_field,
        setting.field <= 1,
        partition == 0 || partition == 1,
        mb.motion_type != 3,
        mb.field_select[2 * partition] <= 1,
        mb.field_select[2 * partition + 1] <= 1,
        backward <==> says_backward(mb),
        backward ==> !says_forward(mb),
    ensures
        ({
            let p = predict::field_picture_prediction(
                Some(mb),
                setting,
                partition,
                false,
                layout,
            ).0;
            let direction: int = if backward {
                1
            } else {
                0
            };
            let a = in_list_0(p);
            let b = in_list_1(p);
            let field = setting.field as int;
            let x = mb.mv[4 * partition + 2 * direction] as int;
            let y = mb.mv[4 * partition + 2 * direction + 1] as int;
            let parity = selects(mb, setting, 2 * partition + direction, !backward);
            if x % 2 == 0 && y % 2 == 0 {
                let seen = if backward {
                    b
                } else {
                    a
                };
                &&& is_lone(p, !backward)
                &&& seen.frame() == if backward {
                    layout.bwd_l1
                } else {
                    layout.fwd_l0
                }
                &&& seen.parity(field) == parity
                &&& seen.x == 2 * x && seen.y == 2 * y
            } else {
                &&& is_average(p)
                &&& a.frame() == if backward {
                    layout.bwd_l0
                } else {
                    layout.fwd_l0
                }
                &&& b.frame() == if backward {
                    layout.bwd_l1
                } else {
                    layout.fwd_l1
                }
                &&& a.parity(field) == parity
                &&& b.parity(field) == parity
                &&& straddles((a.x, a.y), (b.x, b.y), (x, y))
            }
        }),
{
    reveal(predict::field_picture_prediction);
    assert(forall|i: int| 0 <= i < 8 ==> -0x10_0000 <= #[trigger] mb.mv[i] <= 0x10_0000);
}

/// A macroblock of a field picture that has nothing behind it is predicted from the field
/// that its vector selects. In list 1 the first two entries are exchanged, so the field
/// that list 0 names first stands second there; both name the same one.
pub proof fn law_a_coded_field_looks_back(
    mb: MacroblockView,
    setting: FieldSetting,
    partition: int,
    layout: RefLayout,
)
    requires
        macroblock::motion_small(mb),
        predict::layout_small(layout),
        layout.bwd_l0 < 0,
        layout.fwd_l0 >= 0,
        !layout.anchor_second_field,
        setting.field <= 1,
        partition == 0 || partition == 1,
        mb.motion_type != 3,
        mb.field_select[2 * partition] <= 1,
    ensures
        ({
            let p = predict::field_picture_prediction(
                Some(mb),
                setting,
                partition,
                false,
                layout,
            ).0;
            let a = in_list_0(p);
            let b = in_list_1(p);
            let field = setting.field as int;
            let x = mb.mv[4 * partition] as int;
            let y = mb.mv[4 * partition + 1] as int;
            let parity = selects(mb, setting, 2 * partition, true);
            &&& a.frame() == if setting.second_reference_field {
                0
            } else {
                layout.fwd_l0
            }
            &&& a.parity(field) == parity
            &&& if x % 2 == 0 && y % 2 == 0 {
                is_lone(p, true) && a.x == 2 * x && a.y == 2 * y
            } else {
                &&& is_average(p)
                &&& b.index == 0 || b.index == 1
                &&& b.parity(field) == 1 - parity
                &&& straddles((a.x, a.y), (b.x, b.y), (x, y))
            }
        }),
{
    reveal(predict::field_picture_prediction);
    assert(forall|i: int| 0 <= i < 8 ==> -0x10_0000 <= #[trigger] mb.mv[i] <= 0x10_0000);
}

/// Dual-prime prediction of a field picture averages the field that is selected with the
/// opposite one, one interval away, which list 1 has first. The second field of a random
/// access point has one reference and no second list: it reads that one where the vector
/// points.
#[verifier::spinoff_prover]
#[verifier::rlimit(60)]
pub proof fn law_a_coded_field_takes_dual_prime(
    mb: MacroblockView,
    setting: FieldSetting,
    partition: int,
    layout: RefLayout,
)
    requires
        macroblock::motion_small(mb),
        predict::layout_small(layout),
        layout.fwd_l0 >= 0,
        setting.field <= 1,
        partition == 0 || partition == 1,
        mb.field_select[2 * partition] <= 1,
    ensures
        ({
            let p = predict::field_picture_prediction(
                Some(mb),
                setting,
                partition,
                false,
                layout,
            ).0;
            let a = in_list_0(p);
            let b = in_list_1(p);
            let field = setting.field as int;
            if layout.anchor_second_field {
                &&& is_lone(p, true)
                &&& a == (Sighting {
                    index: 0,
                    x: 2 * mb.mv[4 * partition],
                    y: 2 * mb.mv[4 * partition + 1],
                })
            } else {
                mb.motion_type == 3 ==> {
                    &&& is_average(p)
                    &&& a.parity(field) == selects(mb, setting, 2 * partition, true)
                    &&& b.index == 0
                    &&& a.x == 2 * mb.mv[0] && a.y == 2 * mb.mv[1]
                    &&& b.x % 2 == 0 && b.y % 2 == 0
                    &&& is_opposite(b.x / 2, b.y / 2, mb, field, 1)
                }
            }
        }),
{
    reveal(predict::field_picture_prediction);
    assert(forall|i: int| 0 <= i < 8 ==> -0x10_0000 <= #[trigger] mb.mv[i] <= 0x10_0000);
    lemma_opposite(mb, setting.field as int, false, false, 1);
}

} // verus!
