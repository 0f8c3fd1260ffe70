//! Reproducing half-sample motion with integer-sample motion.
//!
//! MPEG-2 forms a half sample as the rounded average of its two neighbours, and so
//! does bi-prediction from two positions one whole sample apart. A vector that
//! falls between samples on one axis therefore becomes two vectors that do not,
//! and their average is the same prediction to the last bit.
use vstd::prelude::*;

verus! {

/// Where a vector points: in half samples.
#[derive(Clone, Copy, PartialEq, Eq, Debug, Structural)]
pub enum VectorKind {
    Integer,
    HalfOneAxis,
    HalfBothAxes,
}

/// A vector as one or two positions, in quarter samples.
#[derive(Clone, Copy, PartialEq, Eq, Debug)]
pub struct MappedVector {
    pub kind: VectorKind,
    pub a: [i32; 2],
    /// The second position, where the prediction is the average of two.
    pub b: Option<[i32; 2]>,
}

/// The largest vector that is mapped.
pub const VECTOR_LIMIT: i32 = 0x1000_0000;

/// The number is small enough to be mapped.
pub open spec fn mappable(v: i32) -> bool {
    -VECTOR_LIMIT <= v <= VECTOR_LIMIT
}

/// The position of a vector, in quarter samples, for the decoder to interpolate.
pub fn native_position(x: i32, y: i32) -> (position: [i32; 2])
    requires
        mappable(x),
        mappable(y),
    ensures
        position == [(2 * x) as i32, (2 * y) as i32],
{
    [2 * x, 2 * y]
}

/// Where a vector points.
pub open spec fn kind_of(x: i32, y: i32) -> VectorKind {
    if x % 2 == 0 && y % 2 == 0 {
        VectorKind::Integer
    } else if x % 2 == 0 || y % 2 == 0 {
        VectorKind::HalfOneAxis
    } else {
        VectorKind::HalfBothAxes
    }
}

/// The whole sample at or below a position in half samples, in quarter samples.
pub open spec fn floor4(v: i32) -> int {
    4 * (v as int / 2)
}

/// A vector as one or two positions. Between samples on one axis, the two whole
/// samples on either side; between samples on both, the two rows on either side,
/// each at the half sample that the decoder interpolates.
pub open spec fn mapped(x: i32, y: i32) -> MappedVector {
    match kind_of(x, y) {
        VectorKind::Integer => MappedVector {
            kind: VectorKind::Integer,
            a: [(2 * x) as i32, (2 * y) as i32],
            b: None,
        },
        VectorKind::HalfOneAxis => if x % 2 != 0 {
            MappedVector {
                kind: VectorKind::HalfOneAxis,
                a: [floor4(x) as i32, (2 * y) as i32],
                b: Some([(floor4(x) + 4) as i32, (2 * y) as i32]),
            }
        } else {
            MappedVector {
                kind: VectorKind::HalfOneAxis,
                a: [(2 * x) as i32, floor4(y) as i32],
                b: Some([(2 * x) as i32, (floor4(y) + 4) as i32]),
            }
        },
        VectorKind::HalfBothAxes => MappedVector {
            kind: VectorKind::HalfBothAxes,
            a: [(2 * x) as i32, floor4(y) as i32],
            b: Some([(2 * x) as i32, (floor4(y) + 4) as i32]),
        },
    }
}

/// Half of a number, rounded down.
fn half(v: i32) -> (h: i32)
    ensures
        h == v as int / 2,
{
    if v >= 0 || v % 2 == 0 {
        v / 2
    } else {
        v / 2 - 1
    }
}

/// Map a vector in half samples to one or two positions in quarter samples.
pub fn map_vector(x: i32, y: i32) -> (vector: MappedVector)
    requires
        mappable(x),
        mappable(y),
    ensures
        vector == mapped(x, y),
{
    let half_x: bool = x % 2 != 0;
    let half_y: bool = y % 2 != 0;
    if !half_x && !half_y {
        MappedVector { kind: VectorKind::Integer, a: [2 * x, 2 * y], b: None }
    } else if half_x && !half_y {
        let x0: i32 = 4 * half(x);
        MappedVector { kind: VectorKind::HalfOneAxis, a: [x0, 2 * y], b: Some([x0 + 4, 2 * y]) }
    } else {
        let y0: i32 = 4 * half(y);
        MappedVector {
            kind: if half_x {
                VectorKind::HalfBothAxes
            } else {
                VectorKind::HalfOneAxis
            },
            a: [2 * x, y0],
            b: Some([2 * x, y0 + 4]),
        }
    }
}

/// However a vector is mapped, the positions average to where it points; and unless it
/// falls between samples on both axes, each of them is a whole sample.
pub proof fn law_positions_average_to_the_vector(x: i32, y: i32)
    requires
        mappable(x),
        mappable(y),
    ensures
        ({
            let m = mapped(x, y);
            let b = match m.b {
                Some(b) => b,
                None => m.a,
            };
            &&& m.a[0] + b[0] == 4 * x
            &&& m.a[1] + b[1] == 4 * y
            &&& m.kind !is HalfBothAxes ==> m.a[0] % 4 == 0 && m.a[1] % 4 == 0 && b[0] % 4 == 0
                && b[1] % 4 == 0
            &&& m.b is None <==> m.kind is Integer
        }),
{
}

/// The rounded average of two samples: how MPEG-2 forms a half sample, and H.264 a
/// prediction from two positions.
pub open spec fn average(a: int, b: int) -> int {
    (a + b + 1) / 2
}

/// What MPEG-2 predicts a sample from, with a vector in half samples that falls between
/// samples on one axis at most. `picture` gives the samples of the reference.
pub open spec fn half_sample(
    picture: spec_fn(int, int) -> int,
    column: int,
    row: int,
    x: i32,
    y: i32,
) -> int {
    let at_x = column + x as int / 2;
    let at_y = row + y as int / 2;
    if x % 2 != 0 {
        average(picture(at_x, at_y), picture(at_x + 1, at_y))
    } else if y % 2 != 0 {
        average(picture(at_x, at_y), picture(at_x, at_y + 1))
    } else {
        picture(at_x, at_y)
    }
}

/// What H.264 predicts a sample from, with a vector in quarter samples that falls on
/// samples.
pub open spec fn whole_sample(
    picture: spec_fn(int, int) -> int,
    column: int,
    row: int,
    vector: [i32; 2],
) -> int {
    picture(column + vector[0] as int / 4, row + vector[1] as int / 4)
}

/// A vector that falls between samples on one axis at most predicts the same luma
/// samples once it is mapped, whatever picture it points into.
pub proof fn law_one_axis_halves_are_exact(
    picture: spec_fn(int, int) -> int,
    column: int,
    row: int,
    x: i32,
    y: i32,
)
    requires
        mappable(x),
        mappable(y),
        !(kind_of(x, y) is HalfBothAxes),
    ensures
        ({
            let m = mapped(x, y);
            half_sample(picture, column, row, x, y) == match m.b {
                Some(b) => average(
                    whole_sample(picture, column, row, m.a),
                    whole_sample(picture, column, row, b),
                ),
                None => whole_sample(picture, column, row, m.a),
            }
        }),
{
}

} // verus!
