//! Which neighbours predict a vector, and how.
use crate::h264::mb;
use crate::h264::mb::{MbMotion, PredictionMode};
use crate::h264::mvmap;
use crate::h264::mvpred;
use crate::h264::mvpred::{Around, MotionFieldView};
use vstd::prelude::*;

verus! {

/// The greatest of three numbers.
pub open spec fn greatest(a: int, b: int, c: int) -> int {
    if a >= b && a >= c {
        a
    } else if b >= c {
        b
    } else {
        c
    }
}

/// The least of three numbers.
pub open spec fn least(a: int, b: int, c: int) -> int {
    -greatest(-a, -b, -c)
}

/// The median of three numbers is what is left of them without the greatest and the least.
pub proof fn law_the_median_is_in_the_middle(a: i32, b: i32, c: i32)
    ensures
        mvpred::median_of(a, b, c) == a + b + c - greatest(a as int, b as int, c as int) - least(
            a as int,
            b as int,
            c as int,
        ),
{
}

/// Whether a neighbour is predicted from picture `ref_idx` of the list.
pub open spec fn refers(cell: Option<MbMotion>, list: int, ref_idx: int) -> bool {
    cell matches Some(m) && ref_idx >= 0 && ref_idx == if list == 0 {
        m.ref_idx_l0
    } else {
        m.ref_idx_l1
    }
}

/// Whether a neighbour uses the list at all.
pub open spec fn uses(cell: Option<MbMotion>, list: int) -> bool {
    cell matches Some(m) && 0 <= if list == 0 {
        m.ref_idx_l0
    } else {
        m.ref_idx_l1
    }
}

/// The vector that a neighbour has for the list, or none where it does not use it.
pub open spec fn vector_of(cell: Option<MbMotion>, list: int) -> (int, int) {
    if !uses(cell, list) {
        (0, 0)
    } else if list == 0 {
        (cell->Some_0.mv_l0x as int, cell->Some_0.mv_l0y as int)
    } else {
        (cell->Some_0.mv_l1x as int, cell->Some_0.mv_l1y as int)
    }
}

/// A vector is predicted from three neighbours. Where one of them alone is predicted from the
/// same picture, by its vector; where only the one to the left is there, by that one's;
/// elsewhere by the median of the three on each axis, of which one that does not use the list
/// counts as zero.
pub proof fn law_neighbours_predict(near: Around, list: int, ref_idx: i32)
    requires
        ref_idx >= 0,
    ensures
        ({
            let p = mvpred::median_vector(near, list, ref_idx);
            let a = refers(near.left, list, ref_idx as int);
            let b = refers(near.above, list, ref_idx as int);
            let c = refers(near.corner, list, ref_idx as int);
            let left_alone = near.left is Some && near.above is None && near.corner is None;
            let (ax, ay) = vector_of(near.left, list);
            let (bx, by) = vector_of(near.above, list);
            let (cx, cy) = vector_of(near.corner, list);
            &&& left_alone ==> p[0] == ax && p[1] == ay
            &&& a && !b && !c ==> p[0] == ax && p[1] == ay
            &&& b && !a && !c ==> p[0] == bx && p[1] == by
            &&& c && !a && !b ==> p[0] == cx && p[1] == cy
            &&& !left_alone && !(a && !b && !c) && !(b && !a && !c) && !(c && !a && !b) ==> p[0]
                == ax + bx + cx - greatest(ax, bx, cx) - least(ax, bx, cx) && p[1] == ay + by + cy
                - greatest(ay, by, cy) - least(ay, by, cy)
        }),
{
    let a = mvpred::candidate_of(near.left, list);
    let b = mvpred::candidate_of(near.above, list);
    let c = mvpred::candidate_of(near.corner, list);
    law_the_median_is_in_the_middle(a.x, b.x, c.x);
    law_the_median_is_in_the_middle(a.y, b.y, c.y);
}

/// Two cells of a field of motion are the same only where column and row are.
proof fn lemma_cells_differ(width: int, x: int, row: int, u: int, line: int)
    requires
        0 <= x < width,
        0 <= u < width,
        0 <= row,
        0 <= line,
    ensures
        row * width + x == line * width + u <==> x == u && row == line,
        0 <= row * width + x,
{
    assert(row * width >= 0) by (nonlinear_arith)
        requires
            row >= 0,
            width > 0,
    ;
    if row < line {
        assert(row * width + width <= line * width) by (nonlinear_arith)
            requires
                row + 1 <= line,
                width > 0,
        ;
    } else if line < row {
        assert(line * width + width <= row * width) by (nonlinear_arith)
            requires
                line + 1 <= row,
                width > 0,
        ;
    }
}

/// What one cell is given, it holds, and no other.
proof fn lemma_put(f: MotionFieldView, x: int, row: int, m: MbMotion, u: int, line: int)
    requires
        f.wf(),
        0 <= x < f.width,
        0 <= row < 2 * f.height,
    ensures
        f.put(x, row, m).wf(),
        f.put(x, row, m).cell(u, line) == if u == x && line == row {
            Some(m)
        } else {
            f.cell(u, line)
        },
{
    assert(0 <= row * f.width + x < 2 * f.height * f.width) by (nonlinear_arith)
        requires
            0 <= x < f.width,
            0 <= row < 2 * f.height,
    ;
    if 0 <= u < f.width && 0 <= line < 2 * f.height {
        lemma_cells_differ(f.width, x, row, u, line);
        assert(0 <= line * f.width + u < 2 * f.height * f.width) by (nonlinear_arith)
            requires
                0 <= u < f.width,
                0 <= line < 2 * f.height,
        ;
    }
}

/// A macroblock's motion is what its neighbours find: to the right of it on their left, below
/// it above them, and at the corner of the one below and to the left of it. The one below and
/// to the right finds it at its corner only where nothing stands above and to the right of
/// that one.
pub proof fn law_neighbours_are_found(f: MotionFieldView, x: int, y: int, m: MbMotion)
    requires
        f.wf(),
        0 <= x < f.width,
        0 <= y < f.height,
    ensures
        ({
            let after = f.put_whole(x, y, m);
            &&& after.around(x + 1, y).left == Some(m)
            &&& after.around(x, y + 1).above == Some(m)
            &&& after.around(x - 1, y + 1).corner == Some(m)
            &&& after.cell(x + 2, 2 * y + 1) is None ==> after.around(x + 1, y + 1).corner
                == Some(m)
            &&& after.around_lower(x + 1, y).left == Some(m)
            &&& after.around_lower(x + 1, y).corner == Some(m)
            &&& after.around_lower(x, y).above == Some(m)
            // What is further away is not touched.
            &&& after.around(x, y) == f.around(x, y)
            &&& after.around(x - 1, y) == f.around(x - 1, y)
        }),
{
    let first = f.put(x, 2 * y, m);
    let after = f.put_whole(x, y, m);
    lemma_put(f, x, 2 * y, m, x, 2 * y);
    lemma_put(first, x, 2 * y + 1, m, x, 2 * y + 1);
    assert forall|u: int, line: int| #[trigger] after.cell(u, line) == if u == x && (line == 2 * y
        || line == 2 * y + 1) {
        Some(m)
    } else {
        f.cell(u, line)
    } by {
        lemma_put(f, x, 2 * y, m, u, line);
        lemma_put(first, x, 2 * y + 1, m, u, line);
    }
}

/// A half of a macroblock is predicted by one neighbour where that is predicted from the same
/// picture, the upper half by the one above, the lower half by the one to the left; elsewhere
/// by all three as a whole macroblock is. The lower half has the upper one above it.
pub proof fn law_halves_prefer_one_neighbour(
    f: MotionFieldView,
    x: int,
    y: int,
    list: int,
    ref_idx: i32,
)
    requires
        ref_idx >= 0,
    ensures
        ({
            let upper = f.predicted_half(x, y, 0, list, ref_idx);
            let lower = f.predicted_half(x, y, 1, list, ref_idx);
            let above = f.around(x, y).above;
            let left = f.cell(x - 1, 2 * y + 1);
            &&& refers(above, list, ref_idx as int) ==> upper[0] == vector_of(above, list).0
                && upper[1] == vector_of(above, list).1
            &&& !refers(above, list, ref_idx as int) ==> upper == mvpred::median_vector(
                f.around(x, y),
                list,
                ref_idx,
            )
            &&& refers(left, list, ref_idx as int) ==> lower[0] == vector_of(left, list).0
                && lower[1] == vector_of(left, list).1
            &&& !refers(left, list, ref_idx as int) ==> lower == mvpred::median_vector(
                (Around { left, above: f.cell(x, 2 * y), corner: f.cell(x - 1, 2 * y) }),
                list,
                ref_idx,
            )
        }),
{
}

/// The types of macroblocks whose halves are predicted apart, and of whole ones.
pub proof fn law_types_are_those_of_the_table()
    ensures
        mb::halves_mb_type(PredictionMode::L0, PredictionMode::L0) == 4,
        mb::halves_mb_type(PredictionMode::L1, PredictionMode::L1) == 6,
        mb::halves_mb_type(PredictionMode::L0, PredictionMode::L1) == 8,
        mb::halves_mb_type(PredictionMode::L1, PredictionMode::L0) == 10,
        mb::halves_mb_type(PredictionMode::L0, PredictionMode::Bi) == 12,
        mb::halves_mb_type(PredictionMode::L1, PredictionMode::Bi) == 14,
        mb::halves_mb_type(PredictionMode::Bi, PredictionMode::L0) == 16,
        mb::halves_mb_type(PredictionMode::Bi, PredictionMode::L1) == 18,
        mb::halves_mb_type(PredictionMode::Bi, PredictionMode::Bi) == 20,
        PredictionMode::of_mb_type(1) is L0,
        PredictionMode::of_mb_type(2) is L1,
        PredictionMode::of_mb_type(3) is Bi,
{
}

/// The two positions that stand for a vector between samples lie one whole sample apart, on
/// the axis that it lies between samples on, or on the vertical one where it does on both; a
/// vector that points at a sample has one position.
pub proof fn law_positions_lie_a_sample_apart(x: i32, y: i32)
    requires
        mvmap::mappable(x),
        mvmap::mappable(y),
    ensures
        ({
            let m = mvmap::mapped(x, y);
            &&& m.b is None <==> x % 2 == 0 && y % 2 == 0
            &&& m.b matches Some(b) ==> {
                &&& y % 2 != 0 ==> b[1] - m.a[1] == 4 && b[0] == m.a[0]
                &&& y % 2 == 0 ==> b[0] - m.a[0] == 4 && b[1] == m.a[1]
            }
        }),
{
}

} // verus!
