//! Which samples a block is predicted from, and what their mean is.
use crate::h264::intra;
use crate::h264::intra::CodingOrder;
use vstd::arithmetic::div_mod;
use vstd::prelude::*;

verus! {

/// A smoothed sample is the nearest whole number to a quarter of its neighbours and half of
/// itself, whichever way they are read; three alike stay as they are, and so does the middle
/// of an even rise.
pub proof fn law_smoothing_is_even(before: int, middle: int, behind: int)
    ensures
        ({
            let s = intra::smoothed(before, middle, behind);
            &&& -2 <= before + 2 * middle + behind - 4 * s < 2
            &&& s == intra::smoothed(behind, middle, before)
            &&& before + behind == 2 * middle ==> s == middle
        }),
{
}

/// The mean of what is there is the nearest whole number to it: `n` samples a side, of one
/// side or of both. Where nothing is there it is the middle of the range.
pub proof fn law_means_are_nearest(above: int, left: int, n: int)
    requires
        n == 4 || n == 8,
    ensures
        -n <= above + left - 2 * n * intra::mean(Some(above), Some(left), n) < n,
        -n <= 2 * above - 2 * n * intra::mean(Some(above), None, n) < n,
        intra::mean(None, Some(left), n) == intra::mean(Some(left), None, n),
        intra::mean(None, None, n) == 128,
{
    div_mod::lemma_fundamental_div_mod(above + left + n, 2 * n);
    div_mod::lemma_mod_bound(above + left + n, 2 * n);
    div_mod::lemma_fundamental_div_mod(above + n / 2, n);
    div_mod::lemma_mod_bound(above + n / 2, n);
}

/// Macroblocks in rows: those of the rows above come before, and those to the left.
pub proof fn law_rows_come_one_after_the_other(order: CodingOrder, x: int, y: int, u: int, v: int)
    requires
        !order.mbaff,
        0 <= x < order.mb_width,
        0 <= y < order.mb_height,
        0 <= u < order.mb_width,
    ensures
        order.precedes(u, v, x, y) <==> 0 <= v && (v < y || (v == y && u < x)),
{
    let w = order.mb_width as int;
    if 0 <= v < y {
        assert(v * w + w <= y * w) by (nonlinear_arith)
            requires
                v + 1 <= y,
                w > 0,
        ;
    } else if v > y {
        assert(y * w + w <= v * w) by (nonlinear_arith)
            requires
                y + 1 <= v,
                w > 0,
        ;
    }
}

/// Macroblocks in pairs: those of the pairs above come before, those of the pairs to the left,
/// and of a pair the upper one.
pub proof fn law_pairs_come_one_after_the_other(order: CodingOrder, x: int, y: int, u: int, v: int)
    requires
        order.mbaff,
        0 <= x < order.mb_width,
        0 <= y < order.mb_height,
        0 <= u < order.mb_width,
        0 <= v < order.mb_height,
    ensures
        order.precedes(u, v, x, y) <==> (v / 2 < y / 2 || (v / 2 == y / 2 && (u < x || (u == x && v
            < y)))),
{
    let w = order.mb_width as int;
    let p = v / 2;
    let q = y / 2;
    if p < q {
        assert(p * w + w <= q * w) by (nonlinear_arith)
            requires
                p + 1 <= q,
                w > 0,
        ;
    } else if p > q {
        assert(q * w + w <= p * w) by (nonlinear_arith)
            requires
                q + 1 <= p,
                w > 0,
        ;
    }
}

/// What stands beside the four luma blocks of a macroblock, where macroblocks come in rows.
/// The first block has what the macroblock has; the second has the first on its left; the
/// third has both of them above; the last has nothing above and to the right of it.
pub proof fn law_blocks_know_their_surroundings(order: CodingOrder, x: int, y: int)
    requires
        order.wf(),
        !order.mbaff,
        0 <= x < order.mb_width,
        0 <= y < order.mb_height,
    ensures
        ({
            let first = intra::beside(order, x, y, 0);
            let second = intra::beside(order, x, y, 1);
            let third = intra::beside(order, x, y, 2);
            let last = intra::beside(order, x, y, 3);
            &&& first.left <==> x > 0
            &&& first.above <==> y > 0
            &&& first.corner <==> x > 0 && y > 0
            &&& first.right <==> y > 0
            &&& second.left
            &&& second.above <==> y > 0
            &&& second.corner <==> y > 0
            &&& second.right <==> y > 0 && x + 1 < order.mb_width
            &&& third.left <==> x > 0
            &&& third.above
            &&& third.corner <==> x > 0
            &&& third.right
            &&& last.left && last.above && last.corner
            &&& !last.right
        }),
{
    law_rows_come_one_after_the_other(order, x, y, x, y - 1);
    if x > 0 {
        law_rows_come_one_after_the_other(order, x, y, x - 1, y);
        law_rows_come_one_after_the_other(order, x, y, x - 1, y - 1);
    }
    if x + 1 < order.mb_width {
        law_rows_come_one_after_the_other(order, x, y, x + 1, y - 1);
        law_rows_come_one_after_the_other(order, x, y, x + 1, y);
    }
    assert((16 * x + 16) / 16 == x + 1);
    assert((16 * x + 15) / 16 == x);
    assert((16 * x + 7) / 16 == x && (16 * x + 8) / 16 == x);
    assert((16 * y + 7) / 16 == y && (16 * y + 8) / 16 == y);
    if y > 0 {
        assert((16 * y - 1) / 16 == y - 1);
    }
    if x > 0 {
        assert((16 * x - 1) / 16 == x - 1);
    }
}

/// What stands beside the four luma blocks of a macroblock of a pair. The upper one has what
/// the pair has; the lower one has the upper above it, and nothing to the right of that.
pub proof fn law_blocks_of_pairs_know_their_surroundings(order: CodingOrder, x: int, y: int)
    requires
        order.wf(),
        order.mbaff,
        0 <= x < order.mb_width,
        0 <= y < order.mb_height,
    ensures
        ({
            let first = intra::beside(order, x, y, 0);
            let second = intra::beside(order, x, y, 1);
            let third = intra::beside(order, x, y, 2);
            let last = intra::beside(order, x, y, 3);
            let lower = y % 2 == 1;
            &&& first.left <==> x > 0
            &&& first.above <==> y > 0
            &&& first.corner <==> x > 0 && y > 0
            &&& first.right <==> y > 0
            &&& second.left
            &&& second.above <==> y > 0
            &&& second.corner <==> y > 0
            &&& second.right <==> !lower && y > 0 && x + 1 < order.mb_width
            &&& third.left <==> x > 0
            &&& third.above
            &&& third.corner <==> x > 0
            &&& third.right
            &&& last.left && last.above && last.corner
            &&& !last.right
        }),
{
    if y > 0 {
        law_pairs_come_one_after_the_other(order, x, y, x, y - 1);
        if x > 0 {
            law_pairs_come_one_after_the_other(order, x, y, x - 1, y - 1);
        }
        if x + 1 < order.mb_width {
            law_pairs_come_one_after_the_other(order, x, y, x + 1, y - 1);
        }
    }
    if x > 0 {
        law_pairs_come_one_after_the_other(order, x, y, x - 1, y);
    }
    if x + 1 < order.mb_width {
        law_pairs_come_one_after_the_other(order, x, y, x + 1, y);
    }
    assert((16 * x + 16) / 16 == x + 1);
    assert((16 * x + 15) / 16 == x);
    assert((16 * x + 7) / 16 == x && (16 * x + 8) / 16 == x);
    assert((16 * y + 7) / 16 == y && (16 * y + 8) / 16 == y);
    if y > 0 {
        assert((16 * y - 1) / 16 == y - 1);
    }
    if x > 0 {
        assert((16 * x - 1) / 16 == x - 1);
    }
}

/// Surroundings that are all alike predict the same again: every sample above, to the right
/// of those, to the left and at the corner being `v`, so is the prediction.
pub proof fn law_even_surroundings_predict_themselves(
    plane: Seq<u8>,
    width: int,
    order: CodingOrder,
    x: int,
    y: int,
    blk: int,
    v: int,
)
    requires
        0 <= blk < 4,
        intra::beside(order, x, y, blk).above || intra::beside(order, x, y, blk).left,
        forall|i: int, j: int| #[trigger] intra::sample(plane, width, i, j) == v,
    ensures
        intra::luma_mean(plane, width, order, x, y, blk) == v,
{
    let near = intra::beside(order, x, y, blk);
    let x0 = 16 * x + 8 * (blk % 2);
    let y0 = 16 * y + 8 * (blk / 2);
    lemma_even_sums(plane, width, x0, y0, near, v, 8);
    if near.above && near.left {
        assert((8 * v + 8 * v + 8) / 16 == v);
    } else {
        assert((8 * v + 4) / 8 == v);
    }
}

/// Sums of samples that are all alike.
proof fn lemma_even_sums(
    plane: Seq<u8>,
    width: int,
    x0: int,
    y0: int,
    near: intra::Beside,
    v: int,
    n: nat,
)
    requires
        forall|i: int, j: int| #[trigger] intra::sample(plane, width, i, j) == v,
    ensures
        intra::above_sum(plane, width, x0, y0, near, n) == n * v,
        intra::left_sum(plane, width, x0, y0, near, n) == n * v,
    decreases n,
{
    if n > 0 {
        lemma_even_sums(plane, width, x0, y0, near, v, (n - 1) as nat);
        assert((n - 1) * v + v == n * v) by (nonlinear_arith);
        assert(intra::above_smoothed(plane, width, x0, y0, near, n - 1) == v);
        assert(intra::left_smoothed(plane, width, x0, y0, near, n - 1) == v);
    } else {
        assert(0 * v == 0) by (nonlinear_arith);
    }
}

/// The second chroma block is predicted from above alone where there is anything above, the
/// third from the left alone where there is anything on the left, and the other two from
/// whatever is there. Each takes the four samples beside itself.
pub proof fn law_chroma_blocks_choose_their_side(
    plane: Seq<u8>,
    width: int,
    order: CodingOrder,
    x: int,
    y: int,
    blk: int,
)
    requires
        0 <= blk < 4,
        order.precedes(x, y - 1, x, y),
        order.precedes(x - 1, y, x, y),
    ensures
        ({
            let right = if blk == 1 || blk == 3 {
                4int
            } else {
                0
            };
            let down = if blk == 2 || blk == 3 {
                4int
            } else {
                0
            };
            let at = |i: int, j: int| intra::sample(plane, width, i, j);
            let above = at(8 * x + right, 8 * y - 1) + at(8 * x + right + 1, 8 * y - 1) + at(
                8 * x + right + 2,
                8 * y - 1,
            ) + at(8 * x + right + 3, 8 * y - 1);
            let left = at(8 * x - 1, 8 * y + down) + at(8 * x - 1, 8 * y + down + 1) + at(
                8 * x - 1,
                8 * y + down + 2,
            ) + at(8 * x - 1, 8 * y + down + 3);
            let m = intra::chroma_mean(plane, width, order, x, y, blk);
            &&& blk == 1 ==> m == intra::mean(Some(above), None, 4)
            &&& blk == 2 ==> m == intra::mean(None, Some(left), 4)
            &&& blk == 0 || blk == 3 ==> m == intra::mean(Some(above), Some(left), 4)
        }),
{
    reveal_with_fuel(intra::line_sum, 5);
}

} // verus!
