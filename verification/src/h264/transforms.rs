//! What the inverse transforms add to a block, told by their basis functions.
use crate::bits;
use crate::h264::reconstruct;
use vstd::arithmetic::div_mod;
use vstd::prelude::*;

verus! {

/// What coefficient `j` of eight adds to sample `k`, in eighths.
pub open spec fn eighth(j: int, k: int) -> int {
    if j == 0 {
        8
    } else if j == 4 {
        if k == 0 || k == 3 || k == 4 || k == 7 {
            8
        } else {
            -8
        }
    } else if j == 2 {
        half_mirrored(seq![8, 4, -4, -8], k)
    } else if j == 6 {
        half_mirrored(seq![4, -8, 8, -4], k)
    } else if j == 1 {
        half_turned(seq![12, 10, 6, 3], k)
    } else if j == 3 {
        half_turned(seq![10, -3, -12, -6], k)
    } else if j == 5 {
        half_turned(seq![6, -12, 3, 10], k)
    } else {
        half_turned(seq![3, -6, 10, -12], k)
    }
}

/// Four numbers, and the same four backwards.
pub open spec fn half_mirrored(s: Seq<int>, k: int) -> int {
    if k < 4 {
        s[k]
    } else {
        s[7 - k]
    }
}

/// Four numbers, and the same four backwards with their signs turned.
pub open spec fn half_turned(s: Seq<int>, k: int) -> int {
    if k < 4 {
        s[k]
    } else {
        -s[7 - k]
    }
}

/// What eight coefficients add to sample `k`, in eighths.
pub open spec fn eight_sum(c: Seq<int>, k: int) -> int {
    eighth(0, k) * c[0] + eighth(1, k) * c[1] + eighth(2, k) * c[2] + eighth(3, k) * c[3] + eighth(
        4,
        k,
    ) * c[4] + eighth(5, k) * c[5] + eighth(6, k) * c[6] + eighth(7, k) * c[7]
}

/// The numbers of the basis functions, sample by sample.
proof fn lemma_numbers(k: int)
    requires
        0 <= k < 8,
    ensures
        k == 0 ==> eighth(0, k) == 8 && eighth(1, k) == 12 && eighth(2, k) == 8 && eighth(3, k) == 10 && eighth(4, k) == 8 && eighth(5, k) == 6 && eighth(6, k) == 4 && eighth(7, k) == 3,
        k == 1 ==> eighth(0, k) == 8 && eighth(1, k) == 10 && eighth(2, k) == 4 && eighth(3, k) == -3 && eighth(4, k) == -8 && eighth(5, k) == -12 && eighth(6, k) == -8 && eighth(7, k) == -6,
        k == 2 ==> eighth(0, k) == 8 && eighth(1, k) == 6 && eighth(2, k) == -4 && eighth(3, k) == -12 && eighth(4, k) == -8 && eighth(5, k) == 3 && eighth(6, k) == 8 && eighth(7, k) == 10,
        k == 3 ==> eighth(0, k) == 8 && eighth(1, k) == 3 && eighth(2, k) == -8 && eighth(3, k) == -6 && eighth(4, k) == 8 && eighth(5, k) == 10 && eighth(6, k) == -4 && eighth(7, k) == -12,
        k == 4 ==> eighth(0, k) == 8 && eighth(1, k) == -3 && eighth(2, k) == -8 && eighth(3, k) == 6 && eighth(4, k) == 8 && eighth(5, k) == -10 && eighth(6, k) == -4 && eighth(7, k) == 12,
        k == 5 ==> eighth(0, k) == 8 && eighth(1, k) == -6 && eighth(2, k) == -4 && eighth(3, k) == 12 && eighth(4, k) == -8 && eighth(5, k) == -3 && eighth(6, k) == 8 && eighth(7, k) == -10,
        k == 6 ==> eighth(0, k) == 8 && eighth(1, k) == -10 && eighth(2, k) == 4 && eighth(3, k) == 3 && eighth(4, k) == -8 && eighth(5, k) == 12 && eighth(6, k) == -8 && eighth(7, k) == 6,
        k == 7 ==> eighth(0, k) == 8 && eighth(1, k) == -12 && eighth(2, k) == 8 && eighth(3, k) == -10 && eighth(4, k) == 8 && eighth(5, k) == -6 && eighth(6, k) == 4 && eighth(7, k) == -3,
{
}

/// A product with one of the numbers of the basis functions.
proof fn lemma_times(w: int, c: int)
    ensures
        w == 3 ==> w * c == 3 * c,
        w == -3 ==> w * c == -3 * c,
        w == 4 ==> w * c == 4 * c,
        w == -4 ==> w * c == -4 * c,
        w == 6 ==> w * c == 6 * c,
        w == -6 ==> w * c == -6 * c,
        w == 8 ==> w * c == 8 * c,
        w == -8 ==> w * c == -8 * c,
        w == 10 ==> w * c == 10 * c,
        w == -10 ==> w * c == -10 * c,
        w == 12 ==> w * c == 12 * c,
        w == -12 ==> w * c == -12 * c,
{
}

/// The inverse transform of eight coefficients adds to each sample what the basis functions
/// say, exactly where the coefficients can be divided by eight.
pub proof fn law_eight_coefficients_add_their_functions(c: Seq<int>, d: Seq<int>, k: int)
    requires
        c.len() == 8,
        d.len() == 8,
        forall|j: int| 0 <= j < 8 ==> #[trigger] d[j] == 8 * c[j],
        0 <= k < 8,
    ensures
        reconstruct::inverse_eight(d)[k] == eight_sum(c, k),
{
    assert(d[0] == 8 * c[0] && d[1] == 8 * c[1] && d[2] == 8 * c[2] && d[3] == 8 * c[3] && d[4]
        == 8 * c[4] && d[5] == 8 * c[5] && d[6] == 8 * c[6] && d[7] == 8 * c[7]);
    let e1 = -d[3] + d[5] - d[7] - d[7] / 2;
    let e3 = d[1] + d[7] - d[3] - d[3] / 2;
    let e5 = -d[1] + d[7] + d[5] + d[5] / 2;
    let e7 = d[3] + d[5] + d[1] + d[1] / 2;
    assert(e1 == 4 * (-2 * c[3] + 2 * c[5] - 3 * c[7]));
    assert(e3 == 4 * (2 * c[1] + 2 * c[7] - 3 * c[3]));
    assert(e5 == 4 * (-2 * c[1] + 2 * c[7] + 3 * c[5]));
    assert(e7 == 4 * (2 * c[3] + 2 * c[5] + 3 * c[1]));
    assert(e1 / 4 == -2 * c[3] + 2 * c[5] - 3 * c[7]);
    assert(e3 / 4 == 2 * c[1] + 2 * c[7] - 3 * c[3]);
    assert(e5 / 4 == -2 * c[1] + 2 * c[7] + 3 * c[5]);
    assert(e7 / 4 == 2 * c[3] + 2 * c[5] + 3 * c[1]);
    let f0 = d[0] + d[4] + d[2] + 4 * c[6];
    let f2 = d[0] - d[4] + 4 * c[2] - d[6];
    let f4 = d[0] - d[4] - 4 * c[2] + d[6];
    let f6 = d[0] + d[4] - d[2] - 4 * c[6];
    let f1 = e1 + e7 / 4;
    let f3 = e3 + e5 / 4;
    let f5 = e3 / 4 - e5;
    let f7 = e7 - e1 / 4;
    let out = reconstruct::inverse_eight(d);
    assert(out[0] == f0 + f7 && out[1] == f2 + f5 && out[2] == f4 + f3 && out[3] == f6 + f1 && out[4]
        == f6 - f1 && out[5] == f4 - f3 && out[6] == f2 - f5 && out[7] == f0 - f7);
    lemma_times(eighth(0, k), c[0]);
    lemma_times(eighth(1, k), c[1]);
    lemma_times(eighth(2, k), c[2]);
    lemma_times(eighth(3, k), c[3]);
    lemma_times(eighth(4, k), c[4]);
    lemma_times(eighth(5, k), c[5]);
    lemma_times(eighth(6, k), c[6]);
    lemma_times(eighth(7, k), c[7]);
    lemma_numbers(k);
    assert(k == 0 || k == 1 || k == 2 || k == 3 || k == 4 || k == 5 || k == 6 || k == 7);
}

/// The inverse transform of four coefficients adds to each sample what the basis functions
/// say, exactly where the coefficients are even: the first alike everywhere, the third in
/// front and behind against the middle, the second falling and the fourth turning.
pub proof fn law_four_coefficients_add_their_functions(c: Seq<int>, d: Seq<int>)
    requires
        c.len() == 4,
        d.len() == 4,
        forall|j: int| 0 <= j < 4 ==> #[trigger] d[j] == 2 * c[j],
    ensures
        ({
            let out = reconstruct::inverse_four(d);
            &&& out[0] == 2 * c[0] + 2 * c[1] + 2 * c[2] + c[3]
            &&& out[1] == 2 * c[0] + c[1] - 2 * c[2] - 2 * c[3]
            &&& out[2] == 2 * c[0] - c[1] - 2 * c[2] + 2 * c[3]
            &&& out[3] == 2 * c[0] - 2 * c[1] + 2 * c[2] - c[3]
        }),
{
    assert(d[0] == 2 * c[0] && d[1] == 2 * c[1] && d[2] == 2 * c[2] && d[3] == 2 * c[3]);
}

/// What the coefficients of row `y` add along it to column `x`.
pub open spec fn row_sum(c: Seq<int>, y: int, x: int) -> int {
    eight_sum(Seq::new(8, |i: int| c[8 * y + i]), x)
}

/// The inverse transform of a block goes along its rows and then along its columns, and
/// rounds to the nearest whole number: exactly so where the coefficients can be divided by
/// 64.
pub proof fn law_blocks_add_their_functions(c: Seq<int>, block: Seq<int>, x: int, y: int)
    requires
        c.len() == 64,
        block.len() == 64,
        forall|k: int| 0 <= k < 64 ==> #[trigger] block[k] == 64 * c[k],
        0 <= x < 8,
        0 <= y < 8,
    ensures
        ({
            let sum = eight_sum(Seq::new(8, |j: int| row_sum(c, j, x)), y);
            let added = reconstruct::inverse_8x8(block)[8 * y + x];
            -32 <= sum - 64 * added < 32
        }),
{
    let rows = reconstruct::rows_inverted_8x8(block);
    let down = reconstruct::column_of(rows, 8, x);
    let sums = Seq::new(8, |j: int| row_sum(c, j, x));
    assert forall|j: int| 0 <= j < 8 implies #[trigger] down[j] == 8 * sums[j] by {
        let along = reconstruct::row_of(block, 8, j);
        let own = Seq::new(8, |i: int| c[8 * j + i]);
        let scaled = Seq::new(8, |i: int| 8 * c[8 * j + i]);
        assert forall|i: int| 0 <= i < 8 implies #[trigger] along[i] == 8 * scaled[i] by {
            assert(along[i] == block[8 * j + i]);
        }
        law_eight_coefficients_add_their_functions(scaled, along, x);
        assert(down[j] == rows[8 * j + x]);
        assert((8 * j + x) / 8 == j && (8 * j + x) % 8 == x);
        lemma_sum_scales(own, scaled, x);
    }
    law_eight_coefficients_add_their_functions(sums, down, y);
    let k = 8 * y + x;
    assert(k / 8 == y && k % 8 == x);
}

/// Eight times the coefficients add eight times as much.
proof fn lemma_sum_scales(c: Seq<int>, d: Seq<int>, k: int)
    requires
        c.len() == 8,
        d.len() == 8,
        forall|j: int| 0 <= j < 8 ==> #[trigger] d[j] == 8 * c[j],
        0 <= k < 8,
    ensures
        eight_sum(d, k) == 8 * eight_sum(c, k),
{
    assert(d[0] == 8 * c[0] && d[1] == 8 * c[1] && d[2] == 8 * c[2] && d[3] == 8 * c[3] && d[4]
        == 8 * c[4] && d[5] == 8 * c[5] && d[6] == 8 * c[6] && d[7] == 8 * c[7]);
    lemma_times(eighth(0, k), c[0]);
    lemma_times(eighth(1, k), c[1]);
    lemma_times(eighth(2, k), c[2]);
    lemma_times(eighth(3, k), c[3]);
    lemma_times(eighth(4, k), c[4]);
    lemma_times(eighth(5, k), c[5]);
    lemma_times(eighth(6, k), c[6]);
    lemma_times(eighth(7, k), c[7]);
    lemma_times(eighth(0, k), d[0]);
    lemma_times(eighth(1, k), d[1]);
    lemma_times(eighth(2, k), d[2]);
    lemma_times(eighth(3, k), d[3]);
    lemma_times(eighth(4, k), d[4]);
    lemma_times(eighth(5, k), d[5]);
    lemma_times(eighth(6, k), d[6]);
    lemma_times(eighth(7, k), d[7]);
    lemma_numbers(k);
    assert(k == 0 || k == 1 || k == 2 || k == 3 || k == 4 || k == 5 || k == 6 || k == 7);
}

/// Two to the power of a number from zero to eight.
pub open spec fn doubled(n: int) -> int {
    if n == 0 {
        1
    } else if n == 1 {
        2
    } else if n == 2 {
        4
    } else if n == 3 {
        8
    } else if n == 4 {
        16
    } else if n == 5 {
        32
    } else if n == 6 {
        64
    } else if n == 7 {
        128
    } else {
        256
    }
}

/// A level of an 8x8 block is scaled by its factor, twice as much for every six steps of the
/// quantiser, in sixty-fourths and rounded to the nearest.
pub proof fn law_levels_scale_with_the_quantiser(level: int, factor: int, qp: int)
    requires
        0 <= qp <= 51,
    ensures
        -32 <= level * factor * doubled(qp / 6) - 64 * reconstruct::scaled_8x8(level, factor, qp)
            < 32,
        qp >= 36 ==> level * factor * doubled(qp / 6) == 64 * reconstruct::scaled_8x8(
            level,
            factor,
            qp,
        ),
{
    let p = level * factor;
    let s = qp / 6;
    assert(0 <= s <= 8);
    if s == 0 {
        lemma_rounded(p, 32, 64);
    } else if s == 1 {
        lemma_rounded(p, 16, 32);
    } else if s == 2 {
        lemma_rounded(p, 8, 16);
    } else if s == 3 {
        lemma_rounded(p, 4, 8);
    } else if s == 4 {
        lemma_rounded(p, 2, 4);
    } else if s == 5 {
        lemma_rounded(p, 1, 2);
    } else {
        assert(bits::place(s - 6) == if s == 6 {
            1nat
        } else if s == 7 {
            2
        } else {
            4
        });
    }
    assert(p * 1 == p && p * 2 == 2 * p && p * 4 == 4 * p && p * 8 == 8 * p && p * 16 == 16 * p && p
        * 32 == 32 * p && p * 64 == 64 * p && p * 128 == 128 * p && p * 256 == 256 * p);
}

/// A quotient rounded to the nearest.
proof fn lemma_rounded(p: int, half: int, whole: int)
    requires
        half > 0,
        whole == 2 * half,
    ensures
        -half <= p - whole * ((p + half) / whole) < half,
{
    div_mod::lemma_fundamental_div_mod(p + half, whole);
    div_mod::lemma_mod_bound(p + half, whole);
}

/// The factor of a coefficient is the same on either side of the diagonal, and repeats every
/// four rows and columns.
pub proof fn law_factors_are_symmetric(x: int, y: int)
    requires
        0 <= x < 8,
        0 <= y < 8,
    ensures
        reconstruct::norm_class_8x8(x, y) == reconstruct::norm_class_8x8(y, x),
        reconstruct::norm_class_8x8(x, y) == reconstruct::norm_class_8x8((x + 4) % 8, y),
        reconstruct::norm_class_4x4(x, y) == reconstruct::norm_class_4x4(y, x),
        reconstruct::norm_class_4x4(x, y) == reconstruct::norm_class_4x4((x + 2) % 8, y),
{
}

/// The norms of the coefficients of 8x8 blocks, by where they lie in four rows and columns,
/// for the six steps in which the quantiser doubles; and those of 4x4 blocks.
pub proof fn law_norms_follow_the_steps(m: int)
    requires
        0 <= m < 6,
    ensures
        ({
            let at = |x: int, y: int| reconstruct::NORM_8X8[m][reconstruct::norm_class_8x8(x, y)];
            &&& at(0, 0) == seq![20int, 22, 26, 28, 32, 36][m]
            &&& at(1, 1) == seq![18int, 19, 23, 25, 28, 32][m]
            &&& at(2, 2) == seq![32int, 35, 42, 45, 51, 58][m]
            &&& at(1, 0) == seq![19int, 21, 24, 26, 30, 34][m]
            &&& at(2, 0) == seq![25int, 28, 33, 35, 40, 46][m]
            &&& at(2, 1) == seq![24int, 26, 31, 33, 38, 43][m]
        }),
        ({
            let at = |x: int, y: int| reconstruct::NORM_4X4[m][reconstruct::norm_class_4x4(x, y)];
            &&& at(0, 0) == seq![10int, 11, 13, 14, 16, 18][m]
            &&& at(1, 1) == seq![16int, 18, 20, 23, 25, 29][m]
            &&& at(1, 0) == seq![13int, 14, 16, 18, 20, 23][m]
        }),
{
    assert(m == 0 || m == 1 || m == 2 || m == 3 || m == 4 || m == 5);
}

/// A number, with its sign turned or not.
pub open spec fn signed(turned: bool, v: int) -> int {
    if turned {
        -v
    } else {
        v
    }
}

/// The first terms of the four blocks of a chroma component are sums and differences of the
/// four that are sent: one sign for the two columns of blocks, one for the two rows. They
/// scale twice as much for every six steps of the quantiser, from which half is taken.
pub proof fn law_chroma_terms_are_sums_and_differences(dc: Seq<i32>, qp: int, k: int)
    requires
        dc.len() == 4,
        6 <= qp <= 39,
        0 <= k < 4,
    ensures
        ({
            let right = k % 2 == 1;
            let below = k / 2 == 1;
            let norm = reconstruct::NORM_4X4[qp % 6][0] as int;
            2 * reconstruct::chroma_first(dc, qp, k) == (dc[0] + signed(right, dc[1] as int)
                + signed(below, dc[2] as int) + signed(right != below, dc[3] as int)) * norm
                * doubled(qp / 6)
        }),
{
    let right = k % 2 == 1;
    let below = k / 2 == 1;
    let sum = dc[0] + signed(right, dc[1] as int) + signed(below, dc[2] as int) + signed(
        right != below,
        dc[3] as int,
    );
    let norm = reconstruct::NORM_4X4[qp % 6][0] as int;
    let p = sum * norm;
    let steps = qp / 6;
    assert(1 <= steps <= 6);
    assert(bits::place(steps) == doubled(steps));
    let q = doubled(steps) / 2;
    assert(doubled(steps) == 2 * q);
    assert(p * doubled(steps) == 2 * (p * q)) by (nonlinear_arith)
        requires
            doubled(steps) == 2 * q,
    ;
}

/// The quantiser step of chroma is that of luma and the offset up to 29, and lags behind it
/// from there on, up to 39.
pub proof fn law_chroma_lags_behind(qp: int, offset: int)
    requires
        0 <= qp + offset <= 51,
    ensures
        ({
            let i = qp + offset;
            let step = reconstruct::chroma_step(qp, offset);
            &&& i < 30 ==> step == i
            &&& 30 <= i <= 33 ==> step == i - 1
            &&& i == 34 ==> step == 32
            &&& i == 35 ==> step == 33
            &&& 36 <= i <= 37 ==> step == 34
            &&& 38 <= i <= 39 ==> step == 35
            &&& 40 <= i <= 41 ==> step == 36
            &&& 42 <= i <= 44 ==> step == 37
            &&& 45 <= i <= 47 ==> step == 38
            &&& 48 <= i ==> step == 39
        }),
{
}

} // verus!
