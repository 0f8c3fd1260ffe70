//! What a decoder adds to the prediction of a block: levels scaled back and transformed
//! (clause 8.5).
use crate::bits;
use crate::bits::place_of;
use vstd::prelude::*;

verus! {

/// The greatest magnitude of a level.
pub const MAX_LEVEL: i32 = 0x8000;

/// The coarsest quantiser step.
pub const MAX_QP: i32 = 51;

/// How the 8x8 transform weighs its coefficients, for steps that leave a remainder of
/// zero to five when divided by six (clause 8.5.9).
pub const NORM_8X8: [[i32; 6]; 6] = [
    [20, 18, 32, 19, 25, 24],
    [22, 19, 35, 21, 28, 26],
    [26, 23, 42, 24, 33, 31],
    [28, 25, 45, 26, 35, 33],
    [32, 28, 51, 30, 40, 38],
    [36, 32, 58, 34, 46, 43],
];

/// How the 4x4 transform does.
pub const NORM_4X4: [[i32; 3]; 6] = [
    [10, 16, 13],
    [11, 18, 14],
    [13, 20, 16],
    [14, 23, 18],
    [16, 25, 20],
    [18, 29, 23],
];

/// The order in which the levels of an 8x8 block of a field are written (Table 8-13).
pub const FIELD_SCAN_8X8: [usize; 64] = [
    0, 8, 16, 1, 9, 24, 32, 17, 2, 25, 40, 48, 56, 33, 10, 3, 18, 41, 49, 57, 26, 11, 4, 19, 34, 42,
    50, 58, 27, 12, 5, 20, 35, 43, 51, 59, 28, 13, 6, 21, 36, 44, 52, 60, 29, 14, 22, 37, 45, 53, 61,
    30, 7, 15, 38, 46, 54, 62, 23, 31, 39, 47, 55, 63,
];

/// The order in which those of a 4x4 block of a field are.
pub const FIELD_SCAN_4X4: [usize; 16] = [0, 4, 1, 8, 12, 5, 9, 13, 2, 6, 10, 14, 3, 7, 11, 15];

/// Which of its weights the 8x8 transform has for a coefficient.
pub open spec fn norm_class_8x8(x: int, y: int) -> int {
    if x % 4 == 0 && y % 4 == 0 {
        0
    } else if x % 2 == 1 && y % 2 == 1 {
        1
    } else if x % 4 == 2 && y % 4 == 2 {
        2
    } else if (x % 4 == 0 && y % 2 == 1) || (x % 2 == 1 && y % 4 == 0) {
        3
    } else if (x % 4 == 0 && y % 4 == 2) || (x % 4 == 2 && y % 4 == 0) {
        4
    } else {
        5
    }
}

/// Which of its weights the 4x4 transform has for a coefficient.
pub open spec fn norm_class_4x4(x: int, y: int) -> int {
    if x % 2 == 0 && y % 2 == 0 {
        0
    } else if x % 2 == 1 && y % 2 == 1 {
        1
    } else {
        2
    }
}

/// The weights of the transforms are small.
proof fn lemma_norms(m: int, class: int)
    requires
        0 <= m < 6,
        0 <= class,
    ensures
        class < 6 ==> 18 <= NORM_8X8[m][class] <= 58,
        class < 3 ==> 10 <= NORM_4X4[m][class] <= 29,
{
    assert(forall|k: int| 0 <= k < 6 ==> 18 <= #[trigger] NORM_8X8[0][k] <= 58);
    assert(forall|k: int| 0 <= k < 6 ==> 18 <= #[trigger] NORM_8X8[1][k] <= 58);
    assert(forall|k: int| 0 <= k < 6 ==> 18 <= #[trigger] NORM_8X8[2][k] <= 58);
    assert(forall|k: int| 0 <= k < 6 ==> 18 <= #[trigger] NORM_8X8[3][k] <= 58);
    assert(forall|k: int| 0 <= k < 6 ==> 18 <= #[trigger] NORM_8X8[4][k] <= 58);
    assert(forall|k: int| 0 <= k < 6 ==> 18 <= #[trigger] NORM_8X8[5][k] <= 58);
    assert(forall|k: int| 0 <= k < 3 ==> 10 <= #[trigger] NORM_4X4[0][k] <= 29);
    assert(forall|k: int| 0 <= k < 3 ==> 10 <= #[trigger] NORM_4X4[1][k] <= 29);
    assert(forall|k: int| 0 <= k < 3 ==> 10 <= #[trigger] NORM_4X4[2][k] <= 29);
    assert(forall|k: int| 0 <= k < 3 ==> 10 <= #[trigger] NORM_4X4[3][k] <= 29);
    assert(forall|k: int| 0 <= k < 3 ==> 10 <= #[trigger] NORM_4X4[4][k] <= 29);
    assert(forall|k: int| 0 <= k < 3 ==> 10 <= #[trigger] NORM_4X4[5][k] <= 29);
}

/// Half of a number, rounded down.
fn half(x: i64) -> (h: i64)
    requires
        x > i64::MIN,
    ensures
        h == x as int / 2,
{
    if x >= 0 {
        x / 2
    } else {
        -((-x) / 2) - (-x) % 2
    }
}

/// A number over a power of two, rounded down.
fn over(x: i64, divisor: i64) -> (quotient: i64)
    requires
        -0x1000_0000_0000_0000 < x < 0x1000_0000_0000_0000,
        1 <= divisor <= 64,
    ensures
        quotient == x as int / divisor as int,
{
    if x >= 0 {
        x / divisor
    } else {
        let quotient: i64 = -((-x + divisor - 1) / divisor);
        proof {
            let n = -x + divisor - 1;
            vstd::arithmetic::div_mod::lemma_fundamental_div_mod(n, divisor as int);
            let q = n / divisor as int;
            assert(x == divisor * -q + (divisor - 1 - n % divisor as int)) by (nonlinear_arith)
                requires
                    n == -x + divisor - 1,
                    n == divisor * q + n % divisor as int,
            ;
            vstd::arithmetic::div_mod::lemma_fundamental_div_mod_converse(
                x as int,
                divisor as int,
                -q,
                divisor - 1 - n % divisor as int,
            );
        }
        quotient
    }
}

/// Eight numbers transformed back (clause 8.5.13).
pub open spec fn inverse_eight(d: Seq<int>) -> Seq<int> {
    let e0 = d[0] + d[4];
    let e1 = -d[3] + d[5] - d[7] - d[7] / 2;
    let e2 = d[0] - d[4];
    let e3 = d[1] + d[7] - d[3] - d[3] / 2;
    let e4 = d[2] / 2 - d[6];
    let e5 = -d[1] + d[7] + d[5] + d[5] / 2;
    let e6 = d[2] + d[6] / 2;
    let e7 = d[3] + d[5] + d[1] + d[1] / 2;
    let f0 = e0 + e6;
    let f1 = e1 + e7 / 4;
    let f2 = e2 + e4;
    let f3 = e3 + e5 / 4;
    let f4 = e2 - e4;
    let f5 = e3 / 4 - e5;
    let f6 = e0 - e6;
    let f7 = e7 - e1 / 4;
    seq![f0 + f7, f2 + f5, f4 + f3, f6 + f1, f6 - f1, f4 - f3, f2 - f5, f0 - f7]
}

/// Four numbers transformed back (clause 8.5.12.2).
pub open spec fn inverse_four(d: Seq<int>) -> Seq<int> {
    let e0 = d[0] + d[2];
    let e1 = d[0] - d[2];
    let e2 = d[1] / 2 - d[3];
    let e3 = d[1] + d[3] / 2;
    seq![e0 + e3, e1 + e2, e1 - e2, e0 - e3]
}

/// The numbers of a sequence.
pub open spec fn numbers(s: Seq<i64>) -> Seq<int> {
    Seq::new(s.len(), |k: int| s[k] as int)
}

/// No number is further from zero than a bound.
pub open spec fn all_within(s: Seq<int>, bound: int) -> bool {
    forall|k: int| 0 <= k < s.len() ==> -bound <= #[trigger] s[k] <= bound
}

/// One and a half times a number, and its sign, added to three others.
proof fn lemma_odd(a: int, b: int, c: int, bound: int)
    requires
        -bound <= a <= bound,
        -bound <= b <= bound,
        -bound <= c <= bound,
    ensures
        -7 * bound - 2 <= 2 * (a + b + c + c / 2) <= 7 * bound,
        -7 * bound <= 2 * (a + b - c - c / 2) <= 7 * bound + 2,
{
}

/// A sum of an even part and an odd part stays below eight times what went in.
proof fn lemma_sum(even: int, odd: int, rest: int, bound: int)
    requires
        0 <= bound,
        -7 * bound - 2 <= 2 * even <= 7 * bound + 2,
        -7 * bound - 2 <= 2 * odd <= 7 * bound + 2,
        -7 * bound - 2 <= 2 * rest <= 7 * bound + 2,
    ensures
        -8 * bound - 8 <= even + (odd + rest / 4) <= 8 * bound + 8,
        -8 * bound - 8 <= even - (odd + rest / 4) <= 8 * bound + 8,
        -8 * bound - 8 <= even + (odd - rest / 4) <= 8 * bound + 8,
        -8 * bound - 8 <= even - (odd - rest / 4) <= 8 * bound + 8,
        -8 * bound - 8 <= even + (rest / 4 - odd) <= 8 * bound + 8,
        -8 * bound - 8 <= even - (rest / 4 - odd) <= 8 * bound + 8,
{
}

/// The even part of eight numbers transformed back.
proof fn lemma_even(d0: int, d2: int, d4: int, d6: int, bound: int)
    requires
        -bound <= d0 <= bound,
        -bound <= d2 <= bound,
        -bound <= d4 <= bound,
        -bound <= d6 <= bound,
    ensures
        -7 * bound - 2 <= 2 * ((d0 + d4) + (d2 + d6 / 2)) <= 7 * bound + 2,
        -7 * bound - 2 <= 2 * ((d0 + d4) - (d2 + d6 / 2)) <= 7 * bound + 2,
        -7 * bound - 2 <= 2 * ((d0 - d4) + (d2 / 2 - d6)) <= 7 * bound + 2,
        -7 * bound - 2 <= 2 * ((d0 - d4) - (d2 / 2 - d6)) <= 7 * bound + 2,
{
}

/// Transforming eight numbers back makes them no more than eight times as large, but for
/// rounding.
proof fn lemma_inverse_eight(d: Seq<int>, bound: int)
    requires
        d.len() == 8,
        all_within(d, bound),
        0 <= bound,
    ensures
        inverse_eight(d).len() == 8,
        all_within(inverse_eight(d), 8 * bound + 8),
{
    let g = inverse_eight(d);
    let top = 8 * bound + 8;
    assert(-bound <= d[0] <= bound && -bound <= d[1] <= bound);
    assert(-bound <= d[2] <= bound && -bound <= d[3] <= bound);
    assert(-bound <= d[4] <= bound && -bound <= d[5] <= bound);
    assert(-bound <= d[6] <= bound && -bound <= d[7] <= bound);
    let e1 = -d[3] + d[5] - d[7] - d[7] / 2;
    let e3 = d[1] + d[7] - d[3] - d[3] / 2;
    let e5 = -d[1] + d[7] + d[5] + d[5] / 2;
    let e7 = d[3] + d[5] + d[1] + d[1] / 2;
    let f0 = (d[0] + d[4]) + (d[2] + d[6] / 2);
    let f2 = (d[0] - d[4]) + (d[2] / 2 - d[6]);
    let f4 = (d[0] - d[4]) - (d[2] / 2 - d[6]);
    let f6 = (d[0] + d[4]) - (d[2] + d[6] / 2);
    assert(-7 * bound - 2 <= 2 * e1 <= 7 * bound + 2) by {
        lemma_odd(-d[3], d[5], d[7], bound);
    }
    assert(-7 * bound - 2 <= 2 * e3 <= 7 * bound + 2) by {
        lemma_odd(d[1], d[7], d[3], bound);
    }
    assert(-7 * bound - 2 <= 2 * e5 <= 7 * bound + 2) by {
        lemma_odd(-d[1], d[7], d[5], bound);
    }
    assert(-7 * bound - 2 <= 2 * e7 <= 7 * bound + 2) by {
        lemma_odd(d[3], d[5], d[1], bound);
    }
    lemma_even(d[0], d[2], d[4], d[6], bound);
    lemma_eight(f0, f2, f4, f6, e1, e3, e5, e7, bound);
    assert(g =~= eight_of(f0, f2, f4, f6, e1, e3, e5, e7));
}

/// Eight numbers from their even and odd parts.
spec fn eight_of(
    f0: int,
    f2: int,
    f4: int,
    f6: int,
    e1: int,
    e3: int,
    e5: int,
    e7: int,
) -> Seq<int> {
    seq![
        f0 + (e7 - e1 / 4),
        f2 + (e3 / 4 - e5),
        f4 + (e3 + e5 / 4),
        f6 + (e1 + e7 / 4),
        f6 - (e1 + e7 / 4),
        f4 - (e3 + e5 / 4),
        f2 - (e3 / 4 - e5),
        f0 - (e7 - e1 / 4),
    ]
}

/// Even and odd parts add up to no more than eight times what went in.
proof fn lemma_eight(
    f0: int,
    f2: int,
    f4: int,
    f6: int,
    e1: int,
    e3: int,
    e5: int,
    e7: int,
    bound: int,
)
    requires
        0 <= bound,
        -7 * bound - 2 <= 2 * f0 <= 7 * bound + 2,
        -7 * bound - 2 <= 2 * f2 <= 7 * bound + 2,
        -7 * bound - 2 <= 2 * f4 <= 7 * bound + 2,
        -7 * bound - 2 <= 2 * f6 <= 7 * bound + 2,
        -7 * bound - 2 <= 2 * e1 <= 7 * bound + 2,
        -7 * bound - 2 <= 2 * e3 <= 7 * bound + 2,
        -7 * bound - 2 <= 2 * e5 <= 7 * bound + 2,
        -7 * bound - 2 <= 2 * e7 <= 7 * bound + 2,
    ensures
        all_within(eight_of(f0, f2, f4, f6, e1, e3, e5, e7), 8 * bound + 8),
{
    lemma_sum(f0, e7, e1, bound);
    lemma_sum(f2, e5, e3, bound);
    lemma_sum(f4, e3, e5, bound);
    lemma_sum(f6, e1, e7, bound);
}

/// Eight numbers transformed back.
fn invert_eight(d: &[i64; 8], Ghost(bound): Ghost<int>) -> (g: [i64; 8])
    requires
        all_within(numbers(d@), bound),
        0 <= bound <= 0x10_0000_0000,
    ensures
        numbers(g@) == inverse_eight(numbers(d@)),
        all_within(numbers(g@), 8 * bound + 8),
{
    let ghost n = numbers(d@);
    assert(forall|k: int| 0 <= k < 8 ==> -bound <= #[trigger] n[k] <= bound);
    assert(n[0] == d[0] && n[1] == d[1] && n[2] == d[2] && n[3] == d[3]);
    assert(n[4] == d[4] && n[5] == d[5] && n[6] == d[6] && n[7] == d[7]);
    let e0: i64 = d[0] + d[4];
    let e1: i64 = -d[3] + d[5] - d[7] - half(d[7]);
    let e2: i64 = d[0] - d[4];
    let e3: i64 = d[1] + d[7] - d[3] - half(d[3]);
    let e4: i64 = half(d[2]) - d[6];
    let e5: i64 = -d[1] + d[7] + d[5] + half(d[5]);
    let e6: i64 = d[2] + half(d[6]);
    let e7: i64 = d[3] + d[5] + d[1] + half(d[1]);
    let f0: i64 = e0 + e6;
    let f1: i64 = e1 + over(e7, 4);
    let f2: i64 = e2 + e4;
    let f3: i64 = e3 + over(e5, 4);
    let f4: i64 = e2 - e4;
    let f5: i64 = over(e3, 4) - e5;
    let f6: i64 = e0 - e6;
    let f7: i64 = e7 - over(e1, 4);
    let g: [i64; 8] = [f0 + f7, f2 + f5, f4 + f3, f6 + f1, f6 - f1, f4 - f3, f2 - f5, f0 - f7];
    proof {
        lemma_inverse_eight(n, bound);
        assert(numbers(g@) =~= inverse_eight(n));
    }
    g
}

/// Four numbers transformed back.
fn invert_four(d: &[i64; 4], Ghost(bound): Ghost<int>) -> (g: [i64; 4])
    requires
        all_within(numbers(d@), bound),
        0 <= bound <= 0x10_0000_0000,
    ensures
        numbers(g@) == inverse_four(numbers(d@)),
        all_within(numbers(g@), 4 * bound + 4),
{
    let ghost n = numbers(d@);
    assert(forall|k: int| 0 <= k < 4 ==> -bound <= #[trigger] n[k] <= bound);
    assert(n[0] == d[0] && n[1] == d[1] && n[2] == d[2] && n[3] == d[3]);
    let e0: i64 = d[0] + d[2];
    let e1: i64 = d[0] - d[2];
    let e2: i64 = half(d[1]) - d[3];
    let e3: i64 = d[1] + half(d[3]);
    let g: [i64; 4] = [e0 + e3, e1 + e2, e1 - e2, e0 - e3];
    assert(numbers(g@) =~= inverse_four(n));
    g
}

/// A row of a block of `size` numbers a side.
pub open spec fn row_of(block: Seq<int>, size: int, y: int) -> Seq<int> {
    Seq::new(size as nat, |x: int| block[size * y + x])
}

/// A column of a block.
pub open spec fn column_of(block: Seq<int>, size: int, x: int) -> Seq<int> {
    Seq::new(size as nat, |y: int| block[size * y + x])
}

/// A block with its rows transformed back.
pub open spec fn rows_inverted_8x8(block: Seq<int>) -> Seq<int> {
    Seq::new(64, |k: int| inverse_eight(row_of(block, 8, k / 8))[k % 8])
}

/// A block transformed back: its rows, then its columns, rounded.
pub open spec fn inverse_8x8(block: Seq<int>) -> Seq<int> {
    Seq::new(
        64,
        |k: int| (inverse_eight(column_of(rows_inverted_8x8(block), 8, k % 8))[k / 8] + 32) / 64,
    )
}

/// A 4x4 block with its rows transformed back.
pub open spec fn rows_inverted_4x4(block: Seq<int>) -> Seq<int> {
    Seq::new(16, |k: int| inverse_four(row_of(block, 4, k / 4))[k % 4])
}

/// A 4x4 block transformed back.
pub open spec fn inverse_4x4(block: Seq<int>) -> Seq<int> {
    Seq::new(
        16,
        |k: int| (inverse_four(column_of(rows_inverted_4x4(block), 4, k % 4))[k / 4] + 32) / 64,
    )
}

/// A block with its rows transformed back.
fn invert_rows_8x8(block: &[i64; 64], Ghost(bound): Ghost<int>) -> (rows: [i64; 64])
    requires
        all_within(numbers(block@), bound),
        0 <= bound <= 0x1_0000_0000,
    ensures
        numbers(rows@) == rows_inverted_8x8(numbers(block@)),
        all_within(numbers(rows@), 8 * bound + 8),
{
    let ghost n = numbers(block@);
    let mut rows: [i64; 64] = [0;64];
    let mut y: usize = 0;
    while y < 8
        invariant
            y <= 8,
            n == numbers(block@),
            all_within(n, bound),
            0 <= bound <= 0x1_0000_0000,
            forall|k: int|
                0 <= k < 8 * y ==> {
                    &&& (#[trigger] rows[k]) == inverse_eight(row_of(n, 8, k / 8))[k % 8]
                    &&& -(8 * bound + 8) <= rows[k] <= 8 * bound + 8
                },
        decreases 8 - y,
    {
        let at: usize = 8 * y;
        let row: [i64; 8] = [
            block[at],
            block[at + 1],
            block[at + 2],
            block[at + 3],
            block[at + 4],
            block[at + 5],
            block[at + 6],
            block[at + 7],
        ];
        assert(numbers(row@) =~= row_of(n, 8, y as int));
        assert(all_within(numbers(row@), bound)) by {
            assert forall|k: int| 0 <= k < 8 implies -bound <= #[trigger] numbers(row@)[k]
                <= bound by {
                assert(numbers(row@)[k] == n[8 * y + k]);
            }
        }
        let done = invert_eight(&row, Ghost(bound));
        let ghost before = rows@;
        let mut x: usize = 0;
        while x < 8
            invariant
                x <= 8,
                y < 8,
                at == 8 * y,
                forall|k: int| 0 <= k < at ==> #[trigger] rows[k] == before[k],
                forall|k: int| at <= k < at + x ==> #[trigger] rows[k] == done[k - at],
            decreases 8 - x,
        {
            rows[at + x] = done[x];
            x = x + 1;
        }
        assert forall|k: int| 0 <= k < 8 * (y + 1) implies {
            &&& (#[trigger] rows[k]) == inverse_eight(row_of(n, 8, k / 8))[k % 8]
            &&& -(8 * bound + 8) <= rows[k] <= 8 * bound + 8
        } by {
            if k < at {
                assert(rows[k] == before[k]);
            } else {
                assert(k / 8 == y && k % 8 == k - at);
                assert(numbers(done@)[k - at] == done[k - at]);
            }
        }
        y = y + 1;
    }
    assert(numbers(rows@) =~= rows_inverted_8x8(n));
    rows
}

/// A block with its columns transformed back and rounded.
fn invert_columns_8x8(block: &[i64; 64], Ghost(bound): Ghost<int>) -> (samples: [i32; 64])
    requires
        all_within(numbers(block@), bound),
        0 <= bound <= 0x4_0000_0000,
        (8 * bound + 40) / 64 <= 0x7fff_ff00,
    ensures
        forall|k: int|
            0 <= k < 64 ==> {
                &&& (#[trigger] samples[k]) == (inverse_eight(
                    column_of(numbers(block@), 8, k % 8),
                )[k / 8] + 32) / 64
                &&& -0x7fff_ff00 <= samples[k] <= 0x7fff_ff00
            },
{
    let ghost n = numbers(block@);
    let mut samples: [i32; 64] = [0;64];
    let mut x: usize = 0;
    while x < 8
        invariant
            x <= 8,
            n == numbers(block@),
            all_within(n, bound),
            0 <= bound <= 0x4_0000_0000,
            (8 * bound + 40) / 64 <= 0x7fff_ff00,
            forall|k: int|
                0 <= k < 64 && k % 8 < x ==> {
                    &&& (#[trigger] samples[k]) == (inverse_eight(column_of(n, 8, k % 8))[k / 8]
                        + 32) / 64
                    &&& -0x7fff_ff00 <= samples[k] <= 0x7fff_ff00
                },
        decreases 8 - x,
    {
        let column: [i64; 8] = [
            block[x],
            block[x + 8],
            block[x + 16],
            block[x + 24],
            block[x + 32],
            block[x + 40],
            block[x + 48],
            block[x + 56],
        ];
        assert(numbers(column@) =~= column_of(n, 8, x as int));
        assert(all_within(numbers(column@), bound)) by {
            assert forall|k: int| 0 <= k < 8 implies -bound <= #[trigger] numbers(column@)[k]
                <= bound by {
                assert(numbers(column@)[k] == n[8 * k + x]);
            }
        }
        let done = invert_eight(&column, Ghost(bound));
        let ghost before = samples@;
        let mut y: usize = 0;
        while y < 8
            invariant
                y <= 8,
                x < 8,
                0 <= bound <= 0x4_0000_0000,
                (8 * bound + 40) / 64 <= 0x7fff_ff00,
                all_within(numbers(done@), 8 * bound + 8),
                forall|k: int|
                    0 <= k < 64 && k % 8 != x ==> #[trigger] samples[k] == before[k],
                forall|k: int|
                    0 <= k < 64 && k % 8 == x && k / 8 < y ==> {
                        &&& (#[trigger] samples[k]) == (done[k / 8] + 32) / 64
                        &&& -0x7fff_ff00 <= samples[k] <= 0x7fff_ff00
                    },
            decreases 8 - y,
        {
            assert(numbers(done@)[y as int] == done[y as int]);
            let value: i64 = over(done[y] + 32, 64);
            samples[8 * y + x] = value as i32;
            y = y + 1;
        }
        assert forall|k: int| 0 <= k < 64 && k % 8 < x + 1 implies {
            &&& (#[trigger] samples[k]) == (inverse_eight(column_of(n, 8, k % 8))[k / 8] + 32) / 64
            &&& -0x7fff_ff00 <= samples[k] <= 0x7fff_ff00
        } by {
            if k % 8 < x {
                assert(samples[k] == before[k]);
            } else {
                assert(numbers(done@)[k / 8] == done[k / 8]);
            }
        }
        x = x + 1;
    }
    samples
}

/// What the levels of an 8x8 block are multiplied by, for steps that leave a remainder of
/// zero to five when divided by six.
#[derive(Clone, Debug)]
pub struct InverseScale8x8 {
    pub factors: [[i32; 64]; 6],
}

/// A weight is one that a scaling list can carry.
pub open spec fn are_weights(weights: Seq<i32>) -> bool {
    weights.len() == 64 && forall|k: int| 0 <= k < 64 ==> 1 <= #[trigger] weights[k] <= 255
}

/// What a level is multiplied by.
pub open spec fn factor_8x8(weights: Seq<i32>, m: int, k: int) -> int {
    weights[k] * NORM_8X8[m][norm_class_8x8(k % 8, k / 8)]
}

impl InverseScale8x8 {
    /// The factors are those of a scaling list.
    pub open spec fn wf(self) -> bool {
        forall|m: int, k: int|
            0 <= m < 6 && 0 <= k < 64 ==> 1 <= #[trigger] self.factors[m][k] <= 14790
    }

    /// What a scaling list multiplies by.
    pub fn new(weights: &[i32; 64]) -> (scale: Self)
        requires
            are_weights(weights@),
        ensures
            scale.wf(),
            forall|m: int, k: int|
                0 <= m < 6 && 0 <= k < 64 ==> #[trigger] scale.factors[m][k] == factor_8x8(
                    weights@,
                    m,
                    k,
                ),
    {
        InverseScale8x8 {
            factors: [
                factors_of(weights, 0),
                factors_of(weights, 1),
                factors_of(weights, 2),
                factors_of(weights, 3),
                factors_of(weights, 4),
                factors_of(weights, 5),
            ],
        }
    }
}

/// Which of its weights the 8x8 transform has for a coefficient.
fn class_8x8(x: usize, y: usize) -> (class: usize)
    ensures
        class == norm_class_8x8(x as int, y as int),
        class < 6,
{
    if x % 4 == 0 && y % 4 == 0 {
        0
    } else if x % 2 == 1 && y % 2 == 1 {
        1
    } else if x % 4 == 2 && y % 4 == 2 {
        2
    } else if (x % 4 == 0 && y % 2 == 1) || (x % 2 == 1 && y % 4 == 0) {
        3
    } else if (x % 4 == 0 && y % 4 == 2) || (x % 4 == 2 && y % 4 == 0) {
        4
    } else {
        5
    }
}

/// What a scaling list multiplies by for steps that leave one remainder.
fn factors_of(weights: &[i32; 64], m: usize) -> (factors: [i32; 64])
    requires
        are_weights(weights@),
        m < 6,
    ensures
        forall|k: int|
            0 <= k < 64 ==> {
                &&& (#[trigger] factors[k]) == factor_8x8(weights@, m as int, k)
                &&& 1 <= factors[k] <= 14790
            },
{
    let mut factors: [i32; 64] = [0;64];
    let mut k: usize = 0;
    while k < 64
        invariant
            k <= 64,
            m < 6,
            are_weights(weights@),
            forall|j: int|
                0 <= j < k ==> {
                    &&& (#[trigger] factors[j]) == factor_8x8(weights@, m as int, j)
                    &&& 1 <= factors[j] <= 14790
                },
        decreases 64 - k,
    {
        let class: usize = class_8x8(k % 8, k / 8);
        proof {
            lemma_norms(m as int, class as int);
            assert(1 <= weights@[k as int] <= 255);
        }
        let weight: i32 = weights[k];
        let norm: i32 = NORM_8X8[m][class];
        assert(1 <= weight * norm <= 14790) by (nonlinear_arith)
            requires
                1 <= weight <= 255,
                18 <= norm <= 58,
        ;
        factors[k] = weight * norm;
        k = k + 1;
    }
    factors
}

/// A level of an 8x8 block scaled back (clause 8.5.13).
pub open spec fn scaled_8x8(level: int, factor: int, qp: int) -> int {
    let steps = qp / 6;
    if steps >= 6 {
        level * factor * bits::place(steps - 6)
    } else {
        (level * factor + bits::place(5 - steps)) / bits::place(6 - steps) as int
    }
}

/// The levels of an 8x8 block scaled back.
pub open spec fn block_scaled_8x8(levels: Seq<i32>, scale: InverseScale8x8, qp: int) -> Seq<int> {
    Seq::new(64, |k: int| scaled_8x8(levels[k] as int, scale.factors[qp % 6][k] as int, qp))
}

/// What a decoder adds to the prediction of an 8x8 block.
pub open spec fn residual_of_8x8(levels: Seq<i32>, scale: InverseScale8x8, qp: int) -> Seq<int> {
    inverse_8x8(block_scaled_8x8(levels, scale, qp))
}

/// The levels are ones that can be scaled back.
pub open spec fn are_levels(levels: Seq<i32>) -> bool {
    forall|k: int| 0 <= k < levels.len() ==> -MAX_LEVEL <= #[trigger] levels[k] <= MAX_LEVEL
}

/// How far a scaled level can lie from zero.
const MAX_SCALED: i64 = 1_938_554_880;

/// A level scaled back.
fn scale_8x8(level: i32, factor: i32, qp: i32) -> (scaled: i64)
    requires
        -MAX_LEVEL <= level <= MAX_LEVEL,
        1 <= factor <= 14790,
        0 <= qp <= MAX_QP,
    ensures
        scaled == scaled_8x8(level as int, factor as int, qp as int),
        -MAX_SCALED <= scaled <= MAX_SCALED,
{
    let steps: usize = (qp / 6) as usize;
    assert(-484_638_720 <= level * factor <= 484_638_720) by (nonlinear_arith)
        requires
            -0x8000 <= level <= 0x8000,
            1 <= factor <= 14790,
    ;
    let product: i64 = level as i64 * factor as i64;
    if steps >= 6 {
        let by: i64 = place_of(steps - 6) as i64;
        assert(1 <= by <= 4);
        assert(-4 * 484_638_720 <= product * by <= 4 * 484_638_720) by (nonlinear_arith)
            requires
                -484_638_720 <= product <= 484_638_720,
                1 <= by <= 4,
        ;
        product * by
    } else {
        let rounding: i64 = place_of(5 - steps) as i64;
        let divisor: i64 = place_of(6 - steps) as i64;
        assert(1 <= rounding <= 32 && 2 <= divisor <= 64);
        let sum: i64 = product + rounding;
        proof {
            let q = sum as int / divisor as int;
            vstd::arithmetic::div_mod::lemma_fundamental_div_mod(sum as int, divisor as int);
            assert(-MAX_SCALED <= q <= MAX_SCALED) by (nonlinear_arith)
                requires
                    sum == divisor * q + sum as int % divisor as int,
                    0 <= sum as int % divisor as int,
                    (sum as int % divisor as int) < divisor,
                    2 <= divisor <= 64,
                    -484_638_752 <= sum <= 484_638_752,
                    MAX_SCALED == 1_938_554_880,
            ;
        }
        over(sum, divisor)
    }
}

/// What a decoder adds to the prediction of an 8x8 block whose levels stand in raster
/// order.
pub fn residual_8x8(levels: &[i32; 64], qp: i32, scale: &InverseScale8x8) -> (residual: [i32; 64])
    requires
        are_levels(levels@),
        0 <= qp <= MAX_QP,
        scale.wf(),
    ensures
        forall|k: int|
            0 <= k < 64 ==> {
                &&& (#[trigger] residual[k]) == residual_of_8x8(levels@, *scale, qp as int)[k]
                &&& -0x7fff_ff00 <= residual[k] <= 0x7fff_ff00
            },
{
    let mut block: [i64; 64] = [0;64];
    let m: usize = (qp % 6) as usize;
    let mut k: usize = 0;
    while k < 64
        invariant
            k <= 64,
            m == qp % 6,
            m < 6,
            0 <= qp <= MAX_QP,
            are_levels(levels@),
            scale.wf(),
            forall|j: int|
                0 <= j < k ==> {
                    &&& (#[trigger] block[j]) == scaled_8x8(
                        levels[j] as int,
                        scale.factors[m as int][j] as int,
                        qp as int,
                    )
                    &&& -MAX_SCALED <= block[j] <= MAX_SCALED
                },
        decreases 64 - k,
    {
        assert(1 <= scale.factors[m as int][k as int] <= 14790);
        assert(-MAX_LEVEL <= levels@[k as int] <= MAX_LEVEL);
        block[k] = scale_8x8(levels[k], scale.factors[m][k], qp);
        k = k + 1;
    }
    assert(numbers(block@) =~= block_scaled_8x8(levels@, *scale, qp as int));
    let rows = invert_rows_8x8(&block, Ghost(MAX_SCALED as int));
    invert_columns_8x8(&rows, Ghost(8 * MAX_SCALED + 8))
}

/// A block without a level adds nothing to what is predicted.
pub proof fn law_no_levels_add_nothing(levels: Seq<i32>, scale: InverseScale8x8, qp: int)
    requires
        levels == Seq::new(64, |k: int| 0i32),
        0 <= qp <= MAX_QP,
    ensures
        forall|k: int| 0 <= k < 64 ==> #[trigger] residual_of_8x8(levels, scale, qp)[k] == 0,
{
    let block = block_scaled_8x8(levels, scale, qp);
    assert forall|k: int| 0 <= k < 64 implies #[trigger] block[k] == 0 by {
        let factor = scale.factors[qp % 6][k] as int;
        assert(0 * factor == 0) by (nonlinear_arith);
        let steps = qp / 6;
        if steps >= 6 {
            assert(0 * bits::place(steps - 6) == 0) by (nonlinear_arith);
        } else {
            vstd::arithmetic::div_mod::lemma_basic_div(
                bits::place(5 - steps) as int,
                bits::place(6 - steps) as int,
            );
        }
    }
    let rows = rows_inverted_8x8(block);
    assert forall|k: int| 0 <= k < 64 implies #[trigger] rows[k] == 0 by {
        let row = row_of(block, 8, k / 8);
        assert(row =~= Seq::new(8, |x: int| 0int));
    }
    assert forall|k: int| 0 <= k < 64 implies #[trigger] residual_of_8x8(levels, scale, qp)[k]
        == 0 by {
        let column = column_of(rows, 8, k % 8);
        assert(column =~= Seq::new(8, |y: int| 0int));
    }
}

/// A first level alone moves every sample of its block alike.
pub proof fn law_a_first_level_moves_all_alike(levels: Seq<i32>, scale: InverseScale8x8, qp: int)
    requires
        levels.len() == 64,
        forall|k: int| 1 <= k < 64 ==> #[trigger] levels[k] == 0,
        0 <= qp <= MAX_QP,
    ensures
        forall|k: int|
            0 <= k < 64 ==> #[trigger] residual_of_8x8(levels, scale, qp)[k] == (scaled_8x8(
                levels[0] as int,
                scale.factors[qp % 6][0] as int,
                qp,
            ) + 32) / 64,
{
    let block = block_scaled_8x8(levels, scale, qp);
    let first = block[0];
    assert forall|k: int| 1 <= k < 64 implies #[trigger] block[k] == 0 by {
        let factor = scale.factors[qp % 6][k] as int;
        assert(0 * factor == 0) by (nonlinear_arith);
        let steps = qp / 6;
        if steps >= 6 {
            assert(0 * bits::place(steps - 6) == 0) by (nonlinear_arith);
        } else {
            vstd::arithmetic::div_mod::lemma_basic_div(
                bits::place(5 - steps) as int,
                bits::place(6 - steps) as int,
            );
        }
    }
    let rows = rows_inverted_8x8(block);
    assert forall|k: int| 0 <= k < 64 implies #[trigger] rows[k] == if k < 8 {
        first
    } else {
        0
    } by {
        let row = row_of(block, 8, k / 8);
        if k < 8 {
            assert(row =~= Seq::new(
                8,
                |x: int|
                    if x == 0 {
                        first
                    } else {
                        0
                    },
            ));
        } else {
            assert(row =~= Seq::new(8, |x: int| 0int));
        }
    }
    assert forall|k: int| 0 <= k < 64 implies #[trigger] residual_of_8x8(levels, scale, qp)[k] == (
    first + 32) / 64 by {
        let column = column_of(rows, 8, k % 8);
        assert(column =~= Seq::new(
            8,
            |y: int|
                if y == 0 {
                    first
                } else {
                    0
                },
        ));
    }
}

/// A level of a chroma block scaled back, where nothing weighs its frequency
/// (clause 8.5.12.1).
pub open spec fn scaled_4x4(level: int, qp: int, k: int) -> int {
    level * NORM_4X4[qp % 6][norm_class_4x4(k % 4, k / 4)] * bits::place(qp / 6)
}

/// The coefficients of a chroma block: the first travels apart.
pub open spec fn block_scaled_4x4(levels: Seq<i32>, first: int, qp: int) -> Seq<int> {
    Seq::new(
        16,
        |k: int|
            if k == 0 {
                first
            } else {
                scaled_4x4(levels[k] as int, qp, k)
            },
    )
}

/// What a decoder adds to the prediction of a chroma block.
pub open spec fn residual_of_4x4(levels: Seq<i32>, first: int, qp: int) -> Seq<int> {
    inverse_4x4(block_scaled_4x4(levels, first, qp))
}

/// The first coefficients of the four blocks of a chroma component, transformed and
/// scaled back (clause 8.5.11).
pub open spec fn chroma_first(dc: Seq<i32>, qp: int, k: int) -> int {
    let sum = if k == 0 {
        dc[0] + dc[1] + dc[2] + dc[3]
    } else if k == 1 {
        dc[0] - dc[1] + dc[2] - dc[3]
    } else if k == 2 {
        dc[0] + dc[1] - dc[2] - dc[3]
    } else {
        dc[0] - dc[1] - dc[2] + dc[3]
    };
    (sum * NORM_4X4[qp % 6][0] * bits::place(qp / 6)) / 2
}

/// A number scaled back by a weight of the 4x4 transform.
fn scale_4x4(number: i64, qp: i32, class: usize) -> (scaled: i64)
    requires
        -0x2_0000 <= number <= 0x2_0000,
        0 <= qp <= MAX_CHROMA_QP,
        class < 3,
    ensures
        scaled == number * NORM_4X4[qp as int % 6][class as int] * bits::place(qp as int / 6),
        -243_269_632 <= scaled <= 243_269_632,
{
    proof {
        lemma_norms(qp as int % 6, class as int);
    }
    let norm: i64 = NORM_4X4[(qp % 6) as usize][class] as i64;
    let by: i64 = place_of((qp / 6) as usize) as i64;
    assert(1 <= by <= 64);
    assert(-3_801_088 <= number * norm <= 3_801_088) by (nonlinear_arith)
        requires
            -0x2_0000 <= number <= 0x2_0000,
            10 <= norm <= 29,
    ;
    let weighed: i64 = number * norm;
    assert(-243_269_632 <= weighed * by <= 243_269_632) by (nonlinear_arith)
        requires
            -3_801_088 <= weighed <= 3_801_088,
            1 <= by <= 64,
    ;
    weighed * by
}

/// The coarsest quantiser step of chroma.
pub const MAX_CHROMA_QP: i32 = 39;

/// The first coefficients of the four blocks of a chroma component.
pub fn chroma_dc_terms(dc: &[i32; 4], qp: i32) -> (terms: [i32; 4])
    requires
        are_levels(dc@),
        0 <= qp <= MAX_CHROMA_QP,
    ensures
        forall|k: int|
            0 <= k < 4 ==> {
                &&& (#[trigger] terms[k]) == chroma_first(dc@, qp as int, k)
                &&& -MAX_CHROMA_TERM <= terms[k] <= MAX_CHROMA_TERM
            },
{
    assert(-MAX_LEVEL <= dc@[0] <= MAX_LEVEL && -MAX_LEVEL <= dc@[1] <= MAX_LEVEL);
    assert(-MAX_LEVEL <= dc@[2] <= MAX_LEVEL && -MAX_LEVEL <= dc@[3] <= MAX_LEVEL);
    let (a, b): (i64, i64) = (dc[0] as i64, dc[1] as i64);
    let (c, d): (i64, i64) = (dc[2] as i64, dc[3] as i64);
    [
        half(scale_4x4(a + b + c + d, qp, 0)) as i32,
        half(scale_4x4(a - b + c - d, qp, 0)) as i32,
        half(scale_4x4(a + b - c - d, qp, 0)) as i32,
        half(scale_4x4(a - b - c + d, qp, 0)) as i32,
    ]
}

/// How far a first coefficient of a chroma block can lie from zero.
pub const MAX_CHROMA_TERM: i32 = 121_634_816;

/// A 4x4 block with its rows transformed back.
fn invert_rows_4x4(block: &[i64; 16], Ghost(bound): Ghost<int>) -> (rows: [i64; 16])
    requires
        all_within(numbers(block@), bound),
        0 <= bound <= 0x1_0000_0000,
    ensures
        numbers(rows@) == rows_inverted_4x4(numbers(block@)),
        all_within(numbers(rows@), 4 * bound + 4),
{
    let ghost n = numbers(block@);
    let mut rows: [i64; 16] = [0;16];
    let mut y: usize = 0;
    while y < 4
        invariant
            y <= 4,
            n == numbers(block@),
            all_within(n, bound),
            0 <= bound <= 0x1_0000_0000,
            forall|k: int|
                0 <= k < 4 * y ==> {
                    &&& (#[trigger] rows[k]) == inverse_four(row_of(n, 4, k / 4))[k % 4]
                    &&& -(4 * bound + 4) <= rows[k] <= 4 * bound + 4
                },
        decreases 4 - y,
    {
        let at: usize = 4 * y;
        let row: [i64; 4] = [block[at], block[at + 1], block[at + 2], block[at + 3]];
        assert(numbers(row@) =~= row_of(n, 4, y as int));
        assert(all_within(numbers(row@), bound)) by {
            assert forall|k: int| 0 <= k < 4 implies -bound <= #[trigger] numbers(row@)[k]
                <= bound by {
                assert(numbers(row@)[k] == n[4 * y + k]);
            }
        }
        let done = invert_four(&row, Ghost(bound));
        let ghost before = rows@;
        let mut x: usize = 0;
        while x < 4
            invariant
                x <= 4,
                y < 4,
                at == 4 * y,
                forall|k: int| 0 <= k < at ==> #[trigger] rows[k] == before[k],
                forall|k: int| at <= k < at + x ==> #[trigger] rows[k] == done[k - at],
            decreases 4 - x,
        {
            rows[at + x] = done[x];
            x = x + 1;
        }
        assert forall|k: int| 0 <= k < 4 * (y + 1) implies {
            &&& (#[trigger] rows[k]) == inverse_four(row_of(n, 4, k / 4))[k % 4]
            &&& -(4 * bound + 4) <= rows[k] <= 4 * bound + 4
        } by {
            if k < at {
                assert(rows[k] == before[k]);
            } else {
                assert(k / 4 == y && k % 4 == k - at);
                assert(numbers(done@)[k - at] == done[k - at]);
            }
        }
        y = y + 1;
    }
    assert(numbers(rows@) =~= rows_inverted_4x4(n));
    rows
}

/// A 4x4 block with its columns transformed back and rounded.
fn invert_columns_4x4(block: &[i64; 16], Ghost(bound): Ghost<int>) -> (samples: [i32; 16])
    requires
        all_within(numbers(block@), bound),
        0 <= bound <= 0x1_0000_0000,
    ensures
        forall|k: int|
            0 <= k < 16 ==> {
                &&& (#[trigger] samples[k]) == (inverse_four(
                    column_of(numbers(block@), 4, k % 4),
                )[k / 4] + 32) / 64
                &&& -0x7fff_ff00 <= samples[k] <= 0x7fff_ff00
            },
{
    let ghost n = numbers(block@);
    let mut samples: [i32; 16] = [0;16];
    let mut x: usize = 0;
    while x < 4
        invariant
            x <= 4,
            n == numbers(block@),
            all_within(n, bound),
            0 <= bound <= 0x1_0000_0000,
            forall|k: int|
                0 <= k < 16 && k % 4 < x ==> {
                    &&& (#[trigger] samples[k]) == (inverse_four(column_of(n, 4, k % 4))[k / 4]
                        + 32) / 64
                    &&& -0x7fff_ff00 <= samples[k] <= 0x7fff_ff00
                },
        decreases 4 - x,
    {
        let column: [i64; 4] = [block[x], block[x + 4], block[x + 8], block[x + 12]];
        assert(numbers(column@) =~= column_of(n, 4, x as int));
        assert(all_within(numbers(column@), bound)) by {
            assert forall|k: int| 0 <= k < 4 implies -bound <= #[trigger] numbers(column@)[k]
                <= bound by {
                assert(numbers(column@)[k] == n[4 * k + x]);
            }
        }
        let done = invert_four(&column, Ghost(bound));
        let ghost before = samples@;
        let mut y: usize = 0;
        while y < 4
            invariant
                y <= 4,
                x < 4,
                0 <= bound <= 0x1_0000_0000,
                all_within(numbers(done@), 4 * bound + 4),
                forall|k: int|
                    0 <= k < 16 && k % 4 != x ==> #[trigger] samples[k] == before[k],
                forall|k: int|
                    0 <= k < 16 && k % 4 == x && k / 4 < y ==> {
                        &&& (#[trigger] samples[k]) == (done[k / 4] + 32) / 64
                        &&& -0x7fff_ff00 <= samples[k] <= 0x7fff_ff00
                    },
            decreases 4 - y,
        {
            assert(numbers(done@)[y as int] == done[y as int]);
            let value: i64 = over(done[y] + 32, 64);
            samples[4 * y + x] = value as i32;
            y = y + 1;
        }
        assert forall|k: int| 0 <= k < 16 && k % 4 < x + 1 implies {
            &&& (#[trigger] samples[k]) == (inverse_four(column_of(n, 4, k % 4))[k / 4] + 32) / 64
            &&& -0x7fff_ff00 <= samples[k] <= 0x7fff_ff00
        } by {
            if k % 4 < x {
                assert(samples[k] == before[k]);
            } else {
                assert(numbers(done@)[k / 4] == done[k / 4]);
            }
        }
        x = x + 1;
    }
    samples
}

/// What a decoder adds to the prediction of a chroma block whose levels stand in raster
/// order, with its first coefficient given.
pub fn chroma_residual_4x4(levels: &[i32; 16], first: i32, qp: i32) -> (residual: [i32; 16])
    requires
        are_levels(levels@),
        -MAX_CHROMA_TERM <= first <= MAX_CHROMA_TERM,
        0 <= qp <= MAX_CHROMA_QP,
    ensures
        forall|k: int|
            0 <= k < 16 ==> {
                &&& (#[trigger] residual[k]) == residual_of_4x4(levels@, first as int, qp as int)[k]
                &&& -0x7fff_ff00 <= residual[k] <= 0x7fff_ff00
            },
{
    let mut block: [i64; 16] = [0;16];
    block[0] = first as i64;
    let mut k: usize = 1;
    while k < 16
        invariant
            1 <= k <= 16,
            0 <= qp <= MAX_CHROMA_QP,
            are_levels(levels@),
            block[0] == first,
            forall|j: int|
                1 <= j < k ==> {
                    &&& (#[trigger] block[j]) == scaled_4x4(levels[j] as int, qp as int, j)
                    &&& -243_269_632 <= block[j] <= 243_269_632
                },
        decreases 16 - k,
    {
        assert(-MAX_LEVEL <= levels@[k as int] <= MAX_LEVEL);
        let class: usize = if (k % 4) % 2 == 0 && (k / 4) % 2 == 0 {
            0
        } else if (k % 4) % 2 == 1 && (k / 4) % 2 == 1 {
            1
        } else {
            2
        };
        block[k] = scale_4x4(levels[k] as i64, qp, class);
        k = k + 1;
    }
    assert(numbers(block@) =~= block_scaled_4x4(levels@, first as int, qp as int));
    let rows = invert_rows_4x4(&block, Ghost(243_269_632int));
    invert_columns_4x4(&rows, Ghost(973_078_532int))
}

/// The levels of a chroma component of a macroblock.
#[derive(Clone, Copy, Debug, PartialEq, Eq)]
pub struct ChromaBlockLevels {
    /// The first levels of its four blocks.
    pub dc: [i32; 4],
    /// The others, in the order of a scan.
    pub ac: [[i32; 15]; 4],
}

/// The quantiser step of chroma for an index from 30 on (Table 8-15).
pub const CHROMA_STEPS: [i32; 22] = [
    29,
    30,
    31,
    32,
    32,
    33,
    34,
    34,
    35,
    35,
    36,
    36,
    37,
    37,
    37,
    38,
    38,
    38,
    39,
    39,
    39,
    39,
];

/// The quantiser step of chroma for one of luma and an offset.
pub open spec fn chroma_step(qp: int, offset: int) -> int {
    let index = if qp + offset < 0 {
        0
    } else if qp + offset > MAX_QP {
        MAX_QP as int
    } else {
        qp + offset
    };
    if index < 30 {
        index
    } else {
        CHROMA_STEPS[index - 30] as int
    }
}

/// The quantiser step of chroma for one of luma and an offset.
pub fn chroma_qp(qp: i32, offset: i32) -> (step: i32)
    requires
        0 <= qp <= MAX_QP,
        -12 <= offset <= 12,
    ensures
        step == chroma_step(qp as int, offset as int),
        0 <= step <= MAX_CHROMA_QP,
{
    assert(forall|k: int| 0 <= k < 22 ==> 29 <= #[trigger] CHROMA_STEPS[k] <= 39);
    let sum: i32 = qp + offset;
    let index: i32 = if sum < 0 {
        0
    } else if sum > MAX_QP {
        MAX_QP
    } else {
        sum
    };
    if index < 30 {
        index
    } else {
        CHROMA_STEPS[(index - 30) as usize]
    }
}

} // verus!
