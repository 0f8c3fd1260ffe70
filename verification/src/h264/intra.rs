//! Predicting a block of a picture from the samples beside it, by their mean (clause 8.3).
use vstd::prelude::*;

verus! {

/// What a block is predicted to be where nothing beside it is there.
pub const MID_SAMPLE: i32 = 128;

/// The order in which the macroblocks of a picture are coded.
#[derive(Clone, Copy, Debug, PartialEq, Eq, Structural)]
pub struct CodingOrder {
    pub mb_width: usize,
    pub mb_height: usize,
    /// Whether they are coded in pairs, top then bottom.
    pub mbaff: bool,
}

impl CodingOrder {
    /// There is a picture, and where macroblocks are coded in pairs every row has its
    /// other.
    pub open spec fn wf(self) -> bool {
        &&& 1 <= self.mb_width <= 1024
        &&& 1 <= self.mb_height <= 1024
        &&& self.mbaff ==> self.mb_height % 2 == 0
    }

    /// How many macroblocks are coded before one.
    pub open spec fn turn(self, x: int, y: int) -> int {
        if self.mbaff {
            2 * ((y / 2) * self.mb_width + x) + y % 2
        } else {
            y * self.mb_width + x
        }
    }

    /// Whether a macroblock is in the picture and coded before another.
    pub open spec fn precedes(self, x: int, y: int, mb_x: int, mb_y: int) -> bool {
        &&& 0 <= x < self.mb_width
        &&& 0 <= y < self.mb_height
        &&& self.turn(x, y) < self.turn(mb_x, mb_y)
    }

    /// Whether a luma sample is there when a block of a macroblock is predicted: in a
    /// macroblock that is coded before, or in a block of the same one that is.
    pub open spec fn has_sample(self, mb_x: int, mb_y: int, blk: int, x: int, y: int) -> bool {
        if x >= 0 && y >= 0 && x / 16 == mb_x && y / 16 == mb_y {
            (x % 16) / 8 + 2 * ((y % 16) / 8) < blk
        } else {
            x >= 0 && y >= 0 && self.precedes(x / 16, y / 16, mb_x, mb_y)
        }
    }

    /// How many macroblocks are coded before one.
    fn turn_of(&self, x: usize, y: usize) -> (turn: usize)
        requires
            self.wf(),
            x < self.mb_width,
            y < self.mb_height,
        ensures
            turn == self.turn(x as int, y as int),
    {
        assert(0 <= y * self.mb_width <= 0x10_0000 && 0 <= (y as int / 2) * self.mb_width
            <= 0x10_0000) by (nonlinear_arith)
            requires
                0 <= y < 1024,
                self.mb_width <= 1024,
        ;
        if self.mbaff {
            2 * ((y / 2) * self.mb_width + x) + y % 2
        } else {
            y * self.mb_width + x
        }
    }

    /// Whether a macroblock is in the picture and coded before another.
    fn is_coded(&self, x: usize, y: usize, mb_x: usize, mb_y: usize) -> (yes: bool)
        requires
            self.wf(),
            mb_x < self.mb_width,
            mb_y < self.mb_height,
        ensures
            yes == self.precedes(x as int, y as int, mb_x as int, mb_y as int),
    {
        x < self.mb_width && y < self.mb_height && self.turn_of(x, y) < self.turn_of(mb_x, mb_y)
    }

    /// Whether a luma sample is there when a block of a macroblock is predicted.
    fn is_there(&self, mb_x: usize, mb_y: usize, blk: usize, x: usize, y: usize) -> (yes: bool)
        requires
            self.wf(),
            mb_x < self.mb_width,
            mb_y < self.mb_height,
        ensures
            yes == self.has_sample(mb_x as int, mb_y as int, blk as int, x as int, y as int),
    {
        if x / 16 == mb_x && y / 16 == mb_y {
            (x % 16) / 8 + 2 * ((y % 16) / 8) < blk
        } else {
            self.is_coded(x / 16, y / 16, mb_x, mb_y)
        }
    }
}

/// A sample of a plane.
pub open spec fn sample(plane: Seq<u8>, width: int, x: int, y: int) -> int {
    plane[y * width + x] as int
}

/// What there is beside a luma block.
#[derive(Clone, Copy, Debug, PartialEq, Eq, Structural)]
pub struct Beside {
    pub above: bool,
    pub left: bool,
    /// Above and to the left.
    pub corner: bool,
    /// Above and to the right.
    pub right: bool,
}

/// What there is beside a block when it is predicted.
pub open spec fn beside(order: CodingOrder, mb_x: int, mb_y: int, blk: int) -> Beside {
    let x0 = 16 * mb_x + 8 * (blk % 2);
    let y0 = 16 * mb_y + 8 * (blk / 2);
    Beside {
        above: order.has_sample(mb_x, mb_y, blk, x0, y0 - 1),
        left: order.has_sample(mb_x, mb_y, blk, x0 - 1, y0),
        corner: order.has_sample(mb_x, mb_y, blk, x0 - 1, y0 - 1),
        right: order.has_sample(mb_x, mb_y, blk, x0 + 8, y0 - 1),
    }
}

/// A sample of the row above a block. Where there is nothing to the right, the last one
/// goes on.
pub open spec fn above_at(plane: Seq<u8>, width: int, x0: int, y0: int, x: int, right: bool) -> int {
    sample(
        plane,
        width,
        x0 + if x < 8 || right {
            x
        } else {
            7
        },
        y0 - 1,
    )
}

/// Three samples in a row, the middle one counting double.
pub open spec fn smoothed(before: int, middle: int, behind: int) -> int {
    (before + 2 * middle + behind + 2) / 4
}

/// A sample of the row above a block, smoothed (clause 8.3.2.2.1).
pub open spec fn above_smoothed(
    plane: Seq<u8>,
    width: int,
    x0: int,
    y0: int,
    near: Beside,
    x: int,
) -> int {
    let before = if x > 0 {
        above_at(plane, width, x0, y0, x - 1, near.right)
    } else if near.corner {
        sample(plane, width, x0 - 1, y0 - 1)
    } else {
        above_at(plane, width, x0, y0, 0, near.right)
    };
    smoothed(
        before,
        above_at(plane, width, x0, y0, x, near.right),
        above_at(plane, width, x0, y0, x + 1, near.right),
    )
}

/// A sample of the column to the left of a block, smoothed.
pub open spec fn left_smoothed(
    plane: Seq<u8>,
    width: int,
    x0: int,
    y0: int,
    near: Beside,
    y: int,
) -> int {
    let before = if y > 0 {
        sample(plane, width, x0 - 1, y0 + y - 1)
    } else if near.corner {
        sample(plane, width, x0 - 1, y0 - 1)
    } else {
        sample(plane, width, x0 - 1, y0)
    };
    let behind = if y < 7 {
        sample(plane, width, x0 - 1, y0 + y + 1)
    } else {
        sample(plane, width, x0 - 1, y0 + 7)
    };
    smoothed(before, sample(plane, width, x0 - 1, y0 + y), behind)
}

/// The sum of the first `n` smoothed samples above a block.
pub open spec fn above_sum(
    plane: Seq<u8>,
    width: int,
    x0: int,
    y0: int,
    near: Beside,
    n: nat,
) -> int
    decreases n,
{
    if n == 0 {
        0
    } else {
        above_sum(plane, width, x0, y0, near, (n - 1) as nat) + above_smoothed(
            plane,
            width,
            x0,
            y0,
            near,
            n - 1,
        )
    }
}

/// The sum of the first `n` smoothed samples to the left of a block.
pub open spec fn left_sum(
    plane: Seq<u8>,
    width: int,
    x0: int,
    y0: int,
    near: Beside,
    n: nat,
) -> int
    decreases n,
{
    if n == 0 {
        0
    } else {
        left_sum(plane, width, x0, y0, near, (n - 1) as nat) + left_smoothed(
            plane,
            width,
            x0,
            y0,
            near,
            n - 1,
        )
    }
}

/// The mean of two sums of `n` numbers each, of those that are there.
pub open spec fn mean(above: Option<int>, left: Option<int>, n: int) -> int {
    match (above, left) {
        (Some(a), Some(l)) => (a + l + n) / (2 * n),
        (Some(a), None) => (a + n / 2) / n,
        (None, Some(l)) => (l + n / 2) / n,
        (None, None) => MID_SAMPLE as int,
    }
}

/// What an 8x8 luma block is predicted to be (clause 8.3.2.2.4).
pub open spec fn luma_mean(
    plane: Seq<u8>,
    width: int,
    order: CodingOrder,
    mb_x: int,
    mb_y: int,
    blk: int,
) -> int {
    let near = beside(order, mb_x, mb_y, blk);
    let x0 = 16 * mb_x + 8 * (blk % 2);
    let y0 = 16 * mb_y + 8 * (blk / 2);
    mean(
        if near.above {
            Some(above_sum(plane, width, x0, y0, near, 8))
        } else {
            None
        },
        if near.left {
            Some(left_sum(plane, width, x0, y0, near, 8))
        } else {
            None
        },
        8,
    )
}

/// A plane holds the samples of whole macroblocks, `size` samples a side each.
pub open spec fn holds(plane: Seq<u8>, width: int, order: CodingOrder, size: int) -> bool {
    &&& width == size * order.mb_width
    &&& plane.len() == width * (size * order.mb_height)
}

/// A sample of a plane stands inside it.
proof fn lemma_inside(plane: Seq<u8>, width: int, rows: int, x: int, y: int)
    requires
        plane.len() == width * rows,
        0 <= x < width,
        0 <= y < rows,
    ensures
        0 <= y * width + x < plane.len(),
{
    assert(0 <= y * width + x < width * rows) by (nonlinear_arith)
        requires
            0 <= x < width,
            0 <= y < rows,
    ;
}

/// A sample of a plane.
fn sample_at(plane: &[u8], width: usize, x: usize, y: usize) -> (value: i32)
    requires
        width <= 0x4000,
        x < width,
        y < 0x4000,
        y * width + x < plane@.len(),
    ensures
        value == sample(plane@, width as int, x as int, y as int),
        0 <= value <= 255,
{
    assert(y * width <= 0x1000_0000) by (nonlinear_arith)
        requires
            y < 0x4000,
            width <= 0x4000,
    ;
    plane[y * width + x] as i32
}

/// What is there beside a block is in the picture.
proof fn lemma_beside(order: CodingOrder, mb_x: int, mb_y: int, blk: int)
    requires
        order.wf(),
        0 <= mb_x < order.mb_width,
        0 <= mb_y < order.mb_height,
        0 <= blk <= 3,
    ensures
        ({
            let near = beside(order, mb_x, mb_y, blk);
            let x0 = 16 * mb_x + 8 * (blk % 2);
            let y0 = 16 * mb_y + 8 * (blk / 2);
            &&& near.above ==> y0 >= 1
            &&& near.left ==> x0 >= 1
            &&& near.corner ==> x0 >= 1 && y0 >= 1
            &&& near.right ==> x0 + 8 < 16 * order.mb_width && y0 >= 1
            &&& 0 <= x0 && x0 + 8 <= 16 * order.mb_width
            &&& 0 <= y0 && y0 + 8 <= 16 * order.mb_height
        }),
{
}

/// What there is beside a block when it is predicted.
fn look_beside(order: &CodingOrder, mb_x: usize, mb_y: usize, blk: usize) -> (near: Beside)
    requires
        order.wf(),
        mb_x < order.mb_width,
        mb_y < order.mb_height,
        blk <= 3,
    ensures
        near == beside(*order, mb_x as int, mb_y as int, blk as int),
{
    let x0: usize = 16 * mb_x + 8 * (blk % 2);
    let y0: usize = 16 * mb_y + 8 * (blk / 2);
    Beside {
        above: y0 > 0 && order.is_there(mb_x, mb_y, blk, x0, y0 - 1),
        left: x0 > 0 && order.is_there(mb_x, mb_y, blk, x0 - 1, y0),
        corner: x0 > 0 && y0 > 0 && order.is_there(mb_x, mb_y, blk, x0 - 1, y0 - 1),
        right: y0 > 0 && order.is_there(mb_x, mb_y, blk, x0 + 8, y0 - 1),
    }
}

/// Three samples in a row, the middle one counting double.
fn smooth(before: i32, middle: i32, behind: i32) -> (value: i32)
    requires
        0 <= before <= 255,
        0 <= middle <= 255,
        0 <= behind <= 255,
    ensures
        value == smoothed(before as int, middle as int, behind as int),
        0 <= value <= 255,
{
    (before + 2 * middle + behind + 2) / 4
}

/// The block lies in the plane, with what is beside it.
spec fn lies_in(plane: Seq<u8>, width: int, x0: int, y0: int, near: Beside, rows: int) -> bool {
    &&& plane.len() == width * rows
    &&& 0 < width <= 0x4000
    &&& rows <= 0x4000
    &&& 0 <= x0 && x0 + 8 <= width
    &&& 0 <= y0 && y0 + 8 <= rows
    &&& near.above ==> y0 >= 1
    &&& near.left ==> x0 >= 1
    &&& near.corner ==> x0 >= 1 && y0 >= 1
    &&& near.right ==> x0 + 8 < width && y0 >= 1
}

/// The sum of the smoothed samples above a block.
fn sum_above(plane: &[u8], width: usize, x0: usize, y0: usize, near: Beside, Ghost(rows): Ghost<int>) -> (sum:
    i32)
    requires
        lies_in(plane@, width as int, x0 as int, y0 as int, near, rows),
        near.above,
    ensures
        sum == above_sum(plane@, width as int, x0 as int, y0 as int, near, 8),
        0 <= sum <= 8 * 255,
{
    let mut sum: i32 = 0;
    let mut x: usize = 0;
    while x < 8
        invariant
            x <= 8,
            lies_in(plane@, width as int, x0 as int, y0 as int, near, rows),
            near.above,
            sum == above_sum(plane@, width as int, x0 as int, y0 as int, near, x as nat),
            0 <= sum <= 255 * x,
        decreases 8 - x,
    {
        let row: usize = y0 - 1;
        let next: usize = if x < 7 || near.right {
            x + 1
        } else {
            7
        };
        proof {
            lemma_inside(plane@, width as int, rows, x0 + x, row as int);
            lemma_inside(plane@, width as int, rows, x0 + next, row as int);
            lemma_inside(plane@, width as int, rows, x0 as int, row as int);
        }
        let middle: i32 = sample_at(plane, width, x0 + x, row);
        let behind: i32 = sample_at(plane, width, x0 + next, row);
        let before: i32 = if x > 0 {
            proof {
                lemma_inside(plane@, width as int, rows, x0 + x - 1, row as int);
            }
            sample_at(plane, width, x0 + x - 1, row)
        } else if near.corner {
            proof {
                lemma_inside(plane@, width as int, rows, x0 - 1, row as int);
            }
            sample_at(plane, width, x0 - 1, row)
        } else {
            middle
        };
        sum = sum + smooth(before, middle, behind);
        x = x + 1;
    }
    sum
}

/// The sum of the smoothed samples to the left of a block.
fn sum_left(plane: &[u8], width: usize, x0: usize, y0: usize, near: Beside, Ghost(rows): Ghost<int>) -> (sum:
    i32)
    requires
        lies_in(plane@, width as int, x0 as int, y0 as int, near, rows),
        near.left,
    ensures
        sum == left_sum(plane@, width as int, x0 as int, y0 as int, near, 8),
        0 <= sum <= 8 * 255,
{
    let mut sum: i32 = 0;
    let mut y: usize = 0;
    let column: usize = x0 - 1;
    while y < 8
        invariant
            y <= 8,
            column == x0 - 1,
            lies_in(plane@, width as int, x0 as int, y0 as int, near, rows),
            near.left,
            sum == left_sum(plane@, width as int, x0 as int, y0 as int, near, y as nat),
            0 <= sum <= 255 * y,
        decreases 8 - y,
    {
        let next: usize = if y < 7 {
            y + 1
        } else {
            7
        };
        proof {
            lemma_inside(plane@, width as int, rows, column as int, y0 + y);
            lemma_inside(plane@, width as int, rows, column as int, y0 + next);
        }
        let middle: i32 = sample_at(plane, width, column, y0 + y);
        let behind: i32 = sample_at(plane, width, column, y0 + next);
        let before: i32 = if y > 0 {
            proof {
                lemma_inside(plane@, width as int, rows, column as int, y0 + y - 1);
            }
            sample_at(plane, width, column, y0 + y - 1)
        } else if near.corner {
            proof {
                lemma_inside(plane@, width as int, rows, column as int, y0 - 1);
            }
            sample_at(plane, width, column, y0 - 1)
        } else {
            middle
        };
        sum = sum + smooth(before, middle, behind);
        y = y + 1;
    }
    sum
}

/// What an 8x8 luma block is predicted to be: the mean of the smoothed samples above it
/// and to its left, of those that are there.
pub fn luma_8x8_dc(
    plane: &[u8],
    width: usize,
    order: &CodingOrder,
    mb_x: usize,
    mb_y: usize,
    blk: usize,
) -> (value: i32)
    requires
        order.wf(),
        holds(plane@, width as int, *order, 16),
        mb_x < order.mb_width,
        mb_y < order.mb_height,
        blk <= 3,
    ensures
        value == luma_mean(plane@, width as int, *order, mb_x as int, mb_y as int, blk as int),
        0 <= value <= 255,
{
    let near = look_beside(order, mb_x, mb_y, blk);
    let x0: usize = 16 * mb_x + 8 * (blk % 2);
    let y0: usize = 16 * mb_y + 8 * (blk / 2);
    let ghost rows = 16 * order.mb_height;
    proof {
        lemma_beside(*order, mb_x as int, mb_y as int, blk as int);
    }
    if near.above && near.left {
        let above: i32 = sum_above(plane, width, x0, y0, near, Ghost(rows));
        let left: i32 = sum_left(plane, width, x0, y0, near, Ghost(rows));
        (above + left + 8) / 16
    } else if near.above {
        (sum_above(plane, width, x0, y0, near, Ghost(rows)) + 4) / 8
    } else if near.left {
        (sum_left(plane, width, x0, y0, near, Ghost(rows)) + 4) / 8
    } else {
        MID_SAMPLE
    }
}

/// The sum of the first `n` samples from a place on, along a row or down a column.
pub open spec fn line_sum(plane: Seq<u8>, width: int, x: int, y: int, down: bool, n: nat) -> int
    decreases n,
{
    if n == 0 {
        0
    } else {
        line_sum(plane, width, x, y, down, (n - 1) as nat) + if down {
            sample(plane, width, x, y + n - 1)
        } else {
            sample(plane, width, x + n - 1, y)
        }
    }
}

/// What a 4x4 chroma block is predicted to be (clause 8.3.4): the mean of the samples
/// above its macroblock and to its left. The block on the right of the upper row goes by
/// those above alone where they are there, and the one on the left of the lower row by
/// those to the left.
pub open spec fn chroma_mean(
    plane: Seq<u8>,
    width: int,
    order: CodingOrder,
    mb_x: int,
    mb_y: int,
    blk: int,
) -> int {
    let above = if order.precedes(mb_x, mb_y - 1, mb_x, mb_y) {
        Some(line_sum(plane, width, 8 * mb_x + 4 * (blk % 2), 8 * mb_y - 1, false, 4))
    } else {
        None
    };
    let left = if order.precedes(mb_x - 1, mb_y, mb_x, mb_y) {
        Some(line_sum(plane, width, 8 * mb_x - 1, 8 * mb_y + 4 * (blk / 2), true, 4))
    } else {
        None
    };
    mean(
        if blk == 2 && left is Some {
            None
        } else {
            above
        },
        if blk == 1 && above is Some {
            None
        } else {
            left
        },
        4,
    )
}

/// The sum of four samples from a place on.
fn sum_line(plane: &[u8], width: usize, x: usize, y: usize, down: bool, Ghost(rows): Ghost<int>) -> (sum:
    i32)
    requires
        plane@.len() == width * rows,
        0 < width <= 0x4000,
        rows <= 0x4000,
        x < width,
        y < rows,
        if down {
            y + 4 <= rows
        } else {
            x + 4 <= width
        },
    ensures
        sum == line_sum(plane@, width as int, x as int, y as int, down, 4),
        0 <= sum <= 4 * 255,
{
    let mut sum: i32 = 0;
    let mut k: usize = 0;
    while k < 4
        invariant
            k <= 4,
            plane@.len() == width * rows,
            0 < width <= 0x4000,
            rows <= 0x4000,
            x < width,
            y < rows,
            if down {
                y + 4 <= rows
            } else {
                x + 4 <= width
            },
            sum == line_sum(plane@, width as int, x as int, y as int, down, k as nat),
            0 <= sum <= 255 * k,
        decreases 4 - k,
    {
        let value: i32 = if down {
            proof {
                lemma_inside(plane@, width as int, rows, x as int, y + k);
            }
            sample_at(plane, width, x, y + k)
        } else {
            proof {
                lemma_inside(plane@, width as int, rows, x + k, y as int);
            }
            sample_at(plane, width, x + k, y)
        };
        sum = sum + value;
        k = k + 1;
    }
    sum
}

/// What a 4x4 chroma block is predicted to be.
fn chroma_block_dc(
    plane: &[u8],
    width: usize,
    order: &CodingOrder,
    mb_x: usize,
    mb_y: usize,
    blk: usize,
) -> (value: i32)
    requires
        order.wf(),
        holds(plane@, width as int, *order, 8),
        mb_x < order.mb_width,
        mb_y < order.mb_height,
        blk <= 3,
    ensures
        value == chroma_mean(plane@, width as int, *order, mb_x as int, mb_y as int, blk as int),
        0 <= value <= 255,
{
    let ghost rows = 8 * order.mb_height;
    let is_above: bool = mb_y > 0 && order.is_coded(mb_x, mb_y - 1, mb_x, mb_y);
    let is_left: bool = mb_x > 0 && order.is_coded(mb_x - 1, mb_y, mb_x, mb_y);
    let by_above: bool = is_above && !(blk == 2 && is_left);
    let by_left: bool = is_left && !(blk == 1 && is_above);
    let x: usize = 8 * mb_x + 4 * (blk % 2);
    let y: usize = 8 * mb_y + 4 * (blk / 2);
    if by_above && by_left {
        let above: i32 = sum_line(plane, width, x, 8 * mb_y - 1, false, Ghost(rows));
        let left: i32 = sum_line(plane, width, 8 * mb_x - 1, y, true, Ghost(rows));
        (above + left + 4) / 8
    } else if by_above {
        (sum_line(plane, width, x, 8 * mb_y - 1, false, Ghost(rows)) + 2) / 4
    } else if by_left {
        (sum_line(plane, width, 8 * mb_x - 1, y, true, Ghost(rows)) + 2) / 4
    } else {
        MID_SAMPLE
    }
}

/// What the four 4x4 blocks of a chroma component of a macroblock are predicted to be.
pub fn chroma_dc(plane: &[u8], width: usize, order: &CodingOrder, mb_x: usize, mb_y: usize) -> (values:
    [i32; 4])
    requires
        order.wf(),
        holds(plane@, width as int, *order, 8),
        mb_x < order.mb_width,
        mb_y < order.mb_height,
    ensures
        forall|blk: int|
            0 <= blk < 4 ==> {
                &&& #[trigger] values[blk] == chroma_mean(
                    plane@,
                    width as int,
                    *order,
                    mb_x as int,
                    mb_y as int,
                    blk,
                )
                &&& 0 <= values[blk] <= 255
            },
{
    [
        chroma_block_dc(plane, width, order, mb_x, mb_y, 0),
        chroma_block_dc(plane, width, order, mb_x, mb_y, 1),
        chroma_block_dc(plane, width, order, mb_x, mb_y, 2),
        chroma_block_dc(plane, width, order, mb_x, mb_y, 3),
    ]
}

/// Two planes hold the same where a luma block can look when it is predicted.
pub open spec fn alike_beside(
    one: Seq<u8>,
    other: Seq<u8>,
    width: int,
    order: CodingOrder,
    mb_x: int,
    mb_y: int,
    blk: int,
) -> bool {
    forall|x: int, y: int|
        0 <= x < width && 0 <= y < 16 * order.mb_height && order.has_sample(mb_x, mb_y, blk, x, y)
            ==> #[trigger] sample(one, width, x, y) == sample(other, width, x, y)
}

/// The samples above a block are there all along.
proof fn lemma_row_above(order: CodingOrder, mb_x: int, mb_y: int, blk: int, x: int)
    requires
        order.wf(),
        0 <= mb_x < order.mb_width,
        0 <= mb_y < order.mb_height,
        0 <= blk <= 3,
        0 <= x < 8,
        beside(order, mb_x, mb_y, blk).above,
    ensures
        order.has_sample(
            mb_x,
            mb_y,
            blk,
            16 * mb_x + 8 * (blk % 2) + x,
            16 * mb_y + 8 * (blk / 2) - 1,
        ),
{
}

/// The samples to the left of a block are there all along.
proof fn lemma_column_left(order: CodingOrder, mb_x: int, mb_y: int, blk: int, y: int)
    requires
        order.wf(),
        0 <= mb_x < order.mb_width,
        0 <= mb_y < order.mb_height,
        0 <= blk <= 3,
        0 <= y < 8,
        beside(order, mb_x, mb_y, blk).left,
    ensures
        order.has_sample(
            mb_x,
            mb_y,
            blk,
            16 * mb_x + 8 * (blk % 2) - 1,
            16 * mb_y + 8 * (blk / 2) + y,
        ),
{
}

/// What stands above a block comes to the same in two planes that are alike there.
proof fn lemma_above_alike(
    one: Seq<u8>,
    other: Seq<u8>,
    width: int,
    order: CodingOrder,
    mb_x: int,
    mb_y: int,
    blk: int,
    n: nat,
)
    requires
        order.wf(),
        width == 16 * order.mb_width,
        0 <= mb_x < order.mb_width,
        0 <= mb_y < order.mb_height,
        0 <= blk <= 3,
        alike_beside(one, other, width, order, mb_x, mb_y, blk),
        beside(order, mb_x, mb_y, blk).above,
        n <= 8,
    ensures
        ({
            let near = beside(order, mb_x, mb_y, blk);
            let x0 = 16 * mb_x + 8 * (blk % 2);
            let y0 = 16 * mb_y + 8 * (blk / 2);
            above_sum(one, width, x0, y0, near, n) == above_sum(other, width, x0, y0, near, n)
        }),
    decreases n,
{
    if n > 0 {
        lemma_above_alike(one, other, width, order, mb_x, mb_y, blk, (n - 1) as nat);
        lemma_beside(order, mb_x, mb_y, blk);
        lemma_row_above(order, mb_x, mb_y, blk, n - 1);
        lemma_row_above(order, mb_x, mb_y, blk, 0);
        lemma_row_above(order, mb_x, mb_y, blk, 7);
        if n > 1 {
            lemma_row_above(order, mb_x, mb_y, blk, n - 2);
        }
        if n < 8 {
            lemma_row_above(order, mb_x, mb_y, blk, n as int);
        }
    }
}

/// What stands to the left of a block comes to the same in two planes that are alike
/// there.
proof fn lemma_left_alike(
    one: Seq<u8>,
    other: Seq<u8>,
    width: int,
    order: CodingOrder,
    mb_x: int,
    mb_y: int,
    blk: int,
    n: nat,
)
    requires
        order.wf(),
        width == 16 * order.mb_width,
        0 <= mb_x < order.mb_width,
        0 <= mb_y < order.mb_height,
        0 <= blk <= 3,
        alike_beside(one, other, width, order, mb_x, mb_y, blk),
        beside(order, mb_x, mb_y, blk).left,
        n <= 8,
    ensures
        ({
            let near = beside(order, mb_x, mb_y, blk);
            let x0 = 16 * mb_x + 8 * (blk % 2);
            let y0 = 16 * mb_y + 8 * (blk / 2);
            left_sum(one, width, x0, y0, near, n) == left_sum(other, width, x0, y0, near, n)
        }),
    decreases n,
{
    if n > 0 {
        lemma_left_alike(one, other, width, order, mb_x, mb_y, blk, (n - 1) as nat);
        lemma_beside(order, mb_x, mb_y, blk);
        lemma_column_left(order, mb_x, mb_y, blk, n - 1);
        lemma_column_left(order, mb_x, mb_y, blk, 0);
        lemma_column_left(order, mb_x, mb_y, blk, 7);
        if n > 1 {
            lemma_column_left(order, mb_x, mb_y, blk, n - 2);
        }
        if n < 8 {
            lemma_column_left(order, mb_x, mb_y, blk, n as int);
        }
    }
}

/// A luma block is predicted from what a decoder has by then, and nothing else: the
/// macroblocks that are coded before, and the blocks of its own that are.
pub proof fn law_luma_predicts_from_what_is_there(
    one: Seq<u8>,
    other: Seq<u8>,
    width: int,
    order: CodingOrder,
    mb_x: int,
    mb_y: int,
    blk: int,
)
    requires
        order.wf(),
        width == 16 * order.mb_width,
        0 <= mb_x < order.mb_width,
        0 <= mb_y < order.mb_height,
        0 <= blk <= 3,
        alike_beside(one, other, width, order, mb_x, mb_y, blk),
    ensures
        luma_mean(one, width, order, mb_x, mb_y, blk) == luma_mean(
            other,
            width,
            order,
            mb_x,
            mb_y,
            blk,
        ),
{
    let near = beside(order, mb_x, mb_y, blk);
    if near.above {
        lemma_above_alike(one, other, width, order, mb_x, mb_y, blk, 8);
    }
    if near.left {
        lemma_left_alike(one, other, width, order, mb_x, mb_y, blk, 8);
    }
}

/// A chroma block is predicted from the macroblocks that are coded before its own, and
/// nothing else.
pub proof fn law_chroma_predicts_from_what_is_there(
    one: Seq<u8>,
    other: Seq<u8>,
    width: int,
    order: CodingOrder,
    mb_x: int,
    mb_y: int,
    blk: int,
)
    requires
        order.wf(),
        width == 8 * order.mb_width,
        0 <= mb_x < order.mb_width,
        0 <= mb_y < order.mb_height,
        0 <= blk <= 3,
        forall|x: int, y: int|
            0 <= x && 0 <= y && order.precedes(x / 8, y / 8, mb_x, mb_y) ==> #[trigger] sample(
                one,
                width,
                x,
                y,
            ) == sample(other, width, x, y),
    ensures
        chroma_mean(one, width, order, mb_x, mb_y, blk) == chroma_mean(
            other,
            width,
            order,
            mb_x,
            mb_y,
            blk,
        ),
{
    reveal_with_fuel(line_sum, 5);
}

} // verus!
