//! Predicting the vectors of a macroblock from its neighbours' (clause 8.4.1.3).
//!
//! A neighbour counts from when it has been coded, in whatever order that happens: pair
//! by pair or row by row, what has not been coded yet is not there to predict from.
use crate::h264::mb::MbMotion;
use vstd::prelude::*;

verus! {

/// The most macroblocks that a row or a column of a picture has.
pub const MAX_MBS: usize = 1024;

/// The index of a list that is not used.
pub const UNUSED: i32 = -1;

/// What the macroblocks of a picture have moved by so far.
#[derive(Clone, Debug, PartialEq, Eq)]
pub struct MotionField {
    pub mb_width: usize,
    pub mb_height: usize,
    /// The upper and the lower halves of the macroblocks, a row of halves behind the other.
    pub cells: Vec<Option<MbMotion>>,
}

/// What the macroblocks of a picture have moved by so far.
#[verifier::ext_equal]
pub struct MotionFieldView {
    pub width: int,
    pub height: int,
    pub cells: Seq<Option<MbMotion>>,
}

/// What a neighbour has to say about one list. One that is not there, or does not use
/// the list, has index -1 and does not move.
#[derive(Clone, Copy, Debug, PartialEq, Eq, Structural)]
pub struct Candidate {
    pub ref_idx: i32,
    pub x: i32,
    pub y: i32,
}

/// What a neighbour has to say about a list.
pub open spec fn candidate_of(cell: Option<MbMotion>, list: int) -> Candidate {
    match cell {
        Some(m) if list == 0 && m.ref_idx_l0 >= 0 => Candidate {
            ref_idx: m.ref_idx_l0,
            x: m.mv_l0x,
            y: m.mv_l0y,
        },
        Some(m) if list != 0 && m.ref_idx_l1 >= 0 => Candidate {
            ref_idx: m.ref_idx_l1,
            x: m.mv_l1x,
            y: m.mv_l1y,
        },
        _ => Candidate { ref_idx: UNUSED, x: 0, y: 0 },
    }
}

/// The one of three numbers that has one of them on either side.
pub open spec fn median_of(a: i32, b: i32, c: i32) -> i32 {
    if a <= b <= c || c <= b <= a {
        b
    } else if b <= a <= c || c <= a <= b {
        a
    } else {
        c
    }
}

/// The three neighbours that a part of a macroblock is predicted from.
pub struct Around {
    pub left: Option<MbMotion>,
    pub above: Option<MbMotion>,
    /// The one above and to the right, or, where that is not there, to the left.
    pub corner: Option<MbMotion>,
}

/// What three neighbours predict: the vector of the only one that names the reference,
/// and the median of all three otherwise. Where there is nothing above, what the left
/// one says.
pub open spec fn median_vector(near: Around, list: int, ref_idx: i32) -> [i32; 2] {
    let a = candidate_of(near.left, list);
    let b = candidate_of(near.above, list);
    let c = candidate_of(near.corner, list);
    if near.above is None && near.corner is None && near.left is Some {
        [a.x, a.y]
    } else if a.ref_idx == ref_idx && b.ref_idx != ref_idx && c.ref_idx != ref_idx {
        [a.x, a.y]
    } else if a.ref_idx != ref_idx && b.ref_idx == ref_idx && c.ref_idx != ref_idx {
        [b.x, b.y]
    } else if a.ref_idx != ref_idx && b.ref_idx != ref_idx && c.ref_idx == ref_idx {
        [c.x, c.y]
    } else {
        [median_of(a.x, b.x, c.x), median_of(a.y, b.y, c.y)]
    }
}

impl MotionFieldView {
    /// Every macroblock has two halves.
    pub open spec fn wf(self) -> bool {
        &&& 0 <= self.width <= MAX_MBS
        &&& 0 <= self.height <= MAX_MBS
        &&& self.cells.len() == 2 * self.height * self.width
    }

    /// What a half of a macroblock moved by, where it has been coded.
    pub open spec fn cell(self, x: int, row: int) -> Option<MbMotion> {
        if 0 <= x < self.width && 0 <= row < 2 * self.height {
            self.cells[row * self.width + x]
        } else {
            None
        }
    }

    /// The field once a half of a macroblock has been coded.
    pub open spec fn put(self, x: int, row: int, motion: MbMotion) -> MotionFieldView {
        MotionFieldView { cells: self.cells.update(row * self.width + x, Some(motion)), ..self }
    }

    /// The field once a macroblock has been coded as a whole.
    pub open spec fn put_whole(self, x: int, y: int, motion: MbMotion) -> MotionFieldView {
        self.put(x, 2 * y, motion).put(x, 2 * y + 1, motion)
    }

    /// The neighbours of a macroblock or of its upper half.
    pub open spec fn around(self, x: int, y: int) -> Around {
        Around {
            left: self.cell(x - 1, 2 * y),
            above: self.cell(x, 2 * y - 1),
            corner: match self.cell(x + 1, 2 * y - 1) {
                Some(m) => Some(m),
                None => self.cell(x - 1, 2 * y - 1),
            },
        }
    }

    /// The neighbours of the lower half of a macroblock. What lies above it and to the
    /// right is coded later.
    pub open spec fn around_lower(self, x: int, y: int) -> Around {
        Around {
            left: self.cell(x - 1, 2 * y + 1),
            above: self.cell(x, 2 * y),
            corner: self.cell(x - 1, 2 * y),
        }
    }

    /// The vector that a macroblock is predicted to have.
    pub open spec fn predicted(self, x: int, y: int, list: int, ref_idx: i32) -> [i32; 2] {
        median_vector(self.around(x, y), list, ref_idx)
    }

    /// The vector that the upper or the lower half of a macroblock is predicted to have.
    /// The upper one follows what lies above it, and the lower one what lies to its left,
    /// where they name the same reference.
    pub open spec fn predicted_half(
        self,
        x: int,
        y: int,
        part: int,
        list: int,
        ref_idx: i32,
    ) -> [i32; 2] {
        let near = if part == 0 {
            self.around(x, y)
        } else {
            self.around_lower(x, y)
        };
        let first = candidate_of(
            if part == 0 {
                near.above
            } else {
                near.left
            },
            list,
        );
        if first.ref_idx == ref_idx {
            [first.x, first.y]
        } else {
            median_vector(near, list, ref_idx)
        }
    }

    /// No vector is longer than a limit, on either axis.
    pub open spec fn within(self, limit: int) -> bool {
        forall|i: int|
            0 <= i < self.cells.len() ==> cell_within(#[trigger] self.cells[i], limit)
    }
}

/// No vector is longer than a limit, on either axis.
pub open spec fn cell_within(cell: Option<MbMotion>, limit: int) -> bool {
    cell matches Some(m) ==> {
        &&& -limit <= m.mv_l0x <= limit
        &&& -limit <= m.mv_l0y <= limit
        &&& -limit <= m.mv_l1x <= limit
        &&& -limit <= m.mv_l1y <= limit
    }
}

/// The field of a picture of which nothing has been coded.
pub open spec fn nothing_coded(width: int, height: int) -> MotionFieldView {
    MotionFieldView {
        width,
        height,
        cells: Seq::new((2 * height * width) as nat, |i: int| None),
    }
}

/// A place has its cell.
proof fn lemma_cell(x: int, row: int, width: int, height: int)
    requires
        0 <= x < width,
        0 <= row < 2 * height,
    ensures
        0 <= row * width + x < 2 * height * width,
        row * width <= 2 * height * width,
{
    assert(0 <= row * width + x < 2 * height * width && row * width <= 2 * height * width)
        by (nonlinear_arith)
        requires
            0 <= x < width,
            0 <= row < 2 * height,
    ;
}

/// A field that has one cell more keeps its limit.
pub proof fn lemma_put_within(
    field: MotionFieldView,
    x: int,
    row: int,
    motion: MbMotion,
    limit: int,
)
    requires
        field.wf(),
        field.within(limit),
        cell_within(Some(motion), limit),
        0 <= x < field.width,
        0 <= row < 2 * field.height,
    ensures
        field.put(x, row, motion).wf(),
        field.put(x, row, motion).within(limit),
{
    lemma_cell(x, row, field.width, field.height);
    let after = field.put(x, row, motion);
    assert forall|i: int| 0 <= i < after.cells.len() implies cell_within(
        #[trigger] after.cells[i],
        limit,
    ) by {
        assert(cell_within(field.cells[i], limit));
    }
}

/// What lies in a field lies within its limit.
proof fn lemma_cell_within(field: MotionFieldView, x: int, row: int, limit: int)
    requires
        field.wf(),
        field.within(limit),
    ensures
        cell_within(field.cell(x, row), limit),
{
    if 0 <= x < field.width && 0 <= row < 2 * field.height {
        lemma_cell(x, row, field.width, field.height);
    }
}

/// What is predicted from short vectors is short.
pub proof fn lemma_predicted_within(
    field: MotionFieldView,
    x: int,
    y: int,
    list: int,
    ref_idx: i32,
    limit: int,
)
    requires
        field.wf(),
        field.within(limit),
        0 <= limit,
    ensures
        -limit <= field.predicted(x, y, list, ref_idx)[0] <= limit,
        -limit <= field.predicted(x, y, list, ref_idx)[1] <= limit,
{
    lemma_cell_within(field, x - 1, 2 * y, limit);
    lemma_cell_within(field, x, 2 * y - 1, limit);
    lemma_cell_within(field, x + 1, 2 * y - 1, limit);
    lemma_cell_within(field, x - 1, 2 * y - 1, limit);
}

/// What is predicted for a half from short vectors is short.
pub proof fn lemma_predicted_half_within(
    field: MotionFieldView,
    x: int,
    y: int,
    part: int,
    list: int,
    ref_idx: i32,
    limit: int,
)
    requires
        field.wf(),
        field.within(limit),
        0 <= limit,
    ensures
        -limit <= field.predicted_half(x, y, part, list, ref_idx)[0] <= limit,
        -limit <= field.predicted_half(x, y, part, list, ref_idx)[1] <= limit,
{
    lemma_predicted_within(field, x, y, list, ref_idx, limit);
    lemma_cell_within(field, x, 2 * y - 1, limit);
    lemma_cell_within(field, x - 1, 2 * y + 1, limit);
    lemma_cell_within(field, x, 2 * y, limit);
    lemma_cell_within(field, x - 1, 2 * y, limit);
}

/// The median of three numbers.
fn median(a: i32, b: i32, c: i32) -> (m: i32)
    ensures
        m == median_of(a, b, c),
{
    if (a <= b && b <= c) || (c <= b && b <= a) {
        b
    } else if (b <= a && a <= c) || (c <= a && a <= b) {
        a
    } else {
        c
    }
}

/// What a neighbour has to say about a list.
fn candidate(cell: Option<MbMotion>, list: usize) -> (candidate: Candidate)
    ensures
        candidate == candidate_of(cell, list as int),
{
    match cell {
        Some(m) => if list == 0 && m.ref_idx_l0 >= 0 {
            Candidate { ref_idx: m.ref_idx_l0, x: m.mv_l0x, y: m.mv_l0y }
        } else if list != 0 && m.ref_idx_l1 >= 0 {
            Candidate { ref_idx: m.ref_idx_l1, x: m.mv_l1x, y: m.mv_l1y }
        } else {
            Candidate { ref_idx: UNUSED, x: 0, y: 0 }
        },
        None => Candidate { ref_idx: UNUSED, x: 0, y: 0 },
    }
}

/// What three neighbours predict.
fn median_from(near: &Around, list: usize, ref_idx: i32) -> (vector: [i32; 2])
    ensures
        vector == median_vector(*near, list as int, ref_idx),
{
    let a = candidate(near.left, list);
    let b = candidate(near.above, list);
    let c = candidate(near.corner, list);
    let by_a: bool = a.ref_idx == ref_idx;
    let by_b: bool = b.ref_idx == ref_idx;
    let by_c: bool = c.ref_idx == ref_idx;
    if near.above.is_none() && near.corner.is_none() && near.left.is_some() {
        [a.x, a.y]
    } else if by_a && !by_b && !by_c {
        [a.x, a.y]
    } else if !by_a && by_b && !by_c {
        [b.x, b.y]
    } else if !by_a && !by_b && by_c {
        [c.x, c.y]
    } else {
        [median(a.x, b.x, c.x), median(a.y, b.y, c.y)]
    }
}

impl View for MotionField {
    type V = MotionFieldView;

    open spec fn view(&self) -> MotionFieldView {
        MotionFieldView {
            width: self.mb_width as int,
            height: self.mb_height as int,
            cells: self.cells@,
        }
    }
}

impl MotionField {
    /// The field of a picture of which nothing has been coded.
    pub fn new(mb_width: usize, mb_height: usize) -> (field: Self)
        requires
            mb_width <= MAX_MBS,
            mb_height <= MAX_MBS,
        ensures
            field@ == nothing_coded(mb_width as int, mb_height as int),
            field@.wf(),
    {
        assert(0 <= 2 * mb_height * mb_width <= 0x20_0000) by (nonlinear_arith)
            requires
                mb_width <= 1024,
                mb_height <= 1024,
        ;
        let count: usize = 2 * mb_height * mb_width;
        let mut cells: Vec<Option<MbMotion>> = Vec::new();
        let mut i: usize = 0;
        while i < count
            invariant
                i <= count,
                cells@ =~= Seq::new(i as nat, |k: int| None::<MbMotion>),
            decreases count - i,
        {
            cells.push(None);
            i = i + 1;
        }
        MotionField { mb_width, mb_height, cells }
    }

    /// Forget what was coded.
    pub fn reset(&mut self)
        requires
            old(self)@.wf(),
        ensures
            final(self)@ == nothing_coded(old(self)@.width, old(self)@.height),
            final(self)@.wf(),
    {
        let ghost before = self@;
        let mut i: usize = 0;
        while i < self.cells.len()
            invariant
                i <= self.cells@.len(),
                self.cells@.len() == before.cells.len(),
                self.mb_width == before.width,
                self.mb_height == before.height,
                forall|k: int| 0 <= k < i ==> (#[trigger] self.cells@[k]) is None,
            decreases self.cells@.len() - i,
        {
            self.cells[i] = None;
            i = i + 1;
        }
        assert(self@ =~= nothing_coded(before.width, before.height));
    }

    /// What a half of a macroblock moved by, where it has been coded.
    fn get(&self, x: usize, row: usize) -> (cell: Option<MbMotion>)
        requires
            self@.wf(),
        ensures
            cell == self@.cell(x as int, row as int),
    {
        if x >= self.mb_width || row >= 2 * self.mb_height {
            return None;
        }
        proof {
            lemma_cell(x as int, row as int, self@.width, self@.height);
            assert(2 * self.mb_height * self.mb_width <= 0x20_0000) by (nonlinear_arith)
                requires
                    self.mb_width <= 1024,
                    self.mb_height <= 1024,
            ;
        }
        self.cells[row * self.mb_width + x]
    }

    /// A half of a macroblock has been coded.
    fn put(&mut self, x: usize, row: usize, motion: &MbMotion)
        requires
            old(self)@.wf(),
            x < old(self)@.width,
            row < 2 * old(self)@.height,
        ensures
            final(self)@ == old(self)@.put(x as int, row as int, *motion),
            final(self)@.wf(),
    {
        proof {
            lemma_cell(x as int, row as int, self@.width, self@.height);
            assert(2 * self.mb_height * self.mb_width <= 0x20_0000) by (nonlinear_arith)
                requires
                    self.mb_width <= 1024,
                    self.mb_height <= 1024,
            ;
        }
        let at: usize = row * self.mb_width + x;
        self.cells[at] = Some(*motion);
    }

    /// A macroblock has been coded as a whole.
    pub fn set(&mut self, mb_x: usize, mb_y: usize, motion: &MbMotion)
        requires
            old(self)@.wf(),
            mb_x < old(self)@.width,
            mb_y < old(self)@.height,
        ensures
            final(self)@ == old(self)@.put_whole(mb_x as int, mb_y as int, *motion),
            final(self)@.wf(),
    {
        self.put(mb_x, 2 * mb_y, motion);
        self.put(mb_x, 2 * mb_y + 1, motion);
    }

    /// The upper or the lower half of a macroblock has been coded.
    pub fn set_16x8(&mut self, mb_x: usize, mb_y: usize, part: usize, motion: &MbMotion)
        requires
            old(self)@.wf(),
            mb_x < old(self)@.width,
            mb_y < old(self)@.height,
            part <= 1,
        ensures
            final(self)@ == old(self)@.put(mb_x as int, 2 * mb_y + part, *motion),
            final(self)@.wf(),
    {
        self.put(mb_x, 2 * mb_y + part, motion);
    }

    /// The neighbours of a macroblock or of its upper half.
    fn near(&self, mb_x: usize, mb_y: usize) -> (near: Around)
        requires
            self@.wf(),
            mb_x < self@.width,
            mb_y < self@.height,
        ensures
            near == self@.around(mb_x as int, mb_y as int),
    {
        let row: usize = 2 * mb_y;
        let left: Option<MbMotion> = if mb_x > 0 {
            self.get(mb_x - 1, row)
        } else {
            None
        };
        if mb_y == 0 {
            return Around { left, above: None, corner: None };
        }
        let above: Option<MbMotion> = self.get(mb_x, row - 1);
        let corner: Option<MbMotion> = match self.get(mb_x + 1, row - 1) {
            Some(m) => Some(m),
            None => if mb_x > 0 {
                self.get(mb_x - 1, row - 1)
            } else {
                None
            },
        };
        Around { left, above, corner }
    }

    /// The neighbours of the lower half of a macroblock.
    fn near_lower(&self, mb_x: usize, mb_y: usize) -> (near: Around)
        requires
            self@.wf(),
            mb_x < self@.width,
            mb_y < self@.height,
        ensures
            near == self@.around_lower(mb_x as int, mb_y as int),
    {
        let row: usize = 2 * mb_y;
        let above: Option<MbMotion> = self.get(mb_x, row);
        if mb_x == 0 {
            return Around { left: None, above, corner: None };
        }
        Around { left: self.get(mb_x - 1, row + 1), above, corner: self.get(mb_x - 1, row) }
    }

    /// The vector that a macroblock is predicted to have.
    pub fn predict(&self, mb_x: usize, mb_y: usize, list: usize, ref_idx: i32) -> (vector: [i32; 2])
        requires
            self@.wf(),
            mb_x < self@.width,
            mb_y < self@.height,
        ensures
            vector == self@.predicted(mb_x as int, mb_y as int, list as int, ref_idx),
    {
        let near = self.near(mb_x, mb_y);
        median_from(&near, list, ref_idx)
    }

    /// The vector that the upper or the lower half of a macroblock is predicted to have.
    pub fn predict_16x8(
        &self,
        mb_x: usize,
        mb_y: usize,
        part: usize,
        list: usize,
        ref_idx: i32,
    ) -> (vector: [i32; 2])
        requires
            self@.wf(),
            mb_x < self@.width,
            mb_y < self@.height,
        ensures
            vector == self@.predicted_half(
                mb_x as int,
                mb_y as int,
                part as int,
                list as int,
                ref_idx,
            ),
    {
        let near = if part == 0 {
            self.near(mb_x, mb_y)
        } else {
            self.near_lower(mb_x, mb_y)
        };
        let first = candidate(
            if part == 0 {
                near.above
            } else {
                near.left
            },
            list,
        );
        if first.ref_idx == ref_idx {
            [first.x, first.y]
        } else {
            median_from(&near, list, ref_idx)
        }
    }
}

} // verus!
