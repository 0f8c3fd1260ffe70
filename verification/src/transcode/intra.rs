//! The picture that a decoder will make of one that predicts from itself.
use vstd::prelude::*;

use crate::h264::intra;
use crate::h264::intra::CodingOrder;
use crate::h264::reconstruct;
use crate::h264::reconstruct::{
    chroma_dc_terms, chroma_residual_4x4, residual_8x8, ChromaBlockLevels, InverseScale8x8,
    MAX_CHROMA_QP, MAX_CHROMA_TERM, MAX_LEVEL, MAX_QP,
};
use crate::transcode::picture;
use crate::transcode::picture::{PictureShape, Place};

verus! {

/// The samples of a picture. The random access point is the only picture that predicts
/// from itself, so it is the only one that has to carry the samples a decoder will make
/// of it.
#[derive(Clone, Debug)]
pub struct ReconstructedPicture {
    /// Luma samples in a row.
    pub width: usize,
    /// Rows of luma samples.
    pub height: usize,
    pub luma: Vec<u8>,
    pub cb: Vec<u8>,
    pub cr: Vec<u8>,
}

/// A number as a sample.
pub open spec fn clipped(value: int) -> u8 {
    if value < 0 {
        0
    } else if value > 255 {
        255
    } else {
        value as u8
    }
}

/// A number as a sample: the nearest there is.
pub fn clip_sample(value: i32) -> (sample: u8)
    ensures
        sample == clipped(value as int),
{
    if value < 0 {
        0
    } else if value > 255 {
        255
    } else {
        value as u8
    }
}

/// What a residual adds to a sample of a block of `size` samples a side: nothing where
/// there is none.
pub open spec fn residual_at(residual: Option<Seq<i32>>, size: int, x: int, y: int) -> int {
    match residual {
        Some(levels) => levels[y * size + x] as int,
        None => 0,
    }
}

/// A plane with a block stored in it: what the block predicts, and the residual.
pub open spec fn block_stored(
    plane: Seq<u8>,
    width: int,
    x0: int,
    y0: int,
    size: int,
    prediction: int,
    residual: Option<Seq<i32>>,
) -> Seq<u8> {
    Seq::new(
        plane.len(),
        |i: int|
            {
                let x = i % width;
                let y = i / width;
                if x0 <= x < x0 + size && y0 <= y < y0 + size {
                    clipped(prediction + residual_at(residual, size, x - x0, y - y0))
                } else {
                    plane[i]
                }
            },
    )
}

/// The block lies inside the plane, and what it adds up to can be told.
pub open spec fn storable(
    len: int,
    width: int,
    x0: int,
    y0: int,
    size: int,
    prediction: i32,
    residual: Option<Seq<i32>>,
) -> bool {
    &&& 0 <= x0
    &&& 0 <= y0
    &&& 1 <= size <= 8
    &&& x0 + size <= width <= 0x1_0000
    &&& y0 + size <= 0x1_0000
    &&& (y0 + size) * width <= len
    &&& residual matches Some(levels) ==> levels.len() == size * size && forall|k: int|
        0 <= k < levels.len() ==> i32::MIN <= prediction + #[trigger] levels[k] <= i32::MAX
}

/// One sample of a plane stands at one index.
proof fn lemma_sample_index(x: int, y: int, width: int, rows: int)
    requires
        0 <= x < width,
        0 <= y < rows,
    ensures
        0 <= y * width + x < rows * width,
        (y * width + x) % width == x,
        (y * width + x) / width == y,
{
    vstd::arithmetic::div_mod::lemma_fundamental_div_mod_converse(y * width + x, width, y, x);
    assert(0 <= y * width + x < rows * width) by (nonlinear_arith)
        requires
            0 <= x < width,
            0 <= y < rows,
    ;
}

/// Two samples with the same column and row are one.
proof fn lemma_sample_place(i: int, width: int)
    requires
        0 <= i,
        0 < width,
    ensures
        (i / width) * width + i % width == i,
        0 <= i % width < width,
        0 <= i / width,
{
    vstd::arithmetic::div_mod::lemma_fundamental_div_mod(i, width);
    assert((i / width) * width == width * (i / width)) by (nonlinear_arith);
    assert(0 <= i / width) by (nonlinear_arith)
        requires
            0 <= i,
            0 < width,
    ;
}

/// A plane with the first `done` samples of a block stored in it, row by row.
spec fn partly_stored(
    plane: Seq<u8>,
    width: int,
    x0: int,
    y0: int,
    size: int,
    prediction: int,
    residual: Option<Seq<i32>>,
    rows: int,
    columns: int,
) -> Seq<u8> {
    Seq::new(
        plane.len(),
        |i: int|
            {
                let x = i % width - x0;
                let y = i / width - y0;
                if 0 <= x < size && (0 <= y < rows || (y == rows && x < columns)) {
                    clipped(prediction + residual_at(residual, size, x, y))
                } else {
                    plane[i]
                }
            },
    )
}

/// Store one sample of a block.
proof fn lemma_one_more(
    plane: Seq<u8>,
    width: int,
    x0: int,
    y0: int,
    size: int,
    prediction: i32,
    residual: Option<Seq<i32>>,
    y: int,
    x: int,
)
    requires
        storable(plane.len() as int, width, x0, y0, size, prediction, residual),
        0 <= y < size,
        0 <= x < size,
    ensures
        ({
            let at = (y0 + y) * width + (x0 + x);
            &&& 0 <= at < plane.len()
            &&& partly_stored(
                plane,
                width,
                x0,
                y0,
                size,
                prediction as int,
                residual,
                y,
                x + 1,
            ) == partly_stored(
                plane,
                width,
                x0,
                y0,
                size,
                prediction as int,
                residual,
                y,
                x,
            ).update(at, clipped(prediction + residual_at(residual, size, x, y)))
        }),
{
    lemma_sample_index(x0 + x, y0 + y, width, y0 + size);
    let at = (y0 + y) * width + (x0 + x);
    let before = partly_stored(
        plane,
        width,
        x0,
        y0,
        size,
        prediction as int,
        residual,
        y,
        x,
    );
    let after = partly_stored(
        plane,
        width,
        x0,
        y0,
        size,
        prediction as int,
        residual,
        y,
        x + 1,
    );
    let sample = clipped(prediction + residual_at(residual, size, x, y));
    assert forall|i: int| 0 <= i < plane.len() implies after[i] == before.update(at, sample)[i] by {
        lemma_sample_place(i, width);
        if i % width == x0 + x && i / width == y0 + y {
            assert(i == at);
        }
    }
    assert(after =~= before.update(at, sample));
}

/// Store a block in a plane.
fn store_block(
    plane: &mut Vec<u8>,
    width: usize,
    x0: usize,
    y0: usize,
    size: usize,
    prediction: i32,
    residual: Option<&[i32]>,
)
    requires
        storable(
            old(plane)@.len() as int,
            width as int,
            x0 as int,
            y0 as int,
            size as int,
            prediction,
            match residual {
                Some(levels) => Some(levels@),
                None => None,
            },
        ),
    ensures
        final(plane)@ == block_stored(
            old(plane)@,
            width as int,
            x0 as int,
            y0 as int,
            size as int,
            prediction as int,
            match residual {
                Some(levels) => Some(levels@),
                None => None,
            },
        ),
{
    let ghost start = plane@;
    let ghost levels_of = match residual {
        Some(levels) => Some(levels@),
        None => None,
    };
    let len: usize = plane.len();
    let mut y: usize = 0;
    assert(plane@ =~= partly_stored(
        start,
        width as int,
        x0 as int,
        y0 as int,
        size as int,
        prediction as int,
        levels_of,
        0,
        0,
    ));
    while y < size
        invariant
            levels_of == (match residual {
                Some(levels) => Some(levels@),
                None => None,
            }),
            storable(
                start.len() as int,
                width as int,
                x0 as int,
                y0 as int,
                size as int,
                prediction,
                levels_of,
            ),
            y <= size,
            plane@.len() == start.len(),
            start.len() == len,
            plane@ == partly_stored(
                start,
                width as int,
                x0 as int,
                y0 as int,
                size as int,
                prediction as int,
                levels_of,
                y as int,
                0,
            ),
        decreases size - y,
    {
        let mut x: usize = 0;
        while x < size
            invariant
                levels_of == (match residual {
                    Some(levels) => Some(levels@),
                    None => None,
                }),
                storable(
                    start.len() as int,
                    width as int,
                    x0 as int,
                    y0 as int,
                    size as int,
                    prediction,
                    levels_of,
                ),
                y < size,
                x <= size,
                plane@.len() == start.len(),
                start.len() == len,
                plane@ == partly_stored(
                    start,
                    width as int,
                    x0 as int,
                    y0 as int,
                    size as int,
                    prediction as int,
                    levels_of,
                    y as int,
                    x as int,
                ),
            decreases size - x,
        {
            proof {
                lemma_one_more(
                    start,
                    width as int,
                    x0 as int,
                    y0 as int,
                    size as int,
                    prediction,
                    levels_of,
                    y as int,
                    x as int,
                );
                lemma_sample_index(x as int, y as int, size as int, size as int);
                assert(0 <= (y0 + y) * width <= (y0 + size) * width) by (nonlinear_arith)
                    requires
                        0 <= y0,
                        0 <= y <= size,
                        0 <= width,
                ;
                assert(size * size <= 64) by (nonlinear_arith)
                    requires
                        0 <= size <= 8,
                ;
            }
            let value: i32 = match residual {
                Some(levels) => prediction + levels[y * size + x],
                None => prediction,
            };
            let at: usize = (y0 + y) * width + (x0 + x);
            plane[at] = clip_sample(value);
            x = x + 1;
        }
        y = y + 1;
        assert(plane@ =~= partly_stored(
            start,
            width as int,
            x0 as int,
            y0 as int,
            size as int,
            prediction as int,
            levels_of,
            y as int,
            0,
        ));
    }
    assert(plane@ =~= block_stored(
        start,
        width as int,
        x0 as int,
        y0 as int,
        size as int,
        prediction as int,
        levels_of,
    ));
}

impl ReconstructedPicture {
    /// Every plane holds its samples: whole macroblocks, and half as many chroma
    /// samples each way.
    pub open spec fn wf(self) -> bool {
        &&& self.width <= 0x4000
        &&& self.height <= 0x4000
        &&& self.width % 16 == 0
        &&& self.height % 16 == 0
        &&& self.luma@.len() == self.width * self.height
        &&& self.cb@.len() == (self.width as int / 2) * (self.height as int / 2)
        &&& self.cr@.len() == (self.width as int / 2) * (self.height as int / 2)
    }

    /// The samples of a chroma component.
    pub open spec fn component(self, c: int) -> Seq<u8> {
        if c == 0 {
            self.cb@
        } else {
            self.cr@
        }
    }

    /// A picture of which nothing has been made yet.
    pub fn new(width: usize, height: usize) -> (picture: Self)
        requires
            width <= 0x4000,
            height <= 0x4000,
            width % 16 == 0,
            height % 16 == 0,
        ensures
            picture.wf(),
            picture.width == width,
            picture.height == height,
            picture.luma@ == Seq::new((width * height) as nat, |i: int| 0u8),
            picture.cb@ == Seq::new(
                ((width as int / 2) * (height as int / 2)) as nat,
                |i: int| 0u8,
            ),
            picture.cr@ == Seq::new(
                ((width as int / 2) * (height as int / 2)) as nat,
                |i: int| 0u8,
            ),
    {
        assert(0 <= width * height <= 0x1000_0000) by (nonlinear_arith)
            requires
                0 <= width <= 0x4000,
                0 <= height <= 0x4000,
        ;
        assert(0 <= (width as int / 2) * (height as int / 2) <= 0x1000_0000) by (nonlinear_arith)
            requires
                0 <= width as int / 2 <= 0x4000,
                0 <= height as int / 2 <= 0x4000,
        ;
        let chroma: usize = (width / 2) * (height / 2);
        ReconstructedPicture {
            width,
            height,
            luma: zero_plane(width * height),
            cb: zero_plane(chroma),
            cr: zero_plane(chroma),
        }
    }

    /// Forget what was made.
    pub fn clear(&mut self)
        requires
            old(self).wf(),
        ensures
            final(self).wf(),
            final(self).width == old(self).width,
            final(self).height == old(self).height,
            final(self).luma@ == Seq::new(old(self).luma@.len(), |i: int| 0u8),
            final(self).cb@ == Seq::new(old(self).cb@.len(), |i: int| 0u8),
            final(self).cr@ == Seq::new(old(self).cr@.len(), |i: int| 0u8),
    {
        self.luma = zero_plane(self.luma.len());
        self.cb = zero_plane(self.cb.len());
        self.cr = zero_plane(self.cr.len());
    }

    /// Chroma samples in a row.
    pub fn chroma_width(&self) -> (width: usize)
        ensures
            width == self.width as int / 2,
    {
        self.width / 2
    }

    /// Put one 8x8 luma block back together the way a decoder will, so the blocks after
    /// it -- the three that share this macroblock included -- predict from what
    /// the decoder is going to have rather than from what the source held.
    ///
    /// `None` is a block whose `coded_block_pattern` bit is clear, which carries
    /// no residual and comes back as the prediction alone.
    pub fn store_luma(
        &mut self,
        mb_x: usize,
        mb_y: usize,
        blk: usize,
        prediction: i32,
        residual: Option<&[i32; 64]>,
    )
        requires
            old(self).wf(),
            16 * mb_x + 16 <= old(self).width,
            16 * mb_y + 16 <= old(self).height,
            blk <= 3,
            residual matches Some(levels) ==> forall|k: int|
                0 <= k < 64 ==> i32::MIN <= prediction + #[trigger] levels@[k] <= i32::MAX,
        ensures
            final(self).wf(),
            final(self).width == old(self).width,
            final(self).height == old(self).height,
            final(self).cb == old(self).cb,
            final(self).cr == old(self).cr,
            final(self).luma@ == block_stored(
                old(self).luma@,
                old(self).width as int,
                16 * mb_x + 8 * (blk as int % 2),
                16 * mb_y + 8 * (blk as int / 2),
                8,
                prediction as int,
                match residual {
                    Some(levels) => Some(levels@),
                    None => None,
                },
            ),
    {
        let x0: usize = mb_x * 16 + (blk % 2) * 8;
        let y0: usize = mb_y * 16 + (blk / 2) * 8;
        assert((y0 + 8) * self.width <= self.width * self.height) by (nonlinear_arith)
            requires
                y0 + 8 <= self.height,
                0 <= self.width,
        ;
        let width: usize = self.width;
        match residual {
            Some(levels) => store_block(&mut self.luma, width, x0, y0, 8, prediction, Some(levels)),
            None => store_block(&mut self.luma, width, x0, y0, 8, prediction, None),
        }
    }

    /// The same for one 4x4 block of a chroma component, which predicts from
    /// neighbouring macroblocks only.
    pub fn store_chroma(
        &mut self,
        component: usize,
        mb_x: usize,
        mb_y: usize,
        blk: usize,
        prediction: i32,
        residual: &[i32; 16],
    )
        requires
            old(self).wf(),
            component <= 1,
            16 * mb_x + 16 <= old(self).width,
            16 * mb_y + 16 <= old(self).height,
            blk <= 3,
            forall|k: int|
                0 <= k < 16 ==> i32::MIN <= prediction + #[trigger] residual@[k] <= i32::MAX,
        ensures
            final(self).wf(),
            final(self).width == old(self).width,
            final(self).height == old(self).height,
            final(self).luma == old(self).luma,
            ({
                let stored = |plane: Seq<u8>|
                    block_stored(
                        plane,
                        old(self).width as int / 2,
                        8 * mb_x + 4 * (blk as int % 2),
                        8 * mb_y + 4 * (blk as int / 2),
                        4,
                        prediction as int,
                        Some(residual@),
                    );
                if component == 0 {
                    final(self).cb@ == stored(old(self).cb@) && final(self).cr == old(self).cr
                } else {
                    final(self).cr@ == stored(old(self).cr@) && final(self).cb == old(self).cb
                }
            }),
    {
        let x0: usize = mb_x * 8 + (blk % 2) * 4;
        let y0: usize = mb_y * 8 + (blk / 2) * 4;
        let width: usize = self.width / 2;
        assert((y0 + 4) * width <= width * (self.height as int / 2)) by (nonlinear_arith)
            requires
                y0 + 4 <= self.height as int / 2,
                0 <= width,
        ;
        if component == 0 {
            store_block(&mut self.cb, width, x0, y0, 4, prediction, Some(residual));
        } else {
            store_block(&mut self.cr, width, x0, y0, 4, prediction, Some(residual));
        }
    }
}

/// A luma plane with the first `n` blocks of a macroblock concealed: each is the constant
/// that what is beside it predicts.
pub open spec fn concealed(
    plane: Seq<u8>,
    width: int,
    order: CodingOrder,
    mb_x: int,
    mb_y: int,
    n: nat,
) -> Seq<u8>
    decreases n,
{
    if n == 0 {
        plane
    } else {
        let before = concealed(plane, width, order, mb_x, mb_y, (n - 1) as nat);
        let blk = n - 1;
        block_stored(
            before,
            width,
            16 * mb_x + 8 * (blk % 2),
            16 * mb_y + 8 * (blk / 2),
            8,
            intra::luma_mean(before, width, order, mb_x, mb_y, blk),
            None,
        )
    }
}

/// What a decoder adds to the prediction of a luma block with levels in the order of a
/// scan.
pub open spec fn luma_residual(
    levels: Seq<i32>,
    scale: InverseScale8x8,
    qp: int,
    scan: Seq<usize>,
) -> Seq<i32> {
    Seq::new(
        64,
        |k: int|
            reconstruct::residual_of_8x8(unscanned(levels, scan, 64, 64), scale, qp)[k] as i32,
    )
}

/// The first coefficient of a block of a chroma component: nothing where the levels were
/// never written.
pub open spec fn first_term(
    levels: ChromaBlockLevels,
    qp: int,
    cbp_chroma: u32,
    blk: int,
) -> int {
    if cbp_chroma > 0 {
        reconstruct::chroma_first(levels.dc@, qp, blk)
    } else {
        0
    }
}

/// What a decoder adds to the prediction of a chroma block.
pub open spec fn chroma_residual(
    levels: ChromaBlockLevels,
    blk: int,
    qp: int,
    cbp_chroma: u32,
    scan: Seq<usize>,
) -> Seq<i32> {
    let first = first_term(levels, qp, cbp_chroma, blk);
    let ac = unscanned_chroma(levels.ac[blk]@, scan, cbp_chroma);
    Seq::new(16, |k: int| reconstruct::residual_of_4x4(ac, first, qp)[k] as i32)
}

/// A chroma plane with the first `n` blocks of a macroblock put back together.
pub open spec fn chroma_stored(
    plane: Seq<u8>,
    width: int,
    mb_x: int,
    mb_y: int,
    prediction: Seq<i32>,
    levels: ChromaBlockLevels,
    qp: int,
    cbp_chroma: u32,
    scan: Seq<usize>,
    n: nat,
) -> Seq<u8>
    decreases n,
{
    if n == 0 {
        plane
    } else {
        let blk = n - 1;
        block_stored(
            chroma_stored(
                plane,
                width,
                mb_x,
                mb_y,
                prediction,
                levels,
                qp,
                cbp_chroma,
                scan,
                (n - 1) as nat,
            ),
            width,
            8 * mb_x + 4 * (blk % 2),
            8 * mb_y + 4 * (blk / 2),
            4,
            prediction[blk] as int,
            Some(chroma_residual(levels, blk, qp, cbp_chroma, scan)),
        )
    }
}

/// The levels of a chroma component are ones that can be scaled back.
pub open spec fn are_chroma_levels(levels: ChromaBlockLevels) -> bool {
    &&& reconstruct::are_levels(levels.dc@)
    &&& forall|blk: int| 0 <= blk < 4 ==> reconstruct::are_levels(#[trigger] levels.ac[blk]@)
}

/// The order in which a coded picture's macroblocks come. A field is a coded picture of
/// half the rows, and is not macroblock-adaptive whatever the sequence says, because it
/// is already settled that it is a field.
pub open spec fn order_of(shape: PictureShape) -> CodingOrder {
    CodingOrder {
        mb_width: shape.mb_width,
        mb_height: if shape.pair {
            (shape.mb_height as int / 2) as usize
        } else {
            shape.mb_height
        },
        mbaff: shape.mbaff && !shape.pair,
    }
}

/// The row of a macroblock within the coded picture, which for a field counts that
/// field's own rows rather than the frame's.
pub open spec fn row_within(shape: PictureShape, place: Place) -> int {
    if shape.pair {
        place.mb_y as int / 2
    } else {
        place.mb_y as int
    }
}

/// The row of a macroblock within the coded picture.
pub fn row_of(shape: &PictureShape, place: &Place) -> (row: usize)
    ensures
        row == row_within(*shape, *place),
{
    if shape.pair {
        place.mb_y / 2
    } else {
        place.mb_y
    }
}

/// A picture that predicts from itself takes for coded what is coded at an earlier
/// position: macroblocks come in the order of their turns.
pub proof fn law_macroblocks_come_in_turn(shape: PictureShape, position: int)
    requires
        shape.wf(),
        0 <= position < if shape.pair {
            shape.field_count()
        } else {
            shape.count()
        },
    ensures
        order_of(shape).wf(),
        ({
            let place = shape.place(position);
            let row = row_within(shape, place);
            &&& place.mb_x < order_of(shape).mb_width
            &&& row < order_of(shape).mb_height
            &&& order_of(shape).turn(place.mb_x as int, row) == position
        }),
{
    let place = shape.place(position);
    if shape.pair {
        assert(shape.field_count() <= shape.count()) by (nonlinear_arith)
            requires
                shape.field_count() == shape.mb_width * (shape.mb_height as int / 2),
                shape.count() == shape.mb_width * shape.mb_height,
                0 <= shape.mb_width,
                0 <= shape.mb_height,
        ;
    }
    picture::law_every_macroblock_is_coded_once(shape);
    assert(shape.position(place.mb_x as int, place.mb_y as int) == position);
    assert(place.mb_x < shape.mb_width && place.mb_y < shape.mb_height);
}

/// What the random access point needs to carry that no other picture does.
#[derive(Clone, Debug)]
pub struct IntraState {
    /// What a decoder has made of the picture so far.
    pub picture: ReconstructedPicture,
    pub order: CodingOrder,
}

impl IntraState {
    /// The picture has room for every macroblock that is coded.
    pub open spec fn wf(self) -> bool {
        &&& self.picture.wf()
        &&& self.order.wf()
        &&& self.picture.width == 16 * self.order.mb_width
        &&& self.picture.height == 16 * self.order.mb_height
    }

    /// What a picture begins with.
    pub fn new(shape: &PictureShape) -> (state: Self)
        requires
            shape.wf(),
        ensures
            state.wf(),
            state.order == order_of(*shape),
            state.picture.luma@ == Seq::new(state.picture.luma@.len(), |i: int| 0u8),
            state.picture.cb@ == Seq::new(state.picture.cb@.len(), |i: int| 0u8),
            state.picture.cr@ == Seq::new(state.picture.cr@.len(), |i: int| 0u8),
    {
        let rows: usize = if shape.pair {
            shape.mb_height / 2
        } else {
            shape.mb_height
        };
        IntraState {
            picture: ReconstructedPicture::new(shape.mb_width * 16, rows * 16),
            order: CodingOrder {
                mb_width: shape.mb_width,
                mb_height: rows,
                mbaff: shape.mbaff && !shape.pair,
            },
        }
    }

    /// What an 8x8 luma block of a macroblock is predicted to be.
    pub fn predict_luma(&self, mb_x: usize, mb_y: usize, blk: usize) -> (value: i32)
        requires
            self.wf(),
            mb_x < self.order.mb_width,
            mb_y < self.order.mb_height,
            blk <= 3,
        ensures
            value == intra::luma_mean(
                self.picture.luma@,
                self.picture.width as int,
                self.order,
                mb_x as int,
                mb_y as int,
                blk as int,
            ),
            0 <= value <= 255,
    {
        intra::luma_8x8_dc(&self.picture.luma, self.picture.width, &self.order, mb_x, mb_y, blk)
    }

    /// What the 4x4 blocks of both chroma components of a macroblock are predicted to
    /// be. Chroma predicts from neighbouring macroblocks only, so all of them can be
    /// told before the first is stored.
    pub fn predict_chroma(&self, mb_x: usize, mb_y: usize) -> (values: [[i32; 4]; 2])
        requires
            self.wf(),
            mb_x < self.order.mb_width,
            mb_y < self.order.mb_height,
        ensures
            forall|c: int, blk: int|
                0 <= c < 2 && 0 <= blk < 4 ==> {
                    &&& (#[trigger] values[c][blk]) == intra::chroma_mean(
                        if c == 0 {
                            self.picture.cb@
                        } else {
                            self.picture.cr@
                        },
                        self.picture.width as int / 2,
                        self.order,
                        mb_x as int,
                        mb_y as int,
                        blk,
                    )
                    &&& 0 <= values[c][blk] <= 255
                },
    {
        let width: usize = self.picture.chroma_width();
        let cb = intra::chroma_dc(&self.picture.cb, width, &self.order, mb_x, mb_y);
        let cr = intra::chroma_dc(&self.picture.cr, width, &self.order, mb_x, mb_y);
        [cb, cr]
    }

    /// Put a luma block back together the way a decoder will, from its levels in the
    /// order of a scan. `None` is a block whose `coded_block_pattern` bit is clear, which
    /// carries no residual and comes back as the prediction alone.
    pub fn store_luma(
        &mut self,
        mb_x: usize,
        mb_y: usize,
        blk: usize,
        prediction: i32,
        levels: Option<&[i32; 64]>,
        qp: i32,
        scale: &InverseScale8x8,
        scan: &[usize; 64],
    )
        requires
            old(self).wf(),
            mb_x < old(self).order.mb_width,
            mb_y < old(self).order.mb_height,
            blk <= 3,
            0 <= prediction <= 255,
            levels matches Some(levels) ==> reconstruct::are_levels(levels@),
            0 <= qp <= MAX_QP,
            scale.wf(),
            is_scan(scan@, 64),
        ensures
            final(self).wf(),
            final(self).order == old(self).order,
            final(self).picture.width == old(self).picture.width,
            final(self).picture.height == old(self).picture.height,
            final(self).picture.cb == old(self).picture.cb,
            final(self).picture.cr == old(self).picture.cr,
            final(self).picture.luma@ == block_stored(
                old(self).picture.luma@,
                old(self).picture.width as int,
                16 * mb_x + 8 * (blk as int % 2),
                16 * mb_y + 8 * (blk as int / 2),
                8,
                prediction as int,
                match levels {
                    Some(levels) => Some(luma_residual(levels@, *scale, qp as int, scan@)),
                    None => None,
                },
            ),
    {
        match levels {
            Some(levels) => {
                let raster = unscan_8x8(levels, scan);
                proof {
                    lemma_unscanned_levels(levels@, scan@, 64, 64);
                }
                let residual = residual_8x8(&raster, qp, scale);
                assert(residual@ =~= luma_residual(levels@, *scale, qp as int, scan@));
                assert forall|k: int| 0 <= k < 64 implies i32::MIN <= prediction
                    + #[trigger] residual@[k] <= i32::MAX by {
                    assert(residual[k] <= 0x7fff_ff00);
                }
                self.picture.store_luma(mb_x, mb_y, blk, prediction, Some(&residual));
            },
            None => self.picture.store_luma(mb_x, mb_y, blk, prediction, None),
        }
    }

    /// Put the blocks of one chroma component back together.
    fn store_component(
        &mut self,
        component: usize,
        mb_x: usize,
        mb_y: usize,
        prediction: &[i32; 4],
        levels: &ChromaBlockLevels,
        qp: i32,
        cbp_chroma: u32,
        scan: &[usize; 16],
    )
        requires
            old(self).wf(),
            component <= 1,
            mb_x < old(self).order.mb_width,
            mb_y < old(self).order.mb_height,
            forall|k: int| 0 <= k < 4 ==> 0 <= #[trigger] prediction@[k] <= 255,
            are_chroma_levels(*levels),
            0 <= qp <= MAX_CHROMA_QP,
            scan@[0] == 0,
            is_scan(scan@, 16),
        ensures
            final(self).wf(),
            final(self).order == old(self).order,
            final(self).picture.width == old(self).picture.width,
            final(self).picture.height == old(self).picture.height,
            final(self).picture.luma == old(self).picture.luma,
            final(self).picture.component(component as int) == chroma_stored(
                old(self).picture.component(component as int),
                old(self).picture.width as int / 2,
                mb_x as int,
                mb_y as int,
                prediction@,
                *levels,
                qp as int,
                cbp_chroma,
                scan@,
                4,
            ),
            final(self).picture.component(1 - component) == old(self).picture.component(
                1 - component,
            ),
    {
        let ghost first = *self;
        let dc: [i32; 4] = if cbp_chroma > 0 {
            chroma_dc_terms(&levels.dc, qp)
        } else {
            [0;4]
        };
        let mut blk: usize = 0;
        while blk < 4
            invariant
                blk <= 4,
                component <= 1,
                self.wf(),
                self.order == first.order,
                self.picture.width == first.picture.width,
                self.picture.height == first.picture.height,
                self.picture.luma == first.picture.luma,
                mb_x < first.order.mb_width,
                mb_y < first.order.mb_height,
                forall|k: int| 0 <= k < 4 ==> 0 <= #[trigger] prediction@[k] <= 255,
                are_chroma_levels(*levels),
                0 <= qp <= MAX_CHROMA_QP,
                scan@[0] == 0,
                is_scan(scan@, 16),
                forall|k: int|
                    0 <= k < 4 ==> {
                        &&& (#[trigger] dc[k]) == first_term(*levels, qp as int, cbp_chroma, k)
                        &&& -MAX_CHROMA_TERM <= dc[k] <= MAX_CHROMA_TERM
                    },
                self.picture.component(component as int) == chroma_stored(
                    first.picture.component(component as int),
                    first.picture.width as int / 2,
                    mb_x as int,
                    mb_y as int,
                    prediction@,
                    *levels,
                    qp as int,
                    cbp_chroma,
                    scan@,
                    blk as nat,
                ),
                self.picture.component(1 - component) == first.picture.component(1 - component),
            decreases 4 - blk,
        {
            let raster = unscan_chroma(&levels.ac[blk], scan, cbp_chroma);
            proof {
                let ac = levels.ac[blk as int]@;
                assert(reconstruct::are_levels(ac));
                assert forall|k: int| 0 <= k < 16 implies -MAX_LEVEL <= #[trigger] (seq![0i32]
                    + ac)[k] <= MAX_LEVEL by {
                    if k > 0 {
                        assert((seq![0i32] + ac)[k] == ac[k - 1]);
                    }
                }
                lemma_unscanned_levels(seq![0i32] + ac, scan@, 16, 16);
            }
            let residual = chroma_residual_4x4(&raster, dc[blk], qp);
            assert(residual@ =~= chroma_residual(
                *levels,
                blk as int,
                qp as int,
                cbp_chroma,
                scan@,
            ));
            assert(0 <= prediction@[blk as int] <= 255);
            let value: i32 = prediction[blk];
            assert forall|k: int| 0 <= k < 16 implies i32::MIN <= value + #[trigger] residual@[k]
                <= i32::MAX by {
                assert(residual[k] <= 0x7fff_ff00);
            }
            self.picture.store_chroma(component, mb_x, mb_y, blk, value, &residual);
            blk = blk + 1;
        }
    }

    /// Put both chroma components of a macroblock back together the way a decoder will.
    /// They predict from neighbouring macroblocks only and so can be done in one go.
    ///
    /// `cbp_chroma` below 2 means the AC levels were never written, whatever the
    /// conversion produced, and 0 means the DC ones were not either.
    pub fn store_chroma(
        &mut self,
        mb_x: usize,
        mb_y: usize,
        prediction: &[[i32; 4]; 2],
        levels: &[ChromaBlockLevels; 2],
        qp: i32,
        cbp_chroma: u32,
        scan: &[usize; 16],
    )
        requires
            old(self).wf(),
            mb_x < old(self).order.mb_width,
            mb_y < old(self).order.mb_height,
            forall|c: int, k: int|
                0 <= c < 2 && 0 <= k < 4 ==> 0 <= #[trigger] prediction[c][k] <= 255,
            are_chroma_levels(levels[0]),
            are_chroma_levels(levels[1]),
            0 <= qp <= MAX_CHROMA_QP,
            scan@[0] == 0,
            is_scan(scan@, 16),
        ensures
            final(self).wf(),
            final(self).order == old(self).order,
            final(self).picture.width == old(self).picture.width,
            final(self).picture.height == old(self).picture.height,
            final(self).picture.luma == old(self).picture.luma,
            forall|c: int|
                0 <= c < 2 ==> #[trigger] final(self).picture.component(c) == chroma_stored(
                    old(self).picture.component(c),
                    old(self).picture.width as int / 2,
                    mb_x as int,
                    mb_y as int,
                    prediction[c]@,
                    levels[c],
                    qp as int,
                    cbp_chroma,
                    scan@,
                    4,
                ),
    {
        assert forall|k: int| 0 <= k < 4 implies 0 <= #[trigger] prediction[0]@[k] <= 255 by {
            assert(0 <= prediction[0][k] <= 255);
        }
        assert forall|k: int| 0 <= k < 4 implies 0 <= #[trigger] prediction[1]@[k] <= 255 by {
            assert(0 <= prediction[1][k] <= 255);
        }
        self.store_component(0, mb_x, mb_y, &prediction[0], &levels[0], qp, cbp_chroma, scan);
        self.store_component(1, mb_x, mb_y, &prediction[1], &levels[1], qp, cbp_chroma, scan);
    }

    /// Make up the luma of a macroblock the source never coded, or coded as something
    /// other than intra. It carries no residual, so every block is the constant its
    /// neighbours predict -- which continues them rather than showing grey.
    pub fn conceal_luma(&mut self, mb_x: usize, mb_y: usize)
        requires
            old(self).wf(),
            mb_x < old(self).order.mb_width,
            mb_y < old(self).order.mb_height,
        ensures
            final(self).wf(),
            final(self).order == old(self).order,
            final(self).picture.width == old(self).picture.width,
            final(self).picture.height == old(self).picture.height,
            final(self).picture.cb == old(self).picture.cb,
            final(self).picture.cr == old(self).picture.cr,
            final(self).picture.luma@ == concealed(
                old(self).picture.luma@,
                old(self).picture.width as int,
                old(self).order,
                mb_x as int,
                mb_y as int,
                4,
            ),
    {
        let ghost first = *self;
        let mut blk: usize = 0;
        while blk < 4
            invariant
                blk <= 4,
                self.wf(),
                self.order == first.order,
                self.picture.width == first.picture.width,
                self.picture.height == first.picture.height,
                self.picture.cb == first.picture.cb,
                self.picture.cr == first.picture.cr,
                mb_x < first.order.mb_width,
                mb_y < first.order.mb_height,
                self.picture.luma@ == concealed(
                    first.picture.luma@,
                    first.picture.width as int,
                    first.order,
                    mb_x as int,
                    mb_y as int,
                    blk as nat,
                ),
            decreases 4 - blk,
        {
            let value: i32 = self.predict_luma(mb_x, mb_y, blk);
            self.picture.store_luma(mb_x, mb_y, blk, value, None);
            blk = blk + 1;
        }
    }
}

/// A plane of zeros.
fn zero_plane(len: usize) -> (plane: Vec<u8>)
    ensures
        plane@ == Seq::new(len as nat, |i: int| 0u8),
{
    let mut plane: Vec<u8> = Vec::new();
    plane.resize(len, 0);
    assert(plane@ =~= Seq::new(len as nat, |i: int| 0u8));
    plane
}

/// A scan visits every place of a block of `len` levels once.
pub open spec fn is_scan(scan: Seq<usize>, len: int) -> bool {
    &&& scan.len() == len
    &&& forall|k: int| 0 <= k < len ==> #[trigger] scan[k] < len
    &&& forall|a: int, b: int| 0 <= a < b < len ==> scan[a] != scan[b]
}

/// The first `n` levels of a scan, put where they belong in a block of `len`.
pub open spec fn unscanned(levels: Seq<i32>, scan: Seq<usize>, len: nat, n: nat) -> Seq<i32>
    decreases n,
{
    if n == 0 {
        Seq::new(len, |i: int| 0i32)
    } else {
        unscanned(levels, scan, len, (n - 1) as nat).update(
            scan[n - 1] as int,
            levels[n - 1],
        )
    }
}

/// Levels put in their places are still levels.
proof fn lemma_unscanned_levels(levels: Seq<i32>, scan: Seq<usize>, len: nat, n: nat)
    requires
        reconstruct::are_levels(levels),
        n <= levels.len(),
        n <= scan.len(),
        forall|k: int| 0 <= k < n ==> #[trigger] scan[k] < len,
    ensures
        unscanned(levels, scan, len, n).len() == len,
        reconstruct::are_levels(unscanned(levels, scan, len, n)),
    decreases n,
{
    if n > 0 {
        lemma_unscanned_levels(levels, scan, len, (n - 1) as nat);
        assert(-MAX_LEVEL <= levels[n - 1] <= MAX_LEVEL);
        assert(scan[n - 1] < len);
    }
}

/// Levels in the order of a scan, put where they belong in the block. Levels arrive in
/// the scan order the residual syntax uses and the inverse transform wants them in
/// raster order, so they are unscanned on the way.
pub fn unscan_8x8(levels: &[i32; 64], scan: &[usize; 64]) -> (raster: [i32; 64])
    requires
        is_scan(scan@, 64),
    ensures
        raster@ == unscanned(levels@, scan@, 64, 64),
        forall|k: int| 0 <= k < 64 ==> raster@[#[trigger] scan@[k] as int] == levels@[k],
{
    let mut raster: [i32; 64] = [0;64];
    assert(raster@ =~= unscanned(levels@, scan@, 64, 0));
    let mut k: usize = 0;
    while k < 64
        invariant
            k <= 64,
            is_scan(scan@, 64),
            raster@ == unscanned(levels@, scan@, 64, k as nat),
            forall|j: int| 0 <= j < k ==> raster@[#[trigger] scan@[j] as int] == levels@[j],
        decreases 64 - k,
    {
        raster[scan[k]] = levels[k];
        k = k + 1;
    }
    raster
}

/// The AC levels of a chroma block, put where they belong in the block.
pub open spec fn unscanned_chroma(levels: Seq<i32>, scan: Seq<usize>, cbp_chroma: u32) -> Seq<i32> {
    if cbp_chroma == 2 {
        unscanned(seq![0i32] + levels, scan, 16, 16)
    } else {
        Seq::new(16, |i: int| 0i32)
    }
}

/// The AC levels of a chroma block, put where they belong in the block. The DC level
/// travels apart, so its place stays empty; and below a `cbp_chroma` of 2 the AC levels
/// were never written, whatever the conversion produced.
pub fn unscan_chroma(levels: &[i32; 15], scan: &[usize; 16], cbp_chroma: u32) -> (raster: [i32; 16])
    requires
        scan@[0] == 0,
        is_scan(scan@, 16),
    ensures
        raster@ == unscanned_chroma(levels@, scan@, cbp_chroma),
        raster@[0] == 0,
        forall|k: int|
            1 <= k < 16 ==> raster@[#[trigger] scan@[k] as int] == if cbp_chroma == 2 {
                levels@[k - 1]
            } else {
                0
            },
{
    let mut raster: [i32; 16] = [0;16];
    assert(raster@ =~= Seq::new(16, |i: int| 0i32));
    if cbp_chroma != 2 {
        return raster;
    }
    let ghost all = seq![0i32] + levels@;
    assert(raster@ =~= unscanned(all, scan@, 16, 1)) by {
        reveal_with_fuel(unscanned, 2);
    }
    let mut k: usize = 1;
    while k < 16
        invariant
            1 <= k <= 16,
            all == seq![0i32] + levels@,
            scan@[0] == 0,
            is_scan(scan@, 16),
            raster@ == unscanned(all, scan@, 16, k as nat),
            raster@[0] == 0,
            forall|j: int| 1 <= j < k ==> raster@[#[trigger] scan@[j] as int] == levels@[j - 1],
        decreases 16 - k,
    {
        raster[scan[k]] = levels[k - 1];
        k = k + 1;
    }
    raster
}

} // verus!
