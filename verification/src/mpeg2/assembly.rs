//! How the parts of a macroblock and of a stream go together.
use crate::bitreader::StartCode;
use crate::bits;
use crate::error::Error;
use crate::mpeg2::block;
use crate::mpeg2::block::MotionSpec;
use crate::mpeg2::constants::PictureType;
use crate::mpeg2::headers;
use crate::mpeg2::headers::{ParseState, PictureView, QuantView};
use crate::mpeg2::macroblock;
use crate::mpeg2::macroblock::{MotionView, SliceStateView};
use crate::mpeg2::syntax;
use crate::mpeg2::vlc::VlcTable;
use vstd::prelude::*;

verus! {

/// The vectors of a macroblock and what goes with them are all there.
pub open spec fn is_whole(m: MotionView) -> bool {
    m.pmv.len() == 8 && m.mv.len() == 8 && m.field_select.len() == 4 && m.dmvector.len() == 2
}

/// Reading a vector asks only for its own predictors, and touches nothing else.
proof fn lemma_vector(
    data: Seq<u8>,
    pos: nat,
    pic: PictureView,
    format: MotionSpec,
    s: int,
    v: int,
    a: MotionView,
    b: MotionView,
)
    requires
        0 <= s < 2,
        0 <= v < 2,
        is_whole(a),
        is_whole(b),
        a.pmv[4 * v + 2 * s] == b.pmv[4 * v + 2 * s],
        a.pmv[4 * v + 2 * s + 1] == b.pmv[4 * v + 2 * s + 1],
    ensures
        ({
            let (p, x) = macroblock::vector_at(data, pos, pic, format, s, v, a);
            let (q, y) = macroblock::vector_at(data, pos, pic, format, s, v, b);
            let i = 4 * v + 2 * s;
            let selects = format.count == 2 || (format.field_format && !format.dmv);
            &&& p == q
            &&& x is Ok <==> y is Ok
            &&& x matches Ok(x) ==> {
                let y = y->Ok_0;
                &&& is_whole(x)
                &&& x.mv_count == a.mv_count
                &&& x.mv[i] == y.mv[i] && x.mv[i + 1] == y.mv[i + 1]
                &&& x.pmv[i] == y.pmv[i] && x.pmv[i + 1] == y.pmv[i + 1]
                &&& selects ==> x.field_select[2 * v + s] == y.field_select[2 * v + s]
                &&& !selects ==> x.field_select == a.field_select
                &&& forall|j: int|
                    0 <= j < 8 && j != i && j != i + 1 ==> #[trigger] x.mv[j] == a.mv[j]
                &&& forall|j: int|
                    0 <= j < 8 && j != i && j != i + 1 ==> #[trigger] x.pmv[j] == a.pmv[j]
                &&& forall|j: int|
                    0 <= j < 4 && j != 2 * v + s ==> #[trigger] x.field_select[j]
                        == a.field_select[j]
            }
        }),
{
    reveal(macroblock::vector_at);
}

/// Reading the vectors of one direction touches nothing of the other.
proof fn lemma_vectors(
    data: Seq<u8>,
    pos: nat,
    pic: PictureView,
    format: MotionSpec,
    s: int,
    a: MotionView,
    b: MotionView,
)
    requires
        0 <= s < 2,
        is_whole(a),
        is_whole(b),
        a.pmv == b.pmv,
    ensures
        ({
            let (p, x) = macroblock::vectors_at(data, pos, pic, format, s, a);
            let (q, y) = macroblock::vectors_at(data, pos, pic, format, s, b);
            &&& p == q
            &&& x is Ok <==> y is Ok
            &&& x matches Ok(x) ==> {
                let y = y->Ok_0;
                &&& is_whole(x)
                &&& x.pmv == y.pmv
                &&& forall|j: int|
                    0 <= j < 8 && (j / 2) % 2 != s ==> #[trigger] x.mv[j] == a.mv[j]
                &&& forall|j: int|
                    0 <= j < 8 && (j / 2) % 2 != s ==> #[trigger] x.pmv[j] == a.pmv[j]
                &&& forall|j: int|
                    0 <= j < 4 && j % 2 != s ==> #[trigger] x.field_select[j] == a.field_select[j]
                &&& forall|j: int|
                    0 <= j < 8 && (j / 2) % 2 == s && a.mv[j] == b.mv[j] ==> #[trigger] x.mv[j]
                        == y.mv[j]
                &&& forall|j: int|
                    0 <= j < 4 && j % 2 == s && a.field_select[j] == b.field_select[j]
                        ==> #[trigger] x.field_select[j] == y.field_select[j]
            }
        }),
{
    reveal(macroblock::vectors_at);
    let a0 = MotionView { mv_count: format.count, ..a };
    let b0 = MotionView { mv_count: format.count, ..b };
    lemma_vector(data, pos, pic, format, s, 0, a0, b0);
    lemma_vector(data, pos, pic, format, s, 0, b0, a0);
    let (p1, x) = macroblock::vector_at(data, pos, pic, format, s, 0, a0);
    let (q1, y) = macroblock::vector_at(data, pos, pic, format, s, 0, b0);
    if x is Ok {
        let x = x->Ok_0;
        let y = y->Ok_0;
        assert(x.pmv =~= y.pmv);
        if format.count == 2 {
            lemma_vector(data, p1, pic, format, s, 1, x, y);
            lemma_vector(data, p1, pic, format, s, 1, y, x);
            let x2 = macroblock::vector_at(data, p1, pic, format, s, 1, x).1;
            let y2 = macroblock::vector_at(data, p1, pic, format, s, 1, y).1;
            if x2 is Ok {
                assert(x2->Ok_0.pmv =~= y2->Ok_0.pmv);
            }
        }
    }
}

/// Where a macroblock goes both ways its forward vectors come first and its backward ones
/// behind them, each predicted from what the others left alone: together they are what each
/// direction gives by itself. A direction that is not read stands still, and keeps its
/// predictors.
pub proof fn law_directions_are_read_in_turn(
    data: Seq<u8>,
    pos: nat,
    pic: PictureView,
    format: MotionSpec,
    pmv: Seq<i32>,
)
    requires
        pmv.len() == 8,
    ensures
        ({
            let (p, forward) = macroblock::motion_at(data, pos, pic, format, true, false, pmv);
            let (q, both) = macroblock::motion_at(data, pos, pic, format, true, true, pmv);
            &&& forward is Err ==> both is Err && q == p
            &&& forward matches Ok(f) ==> {
                let (r, backward) = macroblock::motion_at(
                    data,
                    p,
                    pic,
                    format,
                    false,
                    true,
                    f.pmv,
                );
                &&& q == r
                &&& both is Ok <==> backward is Ok
                &&& forall|j: int| 0 <= j < 8 && j % 4 >= 2 ==> #[trigger] f.mv[j] == 0
                &&& forall|j: int| 0 <= j < 8 && j % 4 >= 2 ==> #[trigger] f.pmv[j] == pmv[j]
                &&& both matches Ok(m) ==> {
                    let b = backward->Ok_0;
                    &&& m.pmv == b.pmv
                    &&& forall|j: int|
                        0 <= j < 8 ==> #[trigger] m.mv[j] == if j % 4 < 2 {
                            f.mv[j]
                        } else {
                            b.mv[j]
                        }
                    &&& forall|j: int| 0 <= j < 8 && j % 4 < 2 ==> #[trigger] b.mv[j] == 0
                    &&& forall|j: int|
                        0 <= j < 8 && j % 4 < 2 ==> #[trigger] b.pmv[j] == f.pmv[j]
                    &&& forall|j: int|
                        0 <= j < 4 ==> #[trigger] m.field_select[j] == if j % 2 == 0 {
                            f.field_select[j]
                        } else {
                            b.field_select[j]
                        }
                }
            }
            &&& macroblock::motion_at(data, pos, pic, format, false, false, pmv).0 == pos
            &&& macroblock::motion_at(data, pos, pic, format, false, false, pmv).1 matches Ok(m)
                && m.pmv == pmv && forall|j: int| 0 <= j < 8 ==> #[trigger] m.mv[j] == 0
        }),
{
    reveal(macroblock::motion_at);
    let none = macroblock::still(pmv);
    lemma_vectors(data, pos, pic, format, 0, none, none);
    let (p, forward) = macroblock::vectors_at(data, pos, pic, format, 0, none);
    if forward is Ok {
        let f = forward->Ok_0;
        let fresh = macroblock::still(f.pmv);
        lemma_vectors(data, p, pic, format, 1, f, fresh);
        lemma_vectors(data, p, pic, format, 1, fresh, f);
    }
}

/// The two vectors of a direction stand one behind the other, and neither is predicted from
/// the other: the second is what it is by itself.
pub proof fn law_two_vectors_follow_one_another(
    data: Seq<u8>,
    pos: nat,
    pic: PictureView,
    format: MotionSpec,
    s: int,
    motion: MotionView,
)
    requires
        0 <= s < 2,
        is_whole(motion),
        format.count == 2,
        motion.mv_count == 2,
    ensures
        ({
            let (p, first) = macroblock::vector_at(data, pos, pic, format, s, 0, motion);
            let (q, second) = macroblock::vector_at(data, p, pic, format, s, 1, motion);
            let (r, all) = macroblock::vectors_at(data, pos, pic, format, s, motion);
            first is Ok ==> {
                &&& r == q
                &&& all is Ok <==> second is Ok
                &&& all matches Ok(m) ==> {
                    let a = first->Ok_0;
                    let b = second->Ok_0;
                    &&& m.mv[2 * s] == a.mv[2 * s]
                    &&& m.mv[2 * s + 1] == a.mv[2 * s + 1]
                    &&& m.mv[4 + 2 * s] == b.mv[4 + 2 * s]
                    &&& m.mv[4 + 2 * s + 1] == b.mv[4 + 2 * s + 1]
                    &&& m.field_select[s] == a.field_select[s]
                    &&& m.field_select[2 + s] == b.field_select[2 + s]
                }
            }
        }),
{
    reveal(macroblock::vectors_at);
    assert(MotionView { mv_count: format.count, ..motion } == motion);
    lemma_vector(data, pos, pic, format, s, 0, motion, motion);
    let (p, first) = macroblock::vector_at(data, pos, pic, format, s, 0, motion);
    if first is Ok {
        lemma_vector(data, p, pic, format, s, 1, first->Ok_0, motion);
    }
}

/// What bit of the pattern stands for block `k`.
pub open spec fn pattern_weight(k: int) -> int {
    if k == 0 {
        32
    } else if k == 1 {
        16
    } else if k == 2 {
        8
    } else if k == 3 {
        4
    } else if k == 4 {
        2
    } else {
        1
    }
}

proof fn lemma_blocks(
    data: Seq<u8>,
    pos: nat,
    pic: PictureView,
    dc_pred: Seq<i32>,
    intra: bool,
    cbp: i32,
    i: int,
    blocks: Seq<Option<Seq<i16>>>,
    k: int,
)
    requires
        0 <= i <= 6,
        0 <= k < 6,
        blocks.len() == 6,
        k >= i ==> blocks[k] is None,
        macroblock::blocks_at(data, pos, pic, dc_pred, intra, cbp, i, blocks).3 is Ok,
    ensures
        ({
            let out = macroblock::blocks_at(data, pos, pic, dc_pred, intra, cbp, i, blocks).2;
            &&& out.len() == 6
            &&& k < i ==> out[k] == blocks[k]
            &&& k >= i ==> (out[k] is Some <==> intra || (cbp as int / pattern_weight(k)) % 2 == 1)
        }),
    decreases 6 - i,
{
    if i < 6 {
        assert(bits::place(5 - i) == pattern_weight(i));
        if macroblock::block_coded(intra, cbp, i) {
            let (p1, levels) = block::block_at(data, pos, pic, dc_pred, i, intra);
            let (dc, levels) = levels->Ok_0;
            lemma_blocks(
                data,
                p1,
                pic,
                dc,
                intra,
                cbp,
                i + 1,
                blocks.update(i, Some(levels)),
                k,
            );
        } else {
            lemma_blocks(data, pos, pic, dc_pred, intra, cbp, i + 1, blocks, k);
        }
    }
}

/// An intra macroblock has all six blocks, any other those that its pattern names: the four
/// of the luma in its four higher bits, from the highest on, and the two of the chroma in the
/// two lowest.
pub proof fn law_blocks_follow_the_pattern(
    data: Seq<u8>,
    pos: nat,
    pic: PictureView,
    dc_pred: Seq<i32>,
    intra: bool,
    cbp: i32,
    k: int,
)
    requires
        0 <= k < 6,
        macroblock::blocks_at(
            data,
            pos,
            pic,
            dc_pred,
            intra,
            cbp,
            0,
            Seq::new(6, |j: int| None),
        ).3 is Ok,
    ensures
        ({
            let out = macroblock::blocks_at(
                data,
                pos,
                pic,
                dc_pred,
                intra,
                cbp,
                0,
                Seq::new(6, |j: int| None),
            ).2;
            &&& out.len() == 6
            &&& out[k] is Some <==> intra || (cbp as int / pattern_weight(k)) % 2 == 1
        }),
{
    lemma_blocks(data, pos, pic, dc_pred, intra, cbp, 0, Seq::new(6, |j: int| None), k);
}

/// What a start code says of what follows it. A sequence header starts a description anew,
/// one of MPEG-1 until an extension says otherwise. A picture is described by what is in
/// effect, and opens a group where a group header came since the picture before. A slice
/// belongs to the latest picture. No other code makes a picture or a slice.
pub proof fn law_codes_say_what_follows(
    data: Seq<u8>,
    code: StartCode,
    ends_at: int,
    before: ParseState,
)
    requires
        8 * code.offset <= usize::MAX,
    ensures
        ({
            let step = headers::parse_step(data, code, ends_at, before);
            let n = before.pictures.len();
            let slice = 0x01 <= code.code <= 0xaf;
            step matches Ok(next) ==> {
                &&& code.code == 0xb3 ==> next.sequence is Some && next.extension is None
                    && next.context_start == code.offset && next.pictures.len() == n
                &&& code.code == 0xb8 ==> next.saw_gop_header && next.pictures.len() == n
                    && next.sequence == before.sequence && next.extension == before.extension
                &&& code.code == 0x00 && before.sequence is None ==> next.pictures.len() == n
                &&& code.code == 0x00 && before.sequence is Some ==> {
                    let picture = next.pictures.last();
                    &&& next.pictures.len() == n + 1
                    &&& picture.is_mpeg1 == (before.extension is None)
                    &&& picture.starts_gop == before.saw_gop_header
                    &&& !next.saw_gop_header
                    &&& picture.sequence == before.sequence->Some_0
                    &&& before.extension matches Some(e) ==> picture.sequence_ext == e
                    &&& picture.quant == before.quant
                    &&& picture.slices.len() == 0
                    &&& next.extension == before.extension
                }
                &&& slice && n > 0 ==> next.pictures.len() == n
                    && next.pictures.last().slices.len() == before.pictures.last().slices.len() + 1
                &&& code.code != 0x00 ==> next.pictures.len() == n
                &&& !slice && code.code != 0x00 && n > 0 ==> next.pictures.last().slices.len()
                    == before.pictures.last().slices.len()
                &&& code.code != 0x00 && code.code != 0xb8 ==> next.saw_gop_header
                    == before.saw_gop_header
                &&& code.code != 0xb3 && code.code != 0xb5 ==> next.sequence == before.sequence
                    && next.extension == before.extension
            }
        }),
{
    reveal(headers::slice_ended);
    reveal(headers::extension_step);
    reveal(headers::picture_step);
}

/// A slice ends where the next start code stands, whatever that introduces.
pub proof fn law_slices_end_at_the_next_code(
    data: Seq<u8>,
    code: StartCode,
    ends_at: int,
    before: ParseState,
)
    requires
        8 * code.offset <= usize::MAX,
        before.pictures.len() > 0,
        before.pictures.last().slices.len() > 0,
        before.pictures.last().slices.last().data_end_bit is None,
    ensures
        ({
            let last = before.pictures.last().slices.len() - 1;
            headers::parse_step(data, code, ends_at, before) matches Ok(next)
                ==> next.pictures[before.pictures.len() - 1].slices[last].data_end_bit == Some(
                (8 * code.offset) as usize,
            )
        }),
{
    reveal(headers::slice_ended);
    reveal(headers::extension_step);
    reveal(headers::picture_step);
}

/// An extension says what it extends: the sequence, whose pictures are then MPEG-2, the
/// matrices of the latest picture and of those behind it, or the coding of the latest picture
/// alone.
pub proof fn law_extensions_extend_what_they_name(
    data: Seq<u8>,
    pos: nat,
    ends_at: int,
    before: ParseState,
)
    requires
        before.pictures.len() > 0,
    ensures
        ({
            let id = bits::bits(data, pos as int, 4);
            let was = before.pictures.last();
            headers::extension_step(data, pos, ends_at, before) matches Ok(next) ==> {
                let is = next.pictures.last();
                &&& next.pictures.len() == before.pictures.len()
                &&& id == 1 && before.sequence is Some ==> next.extension is Some
                    && next.pictures == before.pictures
                &&& id == 3 ==> is.quant == next.quant && is.coding == was.coding
                    && next.extension == before.extension
                &&& id == 8 ==> is.quant == was.quant && is.slices == was.slices && next.quant
                    == before.quant && next.extension == before.extension
                &&& id != 1 && id != 3 && id != 8 ==> next == before
                &&& is.header == was.header && is.slices == was.slices && is.starts_gop
                    == was.starts_gop && is.is_mpeg1 == was.is_mpeg1
                &&& forall|j: int|
                    0 <= j < before.pictures.len() - 1 ==> #[trigger] next.pictures[j]
                        == before.pictures[j]
            }
        }),
{
    reveal(headers::extension_step);
}

/// The four matrices of an extension come in turn: intra, non-intra, and the two of the
/// chroma. One that is not loaded stays, but for those of the chroma, which follow the luma's
/// where those are loaded and they are not.
pub proof fn law_chroma_matrices_follow(data: Seq<u8>, pos: nat, before: QuantView)
    ensures
        ({
            let after = syntax::quant_extension_at(data, pos, before);
            let (p, a) = syntax::loaded_matrix_at(data, pos);
            let (q, b) = syntax::loaded_matrix_at(data, p);
            let (r, c) = syntax::loaded_matrix_at(data, q);
            let d = syntax::loaded_matrix_at(data, r).1;
            &&& a matches Some(m) ==> after.intra == m
            &&& a is None ==> after.intra == before.intra
            &&& b matches Some(m) ==> after.non_intra == m
            &&& b is None ==> after.non_intra == before.non_intra
            &&& c matches Some(m) ==> after.chroma_intra == m
            &&& c is None && a is Some ==> after.chroma_intra == after.intra
            &&& c is None && a is None ==> after.chroma_intra == before.chroma_intra
            &&& d matches Some(m) ==> after.chroma_non_intra == m
            &&& d is None && b is Some ==> after.chroma_non_intra == after.non_intra
            &&& d is None && b is None ==> after.chroma_non_intra == before.chroma_non_intra
        }),
{
    reveal(syntax::quant_extension_at);
}

/// A matrix is loaded where the bit in front of it is set: 64 values behind that bit.
pub proof fn law_a_bit_announces_a_matrix(data: Seq<u8>, pos: nat)
    requires
        pos + 513 <= 8 * data.len(),
    ensures
        bits::bits(data, pos as int, 1) == 0 ==> syntax::loaded_matrix_at(data, pos) == (
            (pos + 1) as nat,
            None::<Seq<i32>>,
        ),
        bits::bits(data, pos as int, 1) == 1 ==> syntax::loaded_matrix_at(data, pos).1 == Some(
            syntax::matrix_at(data, (pos + 1) as nat, 64).1,
        ),
{
}

/// The header of a macroblock is its type, its modes, its vectors, a marker where the vectors
/// only conceal, and its pattern where the type announces one. The type says which vectors are
/// there. A single vector of a direction is kept as both of its predictors.
pub proof fn law_headers_are_read_in_turn(
    data: Seq<u8>,
    pos: nat,
    pic: PictureView,
    state: SliceStateView,
)
    ensures
        ({
            let table = match pic.header.picture_coding_type {
                PictureType::I => VlcTable::TypeI,
                PictureType::P => VlcTable::TypeP,
                _ => VlcTable::TypeB,
            };
            let (p, kind) = table.decoded(data, pos);
            let (end, header) = macroblock::macroblock_header_at(data, pos, pic, state);
            header matches Ok(h) ==> {
                let flags = h.flags;
                let intra = flags & 1 != 0;
                let conceals = intra && pic.coding.concealment_motion_vectors;
                let forward = flags & 8 != 0 || conceals;
                let backward = flags & 4 != 0;
                let (q, motion, dct, scale) = macroblock::modes_at(
                    data,
                    p,
                    pic,
                    flags,
                    state.quantiser_scale_code,
                );
                let format = block::motion_format(pic.coding.picture_structure, motion);
                let (r, moved) = macroblock::motion_at(
                    data,
                    q,
                    pic,
                    format,
                    forward,
                    backward,
                    macroblock::starting_predictors(pic, flags, state.pmv),
                );
                let behind = if conceals {
                    bits::advance(data, r, 1)
                } else {
                    r
                };
                &&& kind matches Ok(k) && k == flags
                &&& h.motion_type == motion && h.dct_type == dct && h.quantiser_scale_code == scale
                &&& moved matches Ok(m) && h.motion.mv == m.mv && h.motion.field_select
                    == m.field_select && h.motion.dmvector == m.dmvector
                &&& flags & 2 == 0 ==> h.cbp == 0 && end == behind
                &&& flags & 2 != 0 ==> VlcTable::CodedBlockPattern.decoded(data, behind) == (
                    end,
                    Ok::<i32, Error>(h.cbp),
                )
                &&& format.count == 1 && forward ==> h.motion.pmv[4] == h.motion.pmv[0]
                    && h.motion.pmv[5] == h.motion.pmv[1]
                &&& format.count == 1 && backward ==> h.motion.pmv[6] == h.motion.pmv[2]
                    && h.motion.pmv[7] == h.motion.pmv[3]
            }
        }),
{
    reveal(macroblock::macroblock_header_at);
}

} // verus!
