//! What the pictures of a conversion are headed by, counted as and stored as.
use crate::h264::bitwriter;
use crate::h264::reconstruct;
use crate::h264::reconstruct::ChromaBlockLevels;
use crate::h264::slice::RefPicListEntry;
use crate::job::ContextView;
use crate::mpeg2::constants::QUANTISER_SCALE;
use crate::mpeg2::headers::PictureView;
use crate::mpeg2::macroblock::MacroblockView;
use crate::transcode::intra;
use crate::transcode::options::Stats;
use crate::transcode::picture;
use crate::transcode::picture::{PictureShape, Place};
use crate::transcode::residual;
use crate::transcode::syntax;
use vstd::arithmetic::div_mod;
use vstd::prelude::*;

verus! {

/// A slice is headed by the numbers of its picture. The second field of a pair comes one
/// order count later. Only what opens a random access point is an I slice, and only its first
/// field; only the IDR itself is marked as one. A field says which it is.
pub proof fn law_slices_are_headed_by_their_picture(
    c: ContextView,
    shape: PictureShape,
    second: bool,
)
    requires
        c.poc < u32::MAX,
    ensures
        ({
            let h = picture::slice_config(c, shape, second);
            let opens = c.real_idr || c.recovery_intra;
            let bottom = (shape.structure is BottomField) != second;
            &&& h.first_mb_in_slice == 0
            &&& h.slice_type is I <==> opens && !second
            &&& !(h.slice_type is I) ==> h.slice_type is B
            &&& h.frame_num == c.frame_num
            &&& h.log2_max_frame_num == 8 && h.log2_max_poc_lsb == 16
            &&& h.pic_order_cnt_lsb == c.poc + if second {
                1int
            } else {
                0
            }
            &&& h.idr <==> c.real_idr && !second
            &&& h.long_term_current is Some <==> c.real_idr && !second && !shape.pair
            &&& h.long_term_previous is None
            &&& h.reference == c.is_reference
            &&& h.mbaff == c.mbaff
            &&& h.field_picture is Some <==> shape.pair
            &&& h.field_picture matches Some(is_bottom) ==> is_bottom == bottom
            &&& h.slice_qp == 26 && h.pps_init_qp == 26
            &&& h.disable_deblocking_filter_idc == 1
            &&& h.num_ref_idx_l0_active == h.num_ref_idx_l1_active
        }),
{
}

/// How many pictures a slice can be predicted from. A frame has every short-term frame and the
/// long-term one; a field of a pair has both fields of each. The second field of a reference
/// has the first one beside those, in place of the two of the oldest frame where there is no
/// room for another. The second field of what opens a random access point has the first one
/// alone.
pub proof fn law_lists_are_as_long_as_the_buffer(
    c: ContextView,
    shape: PictureShape,
    second: bool,
)
    requires
        picture::codable(c),
    ensures
        ({
            let h = picture::slice_config(c, shape, second);
            let n = c.short_term.len() as int;
            let opens = c.real_idr || c.recovery_intra;
            &&& h.num_ref_idx_l0_active is Some
            &&& opens && second ==> h.num_ref_idx_l0_active->Some_0 == 1
            &&& !(opens && second) && !shape.pair ==> h.num_ref_idx_l0_active->Some_0 == n + 1
            &&& !(opens && second) && shape.pair && !(second && c.is_reference)
                ==> h.num_ref_idx_l0_active->Some_0 == 2 * n + 2
            &&& !(opens && second) && shape.pair && second && c.is_reference
                ==> h.num_ref_idx_l0_active->Some_0 == if n == 3 {
                2 * n + 1
            } else {
                2 * n + 3
            }
        }),
{
}

/// A unit is of type 5 where it is the IDR, of type 1 where it is not, and can be done without
/// exactly where nothing is predicted from it.
pub proof fn law_units_say_what_they_are(c: ContextView, second: bool)
    ensures
        picture::slice_kind(c, second) == if c.real_idr && !second {
            5int
        } else {
            1
        },
        picture::reference_idc(c, second) > 0 <==> c.is_reference || ((c.real_idr
            || c.recovery_intra) && !second),
        0 <= picture::reference_idc(c, second) < 4,
{
}

/// The frame that an entry of a list names: so many frames back from this one, in numbers that
/// start over at 256.
pub open spec fn named(frame_num: u32, entry: RefPicListEntry) -> int {
    (frame_num - entry.frames_back) % 256
}

/// The lists of a frame go back in time: entry `i` of list 1, and of list 0 where nothing is
/// predicted from the future, is the `i`th latest frame. Where the latest is the future, it
/// stands last in list 0.
pub proof fn law_frames_stand_from_the_latest_on(
    short_term: Seq<u32>,
    frame_num: u32,
    backward: bool,
    i: int,
)
    requires
        frame_num < 256,
        forall|k: int| 0 <= k < short_term.len() ==> #[trigger] short_term[k] < 256,
        0 <= i < short_term.len(),
    ensures
        ({
            let (l0, l1) = syntax::short_term_lists(short_term, frame_num, backward, false);
            let n = short_term.len() as int;
            &&& l0.len() == n && l1.len() == n
            &&& named(frame_num, l1[i]) == short_term[n - 1 - i]
            &&& !backward ==> named(frame_num, l0[i]) == short_term[n - 1 - i]
            &&& backward ==> named(frame_num, l0[i]) == if i == n - 1 {
                short_term[n - 1]
            } else {
                short_term[n - 2 - i]
            }
        }),
{
    let backs = syntax::frames_back(short_term, frame_num);
    let turned = backs.skip(1).push(backs[0]);
    lemma_frame_entries(backs);
    lemma_frame_entries(turned);
    let n = short_term.len() as int;
    lemma_back_and_forth(frame_num, short_term[n - 1 - i]);
    lemma_back_and_forth(frame_num, short_term[n - 1]);
    if i < n - 1 {
        lemma_back_and_forth(frame_num, short_term[n - 2 - i]);
        assert(turned[i] == backs[i + 1]);
    } else {
        assert(turned[i] == backs[0]);
    }
}

/// So many frames back, and forward again.
proof fn lemma_back_and_forth(frame_num: u32, other: u32)
    requires
        frame_num < 256,
        other < 256,
    ensures
        (frame_num - ((frame_num + 256 - other) % 256)) % 256 == other,
        0 <= (frame_num + 256 - other) % 256 < 256,
{
}

/// A list of frames has one entry for each.
proof fn lemma_frame_entries(backs: Seq<u32>)
    ensures
        syntax::frame_entries(backs, false).len() == backs.len(),
        forall|i: int|
            0 <= i < backs.len() ==> (#[trigger] syntax::frame_entries(backs, false)[i]).frames_back
                == backs[i],
    decreases backs.len(),
{
    if backs.len() > 0 {
        lemma_frame_entries(backs.drop_last());
    }
}

/// The lists of a field hold both fields of every frame, of each first the one that has its own
/// parity; list 1 has the first two exchanged where it would be the same as list 0.
pub proof fn law_fields_stand_by_parity(
    short_term: Seq<u32>,
    frame_num: u32,
    backward: bool,
    i: int,
)
    requires
        0 <= i < short_term.len(),
    ensures
        ({
            let (l0, l1) = syntax::short_term_lists(short_term, frame_num, backward, true);
            let n = short_term.len() as int;
            &&& l0.len() == 2 * n && l1.len() == 2 * n
            &&& l0[2 * i].same_parity && !l0[2 * i + 1].same_parity
            &&& l0[2 * i].frames_back == l0[2 * i + 1].frames_back
            &&& l1[2 * i].frames_back == l1[2 * i + 1].frames_back
            &&& l1[2 * i].same_parity <==> backward || i > 0
            &&& l1[2 * i + 1].same_parity <==> !backward && i == 0
        }),
{
    let backs = syntax::frames_back(short_term, frame_num);
    let turned = backs.skip(1).push(backs[0]);
    lemma_field_entries(backs, i);
    lemma_field_entries(turned, i);
    lemma_field_entries(backs, 0);
}

/// A list of fields has two entries for each frame.
proof fn lemma_field_entries(backs: Seq<u32>, i: int)
    requires
        0 <= i < backs.len(),
    ensures
        ({
            let list = syntax::frame_entries(backs, true);
            &&& list.len() == 2 * backs.len()
            &&& list[2 * i].frames_back == backs[i] && list[2 * i].same_parity
            &&& list[2 * i + 1].frames_back == backs[i] && !list[2 * i + 1].same_parity
        }),
    decreases backs.len(),
{
    let before = syntax::frame_entries(backs.drop_last(), true);
    lemma_field_entries_length(backs.drop_last());
    if i < backs.len() - 1 {
        lemma_field_entries(backs.drop_last(), i);
    }
}

/// How long a list of fields is.
proof fn lemma_field_entries_length(backs: Seq<u32>)
    ensures
        syntax::frame_entries(backs, true).len() == 2 * backs.len(),
    decreases backs.len(),
{
    if backs.len() > 0 {
        lemma_field_entries_length(backs.drop_last());
    }
}

/// What the levels of a macroblock are scaled by: nothing where it is skipped or has no blocks,
/// and else the scale that its code names, as MPEG-1 or MPEG-2 has it. Blocks of alternate
/// lines are brought back to the lines of the frame, but for fields of a pair.
pub proof fn law_levels_carry_their_scale(
    pic: PictureView,
    pair: bool,
    source: Option<MacroblockView>,
)
    ensures
        ({
            let scale = residual::level_scale(pic, pair, source);
            &&& scale is Some <==> source is Some && !source->Some_0.skipped
                && source->Some_0.flags & 3 != 0
            &&& scale matches Some(s) ==> {
                let mb = source->Some_0;
                &&& s.quantiser_scale
                    == QUANTISER_SCALE[pic.coding.q_scale_type as int][mb.quantiser_scale_code as int]
                &&& s.intra <==> mb.flags & 1 != 0
                &&& s.mpeg1 == pic.is_mpeg1
                &&& s.intra_dc_precision == pic.coding.intra_dc_precision
                &&& s.field_lines <==> mb.dct_type == 1 && !pair
            }
        }),
{
    if let Some(mb) = source {
        let flags = mb.flags;
        assert(flags & 3 != 0 <==> (flags & 2 != 0 || flags & 1 != 0)) by (bit_vector);
    }
}

/// Of two steps the finer counts, of one that one, and without any the one before goes on.
pub proof fn law_the_finer_step_counts(upper: Option<i32>, lower: Option<i32>, previous: i32)
    ensures
        ({
            let step = residual::finer(upper, lower, previous);
            &&& upper matches Some(a) ==> step <= a
            &&& lower matches Some(b) ==> step <= b
            &&& upper is Some || lower is Some ==> Some(step) == upper || Some(step) == lower
            &&& upper is None && lower is None ==> step == previous
            &&& step == residual::finer(lower, upper, previous)
        }),
{
}

/// A sample is what is nearest to it from 0 to 255.
pub proof fn law_samples_are_clipped(value: int)
    ensures
        0 <= value <= 255 ==> intra::clipped(value) == value,
        value < 0 ==> intra::clipped(value) == 0,
        value > 255 ==> intra::clipped(value) == 255,
{
}

/// A block is stored where it belongs: each of its samples is the prediction and what is added
/// to it, clipped, and every other sample of the plane stays.
pub proof fn law_blocks_are_stored_in_place(
    plane: Seq<u8>,
    width: int,
    x0: int,
    y0: int,
    size: int,
    prediction: int,
    residual: Option<Seq<i32>>,
    x: int,
    y: int,
)
    requires
        0 <= x < width,
        0 <= y,
        y * width + x < plane.len(),
    ensures
        ({
            let after = intra::block_stored(plane, width, x0, y0, size, prediction, residual);
            let inside = x0 <= x < x0 + size && y0 <= y < y0 + size;
            let added = match residual {
                Some(r) => r[size * (y - y0) + (x - x0)] as int,
                None => 0,
            };
            &&& after.len() == plane.len()
            &&& inside ==> after[y * width + x] == intra::clipped(prediction + added)
            &&& !inside ==> after[y * width + x] == plane[y * width + x]
        }),
{
    div_mod::lemma_fundamental_div_mod_converse(y * width + x, width, y, x);
    assert(y * width >= 0) by (nonlinear_arith)
        requires
            y >= 0,
            width > 0,
    ;
    assert(size * (y - y0) == (y - y0) * size) by (nonlinear_arith);
}

/// Levels go back to where the scan took them from, and what the scan did not come to is zero.
pub proof fn law_levels_go_back_along_the_scan(
    levels: Seq<i32>,
    scan: Seq<usize>,
    len: nat,
    n: nat,
    k: int,
)
    requires
        intra::is_scan(scan, len as int),
        n <= len,
        n <= levels.len(),
        0 <= k < len,
    ensures
        ({
            let block = intra::unscanned(levels, scan, len, n);
            &&& block.len() == len
            &&& k < n ==> block[scan[k] as int] == levels[k]
            &&& k >= n ==> block[scan[k] as int] == 0
        }),
    decreases n,
{
    if n > 0 {
        law_levels_go_back_along_the_scan(levels, scan, len, (n - 1) as nat, k);
        if k != n - 1 {
            assert(scan[k] != scan[n - 1]);
        }
    }
}

/// The coefficients of a chroma block are there only where the pattern says so, behind the
/// first, which comes another way.
pub proof fn law_chroma_coefficients_follow_the_first(
    levels: Seq<i32>,
    scan: Seq<usize>,
    pattern: u32,
    k: int,
)
    requires
        intra::is_scan(scan, 16),
        levels.len() == 15,
        0 <= k < 16,
    ensures
        ({
            let block = intra::unscanned_chroma(levels, scan, pattern);
            &&& pattern != 2 ==> block[k] == 0
            &&& pattern == 2 && k > 0 ==> block[scan[k] as int] == levels[k - 1]
            &&& pattern == 2 ==> block[scan[0] as int] == 0
        }),
{
    let all = seq![0i32] + levels;
    law_levels_go_back_along_the_scan(all, scan, 16, 16, k);
    law_levels_go_back_along_the_scan(all, scan, 16, 16, 0);
    if k > 0 {
        assert(all[k] == levels[k - 1]);
    }
}

/// Counts that are added keep their kinds apart.
pub proof fn law_counts_add_up(a: Stats, b: Stats)
    requires
        a.addable(b),
    ensures
        ({
            let sum = a.plus(b);
            &&& sum.integer_vectors == a.integer_vectors + b.integer_vectors
            &&& sum.single_axis_half_vectors == a.single_axis_half_vectors
                + b.single_axis_half_vectors
            &&& sum.both_axis_half_vectors == a.both_axis_half_vectors + b.both_axis_half_vectors
            &&& sum.bidirectional_vectors == a.bidirectional_vectors + b.bidirectional_vectors
            &&& sum.intra_macroblocks == a.intra_macroblocks + b.intra_macroblocks
            &&& sum.inter_macroblocks == a.inter_macroblocks + b.inter_macroblocks
            &&& sum.dropped == a.dropped + b.dropped
            &&& sum.errors == a.errors + b.errors
        }),
{
}

/// A macroblock of a slice that can skip is introduced by a run of none, which is one bit; and
/// the first of each pair, where frames adapt, by a bit that says whether the pair is in
/// fields.
pub proof fn law_macroblocks_are_introduced(
    c: ContextView,
    shape: PictureShape,
    place: Place,
    coded: Seq<bool>,
)
    ensures
        ({
            let b = picture::macroblock_bits(c, shape, place, coded);
            let intra = (c.real_idr || c.recovery_intra) && !place.second;
            let pairs = shape.mbaff && !shape.pair && place.mb_y % 2 == 0;
            let run = if intra {
                0int
            } else {
                1
            };
            let flag = if pairs {
                1int
            } else {
                0
            };
            &&& b.len() == run + flag + coded.len()
            &&& !intra ==> b[0]
            &&& pairs ==> (b[run] <==> !intra && !shape.source_intra)
            &&& b.skip(run + flag) == coded
        }),
{
    reveal(picture::macroblock_bits);
    reveal_with_fuel(bitwriter::digit_count, 3);
    let one = bitwriter::ue_code(0);
    assert(one.len() == 1 && one[0]) by {
        assert(bitwriter::digit_count(1) == 1);
        vstd::arithmetic::power2::lemma2_to64();
    }
    let b = picture::macroblock_bits(c, shape, place, coded);
    let intra = (c.real_idr || c.recovery_intra) && !place.second;
    let pairs = shape.mbaff && !shape.pair && place.mb_y % 2 == 0;
    let run = if intra {
        0int
    } else {
        1
    };
    let flag = if pairs {
        1int
    } else {
        0
    };
    assert(b.skip(run + flag) =~= coded);
}

/// The first coefficients of the chroma count wherever any of the chroma is coded, with the
/// others or without them, and nowhere else.
pub proof fn law_first_terms_go_with_the_chroma(levels: ChromaBlockLevels, qp: int, blk: int)
    ensures
        intra::first_term(levels, qp, 0, blk) == 0,
        intra::first_term(levels, qp, 1, blk) == reconstruct::chroma_first(levels.dc@, qp, blk),
        intra::first_term(levels, qp, 2, blk) == intra::first_term(levels, qp, 1, blk),
{
}

} // verus!
