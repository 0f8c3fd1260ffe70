//! What a decoder reads from a slice header.
use crate::h264::bitwriter;
use crate::h264::reading;
use crate::h264::slice;
use crate::h264::slice::{RefPicListEntry, SliceHeaderConfig, SliceType};
use vstd::arithmetic::power2;
use vstd::prelude::*;

verus! {

/// What a decoder knows before it reads a slice header: from the parameter sets, and from
/// the header of the NAL unit.
pub struct Known {
    pub log2_max_frame_num: nat,
    pub log2_max_poc_lsb: nat,
    /// Whether fields can be coded.
    pub fields: bool,
    pub idr: bool,
    pub reference: bool,
}

/// Which slice it is, and of which picture.
pub struct Front {
    pub first_mb: int,
    pub slice_type: int,
    pub parameter_set: int,
    pub frame_num: nat,
    /// For a coded field, whether it is the bottom one.
    pub field: Option<bool>,
    pub idr_pic_id: Option<int>,
    pub pic_order_cnt_lsb: nat,
}

/// The weight and the offset of a component.
pub struct Weighting {
    pub weight: int,
    pub offset: int,
}

/// The weights of a reference index, where it has any.
pub struct IndexWeights {
    pub luma: Option<Weighting>,
    pub chroma: Option<(Weighting, Weighting)>,
}

/// How long the reference lists are.
pub struct Lengths {
    pub l0: int,
    pub l1: int,
}

/// What becomes of the pictures that are held for reference.
pub enum Marking {
    /// The picture is held for none.
    Nothing,
    /// An IDR picture that takes a long-term slot, or does not.
    Idr { long_term: bool },
    /// The sliding window.
    Window,
    /// The picture that lies so many numbers back takes a long-term slot.
    LongTerm { slots: int, back: int, slot: int },
    /// Something else.
    Other,
}

/// What a slice header says.
pub struct HeaderRead {
    pub front: Front,
    pub lengths: Lengths,
    /// How far back the entries lie that each list begins with, in picture numbers.
    pub lists: (Seq<int>, Seq<int>),
    pub weights: (Seq<IndexWeights>, Seq<IndexWeights>),
    pub marking: Marking,
    pub qp_delta: int,
    pub deblocking: int,
}

/// An unsigned Exp-Golomb code, and what stands behind it.
#[verifier::opaque]
pub open spec fn take_ue(bits: Seq<bool>) -> (int, Seq<bool>) {
    let (value, used) = reading::read_ue(bits);
    (value, bits.skip(used))
}

/// A signed Exp-Golomb code, and what stands behind it.
#[verifier::opaque]
pub open spec fn take_se(bits: Seq<bool>) -> (int, Seq<bool>) {
    let (value, used) = reading::read_se(bits);
    (value, bits.skip(used))
}

/// A bit, and what stands behind it.
#[verifier::opaque]
pub open spec fn take_bit(bits: Seq<bool>) -> (bool, Seq<bool>) {
    (bits[0], bits.skip(1))
}

/// A number of `n` digits, and what stands behind it.
#[verifier::opaque]
pub open spec fn take_digits(bits: Seq<bool>, n: nat) -> (nat, Seq<bool>) {
    (reading::value_of(bits.take(n as int)), bits.skip(n as int))
}

/// A code is taken as it was written.
pub proof fn lemma_take_ue(v: nat, rest: Seq<bool>)
    ensures
        take_ue(bitwriter::ue_code(v) + rest) == (v as int, rest),
{
    reveal(take_ue);
    reading::law_unsigned_codes_read_back(v, rest);
    let code = bitwriter::ue_code(v);
    assert((code + rest).skip(code.len() as int) =~= rest);
}

/// A code is taken as it was written.
pub proof fn lemma_take_se(v: int, rest: Seq<bool>)
    ensures
        take_se(bitwriter::se_code(v) + rest) == (v, rest),
{
    reveal(take_se);
    reading::law_signed_codes_read_back(v, rest);
    let code = bitwriter::se_code(v);
    assert((code + rest).skip(code.len() as int) =~= rest);
}

/// A bit is taken as it was written.
pub proof fn lemma_take_bit(b: bool, rest: Seq<bool>)
    ensures
        take_bit(bitwriter::bit(b) + rest) == (b, rest),
{
    reveal(take_bit);
    assert((bitwriter::bit(b) + rest).skip(1) =~= rest);
}

/// A number is taken as it was written.
pub proof fn lemma_take_digits(v: nat, n: nat, rest: Seq<bool>)
    ensures
        take_digits(bitwriter::digits(v, n) + rest, n) == (v % power2::pow2(n), rest),
{
    reveal(take_digits);
    reading::law_digits_read_back(v, n);
    let code = bitwriter::digits(v, n);
    assert((code + rest).take(n as int) =~= code);
    assert((code + rest).skip(n as int) =~= rest);
}

/// Pieces that are put together from the left are put together from the right.
proof fn lemma_glued(
    a: Seq<bool>,
    b: Seq<bool>,
    c: Seq<bool>,
    d: Seq<bool>,
    e: Seq<bool>,
    f: Seq<bool>,
    g: Seq<bool>,
    rest: Seq<bool>,
)
    ensures
        a + b + c + d + e + f + g + rest == a + (b + (c + (d + (e + (f + (g + rest)))))),
{
    assert(a + b + c + d + rest =~= a + (b + (c + (d + rest))));
    let behind = e + f + g + rest;
    assert(behind =~= e + (f + (g + rest)));
    let front = a + b + c + d;
    assert(front + e + f + g + rest =~= front + behind);
    assert(front + behind =~= a + (b + (c + (d + behind))));
}

/// Whether a field is coded, and which.
pub open spec fn take_field(bits: Seq<bool>, known: Known) -> (Option<bool>, Seq<bool>) {
    if known.fields {
        let (coded, bits) = take_bit(bits);
        if coded {
            let (bottom, bits) = take_bit(bits);
            (Some(bottom), bits)
        } else {
            (None, bits)
        }
    } else {
        (None, bits)
    }
}

/// The number of an IDR picture, where it is one.
pub open spec fn take_idr(bits: Seq<bool>, known: Known) -> (Option<int>, Seq<bool>) {
    if known.idr {
        let (id, bits) = take_ue(bits);
        (Some(id), bits)
    } else {
        (None, bits)
    }
}

/// Which slice it is, and of which picture (clause 7.3.3).
pub open spec fn take_front(bits: Seq<bool>, known: Known) -> (Front, Seq<bool>) {
    let (first_mb, bits) = take_ue(bits);
    let (slice_type, bits) = take_ue(bits);
    let (parameter_set, bits) = take_ue(bits);
    let (frame_num, bits) = take_digits(bits, known.log2_max_frame_num);
    let (field, bits) = take_field(bits, known);
    let (idr_pic_id, bits) = take_idr(bits, known);
    let (pic_order_cnt_lsb, bits) = take_digits(bits, known.log2_max_poc_lsb);
    (
        Front {
            first_mb,
            slice_type,
            parameter_set,
            frame_num,
            field,
            idr_pic_id,
            pic_order_cnt_lsb,
        },
        bits,
    )
}

/// What a decoder knows of a slice.
pub open spec fn known_of(cfg: SliceHeaderConfig) -> Known {
    Known {
        log2_max_frame_num: cfg.log2_max_frame_num as nat,
        log2_max_poc_lsb: cfg.log2_max_poc_lsb as nat,
        fields: cfg.mbaff,
        idr: cfg.idr,
        reference: cfg.reference,
    }
}

/// Only a stream that can code fields codes one.
pub open spec fn field_allowed(cfg: SliceHeaderConfig) -> bool {
    cfg.field_picture is Some ==> cfg.mbaff
}

/// Which slice was written, and of which picture: as much of its numbers as is written.
pub open spec fn front_of(cfg: SliceHeaderConfig) -> Front {
    Front {
        first_mb: cfg.first_mb_in_slice as int,
        slice_type: cfg.slice_type.number() as int,
        parameter_set: 0,
        frame_num: cfg.frame_num as nat % power2::pow2(cfg.log2_max_frame_num as nat),
        field: cfg.field_picture,
        idr_pic_id: if cfg.idr {
            Some(0int)
        } else {
            None
        },
        pic_order_cnt_lsb: cfg.pic_order_cnt_lsb as nat % power2::pow2(
            cfg.log2_max_poc_lsb as nat,
        ),
    }
}

/// The bits that say whether a field is coded.
spec fn field_bits(cfg: SliceHeaderConfig) -> Seq<bool> {
    if cfg.mbaff {
        match cfg.field_picture {
            Some(bottom) => bitwriter::bit(true) + bitwriter::bit(bottom),
            None => bitwriter::bit(false),
        }
    } else {
        Seq::<bool>::empty()
    }
}

/// Whether a field is coded reads back.
proof fn lemma_take_field(cfg: SliceHeaderConfig, rest: Seq<bool>)
    requires
        field_allowed(cfg),
    ensures
        take_field(field_bits(cfg) + rest, known_of(cfg)) == (cfg.field_picture, rest),
{
    if cfg.mbaff {
        match cfg.field_picture {
            Some(bottom) => {
                let second = bitwriter::bit(bottom);
                assert(field_bits(cfg) + rest =~= bitwriter::bit(true) + (second + rest));
                lemma_take_bit(true, second + rest);
                lemma_take_bit(bottom, rest);
            },
            None => {
                lemma_take_bit(false, rest);
            },
        }
    } else {
        assert(field_bits(cfg) + rest =~= rest);
    }
}

/// The front of a slice header reads back.
proof fn lemma_take_front(cfg: SliceHeaderConfig, rest: Seq<bool>)
    requires
        field_allowed(cfg),
    ensures
        take_front(slice::front_bits(cfg) + rest, known_of(cfg)) == (front_of(cfg), rest),
{
    let a = bitwriter::ue_code(cfg.first_mb_in_slice as nat);
    let b = bitwriter::ue_code(cfg.slice_type.number());
    let c = bitwriter::ue_code(0);
    let d = bitwriter::digits(cfg.frame_num as nat, cfg.log2_max_frame_num as nat);
    let e = field_bits(cfg);
    let f = if cfg.idr {
        bitwriter::ue_code(0)
    } else {
        Seq::<bool>::empty()
    };
    let g = bitwriter::digits(cfg.pic_order_cnt_lsb as nat, cfg.log2_max_poc_lsb as nat);
    assert(slice::front_bits(cfg) == a + b + c + d + e + f + g);
    let r6 = g + rest;
    let r5 = f + r6;
    let r4 = e + r5;
    let r3 = d + r4;
    let r2 = c + r3;
    let r1 = b + r2;
    lemma_glued(a, b, c, d, e, f, g, rest);
    lemma_take_ue(cfg.first_mb_in_slice as nat, r1);
    lemma_take_ue(cfg.slice_type.number(), r2);
    lemma_take_ue(0, r3);
    lemma_take_digits(cfg.frame_num as nat, cfg.log2_max_frame_num as nat, r4);
    lemma_take_field(cfg, r5);
    if cfg.idr {
        lemma_take_ue(0, r6);
    } else {
        assert(r5 =~= r6);
    }
    lemma_take_digits(cfg.pic_order_cnt_lsb as nat, cfg.log2_max_poc_lsb as nat, rest);
}

/// How long the reference lists are: one entry where the slice does not say.
pub open spec fn take_lengths(bits: Seq<bool>, slice_type: int) -> (Lengths, Seq<bool>) {
    if slice_type == 2 {
        (Lengths { l0: 1, l1: 0 }, bits)
    } else if slice_type == 0 {
        let (told, bits) = take_bit(bits);
        if told {
            let (last, bits) = take_ue(bits);
            (Lengths { l0: last + 1, l1: 0 }, bits)
        } else {
            (Lengths { l0: 1, l1: 0 }, bits)
        }
    } else {
        // direct_spatial_mv_pred_flag stands in front.
        let (_, bits) = take_bit(bits);
        let (told, bits) = take_bit(bits);
        if told {
            let (last0, bits) = take_ue(bits);
            let (last1, bits) = take_ue(bits);
            (Lengths { l0: last0 + 1, l1: last1 + 1 }, bits)
        } else {
            (Lengths { l0: 1, l1: 1 }, bits)
        }
    }
}

/// How long the lists were written to be.
pub open spec fn lengths_of(cfg: SliceHeaderConfig) -> Lengths {
    if cfg.slice_type is I {
        Lengths { l0: 1, l1: 0 }
    } else {
        Lengths { l0: slice::list_lens(cfg).0 as int, l1: slice::list_lens(cfg).1 as int }
    }
}

/// The lengths of the lists read back.
proof fn lemma_take_lengths(cfg: SliceHeaderConfig, rest: Seq<bool>)
    requires
        cfg.wf(),
    ensures
        take_lengths(slice::count_bits(cfg) + rest, cfg.slice_type.number() as int) == (
            lengths_of(cfg),
            rest,
        ),
{
    let one = bitwriter::bit(true);
    match (cfg.slice_type, cfg.num_ref_idx_l0_active, cfg.num_ref_idx_l1_active) {
        (SliceType::I, _, _) => {
            assert(slice::count_bits(cfg) + rest =~= rest);
        },
        (SliceType::P, Some(l0), _) => {
            let code = bitwriter::ue_code((l0 - 1) as nat);
            assert(slice::count_bits(cfg) + rest =~= one + (code + rest));
            lemma_take_bit(true, code + rest);
            lemma_take_ue((l0 - 1) as nat, rest);
        },
        (SliceType::P, None, _) => {
            lemma_take_bit(false, rest);
        },
        (SliceType::B, Some(l0), Some(l1)) => {
            let first = bitwriter::ue_code((l0 - 1) as nat);
            let second = bitwriter::ue_code((l1 - 1) as nat);
            assert(slice::count_bits(cfg) + rest =~= one + (one + (first + (second + rest))));
            lemma_take_bit(true, one + (first + (second + rest)));
            lemma_take_bit(true, first + (second + rest));
            lemma_take_ue((l0 - 1) as nat, second + rest);
            lemma_take_ue((l1 - 1) as nat, rest);
        },
        (SliceType::B, _, _) => {
            let zero = bitwriter::bit(false);
            assert(slice::count_bits(cfg) + rest =~= one + (zero + rest));
            lemma_take_bit(true, zero + rest);
            lemma_take_bit(false, rest);
        },
    }
}

/// How far back the entries lie that a list begins with, where the slice says so.
pub open spec fn take_list(bits: Seq<bool>, range: nat) -> (Seq<int>, Seq<bool>) {
    let (modified, bits) = take_bit(bits);
    if modified {
        let (entries, used) = reading::read_steps(bits, 0, range, bits.len());
        (entries, bits.skip(used))
    } else {
        (seq![], bits)
    }
}

/// The entries of both lists.
pub open spec fn take_lists(bits: Seq<bool>, slice_type: int, range: nat) -> (
    (Seq<int>, Seq<int>),
    Seq<bool>,
) {
    if slice_type == 2 {
        ((seq![], seq![]), bits)
    } else {
        let (first, bits) = take_list(bits, range);
        if slice_type == 0 {
            ((first, seq![]), bits)
        } else {
            let (second, bits) = take_list(bits, range);
            ((first, second), bits)
        }
    }
}

/// How far back the entries of a list lie.
pub open spec fn distances(list: Seq<RefPicListEntry>, field: bool) -> Seq<int> {
    Seq::new(list.len(), |i: int| slice::distance(list[i], field))
}

/// The entries that a slice names.
pub open spec fn named(cfg: SliceHeaderConfig) -> (Seq<RefPicListEntry>, Seq<RefPicListEntry>) {
    match (cfg.explicit_ref_lists, cfg.l1_first_short_term_delta) {
        (Some(lists), _) => (lists[0]@, lists[1]@),
        (None, Some(delta)) => (
            seq![],
            seq![RefPicListEntry { frames_back: delta, same_parity: true }],
        ),
        (None, None) => (seq![], seq![]),
    }
}

/// The entries lie in the range of picture numbers.
pub open spec fn in_range(list: Seq<RefPicListEntry>, field: bool, range: nat) -> bool {
    forall|i: int|
        0 <= i < list.len() ==> 0 <= slice::distance(#[trigger] list[i], field) < range
}

/// A step takes a bit at least.
proof fn lemma_steps_take_bits(list: Seq<RefPicListEntry>, field: bool, range: nat, n: nat)
    ensures
        slice::steps_bits(list, field, range, n).len() >= n,
    decreases n,
{
    if n > 0 {
        lemma_steps_take_bits(list, field, range, (n - 1) as nat);
        let from = if n == 1 {
            0
        } else {
            slice::distance(list[n - 2], field)
        };
        let step = slice::number_step(from, slice::distance(list[n - 1], field), range);
        let kind: nat = if step.0 {
            1
        } else {
            0
        };
        assert(bitwriter::ue_code(kind).len() >= 1);
    }
}

/// The entries of a list read back.
proof fn lemma_take_list(
    list: Seq<RefPicListEntry>,
    field: bool,
    range: nat,
    rest: Seq<bool>,
)
    requires
        0 < range,
        in_range(list, field, range),
    ensures
        take_list(slice::list_bits(list, field, range) + rest, range) == (
            distances(list, field),
            rest,
        ),
{
    let bits = slice::list_bits(list, field, range);
    if list.len() == 0 {
        lemma_take_bit(false, rest);
        assert(distances(list, field) =~= seq![]);
    } else {
        let steps = slice::steps_bits(list, field, range, list.len()) + bitwriter::ue_code(3);
        assert(bits + rest =~= bitwriter::bit(true) + (steps + rest));
        lemma_take_bit(true, steps + rest);
        lemma_steps_take_bits(list, field, range, list.len());
        assert((bits + rest).skip(1) =~= steps + rest);
        reading::law_list_modifications_read_back(
            list,
            field,
            range,
            (steps + rest).len(),
            rest,
        );
        assert(bits.len() - 1 == steps.len());
        assert((steps + rest).skip(steps.len() as int) =~= rest);
    }
}

/// The range of picture numbers of a slice.
pub open spec fn range_of(cfg: SliceHeaderConfig) -> nat {
    slice::number_range(cfg.log2_max_frame_num, cfg.field_picture is Some)
}

/// What both lists were written to begin with.
pub open spec fn lists_of(cfg: SliceHeaderConfig) -> (Seq<int>, Seq<int>) {
    let field = cfg.field_picture is Some;
    let (first, second) = named(cfg);
    match cfg.slice_type {
        SliceType::I => (seq![], seq![]),
        SliceType::P => (distances(first, field), seq![]),
        SliceType::B => (distances(first, field), distances(second, field)),
    }
}

/// The entries that the slice names lie in the range of picture numbers.
pub open spec fn lists_in_range(cfg: SliceHeaderConfig) -> bool {
    let field = cfg.field_picture is Some;
    &&& !(cfg.slice_type is I) ==> in_range(named(cfg).0, field, range_of(cfg))
    &&& cfg.slice_type is B ==> in_range(named(cfg).1, field, range_of(cfg))
}

/// The entries of both lists read back.
proof fn lemma_take_lists(cfg: SliceHeaderConfig, rest: Seq<bool>)
    requires
        lists_in_range(cfg),
    ensures
        take_lists(
            slice::lists_bits(cfg) + rest,
            cfg.slice_type.number() as int,
            range_of(cfg),
        ) == (lists_of(cfg), rest),
{
    let field = cfg.field_picture is Some;
    let range = range_of(cfg);
    power2::lemma_pow2_pos(
        (cfg.log2_max_frame_num + if field {
            1int
        } else {
            0
        }) as nat,
    );
    let (first, second) = named(cfg);
    let one = slice::list_bits(first, field, range);
    let two = slice::list_bits(second, field, range);
    match cfg.slice_type {
        SliceType::I => {
            assert(slice::lists_bits(cfg) + rest =~= rest);
        },
        SliceType::P => {
            lemma_take_list(first, field, range, rest);
        },
        SliceType::B => {
            assert(slice::lists_bits(cfg) == one + two);
            assert(one + two + rest =~= one + (two + rest));
            lemma_take_list(first, field, range, two + rest);
            lemma_take_list(second, field, range, rest);
        },
    }
}

/// The weight and the offset of a component.
pub open spec fn take_weighting(bits: Seq<bool>) -> (Weighting, Seq<bool>) {
    let (weight, bits) = take_se(bits);
    let (offset, bits) = take_se(bits);
    (Weighting { weight, offset }, bits)
}

/// The weights of one reference index (clause 7.3.3.2).
pub open spec fn take_index(bits: Seq<bool>) -> (IndexWeights, Seq<bool>) {
    let (told, bits) = take_bit(bits);
    let (luma, bits) = if told {
        let (weighting, bits) = take_weighting(bits);
        (Some(weighting), bits)
    } else {
        (None, bits)
    };
    let (told, bits) = take_bit(bits);
    let (chroma, bits) = if told {
        let (first, bits) = take_weighting(bits);
        let (second, bits) = take_weighting(bits);
        (Some((first, second)), bits)
    } else {
        (None, bits)
    };
    (IndexWeights { luma, chroma }, bits)
}

/// The weights of the first `n` indices of a list.
pub open spec fn take_indices(bits: Seq<bool>, n: nat) -> (Seq<IndexWeights>, Seq<bool>)
    decreases n,
{
    if n == 0 {
        (seq![], bits)
    } else {
        let (before, bits) = take_indices(bits, (n - 1) as nat);
        let (last, bits) = take_index(bits);
        (before.push(last), bits)
    }
}

/// The weights of both lists.
pub open spec fn take_weights(bits: Seq<bool>, slice_type: int, lengths: Lengths) -> (
    (Seq<IndexWeights>, Seq<IndexWeights>),
    Seq<bool>,
) {
    if slice_type == 2 {
        ((seq![], seq![]), bits)
    } else {
        let (_, bits) = take_ue(bits);
        let (_, bits) = take_ue(bits);
        let (first, bits) = take_indices(bits, lengths.l0 as nat);
        if slice_type == 1 {
            let (second, bits) = take_indices(bits, lengths.l1 as nat);
            ((first, second), bits)
        } else {
            ((first, seq![]), bits)
        }
    }
}

/// The weights of a reference index: the flat prediction's, or none.
pub open spec fn index_weights(flat: bool) -> IndexWeights {
    if flat {
        let weighting = Weighting {
            weight: slice::FLAT_WEIGHT as int,
            offset: slice::FLAT_OFFSET as int,
        };
        IndexWeights { luma: Some(weighting), chroma: Some((weighting, weighting)) }
    } else {
        IndexWeights { luma: None, chroma: None }
    }
}

/// The weights of a list with the flat prediction at one index.
pub open spec fn flat_at(flat: Option<u32>, n: nat) -> Seq<IndexWeights> {
    Seq::new(n, |i: int| index_weights(flat == Some(i as u32)))
}

/// A weight and an offset read back.
proof fn lemma_take_weighting(weight: int, offset: int, rest: Seq<bool>)
    ensures
        take_weighting(bitwriter::se_code(weight) + bitwriter::se_code(offset) + rest) == (
            Weighting { weight, offset },
            rest,
        ),
{
    let first = bitwriter::se_code(weight);
    let second = bitwriter::se_code(offset);
    assert(first + second + rest =~= first + (second + rest));
    lemma_take_se(weight, second + rest);
    lemma_take_se(offset, rest);
}

/// The weights of an index read back.
proof fn lemma_take_index(flat: bool, rest: Seq<bool>)
    ensures
        take_index(slice::weight_bits(flat) + rest) == (index_weights(flat), rest),
{
    let bits = slice::weight_bits(flat) + rest;
    if flat {
        let weight = slice::FLAT_WEIGHT as int;
        let offset = slice::FLAT_OFFSET as int;
        let one = bitwriter::bit(true);
        let code = bitwriter::se_code(weight) + bitwriter::se_code(offset);
        assert(bits == one + code + one + code + code + rest);
        let r4 = code + rest;
        let r3 = code + r4;
        let r2 = one + r3;
        let r1 = code + r2;
        assert(one + code + one + code + code + rest =~= one + r1);
        lemma_take_bit(true, r1);
        lemma_take_weighting(weight, offset, r2);
        lemma_take_bit(true, r3);
        lemma_take_weighting(weight, offset, r4);
        lemma_take_weighting(weight, offset, rest);
    } else {
        let zero = bitwriter::bit(false);
        assert(bits =~= zero + (zero + rest));
        lemma_take_bit(false, zero + rest);
        lemma_take_bit(false, rest);
    }
}

/// The weights of a list read back.
proof fn lemma_take_indices(flat: Option<u32>, n: nat, rest: Seq<bool>)
    ensures
        take_indices(slice::list_weights(flat, n) + rest, n) == (flat_at(flat, n), rest),
    decreases n,
{
    if n == 0 {
        assert(slice::list_weights(flat, n) + rest =~= rest);
        assert(flat_at(flat, n) =~= seq![]);
    } else {
        let before = slice::list_weights(flat, (n - 1) as nat);
        let here = flat == Some((n - 1) as u32);
        let last = slice::weight_bits(here);
        assert(before + last + rest =~= before + (last + rest));
        lemma_take_indices(flat, (n - 1) as nat, last + rest);
        lemma_take_index(here, rest);
        assert(flat_at(flat, n) =~= flat_at(flat, (n - 1) as nat).push(index_weights(here)));
    }
}

/// The weights that were written.
pub open spec fn weights_of(cfg: SliceHeaderConfig) -> (Seq<IndexWeights>, Seq<IndexWeights>) {
    let first = flat_at(cfg.flat_pred_ref_idx[0], slice::list_lens(cfg).0);
    match cfg.slice_type {
        SliceType::I => (seq![], seq![]),
        SliceType::P => (first, seq![]),
        SliceType::B => (first, flat_at(cfg.flat_pred_ref_idx[1], slice::list_lens(cfg).1)),
    }
}

/// The weights of both lists read back.
proof fn lemma_take_weights(cfg: SliceHeaderConfig, rest: Seq<bool>)
    ensures
        take_weights(
            slice::weights_bits(cfg) + rest,
            cfg.slice_type.number() as int,
            lengths_of(cfg),
        ) == (weights_of(cfg), rest),
{
    if cfg.slice_type is I {
        assert(slice::weights_bits(cfg) + rest =~= rest);
    } else {
        let (l0, l1) = slice::list_lens(cfg);
        let zero = bitwriter::ue_code(0);
        let first = slice::list_weights(cfg.flat_pred_ref_idx[0], l0);
        let second = if cfg.slice_type is B {
            slice::list_weights(cfg.flat_pred_ref_idx[1], l1)
        } else {
            Seq::<bool>::empty()
        };
        assert(slice::weights_bits(cfg) == zero + zero + first + second);
        assert(zero + zero + first + second + rest =~= zero + (zero + (first + (second + rest))));
        lemma_take_ue(0, zero + (first + (second + rest)));
        lemma_take_ue(0, first + (second + rest));
        lemma_take_indices(cfg.flat_pred_ref_idx[0], l0, second + rest);
        if cfg.slice_type is B {
            lemma_take_indices(cfg.flat_pred_ref_idx[1], l1, rest);
        } else {
            assert(second + rest =~= rest);
        }
    }
}

/// What becomes of the pictures that are held for reference (clause 7.3.3.3).
pub open spec fn take_marking(bits: Seq<bool>, known: Known) -> (Marking, Seq<bool>) {
    if !known.reference {
        (Marking::Nothing, bits)
    } else if known.idr {
        let (_, bits) = take_bit(bits);
        let (long_term, bits) = take_bit(bits);
        (Marking::Idr { long_term }, bits)
    } else {
        let (adaptive, bits) = take_bit(bits);
        if !adaptive {
            (Marking::Window, bits)
        } else {
            let (first, bits) = take_ue(bits);
            let (slots, bits) = take_ue(bits);
            let (second, bits) = take_ue(bits);
            let (back, bits) = take_ue(bits);
            let (slot, bits) = take_ue(bits);
            let (third, bits) = take_ue(bits);
            if first == 4 && second == 3 && third == 0 {
                (Marking::LongTerm { slots, back: back + 1, slot }, bits)
            } else {
                (Marking::Other, bits)
            }
        }
    }
}

/// What was written of the pictures that are held for reference.
pub open spec fn marking_of(cfg: SliceHeaderConfig) -> Marking {
    if !cfg.reference {
        Marking::Nothing
    } else if cfg.idr {
        Marking::Idr { long_term: cfg.long_term_current is Some }
    } else {
        match cfg.long_term_previous {
            Some((back, slot)) => Marking::LongTerm {
                slots: slot + 1,
                back: back as int,
                slot: slot as int,
            },
            None => Marking::Window,
        }
    }
}

/// What becomes of the pictures that are held for reference reads back.
proof fn lemma_take_marking(cfg: SliceHeaderConfig, rest: Seq<bool>)
    requires
        cfg.wf(),
    ensures
        take_marking(slice::marking_bits(cfg) + rest, known_of(cfg)) == (marking_of(cfg), rest),
{
    let bits = slice::marking_bits(cfg) + rest;
    if !cfg.reference {
        assert(bits =~= rest);
    } else if cfg.idr {
        let long_term = cfg.long_term_current is Some;
        let last = bitwriter::bit(long_term);
        assert(bits =~= bitwriter::bit(false) + (last + rest));
        lemma_take_bit(false, last + rest);
        lemma_take_bit(long_term, rest);
    } else {
        match cfg.long_term_previous {
            Some((back, slot)) => {
                let a = bitwriter::bit(true);
                let b = bitwriter::ue_code(4);
                let c = bitwriter::ue_code(slot as nat + 1);
                let d = bitwriter::ue_code(3);
                let e = bitwriter::ue_code((back - 1) as nat);
                let f = bitwriter::ue_code(slot as nat);
                let g = bitwriter::ue_code(0);
                assert(bits == a + b + c + d + e + f + g + rest);
                lemma_glued(a, b, c, d, e, f, g, rest);
                lemma_take_bit(true, b + (c + (d + (e + (f + (g + rest))))));
                lemma_take_ue(4, c + (d + (e + (f + (g + rest)))));
                lemma_take_ue(slot as nat + 1, d + (e + (f + (g + rest))));
                lemma_take_ue(3, e + (f + (g + rest)));
                lemma_take_ue((back - 1) as nat, f + (g + rest));
                lemma_take_ue(slot as nat, g + rest);
                lemma_take_ue(0, rest);
            },
            None => {
                lemma_take_bit(false, rest);
            },
        }
    }
}

/// The quantiser and the loop filter.
pub open spec fn take_tail(bits: Seq<bool>) -> (int, int, Seq<bool>) {
    let (qp_delta, bits) = take_se(bits);
    let (deblocking, bits) = take_ue(bits);
    if deblocking != 1 {
        let (_, bits) = take_se(bits);
        let (_, bits) = take_se(bits);
        (qp_delta, deblocking, bits)
    } else {
        (qp_delta, deblocking, bits)
    }
}

/// The quantiser and the loop filter read back.
proof fn lemma_take_tail(cfg: SliceHeaderConfig, rest: Seq<bool>)
    ensures
        take_tail(slice::tail_bits(cfg) + rest) == (
            cfg.slice_qp - cfg.pps_init_qp,
            cfg.disable_deblocking_filter_idc as int,
            rest,
        ),
{
    let delta = cfg.slice_qp - cfg.pps_init_qp;
    let idc = cfg.disable_deblocking_filter_idc as nat;
    let a = bitwriter::se_code(delta);
    let b = bitwriter::ue_code(idc);
    if idc != 1 {
        let zero = bitwriter::se_code(0);
        assert(slice::tail_bits(cfg) + rest =~= a + (b + (zero + (zero + rest))));
        lemma_take_se(delta, b + (zero + (zero + rest)));
        lemma_take_ue(idc, zero + (zero + rest));
        lemma_take_se(0, zero + rest);
        lemma_take_se(0, rest);
    } else {
        assert(slice::tail_bits(cfg) + rest =~= a + (b + rest));
        lemma_take_se(delta, b + rest);
        lemma_take_ue(idc, rest);
    }
}

/// What a decoder reads from a slice header, and what stands behind it.
pub open spec fn read_header(bits: Seq<bool>, known: Known) -> (HeaderRead, Seq<bool>) {
    let (front, bits) = take_front(bits, known);
    let range = power2::pow2(
        known.log2_max_frame_num + if front.field is Some {
            1nat
        } else {
            0
        },
    );
    let (lengths, bits) = take_lengths(bits, front.slice_type);
    let (lists, bits) = take_lists(bits, front.slice_type, range);
    let (weights, bits) = take_weights(bits, front.slice_type, lengths);
    let (marking, bits) = take_marking(bits, known);
    let (qp_delta, deblocking, bits) = take_tail(bits);
    (HeaderRead { front, lengths, lists, weights, marking, qp_delta, deblocking }, bits)
}

/// What a slice header was written to say.
pub open spec fn header_of(cfg: SliceHeaderConfig) -> HeaderRead {
    HeaderRead {
        front: front_of(cfg),
        lengths: lengths_of(cfg),
        lists: lists_of(cfg),
        weights: weights_of(cfg),
        marking: marking_of(cfg),
        qp_delta: cfg.slice_qp - cfg.pps_init_qp,
        deblocking: cfg.disable_deblocking_filter_idc as int,
    }
}

/// A decoder reads a slice header as it was written, and stops where it ends, whatever
/// stands behind it.
pub proof fn law_slice_headers_read_back(cfg: SliceHeaderConfig, rest: Seq<bool>)
    requires
        cfg.wf(),
        field_allowed(cfg),
        lists_in_range(cfg),
    ensures
        read_header(slice::header_bits(cfg) + rest, known_of(cfg)) == (header_of(cfg), rest),
{
    let a = slice::front_bits(cfg);
    let b = slice::count_bits(cfg);
    let c = slice::lists_bits(cfg);
    let d = slice::weights_bits(cfg);
    let e = slice::marking_bits(cfg);
    let f = slice::tail_bits(cfg);
    lemma_six(a, b, c, d, e, f, rest);
    lemma_take_front(cfg, b + (c + (d + (e + (f + rest)))));
    lemma_take_lengths(cfg, c + (d + (e + (f + rest))));
    lemma_take_lists(cfg, d + (e + (f + rest)));
    lemma_take_weights(cfg, e + (f + rest));
    lemma_take_marking(cfg, f + rest);
    lemma_take_tail(cfg, rest);
}

/// Pieces that are put together from the left are put together from the right.
proof fn lemma_six(
    a: Seq<bool>,
    b: Seq<bool>,
    c: Seq<bool>,
    d: Seq<bool>,
    e: Seq<bool>,
    f: Seq<bool>,
    rest: Seq<bool>,
)
    ensures
        a + b + c + d + e + f + rest == a + (b + (c + (d + (e + (f + rest))))),
{
    let none = Seq::<bool>::empty();
    lemma_glued(a, b, c, d, e, f, none, rest);
    assert(none + rest =~= rest);
    assert(a + b + c + d + e + f + none =~= a + b + c + d + e + f);
}

} // verus!
