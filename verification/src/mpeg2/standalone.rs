//! A picture parsed on its own says what it says in its stream.
use crate::bitreader::StartCode;
use crate::bits;
use crate::mpeg2::constants::{extension, start_code};
use crate::mpeg2::headers;
use crate::mpeg2::headers::{ParseState, PictureView, QuantView, SequenceHeader, Slice};
use crate::mpeg2::syntax;
use vstd::prelude::*;

verus! {

/// From bit `lo` to bit `hi`, `a` reads what `b` does `d` bits before.
pub open spec fn same_bits(a: Seq<u8>, b: Seq<u8>, lo: int, hi: int, d: int) -> bool {
    forall|p: int, n: nat|
        #![trigger bits::bits(a, p, n)]
        lo <= p && p + n <= hi ==> bits::bits(a, p, n) == bits::bits(b, p - d, n)
}

/// Bytes that are the same spell the same bits.
proof fn lemma_bits_shift(a: Seq<u8>, b: Seq<u8>, lo: int, hi: int, d: int, p: int, n: nat)
    requires
        0 <= d <= lo,
        hi <= a.len(),
        hi - d <= b.len(),
        forall|x: int| lo <= x < hi ==> a[x] == b[x - d],
        8 * lo <= p,
        p + n <= 8 * hi,
    ensures
        bits::bits(a, p, n) == bits::bits(b, p - 8 * d, n),
    decreases n,
{
    if n > 0 {
        lemma_bits_shift(a, b, lo, hi, d, p, (n - 1) as nat);
        let i = p + n - 1;
        assert(lo <= i / 8 < hi);
        assert((i - 8 * d) / 8 == i / 8 - d);
        assert((i - 8 * d) % 8 == i % 8);
        assert(a[i / 8] == b[i / 8 - d]);
        assert(bits::bit_at(a, i) == bits::bit_at(b, i - 8 * d));
    }
}

/// Bytes that are the same spell the same bits.
pub proof fn lemma_same_bits(a: Seq<u8>, b: Seq<u8>, lo: int, hi: int, d: int)
    requires
        0 <= d <= lo,
        hi <= a.len(),
        hi - d <= b.len(),
        forall|x: int| lo <= x < hi ==> a[x] == b[x - d],
    ensures
        same_bits(a, b, 8 * lo, 8 * hi, 8 * d),
{
    assert forall|p: int, n: nat|
        #![trigger bits::bits(a, p, n)]
        8 * lo <= p && p + n <= 8 * hi implies bits::bits(a, p, n) == bits::bits(
        b,
        p - 8 * d,
        n,
    ) by {
        lemma_bits_shift(a, b, lo, hi, d, p, n);
    }
}

/// Where a matrix ends.
proof fn lemma_matrix_end(a: Seq<u8>, pos: nat, count: nat)
    requires
        pos <= 8 * a.len(),
    ensures
        syntax::matrix_at(a, pos, count).0 == bits::advance(a, pos, 8 * count),
    decreases count,
{
    if count > 0 {
        lemma_matrix_end(a, pos, (count - 1) as nat);
    }
}

/// The window that a header is read in: from `pos` to `hi`, inside both streams.
pub open spec fn window(a: Seq<u8>, b: Seq<u8>, pos: int, hi: int, d: int) -> bool {
    &&& 0 <= d <= pos <= hi
    &&& hi < 8 * a.len()
    &&& hi - d <= 8 * b.len()
    &&& same_bits(a, b, pos, hi, d)
}

/// A matrix reads the same.
proof fn lemma_matrix_shift(a: Seq<u8>, b: Seq<u8>, pos: int, hi: int, d: int, count: nat)
    requires
        window(a, b, pos, hi, d),
        pos + 8 * count <= hi,
    ensures
        syntax::matrix_at(a, pos as nat, count).0 == pos + 8 * count,
        syntax::matrix_at(b, (pos - d) as nat, count).0 == pos - d + 8 * count,
        syntax::matrix_at(b, (pos - d) as nat, count).1 == syntax::matrix_at(
            a,
            pos as nat,
            count,
        ).1,
    decreases count,
{
    if count > 0 {
        lemma_matrix_shift(a, b, pos, hi, d, (count - 1) as nat);
        let at = pos + 8 * (count - 1);
        assert(bits::bits(a, at, 8) == bits::bits(b, at - d, 8));
    }
}

/// A flag and its matrix read the same.
proof fn lemma_loaded_shift(a: Seq<u8>, b: Seq<u8>, pos: int, hi: int, d: int)
    requires
        window(a, b, pos, hi, d),
        syntax::loaded_matrix_at(a, pos as nat).0 <= hi,
    ensures
        ({
            let at_a = syntax::loaded_matrix_at(a, pos as nat);
            let at_b = syntax::loaded_matrix_at(b, (pos - d) as nat);
            &&& pos < at_a.0
            &&& at_b.0 == at_a.0 - d
            &&& at_b.1 == at_a.1
            &&& window(a, b, at_a.0 as int, hi, d)
        }),
{
    let at = bits::advance(a, pos as nat, 1);
    lemma_matrix_end(a, at, 64);
    assert(at == pos + 1);
    assert(bits::bits(a, pos, 1) == bits::bits(b, pos - d, 1));
    assert(window(a, b, pos + 1, hi, d));
    if bits::bits(a, pos, 1) == 1 {
        lemma_matrix_shift(a, b, pos + 1, hi, d, 64);
    }
}

/// A sequence header reads the same.
proof fn lemma_sequence_header_shift(a: Seq<u8>, b: Seq<u8>, pos: int, hi: int, d: int)
    requires
        window(a, b, pos, hi, d),
        syntax::sequence_header_at(a, pos as nat).0 <= hi,
    ensures
        syntax::sequence_header_at(b, (pos - d) as nat).1 == syntax::sequence_header_at(
            a,
            pos as nat,
        ).1,
{
    reveal(syntax::sequence_header_at);
    let p5 = pos + 50;
    let p6 = bits::advance(a, bits::advance(a, bits::advance(
        a,
        bits::advance(a, bits::advance(a, bits::advance(a, pos as nat, 12), 12), 4),
        4,
    ), 18), 1);
    let p8 = bits::advance(a, bits::advance(a, p6, 10), 1);
    lemma_loaded_advances(a, p8);
    lemma_loaded_advances(a, syntax::loaded_matrix_at(a, p8).0);
    assert(p6 <= hi);
    assert(p6 == pos + 51);
    assert(bits::bits(a, p5, 1) == bits::bits(b, p5 - d, 1));
    if bits::bits(a, p5, 1) == 1 {
        assert(p8 <= hi);
        assert(p8 == pos + 62);
        assert(window(a, b, p8 as int, hi, d));
        lemma_loaded_shift(a, b, p8 as int, hi, d);
        lemma_loaded_shift(a, b, syntax::loaded_matrix_at(a, p8).0 as int, hi, d);
        assert(bits::bits(a, pos, 12) == bits::bits(b, pos - d, 12));
        assert(bits::bits(a, pos + 12, 12) == bits::bits(b, pos + 12 - d, 12));
        assert(bits::bits(a, pos + 24, 4) == bits::bits(b, pos + 24 - d, 4));
        assert(bits::bits(a, pos + 28, 4) == bits::bits(b, pos + 28 - d, 4));
        assert(bits::bits(a, pos + 32, 18) == bits::bits(b, pos + 32 - d, 18));
        assert(bits::bits(a, pos + 51, 10) == bits::bits(b, pos + 51 - d, 10));
        assert(bits::bits(a, pos + 61, 1) == bits::bits(b, pos + 61 - d, 1));
    }
}

/// Reading a flag and its matrix goes on from where it began.
proof fn lemma_loaded_advances(a: Seq<u8>, pos: nat)
    requires
        pos <= 8 * a.len(),
    ensures
        pos <= syntax::loaded_matrix_at(a, pos).0 <= 8 * a.len(),
{
    lemma_matrix_end(a, bits::advance(a, pos, 1), 64);
}

/// A sequence extension reads the same.
proof fn lemma_sequence_extension_shift(
    a: Seq<u8>,
    b: Seq<u8>,
    pos: int,
    hi: int,
    d: int,
    header: SequenceHeader,
)
    requires
        window(a, b, pos, hi, d),
        pos + 44 <= hi,
    ensures
        syntax::sequence_extension_at(b, (pos - d) as nat, header)
            == syntax::sequence_extension_at(a, pos as nat, header),
{
    reveal(syntax::sequence_extension_at);
}

/// A quantiser matrix extension reads the same.
proof fn lemma_quant_extension_shift(
    a: Seq<u8>,
    b: Seq<u8>,
    pos: int,
    hi: int,
    d: int,
    quant: QuantView,
)
    requires
        window(a, b, pos, hi, d),
        quant_extension_end(a, pos as nat) <= hi,
    ensures
        syntax::quant_extension_at(b, (pos - d) as nat, quant) == syntax::quant_extension_at(
            a,
            pos as nat,
            quant,
        ),
{
    reveal(syntax::quant_extension_at);
    let p1 = syntax::loaded_matrix_at(a, pos as nat).0;
    let p2 = syntax::loaded_matrix_at(a, p1).0;
    let p3 = syntax::loaded_matrix_at(a, p2).0;
    lemma_loaded_advances(a, pos as nat);
    lemma_loaded_advances(a, p1);
    lemma_loaded_advances(a, p2);
    lemma_loaded_advances(a, p3);
    lemma_loaded_shift(a, b, pos, hi, d);
    lemma_loaded_shift(a, b, p1 as int, hi, d);
    lemma_loaded_shift(a, b, p2 as int, hi, d);
    lemma_loaded_shift(a, b, p3 as int, hi, d);
}

/// Where a quantiser matrix extension ends.
pub open spec fn quant_extension_end(a: Seq<u8>, pos: nat) -> nat {
    let p1 = syntax::loaded_matrix_at(a, pos).0;
    let p2 = syntax::loaded_matrix_at(a, p1).0;
    let p3 = syntax::loaded_matrix_at(a, p2).0;
    syntax::loaded_matrix_at(a, p3).0
}

/// A picture coding extension reads the same.
#[verifier::rlimit(60)]
proof fn lemma_coding_extension_shift(a: Seq<u8>, b: Seq<u8>, pos: int, hi: int, d: int)
    requires
        window(a, b, pos, hi, d),
        pos + 29 <= hi,
    ensures
        syntax::picture_coding_extension_at(b, (pos - d) as nat)
            == syntax::picture_coding_extension_at(a, pos as nat),
{
    reveal(syntax::picture_coding_extension_at);
    let c = syntax::picture_coding_extension_at(a, pos as nat);
    let e = syntax::picture_coding_extension_at(b, (pos - d) as nat);
    assert(bits::bits(a, pos, 4) == bits::bits(b, pos - d, 4));
    assert(bits::bits(a, pos + 4, 4) == bits::bits(b, pos + 4 - d, 4));
    assert(bits::bits(a, pos + 8, 4) == bits::bits(b, pos + 8 - d, 4));
    assert(bits::bits(a, pos + 12, 4) == bits::bits(b, pos + 12 - d, 4));
    assert(c.f_code == e.f_code);
    assert(c.intra_dc_precision == e.intra_dc_precision);
    assert(c.picture_structure == e.picture_structure);
    assert(c.top_field_first == e.top_field_first);
    assert(c.frame_pred_frame_dct == e.frame_pred_frame_dct);
    assert(c.concealment_motion_vectors == e.concealment_motion_vectors);
    assert(c.q_scale_type == e.q_scale_type);
    assert(c.intra_vlc_format == e.intra_vlc_format);
    assert(c.alternate_scan == e.alternate_scan);
    assert(c.repeat_first_field == e.repeat_first_field);
    assert(c.chroma_420_type == e.chroma_420_type);
    assert(c.progressive_frame == e.progressive_frame);
}

/// How many bits of a picture header are read.
pub open spec fn picture_header_len(a: Seq<u8>, pos: nat) -> int {
    let kind = syntax::picture_header_at(a, pos).picture_coding_type;
    if kind is B {
        37
    } else if kind is P {
        33
    } else {
        29
    }
}

/// A picture header reads the same.
proof fn lemma_picture_header_shift(a: Seq<u8>, b: Seq<u8>, pos: int, hi: int, d: int)
    requires
        window(a, b, pos, hi, d),
        pos + picture_header_len(a, pos as nat) <= hi,
    ensures
        syntax::picture_header_at(b, (pos - d) as nat) == syntax::picture_header_at(a, pos as nat),
{
    reveal(syntax::picture_header_at);
    assert(bits::bits(a, pos + 10, 3) == bits::bits(b, pos + 10 - d, 3));
}

/// Extra information ends at the same place.
proof fn lemma_extra_information_shift(a: Seq<u8>, b: Seq<u8>, pos: int, hi: int, d: int)
    requires
        0 <= d <= pos,
        hi <= 8 * a.len(),
        hi - d <= 8 * b.len(),
        same_bits(a, b, pos, hi, d),
        syntax::extra_information_end(a, pos as nat) < hi,
    ensures
        pos < syntax::extra_information_end(a, pos as nat),
        syntax::extra_information_end(b, (pos - d) as nat) == syntax::extra_information_end(
            a,
            pos as nat,
        ) - d,
    decreases 8 * a.len() - pos,
{
    lemma_extra_information_advances(a, pos as nat);
    assert(pos < hi);
    assert(bits::bits(a, pos, 1) == bits::bits(b, pos - d, 1));
    if bits::bits(a, pos, 1) == 1 {
        let next = bits::advance(a, bits::advance(a, pos as nat, 1), 8);
        lemma_extra_information_advances(a, next);
        assert(next == pos + 9);
        lemma_extra_information_shift(a, b, pos + 9, hi, d);
    }
}

/// Skipping extra information goes on from where it began.
pub proof fn lemma_extra_information_advances(a: Seq<u8>, pos: nat)
    requires
        pos <= 8 * a.len(),
    ensures
        pos <= syntax::extra_information_end(a, pos) <= 8 * a.len(),
        pos < 8 * a.len() ==> pos < syntax::extra_information_end(a, pos),
    decreases 8 * a.len() - pos,
{
    if pos < 8 * a.len() && bits::bits(a, pos as int, 1) == 1 {
        lemma_extra_information_advances(
            a,
            bits::advance(a, bits::advance(a, pos, 1), 8),
        );
    }
}

/// The slice says the same of a place `d` bits before.
pub open spec fn alike_slice(a: Slice, b: Slice, d: int) -> bool {
    &&& a.vertical_position == b.vertical_position
    &&& a.quantiser_scale_code == b.quantiser_scale_code
    &&& a.data_start_bit == b.data_start_bit + d
    &&& match (a.data_end_bit, b.data_end_bit) {
        (Some(x), Some(y)) => x == y + d,
        (None, None) => true,
        _ => false,
    }
}

/// A slice header reads the same.
proof fn lemma_slice_shift(
    a: Seq<u8>,
    b: Seq<u8>,
    pos: int,
    hi: int,
    d: int,
    code: u8,
    p: PictureView,
    q: PictureView,
)
    requires
        0 <= d <= pos,
        hi <= 8 * a.len() <= usize::MAX,
        hi - d <= 8 * b.len() <= usize::MAX,
        same_bits(a, b, pos, hi, d),
        p.is_mpeg1 == q.is_mpeg1,
        p.sequence == q.sequence,
        pos <= 8 * a.len(),
        syntax::slice_at(a, pos as nat, code, p).data_start_bit < hi,
    ensures
        alike_slice(
            syntax::slice_at(a, pos as nat, code, p),
            syntax::slice_at(b, (pos - d) as nat, code, q),
            d,
        ),
{
    reveal(syntax::slice_at);
    let tall = !p.is_mpeg1 && p.sequence.vertical_size > 2800;
    let p1 = if tall {
        bits::advance(a, pos as nat, 3)
    } else {
        pos as nat
    };
    let p2 = bits::advance(a, p1, 5);
    let p3 = if bits::bits(a, p2 as int, 1) == 1 {
        bits::advance(a, bits::advance(a, bits::advance(a, p2, 1), 1), 7)
    } else {
        p2
    };
    lemma_extra_information_advances(a, p3);
    assert(p3 < hi);
    assert(p2 < hi);
    assert(bits::bits(a, p2 as int, 1) == bits::bits(b, p2 - d, 1));
    lemma_extra_information_shift(a, b, p3 as int, hi, d);
    assert(bits::bits(a, p1 as int, 5) == bits::bits(b, p1 - d, 5));
    if tall {
        assert(bits::bits(a, pos, 3) == bits::bits(b, pos - d, 3));
    }
}

/// The pictures say the same, where the slices of one stand `d` bits before the other's.
pub open spec fn alike_picture(a: PictureView, b: PictureView, d: int) -> bool {
    &&& a.is_mpeg1 == b.is_mpeg1
    &&& a.header == b.header
    &&& a.coding == b.coding
    &&& a.sequence == b.sequence
    &&& a.sequence_ext == b.sequence_ext
    &&& a.quant == b.quant
    &&& a.slices.len() == b.slices.len()
    &&& forall|k: int|
        0 <= k < a.slices.len() ==> alike_slice(#[trigger] a.slices[k], b.slices[k], d)
}

/// Behind the first `i` of one and the first `l` of the other, the pictures say the same.
pub open spec fn alike_behind(
    a: Seq<PictureView>,
    b: Seq<PictureView>,
    i: int,
    l: int,
    d: int,
) -> bool {
    &&& 0 <= i <= a.len()
    &&& 0 <= l <= b.len()
    &&& a.len() - i == b.len() - l
    &&& forall|t: int|
        #![trigger a[i + t]]
        0 <= t < a.len() - i ==> alike_picture(a[i + t], b[l + t], d)
}

/// The same is in effect for the pictures that follow.
pub open spec fn same_description(u: ParseState, j: ParseState) -> bool {
    &&& u.sequence == j.sequence
    &&& u.extension == j.extension
    &&& u.quant == j.quant
}

/// Ending the open slice keeps pictures alike.
pub proof fn lemma_ended_alike(
    a: Seq<PictureView>,
    b: Seq<PictureView>,
    i: int,
    l: int,
    d: int,
    end_a: usize,
    end_b: usize,
)
    requires
        alike_behind(a, b, i, l, d),
        end_a == end_b + d,
    ensures
        alike_behind(headers::slice_ended(a, end_a), headers::slice_ended(b, end_b), i, l, d),
{
    reveal(headers::slice_ended);
    let ended_a = headers::slice_ended(a, end_a);
    let ended_b = headers::slice_ended(b, end_b);
    assert forall|t: int|
        #![trigger ended_a[i + t]]
        0 <= t < ended_a.len() - i implies alike_picture(ended_a[i + t], ended_b[l + t], d) by {
        assert(alike_picture(a[i + t], b[l + t], d));
        if i + t == a.len() - 1 {
            assert(l + t == b.len() - 1);
            let p = a.last();
            let q = b.last();
            assert(p == a[i + t]);
            assert(q == b[l + t]);
            if p.slices.len() > 0 {
                assert(alike_slice(p.slices[p.slices.len() - 1], q.slices[p.slices.len() - 1], d));
            }
            let r = ended_a[i + t];
            let s = ended_b[l + t];
            assert forall|k: int| 0 <= k < r.slices.len() implies alike_slice(
                #[trigger] r.slices[k],
                s.slices[k],
                d,
            ) by {
                assert(alike_slice(p.slices[k], q.slices[k], d));
            }
        }
    }
}

/// Changing the last picture of both alike keeps the pictures alike.
proof fn lemma_replaced_alike(
    a: Seq<PictureView>,
    b: Seq<PictureView>,
    i: int,
    l: int,
    d: int,
    p: PictureView,
    q: PictureView,
)
    requires
        alike_behind(a, b, i, l, d),
        a.len() > i,
        alike_picture(p, q, d),
    ensures
        alike_behind(headers::last_replaced(a, p), headers::last_replaced(b, q), i, l, d),
{
    let c = headers::last_replaced(a, p);
    let e = headers::last_replaced(b, q);
    assert forall|t: int|
        #![trigger c[i + t]]
        0 <= t < c.len() - i implies alike_picture(c[i + t], e[l + t], d) by {
        assert(alike_picture(a[i + t], b[l + t], d));
    }
}

/// One more picture of both keeps the pictures alike.
proof fn lemma_pushed_alike(
    a: Seq<PictureView>,
    b: Seq<PictureView>,
    i: int,
    l: int,
    d: int,
    p: PictureView,
    q: PictureView,
)
    requires
        alike_behind(a, b, i, l, d),
        alike_picture(p, q, d),
    ensures
        alike_behind(a.push(p), b.push(q), i, l, d),
{
    let c = a.push(p);
    let e = b.push(q);
    assert forall|t: int|
        #![trigger c[i + t]]
        0 <= t < c.len() - i implies alike_picture(c[i + t], e[l + t], d) by {
        if i + t < a.len() {
            assert(alike_picture(a[i + t], b[l + t], d));
        }
    }
}

/// The header that a start code introduces can be read from its own bytes: nothing that
/// is read of it lies behind `ends`, where the next start code stands. A slice has
/// something of its macroblocks left behind its header.
pub open spec fn has_room(data: Seq<u8>, code: StartCode, ends: int, state: ParseState) -> bool {
    let pos = (8 * code.payload_offset) as nat;
    let pictures = headers::slice_ended(state.pictures, (8 * code.offset) as usize);
    &&& code.payload_offset <= ends
    &&& code.code == start_code::SEQUENCE_HEADER ==> ends < data.len()
        && syntax::sequence_header_at(data, pos).0 <= 8 * ends
    &&& code.code == start_code::EXTENSION ==> ends < data.len() && pos + extension_len(data, pos)
        <= 8 * ends
    &&& code.code == start_code::PICTURE ==> ends < data.len() && pos + picture_header_len(
        data,
        pos,
    ) <= 8 * ends
    &&& start_code::SLICE_MIN <= code.code <= start_code::SLICE_MAX && pictures.len() > 0
        ==> syntax::slice_at(data, pos, code.code, pictures.last()).data_start_bit < 8 * ends
}

/// How many bits of an extension are read.
pub open spec fn extension_len(data: Seq<u8>, pos: nat) -> int {
    let id = bits::bits(data, pos as int, 4);
    if id == extension::SEQUENCE {
        48
    } else if id == extension::QUANT_MATRIX {
        quant_extension_end(data, pos + 4) - pos
    } else if id == extension::PICTURE_CODING {
        33
    } else {
        4
    }
}

/// A start code in a stream whose bytes stand `by` places before.
pub open spec fn moved_code(code: StartCode, by: int) -> StartCode {
    StartCode {
        offset: (code.offset - by) as usize,
        code: code.code,
        payload_offset: (code.payload_offset - by) as usize,
    }
}

/// The start code stands in both streams, `by` places before in the other, and so does
/// what it introduces.
pub open spec fn stands_in_both(
    data: Seq<u8>,
    other: Seq<u8>,
    code: StartCode,
    ends: int,
    by: int,
) -> bool {
    &&& 8 * data.len() <= usize::MAX
    &&& 8 * other.len() <= usize::MAX
    &&& code.payload_offset == code.offset + 4
    &&& 0 <= by <= code.offset
    &&& ends <= data.len()
    &&& ends - by <= other.len()
    &&& same_bits(data, other, 8 * code.payload_offset, 8 * ends, 8 * by)
}

/// An extension does the same to both.
proof fn lemma_extension_alike(
    data: Seq<u8>,
    other: Seq<u8>,
    code: StartCode,
    ends: int,
    u: ParseState,
    j: ParseState,
    i: int,
    l: int,
    by: int,
)
    requires
        stands_in_both(data, other, code, ends, by),
        code.code == start_code::EXTENSION,
        code.payload_offset <= ends < data.len(),
        8 * code.payload_offset + extension_len(data, (8 * code.payload_offset) as nat)
            <= 8 * ends,
        same_description(u, j),
        alike_behind(u.pictures, j.pictures, i, l, 8 * by),
        headers::extension_step(data, (8 * code.payload_offset) as nat, ends, u) is Ok,
    ensures
        ({
            let pos = (8 * code.payload_offset) as nat;
            let after_u = headers::extension_step(data, pos, ends, u);
            let after_j = headers::extension_step(
                other,
                (pos - 8 * by) as nat,
                ends - by,
                j,
            );
            &&& after_j is Ok
            &&& same_description(after_u->Ok_0, after_j->Ok_0)
            &&& alike_behind(after_u->Ok_0.pictures, after_j->Ok_0.pictures, i, l, 8 * by)
        }),
{
    reveal(headers::extension_step);
    let pos = (8 * code.payload_offset) as nat;
    let body = pos as int + 4;
    let hi = 8 * ends;
    let d = 8 * by;
    let id = bits::bits(data, pos as int, 4);
    if id == extension::QUANT_MATRIX {
        let p1 = syntax::loaded_matrix_at(data, pos + 4).0;
        let p2 = syntax::loaded_matrix_at(data, p1).0;
        let p3 = syntax::loaded_matrix_at(data, p2).0;
        if pos + 4 <= 8 * data.len() {
            lemma_loaded_advances(data, pos + 4);
            lemma_loaded_advances(data, p1);
            lemma_loaded_advances(data, p2);
            lemma_loaded_advances(data, p3);
        }
    }
    assert(pos + 4 <= hi) by {
        if id == extension::QUANT_MATRIX && pos + 4 > hi {
            // Nothing less than the four bits of the identifier is left.
            assert(8 * code.payload_offset < 8 * ends ==> pos + 8 <= hi);
            assert(pos == hi);
            assert(pos + 4 <= 8 * data.len());
        }
    }
    assert(id == bits::bits(other, pos - d, 4));
    assert(window(data, other, body, hi, d));
    if id == extension::SEQUENCE {
        if let Some(header) = u.sequence {
            lemma_sequence_extension_shift(data, other, body, hi, d, header);
        }
    } else if id == extension::QUANT_MATRIX {
        lemma_quant_extension_shift(data, other, body, hi, d, u.quant);
        let quant = syntax::quant_extension_at(data, (pos + 4) as nat, u.quant);
        if u.pictures.len() > i {
            let t = u.pictures.len() - i - 1;
            assert(alike_picture(u.pictures[i + t], j.pictures[l + t], d));
            lemma_replaced_alike(
                u.pictures,
                j.pictures,
                i,
                l,
                d,
                PictureView { quant, ..u.pictures.last() },
                PictureView { quant, ..j.pictures.last() },
            );
        }
    } else if id == extension::PICTURE_CODING {
        lemma_coding_extension_shift(data, other, body, hi, d);
        let coding = syntax::picture_coding_extension_at(data, (pos + 4) as nat);
        if u.pictures.len() > i {
            let t = u.pictures.len() - i - 1;
            assert(alike_picture(u.pictures[i + t], j.pictures[l + t], d));
            lemma_replaced_alike(
                u.pictures,
                j.pictures,
                i,
                l,
                d,
                PictureView { coding, ..u.pictures.last() },
                PictureView { coding, ..j.pictures.last() },
            );
        }
    }
}

/// One header does the same to both.
pub proof fn lemma_step_alike(
    data: Seq<u8>,
    other: Seq<u8>,
    code: StartCode,
    ends: int,
    u: ParseState,
    j: ParseState,
    i: int,
    l: int,
    by: int,
)
    requires
        stands_in_both(data, other, code, ends, by),
        has_room(data, code, ends, u),
        same_description(u, j) || code.code == start_code::SEQUENCE_HEADER,
        alike_behind(u.pictures, j.pictures, i, l, 8 * by),
        headers::parse_step(data, code, ends, u) is Ok,
    ensures
        ({
            let after_u = headers::parse_step(data, code, ends, u);
            let after_j = headers::parse_step(other, moved_code(code, by), ends - by, j);
            &&& after_j is Ok
            &&& same_description(after_u->Ok_0, after_j->Ok_0)
            &&& alike_behind(after_u->Ok_0.pictures, after_j->Ok_0.pictures, i, l, 8 * by)
        }),
{
    let moved = moved_code(code, by);
    let pos = (8 * code.payload_offset) as nat;
    let hi = 8 * ends;
    let d = 8 * by;
    assert(bits::advance(data, 0, pos) == pos);
    assert(8 * moved.payload_offset == pos - d);
    assert(bits::advance(other, 0, (pos - d) as nat) == pos - d);
    lemma_ended_alike(
        u.pictures,
        j.pictures,
        i,
        l,
        d,
        (8 * code.offset) as usize,
        (8 * moved.offset) as usize,
    );
    let ended_u = headers::slice_ended(u.pictures, (8 * code.offset) as usize);
    let ended_j = headers::slice_ended(j.pictures, (8 * moved.offset) as usize);
    let state_u = ParseState { pictures: ended_u, ..u };
    let state_j = ParseState { pictures: ended_j, ..j };
    if code.code == start_code::SEQUENCE_HEADER {
        assert(window(data, other, pos as int, hi, d));
        lemma_sequence_header_shift(data, other, pos as int, hi, d);
    } else if code.code == start_code::EXTENSION {
        lemma_extension_alike(data, other, code, ends, state_u, state_j, i, l, by);
    } else if code.code == start_code::PICTURE {
        reveal(headers::picture_step);
        assert(window(data, other, pos as int, hi, d));
        lemma_picture_header_shift(data, other, pos as int, hi, d);
        if u.sequence is Some {
            let after_u = headers::picture_step(data, pos, state_u);
            let after_j = headers::picture_step(other, (pos - d) as nat, state_j);
            lemma_pushed_alike(
                ended_u,
                ended_j,
                i,
                l,
                d,
                after_u.pictures.last(),
                after_j.pictures.last(),
            );
        }
    } else if start_code::SLICE_MIN <= code.code <= start_code::SLICE_MAX && ended_u.len() > i {
        let p = ended_u.last();
        let q = ended_j.last();
        let t = ended_u.len() - i - 1;
        assert(alike_picture(ended_u[i + t], ended_j[l + t], d));
        lemma_slice_shift(data, other, pos as int, hi, d, code.code, p, q);
        let a = PictureView {
            slices: p.slices.push(syntax::slice_at(data, pos, code.code, p)),
            ..p
        };
        let b = PictureView {
            slices: q.slices.push(syntax::slice_at(other, (pos - d) as nat, code.code, q)),
            ..q
        };
        assert forall|k: int| 0 <= k < a.slices.len() implies alike_slice(
            #[trigger] a.slices[k],
            b.slices[k],
            d,
        ) by {
            if k < p.slices.len() {
                assert(alike_slice(p.slices[k], q.slices[k], d));
            }
        }
        lemma_replaced_alike(ended_u, ended_j, i, l, d, a, b);
    }
}

} // verus!
