//! What a decoder finds in the units of a picture.
use crate::h264::bitwriter;
use crate::h264::nal;
use crate::h264::packing;
use crate::h264::params;
use crate::h264::slice;
use crate::job::ContextView;
use crate::transcode::picture;
use crate::transcode::picture::PictureShape;
use crate::transcode::syntax;
use vstd::arithmetic::power2;
use vstd::prelude::*;

verus! {

/// How many bits of a slice stand in front of its macroblock `k`.
pub open spec fn bits_before(
    c: ContextView,
    shape: PictureShape,
    second: bool,
    coded: Seq<Seq<bool>>,
    first: int,
    k: nat,
) -> int
    decreases k,
{
    if k == 0 {
        slice::header_bits(picture::slice_config(c, shape, second)).len() as int
    } else {
        bits_before(c, shape, second, coded, first, (k - 1) as nat) + picture::macroblock_bits(
            c,
            shape,
            shape.place(first + k - 1),
            coded[first + k - 1],
        ).len()
    }
}

proof fn lemma_length(
    c: ContextView,
    shape: PictureShape,
    second: bool,
    coded: Seq<Seq<bool>>,
    first: int,
    n: nat,
)
    ensures
        picture::slice_bits(c, shape, second, coded, first, n).len() == bits_before(
            c,
            shape,
            second,
            coded,
            first,
            n,
        ),
    decreases n,
{
    if n > 0 {
        lemma_length(c, shape, second, coded, first, (n - 1) as nat);
    }
}

proof fn lemma_prefix(
    c: ContextView,
    shape: PictureShape,
    second: bool,
    coded: Seq<Seq<bool>>,
    first: int,
    k: nat,
    n: nat,
)
    requires
        k <= n,
    ensures
        ({
            let short = picture::slice_bits(c, shape, second, coded, first, k);
            let long = picture::slice_bits(c, shape, second, coded, first, n);
            short.len() <= long.len() && long.take(short.len() as int) == short
        }),
    decreases n - k,
{
    let short = picture::slice_bits(c, shape, second, coded, first, k);
    let long = picture::slice_bits(c, shape, second, coded, first, n);
    if k < n {
        lemma_prefix(c, shape, second, coded, first, k, (n - 1) as nat);
        let near = picture::slice_bits(c, shape, second, coded, first, (n - 1) as nat);
        assert(long.take(short.len() as int) =~= near.take(short.len() as int));
    } else {
        assert(long.take(short.len() as int) =~= short);
    }
}

/// A slice opens with its header, and its macroblocks follow one another in coding order,
/// each where the one before it ends, the last at the end of the slice.
pub proof fn law_macroblocks_follow_the_header(
    c: ContextView,
    shape: PictureShape,
    second: bool,
    coded: Seq<Seq<bool>>,
    first: int,
    n: nat,
    k: nat,
)
    requires
        k < n,
    ensures
        ({
            let all = picture::slice_bits(c, shape, second, coded, first, n);
            let header = slice::header_bits(picture::slice_config(c, shape, second));
            let from = bits_before(c, shape, second, coded, first, k);
            let to = bits_before(c, shape, second, coded, first, k + 1);
            &&& header.len() <= all.len()
            &&& all.take(header.len() as int) == header
            &&& header.len() <= from <= to <= all.len()
            &&& all.subrange(from, to) == picture::macroblock_bits(
                c,
                shape,
                shape.place(first + k),
                coded[first + k],
            )
            &&& k + 1 == n ==> to == all.len()
        }),
{
    let all = picture::slice_bits(c, shape, second, coded, first, n);
    let near = picture::slice_bits(c, shape, second, coded, first, k);
    let next = picture::slice_bits(c, shape, second, coded, first, k + 1);
    let own = picture::macroblock_bits(c, shape, shape.place(first + k), coded[first + k]);
    lemma_prefix(c, shape, second, coded, first, 0, n);
    lemma_prefix(c, shape, second, coded, first, 0, k);
    lemma_prefix(c, shape, second, coded, first, k + 1, n);
    lemma_length(c, shape, second, coded, first, k);
    lemma_length(c, shape, second, coded, first, k + 1);
    lemma_length(c, shape, second, coded, first, n);
    assert(next == near + own);
    assert(all.subrange(near.len() as int, next.len() as int) =~= all.take(
        next.len() as int,
    ).skip(near.len() as int));
    assert(next.skip(near.len() as int) =~= own);
}

/// A unit of a picture is framed for a byte stream: a start code, then the byte that says
/// what the unit is, then the slice, escaped so that no start code stands in it, closed by a
/// one bit and as many zeros as fill its last byte.
pub proof fn law_slices_are_framed(
    c: ContextView,
    shape: PictureShape,
    second: bool,
    coded: Seq<Seq<bool>>,
    first: int,
    n: nat,
)
    ensures
        ({
            let unit = picture::slice_unit(c, shape, second, coded, first, n);
            let bits = picture::slice_bits(c, shape, second, coded, first, n);
            let held = nal::unescaped(unit.skip(5), 0);
            &&& unit.len() >= 5
            &&& unit.take(4) == seq![0u8, 0u8, 0u8, 1u8]
            &&& unit[4] as int % 32 == picture::slice_kind(c, second)
            &&& unit[4] as int / 32 == picture::reference_idc(c, second)
            &&& held == bitwriter::packed(bits + bitwriter::trailing(bits.len()))
            &&& forall|i: int| !#[trigger] nal::emulates_start_code(unit.skip(5), i)
        }),
{
    let unit = picture::slice_unit(c, shape, second, coded, first, n);
    let bits = picture::slice_bits(c, shape, second, coded, first, n);
    let rbsp = params::closed_rbsp(bits);
    nal::law_unescape_inverts_escape(rbsp, 0);
    nal::law_escape_hides_start_codes(rbsp, 0);
    let inner = nal::escaped(rbsp, 0);
    assert(unit.skip(5) =~= inner);
    assert(unit.take(4) =~= seq![0u8, 0u8, 0u8, 1u8]);
    assert(nal::zero_bytes(0) + inner =~= inner);
}

/// A pair of field pictures is coded as two slices of half the macroblocks each, the first
/// field's in front; a delimiter parts them where fields are to be samples of their own. Any
/// other picture is one slice of all its macroblocks.
pub proof fn law_pictures_are_cut_into_slices(c: ContextView, shape: PictureShape, coded: Seq<Seq<bool>>)
    requires
        coded.len() == shape.count(),
        shape.pair ==> shape.count() == 2 * shape.field_count(),
    ensures
        ({
            let units = picture::picture_units(c, shape, coded);
            let half = (coded.len() / 2) as int;
            let one = picture::slice_unit(c, shape, false, coded, 0, half as nat);
            let two = picture::slice_unit(c, shape, true, coded, half, half as nat);
            &&& !shape.pair ==> units == picture::slice_unit(
                c,
                shape,
                false,
                coded,
                0,
                coded.len(),
            )
            &&& shape.pair ==> units.take(one.len() as int) == one && units.skip(
                units.len() - two.len(),
            ) == two
            &&& shape.pair && !c.options.split_field_samples ==> units.len() == one.len()
                + two.len()
            &&& shape.pair && c.options.split_field_samples ==> units.skip(one.len() as int).take(
                units.len() - one.len() - two.len(),
            ) == syntax::delimiter_unit()
        }),
{
    let units = picture::picture_units(c, shape, coded);
    if shape.pair {
        let half = (coded.len() / 2) as int;
        assert(half == shape.field_count());
        let one = picture::slice_unit(c, shape, false, coded, 0, half as nat);
        let two = picture::slice_unit(c, shape, true, coded, half, half as nat);
        assert(units.take(one.len() as int) =~= one);
        assert(units.skip(units.len() - two.len()) =~= two);
        if c.options.split_field_samples {
            assert(units.skip(one.len() as int).take(units.len() - one.len() - two.len())
                =~= syntax::delimiter_unit());
        }
    }
}

/// A delimiter is the smallest unit: its start code, its type, and a byte that allows every
/// kind of slice behind it.
pub proof fn law_delimiters_allow_every_slice()
    ensures
        syntax::delimiter_unit().len() == 6,
        syntax::delimiter_unit().take(4) == seq![0u8, 0u8, 0u8, 1u8],
        syntax::delimiter_unit()[4] == 9,
        syntax::delimiter_unit()[5] == 0xf0,
{
    let three = bitwriter::digits(7, 3);
    let bits = three + bitwriter::trailing(3);
    power2::lemma2_to64();
    assert(7nat / 4nat == 1 && 7nat / 2nat == 3 && 7nat / 1nat == 7);
    assert(three[0] == ((7nat / power2::pow2(2)) % 2 == 1));
    assert(three[1] == ((7nat / power2::pow2(1)) % 2 == 1));
    assert(three[2] == ((7nat / power2::pow2(0)) % 2 == 1));
    assert(bits.len() == 8);
    assert(bits[0] && bits[1] && bits[2] && bits[3]);
    assert(!bits[4] && !bits[5] && !bits[6] && !bits[7]);
    packing::law_bits_fill_bytes_from_the_top(bits, 0);
    let rbsp = bitwriter::packed(bits);
    assert(rbsp.len() == 1 && rbsp[0] == 0xf0);
    assert(rbsp.skip(1).len() == 0);
    reveal_with_fuel(nal::escaped, 2);
    assert(nal::escaped(rbsp, 0) =~= seq![0xf0u8]);
    assert(syntax::delimiter_unit() =~= seq![0u8, 0u8, 0u8, 1u8, 9u8, 0xf0u8]);
}

} // verus!
