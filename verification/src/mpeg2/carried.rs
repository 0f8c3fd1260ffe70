//! A slice decodes to the same wherever its picture is carried to.
use crate::bitreader;
use crate::bits;
use crate::error::Error;
use crate::mpeg2::block;
use crate::mpeg2::block::MotionSpec;
use crate::mpeg2::constants::mb_flag;
use crate::mpeg2::headers;
use crate::mpeg2::headers::{PictureView, Slice};
use crate::mpeg2::macroblock;
use crate::mpeg2::macroblock::{MacroblockOutcome, MacroblockView, MotionView, SliceStateView};
use crate::mpeg2::standalone;
use crate::mpeg2::vlc;
use crate::mpeg2::vlc::VlcTable;
use crate::mpeg2::vlc_tables::{EOB, ESCAPE, MB_ADDR_ESCAPE};
use vstd::prelude::*;

verus! {

/// What stands from bit `lo` to bit `hi` of `a` stands `d` bits before in `b`, where `b`
/// ends with it. The bits behind it that decoding looks at are the same too: as many as
/// end a slice when they are zero.
pub open spec fn carried(a: Seq<u8>, b: Seq<u8>, lo: int, hi: int, d: int) -> bool {
    &&& 0 <= d <= lo <= hi
    &&& hi <= 8 * a.len()
    &&& hi - d == 8 * b.len()
    &&& standalone::same_bits(a, b, lo, hi + 23, d)
}

/// Bits that are the same spell the same.
proof fn lemma_spelt(a: Seq<u8>, b: Seq<u8>, lo: int, hi: int, d: int, pos: int, n: nat)
    requires
        forall|x: int|
            lo <= x < hi ==> #[trigger] bits::bit_at(a, x) == bits::bit_at(b, x - d),
        lo <= pos,
        pos + n <= hi,
    ensures
        bits::bits(a, pos, n) == bits::bits(b, pos - d, n),
    decreases n,
{
    if n > 0 {
        lemma_spelt(a, b, lo, hi, d, pos, (n - 1) as nat);
        assert(bits::bit_at(a, pos + n - 1) == bits::bit_at(b, pos + n - 1 - d));
    }
}

/// What is cut out of a stream up to a start code, or to its end, is carried along.
pub proof fn lemma_cut_carried(a: Seq<u8>, b: Seq<u8>, start: int, end: int, by: int)
    requires
        0 <= by <= start <= end <= a.len(),
        b.len() == end - by,
        forall|x: int| start <= x < end ==> a[x] == b[x - by],
        end == a.len() || bitreader::is_start_code(a, end),
    ensures
        carried(a, b, 8 * start, 8 * end, 8 * by),
{
    let lo = 8 * start;
    let hi = 8 * end;
    let d = 8 * by;
    assert forall|x: int| lo <= x < hi + 23 implies #[trigger] bits::bit_at(a, x) == bits::bit_at(
        b,
        x - d,
    ) by {
        if x < hi {
            assert((x - d) / 8 == x / 8 - by);
            assert((x - d) % 8 == x % 8);
            assert(a[x / 8] == b[x / 8 - by]);
        } else if end < a.len() {
            let byte = x / 8;
            if byte == end + 2 {
                assert(x % 8 <= 6);
                assert(bits::place(7 - x % 8) >= 2);
                assert(a[byte] == 1);
                vstd::arithmetic::div_mod::lemma_basic_div(1, bits::place(7 - x % 8) as int);
            } else {
                assert(byte == end || byte == end + 1);
                assert(a[byte] == 0);
                vstd::arithmetic::div_mod::lemma_basic_div(0, bits::place(7 - x % 8) as int);
            }
        }
    }
    assert forall|pos: int, n: nat|
        #![trigger bits::bits(a, pos, n)]
        lo <= pos && pos + n <= hi + 23 implies bits::bits(a, pos, n) == bits::bits(
        b,
        pos - d,
        n,
    ) by {
        lemma_spelt(a, b, lo, hi + 23, d, pos, n);
    }
}

/// Both could be read, to the same, or neither could.
pub open spec fn alike_result<T>(a: Result<T, Error>, b: Result<T, Error>) -> bool {
    match (a, b) {
        (Ok(x), Ok(y)) => x == y,
        (Err(_), Err(_)) => true,
        _ => false,
    }
}

/// What was read at one place was read `d` bits before at the other.
pub open spec fn alike_read<T>(
    a: (nat, Result<T, Error>),
    b: (nat, Result<T, Error>),
    d: int,
) -> bool {
    &&& b.0 == a.0 - d
    &&& alike_result(a.1, b.1)
}

/// The pictures are coded alike.
pub open spec fn coded_alike(p: PictureView, q: PictureView) -> bool {
    &&& p.is_mpeg1 == q.is_mpeg1
    &&& p.header == q.header
    &&& p.coding == q.coding
}

/// A code that stands at one place stands at the other.
proof fn lemma_find_row_carried(
    a: Seq<u8>,
    b: Seq<u8>,
    lo: int,
    hi: int,
    d: int,
    table: Seq<(u32, u32, i32)>,
    pos: nat,
    i: int,
)
    requires
        carried(a, b, lo, hi, d),
        lo <= pos <= hi,
        vlc::lengths_fit(table),
        0 <= i,
    ensures
        vlc::find_row(table, b, (pos - d) as nat, i) == vlc::find_row(table, a, pos, i),
    decreases table.len() - i,
{
    if i < table.len() {
        assert(1 <= table[i].1 <= 16);
        assert(bits::bits(a, pos as int, table[i].1 as nat) == bits::bits(
            b,
            pos - d,
            table[i].1 as nat,
        ));
        lemma_find_row_carried(a, b, lo, hi, d, table, pos, i + 1);
    }
}

/// A symbol moves the cursor forward, and is the same at both places.
proof fn lemma_symbol(
    a: Seq<u8>,
    b: Seq<u8>,
    lo: int,
    hi: int,
    d: int,
    table: VlcTable,
    pos: nat,
)
    requires
        pos <= 8 * a.len(),
    ensures
        pos <= table.decoded(a, pos).0 <= 8 * a.len(),
        carried(a, b, lo, hi, d) && lo <= pos && table.decoded(a, pos).0 <= hi ==> alike_read(
            table.decoded(a, pos),
            table.decoded(b, (pos - d) as nat),
            d,
        ),
{
    table.lemma_decoded(a, pos);
    if carried(a, b, lo, hi, d) && lo <= pos && table.decoded(a, pos).0 <= hi {
        table.lemma_rows();
        lemma_find_row_carried(a, b, lo, hi, d, table.rows(), pos, 0);
        vlc::lemma_find_row(table.rows(), a, pos, 0);
    }
}

/// A motion vector component is the same at both places.
proof fn lemma_component(
    a: Seq<u8>,
    b: Seq<u8>,
    lo: int,
    hi: int,
    d: int,
    pos: nat,
    f_code: u32,
    predictor: i32,
    halved: bool,
)
    requires
        pos <= 8 * a.len(),
        f_code < 16,
    ensures
        ({
            let at_a = block::motion_component_at(a, pos, f_code, predictor, halved);
            let at_b = block::motion_component_at(
                b,
                (pos - d) as nat,
                f_code,
                predictor,
                halved,
            );
            &&& pos <= at_a.0 <= 8 * a.len()
            &&& carried(a, b, lo, hi, d) && lo <= pos && at_a.0 <= hi ==> alike_read(at_a, at_b, d)
        }),
{
    reveal(block::motion_component_at);
    lemma_symbol(a, b, lo, hi, d, VlcTable::MotionCode, pos);
    let p1 = VlcTable::MotionCode.decoded(a, pos).0;
    let n = block::residual_bits(f_code);
    if carried(a, b, lo, hi, d) && lo <= pos && p1 <= hi {
        assert(bits::bits(a, p1 as int, n) == bits::bits(b, p1 - d, n));
    }
}

/// An escaped level is the same at both places.
proof fn lemma_escape(
    a: Seq<u8>,
    b: Seq<u8>,
    lo: int,
    hi: int,
    d: int,
    pos: nat,
    is_mpeg1: bool,
)
    requires
        pos <= 8 * a.len(),
    ensures
        ({
            let at_a = block::escape_level_at(a, pos, is_mpeg1);
            let at_b = block::escape_level_at(b, (pos - d) as nat, is_mpeg1);
            &&& pos <= at_a.0 <= 8 * a.len()
            &&& carried(a, b, lo, hi, d) && lo <= pos && at_a.0 <= hi ==> alike_read(at_a, at_b, d)
        }),
{
    if carried(a, b, lo, hi, d) && lo <= pos && block::escape_level_at(a, pos, is_mpeg1).0 <= hi {
        let p1 = bits::advance(a, pos, 8);
        assert(bits::bits(a, pos as int, 8) == bits::bits(b, pos - d, 8));
        assert(bits::bits(a, pos as int, 12) == bits::bits(b, pos - d, 12));
        assert(bits::bits(a, p1 as int, 8) == bits::bits(b, p1 - d, 8));
    }
}

/// A run and a level are the same at both places.
proof fn lemma_run_level(
    a: Seq<u8>,
    b: Seq<u8>,
    lo: int,
    hi: int,
    d: int,
    pos: nat,
    symbol: i32,
    is_mpeg1: bool,
)
    requires
        pos <= 8 * a.len(),
    ensures
        ({
            let at_a = block::run_level_at(a, pos, symbol, is_mpeg1);
            let at_b = block::run_level_at(b, (pos - d) as nat, symbol, is_mpeg1);
            &&& pos <= at_a.0 <= 8 * a.len()
            &&& carried(a, b, lo, hi, d) && lo <= pos && at_a.0 <= hi ==> alike_read(at_a, at_b, d)
        }),
{
    let p1 = bits::advance(a, pos, 6);
    lemma_escape(a, b, lo, hi, d, p1, is_mpeg1);
    if carried(a, b, lo, hi, d) && lo <= pos && block::run_level_at(
        a,
        pos,
        symbol,
        is_mpeg1,
    ).0 <= hi {
        assert(bits::bits(a, pos as int, 6) == bits::bits(b, pos - d, 6));
        assert(bits::bits(a, pos as int, 1) == bits::bits(b, pos - d, 1));
        if symbol == ESCAPE {
            assert(bits::advance(b, (pos - d) as nat, 6) == p1 - d);
        }
    }
}

/// The coefficients of a block are the same at both places.
proof fn lemma_coefficients(
    a: Seq<u8>,
    b: Seq<u8>,
    lo: int,
    hi: int,
    d: int,
    pos: nat,
    second: bool,
    is_mpeg1: bool,
    scan: Seq<usize>,
    n: nat,
    levels: Seq<i16>,
)
    requires
        pos <= 8 * a.len(),
    ensures
        ({
            let at_a = block::coefficients_at(a, pos, second, is_mpeg1, scan, n, levels);
            let at_b = block::coefficients_at(
                b,
                (pos - d) as nat,
                second,
                is_mpeg1,
                scan,
                n,
                levels,
            );
            &&& pos <= at_a.0 <= 8 * a.len()
            &&& carried(a, b, lo, hi, d) && lo <= pos && at_a.0 <= hi ==> alike_read(at_a, at_b, d)
        }),
    decreases 8 * a.len() - pos,
{
    let table = block::coefficient_table(second);
    lemma_symbol(a, b, lo, hi, d, table, pos);
    table.lemma_decoded(a, pos);
    let (p1, symbol) = table.decoded(a, pos);
    if symbol is Ok && symbol->Ok_0 != EOB {
        let symbol = symbol->Ok_0;
        lemma_run_level(a, b, lo, hi, d, p1, symbol, is_mpeg1);
        let (p2, pair) = block::run_level_at(a, p1, symbol, is_mpeg1);
        if pair is Ok && n + pair->Ok_0.0 <= 63 {
            let (run, level) = pair->Ok_0;
            lemma_coefficients(
                a,
                b,
                lo,
                hi,
                d,
                p2,
                second,
                is_mpeg1,
                scan,
                n + run + 1,
                levels.update(scan[(n + run) as int] as int, level as i16),
            );
        }
    }
}

/// The coefficients of a block, told by what they are and not by how they are read.
#[verifier::opaque]
spec fn coefficients(
    data: Seq<u8>,
    pos: nat,
    second: bool,
    is_mpeg1: bool,
    scan: Seq<usize>,
    n: nat,
    levels: Seq<i16>,
) -> (nat, Result<Seq<i16>, Error>) {
    block::coefficients_at(data, pos, second, is_mpeg1, scan, n, levels)
}

/// The coefficients of a block are the same at both places.
proof fn lemma_coefficients_carried(
    a: Seq<u8>,
    b: Seq<u8>,
    lo: int,
    hi: int,
    d: int,
    pos: nat,
    second: bool,
    is_mpeg1: bool,
    scan: Seq<usize>,
    n: nat,
    levels: Seq<i16>,
)
    requires
        pos <= 8 * a.len(),
    ensures
        ({
            let at_a = coefficients(a, pos, second, is_mpeg1, scan, n, levels);
            let at_b = coefficients(b, (pos - d) as nat, second, is_mpeg1, scan, n, levels);
            &&& pos <= at_a.0 <= 8 * a.len()
            &&& carried(a, b, lo, hi, d) && lo <= pos && at_a.0 <= hi ==> alike_read(at_a, at_b, d)
        }),
{
    reveal(coefficients);
    lemma_coefficients(a, b, lo, hi, d, pos, second, is_mpeg1, scan, n, levels);
}

/// An intra block: its first coefficient and the rest.
spec fn intra_block(data: Seq<u8>, pos: nat, pic: PictureView, dc_pred: Seq<i32>, block_index: int) -> (
    nat,
    Result<(Seq<i32>, Seq<i16>), Error>,
) {
    let (p1, size) = block::dc_size_table(block_index).decoded(data, pos);
    match size {
        Ok(size) => {
            let component = block::dc_component(block_index);
            let difference = block::dc_differential_at(data, p1, size as nat);
            let dc = dc_pred[component].wrapping_add(difference as i32);
            let (p2, levels) = coefficients(
                data,
                bits::advance(data, p1, size as nat),
                pic.coding.intra_vlc_format == 1,
                pic.is_mpeg1,
                headers::scan_of(pic.coding),
                1,
                block::no_levels().update(0, dc as i16),
            );
            match levels {
                Ok(levels) => (p2, Ok((dc_pred.update(component, dc), levels))),
                Err(e) => (p2, Err(e)),
            }
        },
        Err(e) => (p1, Err(e)),
    }
}

/// The levels of a block that is not intra.
spec fn other_levels(data: Seq<u8>, pos: nat, pic: PictureView) -> (nat, Result<Seq<i16>, Error>) {
    let scan = headers::scan_of(pic.coding);
    let p1 = bits::advance(data, pos, 1);
    let negative = bits::bits(data, p1 as int, 1) == 1;
    if bits::bits(data, pos as int, 1) == 1 {
        coefficients(
            data,
            bits::advance(data, p1, 1),
            false,
            pic.is_mpeg1,
            scan,
            1,
            block::no_levels().update(
                scan[0] as int,
                if negative {
                    -1i16
                } else {
                    1i16
                },
            ),
        )
    } else {
        coefficients(data, pos, false, pic.is_mpeg1, scan, 0, block::no_levels())
    }
}

/// A block is an intra block or another.
proof fn lemma_block_kinds(
    data: Seq<u8>,
    pos: nat,
    pic: PictureView,
    dc_pred: Seq<i32>,
    block_index: int,
)
    ensures
        block::block_at(data, pos, pic, dc_pred, block_index, true) == intra_block(
            data,
            pos,
            pic,
            dc_pred,
            block_index,
        ),
        block::block_at(data, pos, pic, dc_pred, block_index, false) == match other_levels(
            data,
            pos,
            pic,
        ) {
            (next, Ok(levels)) => (next, Ok::<(Seq<i32>, Seq<i16>), Error>((dc_pred, levels))),
            (next, Err(e)) => (next, Err(e)),
        },
{
    reveal(block::block_at);
    reveal(coefficients);
}

/// An intra block is the same at both places.
proof fn lemma_intra_block(
    a: Seq<u8>,
    b: Seq<u8>,
    lo: int,
    hi: int,
    d: int,
    pos: nat,
    p: PictureView,
    q: PictureView,
    dc_pred: Seq<i32>,
    block_index: int,
)
    requires
        pos <= 8 * a.len(),
        coded_alike(p, q),
    ensures
        ({
            let at_a = intra_block(a, pos, p, dc_pred, block_index);
            let at_b = intra_block(b, (pos - d) as nat, q, dc_pred, block_index);
            &&& pos <= at_a.0 <= 8 * a.len()
            &&& carried(a, b, lo, hi, d) && lo <= pos && at_a.0 <= hi ==> alike_read(at_a, at_b, d)
        }),
{
    let scan = headers::scan_of(p.coding);
    let second = p.coding.intra_vlc_format == 1;
    let table = block::dc_size_table(block_index);
    lemma_symbol(a, b, lo, hi, d, table, pos);
    table.lemma_decoded(a, pos);
    let (p1, size) = table.decoded(a, pos);
    if size is Ok {
        let size = size->Ok_0 as nat;
        let p2 = bits::advance(a, p1, size);
        let difference = block::dc_differential_at(a, p1, size);
        let component = block::dc_component(block_index);
        let dc = dc_pred[component].wrapping_add(difference as i32);
        let levels = block::no_levels().update(0, dc as i16);
        lemma_coefficients_carried(a, b, lo, hi, d, p2, second, p.is_mpeg1, scan, 1, levels);
        if carried(a, b, lo, hi, d) && lo <= pos && p2 <= hi {
            assert(bits::bits(a, p1 as int, size) == bits::bits(b, p1 - d, size));
            assert(bits::advance(b, (p1 - d) as nat, size) == p2 - d);
            assert(block::dc_differential_at(b, (p1 - d) as nat, size) == difference);
        }
    }
}

/// A block that is not intra is the same at both places.
proof fn lemma_other_block(
    a: Seq<u8>,
    b: Seq<u8>,
    lo: int,
    hi: int,
    d: int,
    pos: nat,
    p: PictureView,
    q: PictureView,
)
    requires
        pos <= 8 * a.len(),
        coded_alike(p, q),
    ensures
        ({
            let at_a = other_levels(a, pos, p);
            let at_b = other_levels(b, (pos - d) as nat, q);
            &&& pos <= at_a.0 <= 8 * a.len()
            &&& carried(a, b, lo, hi, d) && lo <= pos && at_a.0 <= hi ==> alike_read(at_a, at_b, d)
        }),
{
    let scan = headers::scan_of(p.coding);
    let p1 = bits::advance(a, pos, 1);
    let p2 = bits::advance(a, p1, 1);
    let negative = bits::bits(a, p1 as int, 1) == 1;
    if bits::bits(a, pos as int, 1) == 1 {
        let levels = block::no_levels().update(
            scan[0] as int,
            if negative {
                -1i16
            } else {
                1i16
            },
        );
        lemma_coefficients_carried(a, b, lo, hi, d, p2, false, p.is_mpeg1, scan, 1, levels);
        if carried(a, b, lo, hi, d) && lo <= pos && p2 <= hi {
            assert(bits::bits(a, pos as int, 1) == bits::bits(b, pos - d, 1));
            assert(bits::bits(a, p1 as int, 1) == bits::bits(b, p1 - d, 1));
            assert(bits::advance(b, (pos - d) as nat, 1) == p1 - d);
            assert(bits::advance(b, (p1 - d) as nat, 1) == p2 - d);
        }
    } else {
        let levels = block::no_levels();
        lemma_coefficients_carried(a, b, lo, hi, d, pos, false, p.is_mpeg1, scan, 0, levels);
        if carried(a, b, lo, hi, d) && lo <= pos <= hi {
            assert(bits::bits(a, pos as int, 1) == bits::bits(b, pos - d, 1));
        }
    }
}

/// A block is the same at both places.
proof fn lemma_block(
    a: Seq<u8>,
    b: Seq<u8>,
    lo: int,
    hi: int,
    d: int,
    pos: nat,
    p: PictureView,
    q: PictureView,
    dc_pred: Seq<i32>,
    block_index: int,
    intra: bool,
)
    requires
        pos <= 8 * a.len(),
        coded_alike(p, q),
    ensures
        ({
            let at_a = block::block_at(a, pos, p, dc_pred, block_index, intra);
            let at_b = block::block_at(b, (pos - d) as nat, q, dc_pred, block_index, intra);
            &&& pos <= at_a.0 <= 8 * a.len()
            &&& carried(a, b, lo, hi, d) && lo <= pos && at_a.0 <= hi ==> alike_read(at_a, at_b, d)
        }),
{
    lemma_block_kinds(a, pos, p, dc_pred, block_index);
    lemma_block_kinds(b, (pos - d) as nat, q, dc_pred, block_index);
    if intra {
        lemma_intra_block(a, b, lo, hi, d, pos, p, q, dc_pred, block_index);
    } else {
        lemma_other_block(a, b, lo, hi, d, pos, p, q);
    }
}

/// A component of the dual-prime differential is the same at both places.
proof fn lemma_dmvector(
    a: Seq<u8>,
    b: Seq<u8>,
    lo: int,
    hi: int,
    d: int,
    pos: nat,
    format: MotionSpec,
    before: i32,
)
    requires
        pos <= 8 * a.len(),
    ensures
        ({
            let at_a = macroblock::dmvector_at(a, pos, format, before);
            let at_b = macroblock::dmvector_at(b, (pos - d) as nat, format, before);
            &&& pos <= at_a.0 <= 8 * a.len()
            &&& carried(a, b, lo, hi, d) && lo <= pos && at_a.0 <= hi ==> alike_read(at_a, at_b, d)
        }),
{
    lemma_symbol(a, b, lo, hi, d, VlcTable::Dmvector, pos);
}

/// A vector is the same at both places.
proof fn lemma_vector(
    a: Seq<u8>,
    b: Seq<u8>,
    lo: int,
    hi: int,
    d: int,
    pos: nat,
    p: PictureView,
    q: PictureView,
    format: MotionSpec,
    s: int,
    v: int,
    motion: MotionView,
)
    requires
        pos <= 8 * a.len(),
        coded_alike(p, q),
        p.coding.wf(),
        0 <= s <= 1,
        0 <= v <= 1,
    ensures
        ({
            let at_a = macroblock::vector_at(a, pos, p, format, s, v, motion);
            let at_b = macroblock::vector_at(b, (pos - d) as nat, q, format, s, v, motion);
            &&& pos <= at_a.0 <= 8 * a.len()
            &&& carried(a, b, lo, hi, d) && lo <= pos && at_a.0 <= hi ==> alike_read(at_a, at_b, d)
        }),
{
    reveal(macroblock::vector_at);
    let selects = format.count == 2 || (format.field_format && !format.dmv);
    let p1 = if selects {
        bits::advance(a, pos, 1)
    } else {
        pos
    };
    let base = v * 4 + s * 2;
    let fx = macroblock::f_code_of(p, base);
    let fy = macroblock::f_code_of(p, base + 1);
    let halved = format.field_format && macroblock::is_frame(p);
    lemma_component(a, b, lo, hi, d, p1, fx, motion.pmv[base], false);
    let p2 = block::motion_component_at(a, p1, fx, motion.pmv[base], false).0;
    lemma_dmvector(a, b, lo, hi, d, p2, format, motion.dmvector[0]);
    let p3 = macroblock::dmvector_at(a, p2, format, motion.dmvector[0]).0;
    lemma_component(a, b, lo, hi, d, p3, fy, motion.pmv[base + 1], halved);
    let p4 = block::motion_component_at(a, p3, fy, motion.pmv[base + 1], halved).0;
    lemma_dmvector(a, b, lo, hi, d, p4, format, motion.dmvector[1]);
    if carried(a, b, lo, hi, d) && lo <= pos && p1 <= hi && selects {
        assert(bits::bits(a, pos as int, 1) == bits::bits(b, pos - d, 1));
        assert(bits::advance(b, (pos - d) as nat, 1) == p1 - d);
    }
}

/// The vectors of a direction are the same at both places.
proof fn lemma_vectors(
    a: Seq<u8>,
    b: Seq<u8>,
    lo: int,
    hi: int,
    d: int,
    pos: nat,
    p: PictureView,
    q: PictureView,
    format: MotionSpec,
    s: int,
    motion: MotionView,
)
    requires
        pos <= 8 * a.len(),
        coded_alike(p, q),
        p.coding.wf(),
        0 <= s <= 1,
    ensures
        ({
            let at_a = macroblock::vectors_at(a, pos, p, format, s, motion);
            let at_b = macroblock::vectors_at(b, (pos - d) as nat, q, format, s, motion);
            &&& pos <= at_a.0 <= 8 * a.len()
            &&& carried(a, b, lo, hi, d) && lo <= pos && at_a.0 <= hi ==> alike_read(at_a, at_b, d)
        }),
{
    reveal(macroblock::vectors_at);
    let begun = MotionView { mv_count: format.count, ..motion };
    lemma_vector(a, b, lo, hi, d, pos, p, q, format, s, 0, begun);
    let (p1, first) = macroblock::vector_at(a, pos, p, format, s, 0, begun);
    if first is Ok {
        lemma_vector(a, b, lo, hi, d, p1, p, q, format, s, 1, first->Ok_0);
    }
}

/// The motion of a macroblock is the same at both places.
proof fn lemma_motion(
    a: Seq<u8>,
    b: Seq<u8>,
    lo: int,
    hi: int,
    d: int,
    pos: nat,
    p: PictureView,
    q: PictureView,
    format: MotionSpec,
    forward: bool,
    backward: bool,
    pmv: Seq<i32>,
)
    requires
        pos <= 8 * a.len(),
        coded_alike(p, q),
        p.coding.wf(),
    ensures
        ({
            let at_a = macroblock::motion_at(a, pos, p, format, forward, backward, pmv);
            let at_b = macroblock::motion_at(
                b,
                (pos - d) as nat,
                q,
                format,
                forward,
                backward,
                pmv,
            );
            &&& pos <= at_a.0 <= 8 * a.len()
            &&& carried(a, b, lo, hi, d) && lo <= pos && at_a.0 <= hi ==> alike_read(at_a, at_b, d)
        }),
{
    reveal(macroblock::motion_at);
    let still = macroblock::still(pmv);
    lemma_vectors(a, b, lo, hi, d, pos, p, q, format, 0, still);
    let (p1, first) = if forward {
        macroblock::vectors_at(a, pos, p, format, 0, still)
    } else {
        (pos, Ok(still))
    };
    if first is Ok {
        lemma_vectors(a, b, lo, hi, d, p1, p, q, format, 1, first->Ok_0);
    }
}

/// The modes of a macroblock are the same at both places.
proof fn lemma_modes(
    a: Seq<u8>,
    b: Seq<u8>,
    lo: int,
    hi: int,
    d: int,
    pos: nat,
    p: PictureView,
    q: PictureView,
    flags: i32,
    code: u32,
)
    requires
        pos <= 8 * a.len(),
        coded_alike(p, q),
    ensures
        ({
            let at_a = macroblock::modes_at(a, pos, p, flags, code);
            let at_b = macroblock::modes_at(b, (pos - d) as nat, q, flags, code);
            &&& pos <= at_a.0 <= 8 * a.len()
            &&& carried(a, b, lo, hi, d) && lo <= pos && at_a.0 <= hi ==> at_b == ((at_a.0
                - d) as nat, at_a.1, at_a.2, at_a.3) && at_a.0 >= d
        }),
{
    reveal(macroblock::modes_at);
    if carried(a, b, lo, hi, d) && lo <= pos && macroblock::modes_at(a, pos, p, flags, code).0
        <= hi {
        let two = bits::advance(a, pos, 2);
        assert(bits::bits(a, pos as int, 2) == bits::bits(b, pos - d, 2));
        assert(bits::bits(a, pos as int, 1) == bits::bits(b, pos - d, 1));
        assert(bits::bits(a, pos as int, 5) == bits::bits(b, pos - d, 5));
        if two <= hi {
            let three = bits::advance(a, two, 1);
            assert(bits::bits(a, two as int, 1) == bits::bits(b, two - d, 1));
            assert(bits::bits(a, two as int, 5) == bits::bits(b, two - d, 5));
            if three <= hi {
                assert(bits::bits(a, three as int, 5) == bits::bits(b, three - d, 5));
            }
        }
        let one = bits::advance(a, pos, 1);
        if one <= hi {
            assert(bits::bits(a, one as int, 5) == bits::bits(b, one - d, 5));
        }
    }
}

/// The header of a macroblock is the same at both places.
#[verifier::rlimit(100)]
proof fn lemma_header(
    a: Seq<u8>,
    b: Seq<u8>,
    lo: int,
    hi: int,
    d: int,
    pos: nat,
    p: PictureView,
    q: PictureView,
    state: SliceStateView,
)
    requires
        pos <= 8 * a.len(),
        coded_alike(p, q),
        p.coding.wf(),
    ensures
        ({
            let at_a = macroblock::macroblock_header_at(a, pos, p, state);
            let at_b = macroblock::macroblock_header_at(b, (pos - d) as nat, q, state);
            &&& pos <= at_a.0 <= 8 * a.len()
            &&& carried(a, b, lo, hi, d) && lo <= pos && at_a.0 <= hi ==> alike_read(at_a, at_b, d)
        }),
{
    reveal(macroblock::macroblock_header_at);
    let table = macroblock::type_table(p.header.picture_coding_type);
    lemma_symbol(a, b, lo, hi, d, table, pos);
    let (p1, flags) = table.decoded(a, pos);
    if flags is Ok {
        let flags = flags->Ok_0;
        let conceals = macroblock::has_flag(flags, mb_flag::INTRA)
            && p.coding.concealment_motion_vectors;
        lemma_modes(a, b, lo, hi, d, p1, p, q, flags, state.quantiser_scale_code);
        let (p2, motion_type, dct_type, code) = macroblock::modes_at(
            a,
            p1,
            p,
            flags,
            state.quantiser_scale_code,
        );
        let forward = macroblock::has_flag(flags, mb_flag::MOTION_FORWARD) || conceals;
        let backward = macroblock::has_flag(flags, mb_flag::MOTION_BACKWARD);
        let format = block::motion_format(p.coding.picture_structure, motion_type);
        let pmv = macroblock::starting_predictors(p, flags, state.pmv);
        lemma_motion(a, b, lo, hi, d, p2, p, q, format, forward, backward, pmv);
        let (p3, motion) = macroblock::motion_at(a, p2, p, format, forward, backward, pmv);
        if motion is Ok {
            let p4 = if conceals {
                bits::advance(a, p3, 1)
            } else {
                p3
            };
            lemma_symbol(a, b, lo, hi, d, VlcTable::CodedBlockPattern, p4);
        }
    }
}

/// What decoding some blocks leaves is the same at both places.
pub open spec fn alike_blocks(
    a: (nat, Seq<i32>, Seq<Option<Seq<i16>>>, Result<(), Error>),
    b: (nat, Seq<i32>, Seq<Option<Seq<i16>>>, Result<(), Error>),
    d: int,
) -> bool {
    &&& b.0 == a.0 - d
    &&& b.1 == a.1
    &&& b.2 == a.2
    &&& alike_result(a.3, b.3)
}

/// The blocks of a macroblock are the same at both places.
proof fn lemma_blocks(
    a: Seq<u8>,
    b: Seq<u8>,
    lo: int,
    hi: int,
    d: int,
    pos: nat,
    p: PictureView,
    q: PictureView,
    dc_pred: Seq<i32>,
    intra: bool,
    cbp: i32,
    i: int,
    blocks: Seq<Option<Seq<i16>>>,
)
    requires
        pos <= 8 * a.len(),
        coded_alike(p, q),
    ensures
        ({
            let at_a = macroblock::blocks_at(a, pos, p, dc_pred, intra, cbp, i, blocks);
            let at_b = macroblock::blocks_at(
                b,
                (pos - d) as nat,
                q,
                dc_pred,
                intra,
                cbp,
                i,
                blocks,
            );
            &&& pos <= at_a.0 <= 8 * a.len()
            &&& carried(a, b, lo, hi, d) && lo <= pos && at_a.0 <= hi ==> alike_blocks(
                at_a,
                at_b,
                d,
            )
        }),
    decreases 6 - i,
{
    if i < 6 {
        if macroblock::block_coded(intra, cbp, i) {
            lemma_block(a, b, lo, hi, d, pos, p, q, dc_pred, i, intra);
            let (p1, levels) = block::block_at(a, pos, p, dc_pred, i, intra);
            if levels is Ok {
                let (left, levels) = levels->Ok_0;
                lemma_blocks(
                    a,
                    b,
                    lo,
                    hi,
                    d,
                    p1,
                    p,
                    q,
                    left,
                    intra,
                    cbp,
                    i + 1,
                    blocks.update(i, Some(levels)),
                );
            }
        } else {
            lemma_blocks(a, b, lo, hi, d, pos, p, q, dc_pred, intra, cbp, i + 1, blocks);
        }
    }
}

/// What decoding a macroblock leaves is the same at both places.
pub open spec fn alike_outcome(a: MacroblockOutcome, b: MacroblockOutcome, d: int) -> bool {
    &&& b.pos == a.pos - d
    &&& b.state == a.state
    &&& b.written == a.written
    &&& alike_result(a.result, b.result)
}

/// A macroblock is the same at both places.
proof fn lemma_macroblock(
    a: Seq<u8>,
    b: Seq<u8>,
    lo: int,
    hi: int,
    d: int,
    pos: nat,
    p: PictureView,
    q: PictureView,
    state: SliceStateView,
    address: usize,
)
    requires
        pos <= 8 * a.len(),
        coded_alike(p, q),
        p.coding.wf(),
    ensures
        ({
            let at_a = macroblock::macroblock_at(a, pos, p, state, address);
            let at_b = macroblock::macroblock_at(b, (pos - d) as nat, q, state, address);
            &&& pos <= at_a.pos <= 8 * a.len()
            &&& carried(a, b, lo, hi, d) && lo <= pos && at_a.pos <= hi ==> alike_outcome(
                at_a,
                at_b,
                d,
            )
        }),
{
    reveal(macroblock::macroblock_at);
    lemma_header(a, b, lo, hi, d, pos, p, q, state);
    let (p1, header) = macroblock::macroblock_header_at(a, pos, p, state);
    if header is Ok {
        let header = header->Ok_0;
        let intra = macroblock::has_flag(header.flags, mb_flag::INTRA);
        let fresh = macroblock::fresh_macroblock(address, header.quantiser_scale_code);
        lemma_blocks(
            a,
            b,
            lo,
            hi,
            d,
            p1,
            p,
            q,
            state.dc_pred,
            intra,
            header.cbp,
            0,
            fresh.blocks,
        );
    }
}

/// The stuffing in front of an address increment is the same at both places.
proof fn lemma_stuffing(a: Seq<u8>, b: Seq<u8>, lo: int, hi: int, d: int, pos: nat)
    requires
        pos <= 8 * a.len(),
    ensures
        pos <= macroblock::stuffing_end(a, pos) <= 8 * a.len(),
        carried(a, b, lo, hi, d) && lo <= pos && macroblock::stuffing_end(a, pos) <= hi ==> (
        macroblock::stuffing_end(b, (pos - d) as nat) == macroblock::stuffing_end(a, pos) - d),
    decreases 8 * a.len() - pos,
{
    if carried(a, b, lo, hi, d) && lo <= pos <= hi {
        assert(bits::bits(a, pos as int, 11) == bits::bits(b, pos - d, 11));
    }
    if pos < 8 * a.len() && bits::bits(a, pos as int, 11) == 0b00000001111 {
        lemma_stuffing(a, b, lo, hi, d, bits::advance(a, pos, 11));
    }
}

/// An address increment is the same at both places.
proof fn lemma_increment(
    a: Seq<u8>,
    b: Seq<u8>,
    lo: int,
    hi: int,
    d: int,
    pos: nat,
    is_mpeg1: bool,
    sum: int,
)
    requires
        pos <= 8 * a.len(),
    ensures
        ({
            let at_a = macroblock::address_increment_at(a, pos, is_mpeg1, sum);
            let at_b = macroblock::address_increment_at(b, (pos - d) as nat, is_mpeg1, sum);
            &&& pos <= at_a.0 <= 8 * a.len()
            &&& carried(a, b, lo, hi, d) && lo <= pos && at_a.0 <= hi ==> alike_read(at_a, at_b, d)
        }),
    decreases 8 * a.len() - pos,
{
    lemma_stuffing(a, b, lo, hi, d, pos);
    let p0 = if is_mpeg1 {
        macroblock::stuffing_end(a, pos)
    } else {
        pos
    };
    lemma_symbol(a, b, lo, hi, d, VlcTable::AddressIncrement, p0);
    VlcTable::AddressIncrement.lemma_decoded(a, p0);
    if carried(a, b, lo, hi, d) && lo <= pos && p0 <= hi {
        assert(bits::bits(a, p0 as int, 23) == bits::bits(b, p0 - d, 23));
    }
    let (p1, symbol) = VlcTable::AddressIncrement.decoded_or_stuffing(a, p0);
    if symbol is Ok && symbol->Ok_0 is Some && symbol->Ok_0->Some_0 == MB_ADDR_ESCAPE {
        lemma_increment(a, b, lo, hi, d, p1, is_mpeg1, sum + 33);
    }
}

/// Pictures that are coded alike skip alike.
proof fn lemma_skipped(
    p: PictureView,
    q: PictureView,
    state: SliceStateView,
    address: int,
    count: nat,
    grid: Seq<Option<MacroblockView>>,
)
    requires
        coded_alike(p, q),
    ensures
        macroblock::skipped_run(p, state, address, count, grid) == macroblock::skipped_run(
            q,
            state,
            address,
            count,
            grid,
        ),
    decreases count,
{
    if count > 0 {
        lemma_skipped(p, q, state, address, (count - 1) as nat, grid);
        let before = macroblock::skipped_run(p, state, address, (count - 1) as nat, grid).0;
        let at = (address + count) as usize;
        assert(macroblock::skipped_macroblock(p, before, at) == macroblock::skipped_macroblock(
            q,
            before,
            at,
        ));
    }
}

/// What decoding some macroblocks leaves is the same at both places.
pub open spec fn alike_macroblocks(
    a: (nat, Seq<Option<MacroblockView>>, Result<(), Error>),
    b: (nat, Seq<Option<MacroblockView>>, Result<(), Error>),
    d: int,
) -> bool {
    &&& b.0 == a.0 - d
    &&& b.1 == a.1
    &&& alike_result(a.2, b.2)
}

/// The macroblocks of a slice are the same at both places.
#[verifier::rlimit(60)]
proof fn lemma_macroblocks(
    a: Seq<u8>,
    b: Seq<u8>,
    lo: int,
    hi: int,
    d: int,
    pos: nat,
    p: PictureView,
    q: PictureView,
    state: SliceStateView,
    address: int,
    grid: Seq<Option<MacroblockView>>,
)
    requires
        pos <= 8 * a.len(),
        coded_alike(p, q),
        p.coding.wf(),
    ensures
        ({
            let at_a = macroblock::macroblocks_at(a, pos, p, state, address, grid);
            let at_b = macroblock::macroblocks_at(
                b,
                (pos - d) as nat,
                q,
                state,
                address,
                grid,
            );
            &&& pos <= at_a.0 <= 8 * a.len()
            &&& carried(a, b, lo, hi, d) && lo <= pos && at_a.0 <= hi ==> alike_macroblocks(
                at_a,
                at_b,
                d,
            )
        }),
    decreases 8 * a.len() - pos,
{
    lemma_increment(a, b, lo, hi, d, pos, p.is_mpeg1, 0);
    let (p1, step) = macroblock::address_increment_at(a, pos, p.is_mpeg1, 0);
    if step is Ok && step->Ok_0 is Some {
        let increment = step->Ok_0->Some_0;
        let skipped = (increment - 1) as nat;
        lemma_skipped(p, q, state, address, skipped, grid);
        let (state, grid) = macroblock::skipped_run(p, state, address, skipped, grid);
        let at = address + increment;
        lemma_macroblock(a, b, lo, hi, d, p1, p, q, state, at as usize);
        let outcome = macroblock::macroblock_at(a, p1, p, state, at as usize);
        if outcome.result is Ok && pos < outcome.pos {
            let mb = outcome.written->Some_0;
            lemma_macroblocks(
                a,
                b,
                lo,
                hi,
                d,
                outcome.pos,
                p,
                q,
                SliceStateView { prev_flags: Some(mb.flags), ..outcome.state },
                at,
                macroblock::placed(grid, at, macroblock::normalized(mb, p)),
            );
        }
    }
}

/// A slice that ends where its picture does at the latest decodes to the same macroblocks
/// wherever the picture is carried to.
pub proof fn law_a_slice_decodes_alike(
    a: Seq<u8>,
    b: Seq<u8>,
    lo: int,
    hi: int,
    d: int,
    p: PictureView,
    q: PictureView,
    one: Slice,
    other: Slice,
    mb_width: int,
    grid: Seq<Option<MacroblockView>>,
)
    requires
        carried(a, b, lo, hi, d),
        coded_alike(p, q),
        p.coding.wf(),
        standalone::alike_slice(one, other, d),
        lo <= one.data_start_bit <= 8 * a.len(),
        macroblock::slice_decoded(a, p, one, mb_width, grid).0 <= hi,
    ensures
        alike_macroblocks(
            macroblock::slice_decoded(a, p, one, mb_width, grid),
            macroblock::slice_decoded(b, q, other, mb_width, grid),
            d,
        ),
{
    let pos = bits::advance(a, 0, one.data_start_bit as nat);
    assert(pos == one.data_start_bit);
    assert(macroblock::slice_start(p, one) == macroblock::slice_start(q, other));
    lemma_macroblocks(
        a,
        b,
        lo,
        hi,
        d,
        pos,
        p,
        q,
        macroblock::slice_start(p, one),
        (one.vertical_position - 1) * mb_width - 1,
        grid,
    );
    assert(bits::advance(b, 0, other.data_start_bit as nat) == pos - d);
}

} // verus!
