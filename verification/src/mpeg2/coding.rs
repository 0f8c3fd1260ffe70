//! What an encoder writes down for a motion vector or a block is what is decoded.
use crate::bits;
use crate::error::Error;
use crate::mpeg2::block;
use crate::mpeg2::block::MotionSpec;
use crate::mpeg2::constants::PictureStructure;
use crate::mpeg2::headers;
use crate::mpeg2::headers::PictureView;
use crate::mpeg2::vlc::VlcTable;
use vstd::arithmetic::div_mod;
use vstd::arithmetic::power2;
use vstd::prelude::*;

verus! {

/// How far a number lies from zero.
pub open spec fn magnitude(x: int) -> int {
    if x < 0 {
        -x
    } else {
        x
    }
}

/// The motion code that an encoder writes for a difference of `delta`, where one unit
/// of the code covers `f` positions: the first unit on either side of zero is one to
/// `f` away.
pub open spec fn code_for(delta: int, f: int) -> int {
    if delta == 0 {
        0
    } else if delta > 0 {
        (delta - 1) / f + 1
    } else {
        -((-delta - 1) / f + 1)
    }
}

/// The residual that an encoder writes behind that code: which of the `f` positions.
pub open spec fn residual_for(delta: int, f: int) -> int {
    (magnitude(delta) - 1) % f
}

/// The motion code at `pos`, and where what follows it begins.
pub open spec fn code_stands(data: Seq<u8>, pos: nat, code: int, next: nat) -> bool {
    &&& VlcTable::MotionCode.decoded(data, pos).0 == next
    &&& VlcTable::MotionCode.decoded(data, pos).1 is Ok
    &&& VlcTable::MotionCode.decoded(data, pos).1->Ok_0 == code
}

/// Where the code and the residual of a difference end, when the code ends at `after`.
pub open spec fn component_end(after: nat, f_code: u32, delta: int) -> int {
    if f_code > 1 && delta != 0 {
        after + f_code - 1
    } else {
        after as int
    }
}

/// Whether the code and the residual of the difference `delta` stand at `pos`: the code up
/// to `after`, and the residual behind it up to `end`.
pub open spec fn component_stands(
    data: Seq<u8>,
    pos: nat,
    after: nat,
    end: int,
    f_code: u32,
    delta: int,
) -> bool {
    let f = power2::pow2((f_code - 1) as nat) as int;
    &&& -16 * f <= delta <= 16 * f - 1
    &&& code_stands(data, pos, code_for(delta, f), after)
    &&& f_code > 1 && delta != 0 ==> bits::bits(data, after as int, (f_code - 1) as nat)
        == residual_for(delta, f) && after + f_code - 1 <= 8 * data.len()
    &&& end == component_end(after, f_code, delta)
}

/// Whether `vector` is `sum`, brought back by one whole range where that leaves the range.
pub open spec fn arrives(vector: int, sum: int, f: int) -> bool {
    &&& -16 * f <= vector <= 16 * f - 1
    &&& vector == sum || vector == sum + 32 * f || vector == sum - 32 * f
}

/// Positions per unit of a motion code stay below 2^14.
proof fn lemma_reach(f_code: u32)
    requires
        1 <= f_code < 16,
    ensures
        1 <= power2::pow2((f_code - 1) as nat) <= 0x4000,
        f_code == 1 ==> power2::pow2((f_code - 1) as nat) == 1,
        f_code > 1 ==> power2::pow2((f_code - 1) as nat) > 1,
{
    power2::lemma2_to64();
    if f_code - 1 < 14 {
        power2::lemma_pow2_strictly_increases((f_code - 1) as nat, 14);
    }
    if f_code > 1 {
        power2::lemma_pow2_strictly_increases(0, (f_code - 1) as nat);
    }
}

/// The code and the residual of a difference give it back.
proof fn lemma_difference(delta: int, f: int)
    requires
        f >= 1,
        delta != 0,
        magnitude(delta) <= 16 * f,
    ensures
        1 <= (magnitude(delta) - 1) / f + 1 <= 16,
        ((magnitude(delta) - 1) / f) * f + (magnitude(delta) - 1) % f + 1 == magnitude(delta),
        0 <= (magnitude(delta) - 1) % f < f,
{
    let m = magnitude(delta) - 1;
    div_mod::lemma_fundamental_div_mod(m, f);
    div_mod::lemma_mod_bound(m, f);
    let q = m / f;
    assert(f * q == q * f) by (nonlinear_arith);
    assert(0 <= q <= 15) by (nonlinear_arith)
        requires
            f >= 1,
            0 <= m <= 16 * f - 1,
            m == f * q + m % f,
            0 <= m % f < f,
    ;
}

/// Any difference that a vector of this `f_code` can have arrives: where the stream
/// holds the motion code and the residual of `delta`, the vector is the prediction moved
/// by `delta`, brought back by one whole range where it leaves the range of the `f_code`.
/// The cursor has passed the code and the residual, and no more.
pub proof fn law_a_difference_decodes_to_itself(
    data: Seq<u8>,
    pos: nat,
    next: nat,
    f_code: u32,
    predictor: i32,
    halved: bool,
    delta: int,
)
    requires
        1 <= f_code < 16,
        ({
            let f = power2::pow2((f_code - 1) as nat) as int;
            let prediction = if halved {
                predictor as int / 2
            } else {
                predictor as int
            };
            &&& -16 * f <= delta <= 16 * f - 1
            &&& -16 * f <= prediction <= 16 * f - 1
            &&& code_stands(data, pos, code_for(delta, f), next)
            &&& f_code > 1 && delta != 0 ==> bits::bits(
                data,
                next as int,
                (f_code - 1) as nat,
            ) == residual_for(delta, f) && next + f_code - 1 <= 8 * data.len()
        }),
    ensures
        ({
            let f = power2::pow2((f_code - 1) as nat) as int;
            let prediction = if halved {
                predictor as int / 2
            } else {
                predictor as int
            };
            let (end, outcome) = block::motion_component_at(data, pos, f_code, predictor, halved);
            &&& outcome is Ok
            &&& ({
                let (vector, left) = outcome->Ok_0;
                &&& -16 * f <= vector <= 16 * f - 1
                &&& {
                    ||| vector == prediction + delta
                    ||| vector == prediction + delta + 32 * f
                    ||| vector == prediction + delta - 32 * f
                }
                &&& left == if halved {
                    2 * vector
                } else {
                    vector as int
                }
            })
            &&& end == if f_code > 1 && delta != 0 {
                next + f_code - 1
            } else {
                next as int
            }
        }),
{
    reveal(block::motion_component_at);
    lemma_reach(f_code);
    let f = power2::pow2((f_code - 1) as nat) as int;
    assert(block::motion_scale(f_code) == f);
    if delta != 0 {
        lemma_difference(delta, f);
        let code = code_for(delta, f);
        let q = (magnitude(delta) - 1) / f;
        assert(code == q + 1 || code == -(q + 1));
        assert((code - 1) * f == q * f || delta < 0);
        assert((-code - 1) * f == q * f || delta > 0);
        if f == 1 {
            assert(q * 1 == q) by (nonlinear_arith);
        }
    }
}

/// The sign of a motion code is the sign of what it adds: two codes that differ in sign
/// alone, with the same residual behind them, move a vector predicted as zero equally far
/// to either side, a positive one upwards. Only sixteen whole units, which the range
/// holds on the negative side alone, come out on that side for both.
pub proof fn law_opposite_codes_move_oppositely(
    data: Seq<u8>,
    a: nat,
    after_a: nat,
    b: nat,
    after_b: nat,
    f_code: u32,
    code: int,
)
    requires
        1 <= f_code < 16,
        0 < code <= 16,
        code_stands(data, a, code, after_a),
        code_stands(data, b, -code, after_b),
        bits::bits(data, after_a as int, (f_code - 1) as nat) == bits::bits(
            data,
            after_b as int,
            (f_code - 1) as nat,
        ),
    ensures
        ({
            let f = power2::pow2((f_code - 1) as nat) as int;
            let up = block::motion_component_at(data, a, f_code, 0, false).1;
            let down = block::motion_component_at(data, b, f_code, 0, false).1;
            &&& up is Ok && down is Ok
            &&& down->Ok_0.0 < 0
            &&& (code - 1) * f < -down->Ok_0.0 <= code * f
            &&& {
                ||| up->Ok_0.0 == -down->Ok_0.0
                ||| up->Ok_0.0 == down->Ok_0.0 == -16 * f
            }
        }),
{
    reveal(block::motion_component_at);
    lemma_reach(f_code);
    let f = power2::pow2((f_code - 1) as nat) as int;
    let n = (f_code - 1) as nat;
    bits::lemma_bits_bound(data, after_a as int, n);
    let r = bits::bits(data, after_a as int, n) as int;
    let steps = code - 1;
    assert(block::motion_scale(f_code) == f);
    assert((-(-code) - 1) * f == steps * f);
    assert(code * f == steps * f + f) by (nonlinear_arith)
        requires
            steps == code - 1,
    ;
    assert(0 <= steps * f <= 15 * f) by (nonlinear_arith)
        requires
            0 <= steps <= 15,
            f >= 1,
    ;
    if f == 1 {
        assert(steps * 1 == steps) by (nonlinear_arith);
        assert(code * 1 == code) by (nonlinear_arith);
    }
}

/// What an encoder writes for a DC differential of `size` bits: the number itself where
/// it is positive, one less than the number in two's complement where it is negative.
pub open spec fn differential_bits(difference: int, size: nat) -> int {
    if difference > 0 {
        difference
    } else {
        difference - 1 + power2::pow2(size)
    }
}

/// A DC differential comes back: each number whose magnitude takes exactly `size` bits,
/// written in `size` bits.
pub proof fn law_dc_differences_decode(data: Seq<u8>, pos: nat, size: nat, difference: int)
    requires
        size >= 1,
        power2::pow2((size - 1) as nat) <= magnitude(difference) < power2::pow2(size),
        bits::bits(data, pos as int, size) == differential_bits(difference, size),
    ensures
        block::dc_differential_at(data, pos, size) == difference,
{
    power2::lemma_pow2_unfold(size);
    power2::lemma_pow2_pos((size - 1) as nat);
}

/// No bits are no difference.
pub proof fn law_no_bits_are_no_difference(data: Seq<u8>, pos: nat)
    ensures
        block::dc_differential_at(data, pos, 0) == 0,
{
}

/// An escaped level comes back. MPEG-2 writes it in twelve bits of two's complement;
/// MPEG-1 in one byte of two's complement up to 127, and in two beyond: a zero byte and
/// the level, or a byte of 128 and the level in two's complement.
pub proof fn law_escaped_levels_decode(data: Seq<u8>, pos: nat, is_mpeg1: bool, level: int)
    requires
        level != 0,
        pos + 16 <= 8 * data.len(),
        !is_mpeg1 ==> -2048 <= level < 2048 && bits::bits(data, pos as int, 12) == if level < 0 {
            level + 4096
        } else {
            level
        },
        is_mpeg1 ==> -256 < level < 256,
        is_mpeg1 && magnitude(level) < 128 ==> bits::bits(data, pos as int, 8) == if level < 0 {
            level + 256
        } else {
            level
        },
        is_mpeg1 && magnitude(level) >= 128 ==> bits::bits(data, pos as int, 8) == (if level < 0 {
            128int
        } else {
            0
        }) && bits::bits(data, pos as int + 8, 8) == if level < 0 {
            level + 256
        } else {
            level
        },
    ensures
        ({
            let (end, decoded) = block::escape_level_at(data, pos, is_mpeg1);
            &&& decoded is Ok
            &&& decoded->Ok_0 == level
            &&& end == pos + if !is_mpeg1 {
                12int
            } else if magnitude(level) < 128 {
                8
            } else {
                16
            }
        }),
{
}

/// A level that no coefficient has is refused: zero, and 256 below it.
pub proof fn law_no_level_is_refused(data: Seq<u8>, pos: nat)
    requires
        pos + 16 <= 8 * data.len(),
        bits::bits(data, pos as int, 8) == 0 || bits::bits(data, pos as int, 8) == 128,
        bits::bits(data, pos as int + 8, 8) == 0,
    ensures
        block::escape_level_at(data, pos, true).1 is Err,
{
}

/// A coefficient as an encoder has it: how many zeros of the scan stand before it, and
/// its level.
#[verifier::ext_equal]
pub struct Coefficient {
    pub run: nat,
    pub level: int,
}

/// Whether `c`, coded with a code of the table or escaped, stands at `pos`, up to `end`.
pub open spec fn coefficient_stands(
    data: Seq<u8>,
    pos: nat,
    end: nat,
    second: bool,
    is_mpeg1: bool,
    c: Coefficient,
) -> bool {
    let table = if second {
        VlcTable::Coefficients1
    } else {
        VlcTable::Coefficients0
    };
    let (next, symbol) = table.decoded(data, pos);
    &&& symbol is Ok
    &&& c.level != 0
    &&& {
        ||| {
            // A code names a run and a magnitude, and one bit the sign.
            &&& symbol->Ok_0 == 256 * c.run + magnitude(c.level)
            &&& magnitude(c.level) < 256
            &&& bits::bits(data, next as int, 1) == if c.level < 0 {
                1nat
            } else {
                0
            }
            &&& end == next + 1
        }
        ||| {
            // An escape is followed by six bits of run, and by the level.
            &&& symbol->Ok_0 == -2
            &&& bits::bits(data, next as int, 6) == c.run
            &&& next + 6 <= 8 * data.len()
            &&& block::escape_level_at(data, next + 6, is_mpeg1) == (
                end,
                Ok::<i32, Error>(c.level as i32),
            )
            &&& -2048 <= c.level < 2048
        }
    }
    &&& end <= 8 * data.len()
}

/// Whether the coefficients `list` stand at `pos` one behind the other, the last of them
/// followed by an end of block, up to `end`.
pub open spec fn coefficients_stand(
    data: Seq<u8>,
    marks: Seq<nat>,
    end: nat,
    second: bool,
    is_mpeg1: bool,
    list: Seq<Coefficient>,
) -> bool {
    let table = if second {
        VlcTable::Coefficients1
    } else {
        VlcTable::Coefficients0
    };
    &&& marks.len() == list.len() + 1
    &&& forall|k: int|
        0 <= k < list.len() ==> #[trigger] coefficient_stands(
            data,
            marks[k],
            marks[k as int + 1],
            second,
            is_mpeg1,
            list[k],
        )
    &&& table.decoded(data, marks[list.len() as int]) == (end, Ok::<i32, Error>(-1i32))
}

/// The index of the scan at which coefficient `k` of `list` lies, where the first of
/// them may lie at `first`.
pub open spec fn index_of(list: Seq<Coefficient>, first: nat, k: nat) -> nat
    decreases k,
{
    if k == 0 {
        first + list[0].run
    } else {
        index_of(list, first, (k - 1) as nat) + 1 + list[k as int].run
    }
}

/// Where the coefficients behind coefficient `k` of `list` may begin.
spec fn begins(list: Seq<Coefficient>, first: nat, k: nat) -> nat {
    if k == 0 {
        first
    } else {
        index_of(list, first, (k - 1) as nat) + 1
    }
}

/// The coefficients lie one behind the other.
proof fn lemma_indices_rise(list: Seq<Coefficient>, first: nat, j: nat, k: nat)
    requires
        j < k,
    ensures
        first <= index_of(list, first, j) < index_of(list, first, k),
    decreases k,
{
    if j + 1 < k {
        lemma_indices_rise(list, first, j, (k - 1) as nat);
    } else {
        lemma_first_index(list, first, j);
    }
}

/// No coefficient lies before the first index.
proof fn lemma_first_index(list: Seq<Coefficient>, first: nat, k: nat)
    ensures
        first <= index_of(list, first, k),
    decreases k,
{
    if k > 0 {
        lemma_first_index(list, first, (k - 1) as nat);
    }
}

/// One coefficient is taken, and what follows it decoded.
proof fn lemma_one_coefficient(
    data: Seq<u8>,
    pos: nat,
    end: nat,
    second: bool,
    is_mpeg1: bool,
    c: Coefficient,
    scan: Seq<usize>,
    n: nat,
    levels: Seq<i16>,
)
    requires
        coefficient_stands(data, pos, end, second, is_mpeg1, c),
        n + c.run < 64,
    ensures
        -2048 <= c.level < 2048,
        block::coefficients_at(data, pos, second, is_mpeg1, scan, n, levels)
            == block::coefficients_at(
            data,
            end,
            second,
            is_mpeg1,
            scan,
            n + c.run + 1,
            levels.update(scan[(n + c.run) as int] as int, c.level as i16),
        ),
{
    let table = block::coefficient_table(second);
    let (next, symbol) = table.decoded(data, pos);
    table.lemma_decoded(data, pos);
    let symbol = symbol->Ok_0;
    if symbol != -2 {
        let m = magnitude(c.level);
        assert(symbol as int / 256 == c.run);
        assert(symbol as int % 256 == m);
        assert(block::run_level_at(data, next, symbol, is_mpeg1) == (
            end,
            Ok::<(nat, i32), Error>((c.run, c.level as i32)),
        ));
    } else {
        assert(block::run_level_at(data, next, symbol, is_mpeg1) == (
            end,
            Ok::<(nat, i32), Error>((c.run, c.level as i32)),
        ));
    }
    assert(c.level as i32 as i16 == c.level as i16);
}

/// What is decoded from coefficient `k` on.
proof fn lemma_coefficients(
    data: Seq<u8>,
    marks: Seq<nat>,
    end: nat,
    second: bool,
    is_mpeg1: bool,
    scan: Seq<usize>,
    first: nat,
    list: Seq<Coefficient>,
    k: nat,
    levels: Seq<i16>,
)
    requires
        coefficients_stand(data, marks, end, second, is_mpeg1, list),
        list.len() > 0 ==> index_of(list, first, (list.len() - 1) as nat) < 64,
        k <= list.len(),
        is_order(scan),
        levels.len() == 64,
    ensures
        ({
            let (at, decoded) = block::coefficients_at(
                data,
                marks[k as int],
                second,
                is_mpeg1,
                scan,
                begins(list, first, k),
                levels,
            );
            &&& at == end
            &&& decoded is Ok
            &&& decoded->Ok_0.len() == 64
            &&& forall|j: nat|
                k <= j < list.len() ==> decoded->Ok_0[scan[#[trigger] index_of(
                    list,
                    first,
                    j,
                ) as int] as int] == list[j as int].level
            &&& forall|i: int|
                0 <= i < 64 && (forall|j: nat|
                    k <= j < list.len() ==> #[trigger] index_of(list, first, j) != i)
                    ==> decoded->Ok_0[(#[trigger] scan[i]) as int] == levels[scan[i] as int]
        }),
    decreases list.len() - k,
{
    if k < list.len() {
        let c = list[k as int];
        let n = begins(list, first, k);
        assert(coefficient_stands(data, marks[k as int], marks[k as int + 1], second, is_mpeg1, c));
        assert(n + c.run == index_of(list, first, k));
        if k + 1 < list.len() {
            lemma_indices_rise(list, first, k, (list.len() - 1) as nat);
        }
        let at = scan[(n + c.run) as int] as int;
        let next = levels.update(at, c.level as i16);
        lemma_one_coefficient(
            data,
            marks[k as int],
            marks[k as int + 1],
            second,
            is_mpeg1,
            c,
            scan,
            n,
            levels,
        );
        lemma_coefficients(data, marks, end, second, is_mpeg1, scan, first, list, k + 1, next);
        let decoded = block::coefficients_at(
            data,
            marks[k as int + 1],
            second,
            is_mpeg1,
            scan,
            begins(list, first, k + 1),
            next,
        ).1->Ok_0;
        let here = index_of(list, first, k);
        assert forall|j: nat| k + 1 <= j < list.len() implies #[trigger] index_of(list, first, j)
            != here by {
            lemma_indices_rise(list, first, k, j);
        }
        assert(decoded[scan[here as int] as int] == next[scan[here as int] as int]);
        assert forall|i: int|
            0 <= i < 64 && (forall|j: nat|
                k <= j < list.len() ==> #[trigger] index_of(list, first, j)
                    != i) implies decoded[(#[trigger] scan[i]) as int] == levels[scan[i] as int] by {
            assert(index_of(list, first, k) != i);
            assert(scan[i] != scan[here as int]);
            assert(decoded[scan[i] as int] == next[scan[i] as int]);
        }
    }
}

/// Whether `scan` visits each of 64 positions once.
pub open spec fn is_order(scan: Seq<usize>) -> bool {
    &&& scan.len() == 64
    &&& forall|i: int| 0 <= i < 64 ==> 0 <= #[trigger] scan[i] < 64
    &&& forall|i: int, j: int| 0 <= i < j < 64 ==> #[trigger] scan[i] != #[trigger] scan[j]
}

/// The coefficients of a block come back where the encoder had them: each behind its run
/// of zeros along the scan, with its level and its sign, and zeros everywhere else. The
/// cursor has passed the end of block.
pub proof fn law_coefficients_decode(
    data: Seq<u8>,
    marks: Seq<nat>,
    end: nat,
    second: bool,
    is_mpeg1: bool,
    scan: Seq<usize>,
    first: nat,
    list: Seq<Coefficient>,
    levels: Seq<i16>,
)
    requires
        coefficients_stand(data, marks, end, second, is_mpeg1, list),
        list.len() > 0 ==> index_of(list, first, (list.len() - 1) as nat) < 64,
        is_order(scan),
        levels.len() == 64,
    ensures
        ({
            let (at, decoded) = block::coefficients_at(
                data,
                marks[0],
                second,
                is_mpeg1,
                scan,
                first,
                levels,
            );
            &&& at == end
            &&& decoded is Ok
            &&& decoded->Ok_0.len() == 64
            &&& forall|j: nat|
                j < list.len() ==> decoded->Ok_0[scan[#[trigger] index_of(
                    list,
                    first,
                    j,
                ) as int] as int] == list[j as int].level
            &&& forall|i: int|
                0 <= i < 64 && (forall|j: nat|
                    j < list.len() ==> #[trigger] index_of(list, first, j) != i)
                    ==> decoded->Ok_0[(#[trigger] scan[i]) as int] == levels[scan[i] as int]
        }),
{
    lemma_coefficients(data, marks, end, second, is_mpeg1, scan, first, list, 0, levels);
}

/// The first coefficient of an intra block is the DC of its component, moved by the
/// differential in front: the four luma blocks share one predictor, each chroma block has
/// its own, and the others stay as they are. What follows the differential is decoded from
/// the second position of the scan on.
pub proof fn law_dc_is_predicted_per_component(
    data: Seq<u8>,
    pos: nat,
    next: nat,
    size: nat,
    difference: int,
    pic: PictureView,
    dc_pred: Seq<i32>,
    index: int,
)
    requires
        0 <= index < 6,
        dc_pred.len() == 3,
        (if index <= 3 {
            VlcTable::DcSizeLuma
        } else {
            VlcTable::DcSizeChroma
        }).decoded(data, pos) == (next, Ok::<i32, Error>(size as i32)),
        size <= 11,
        next + size <= 8 * data.len(),
        size == 0 ==> difference == 0,
        size >= 1 ==> power2::pow2((size - 1) as nat) <= magnitude(difference) < power2::pow2(size)
            && bits::bits(data, next as int, size) == differential_bits(difference, size),
        -10000 <= dc_pred[0] < 10000 && -10000 <= dc_pred[1] < 10000 && -10000 <= dc_pred[2]
            < 10000,
    ensures
        ({
            let (end, outcome) = block::block_at(data, pos, pic, dc_pred, index, true);
            let component = if index <= 3 {
                0int
            } else if index == 4 {
                1
            } else {
                2
            };
            let (at, levels) = block::coefficients_at(
                data,
                next + size,
                pic.coding.intra_vlc_format == 1,
                pic.is_mpeg1,
                headers::scan_of(pic.coding),
                1,
                Seq::new(
                    64,
                    |i: int|
                        if i == 0 {
                            (dc_pred[component] + difference) as i16
                        } else {
                            0
                        },
                ),
            );
            &&& end == at
            &&& outcome is Ok <==> levels is Ok
            &&& outcome is Ok ==> {
                &&& outcome->Ok_0.1 == levels->Ok_0
                &&& outcome->Ok_0.0.len() == 3
                &&& outcome->Ok_0.0[component] == dc_pred[component] + difference
                &&& forall|c: int|
                    0 <= c < 3 && c != component ==> outcome->Ok_0.0[c] == dc_pred[c]
            }
        }),
{
    reveal(block::block_at);
    power2::lemma2_to64();
    if size >= 1 {
        law_dc_differences_decode(data, next, size, difference);
        if size < 11 {
            power2::lemma_pow2_strictly_increases(size, 11);
        }
    }
    let component = if index <= 3 {
        0int
    } else if index == 4 {
        1
    } else {
        2
    };
    assert(-2048 < difference < 2048);
    let dc = dc_pred[component].wrapping_add(difference as i32);
    assert(dc == dc_pred[component] + difference);
    assert(block::no_levels().update(0, dc as i16) =~= Seq::new(
        64,
        |i: int|
            if i == 0 {
                (dc_pred[component] + difference) as i16
            } else {
                0
            },
    ));
}

/// A block that is not intra leaves the DC predictors alone. Its first coefficient, of
/// level one at the first position of the scan, may be written in two bits: a one and the
/// sign.
pub proof fn law_other_blocks_predict_no_dc(
    data: Seq<u8>,
    pos: nat,
    pic: PictureView,
    dc_pred: Seq<i32>,
    index: int,
)
    requires
        pos + 2 <= 8 * data.len(),
    ensures
        ({
            let (end, outcome) = block::block_at(data, pos, pic, dc_pred, index, false);
            let scan = headers::scan_of(pic.coding);
            &&& outcome is Ok ==> outcome->Ok_0.0 == dc_pred
            &&& bits::bits(data, pos as int, 1) == 0 ==> ({
                let (at, levels) = block::coefficients_at(
                    data,
                    pos,
                    false,
                    pic.is_mpeg1,
                    scan,
                    0,
                    Seq::new(64, |i: int| 0i16),
                );
                &&& end == at
                &&& outcome is Ok <==> levels is Ok
                &&& outcome is Ok ==> outcome->Ok_0.1 == levels->Ok_0
            })
            &&& bits::bits(data, pos as int, 1) == 1 ==> ({
                let (at, levels) = block::coefficients_at(
                    data,
                    pos + 2,
                    false,
                    pic.is_mpeg1,
                    scan,
                    1,
                    Seq::new(
                        64,
                        |i: int|
                            if i != scan[0] {
                                0i16
                            } else if bits::bits(data, pos as int + 1, 1) == 1 {
                                -1i16
                            } else {
                                1i16
                            },
                    ),
                );
                &&& end == at
                &&& outcome is Ok <==> levels is Ok
                &&& outcome is Ok ==> outcome->Ok_0.1 == levels->Ok_0
            })
        }),
{
    reveal(block::block_at);
    let scan = headers::scan_of(pic.coding);
    crate::mpeg2::constants::lemma_scans_in_range();
    let level = if bits::bits(data, pos as int + 1, 1) == 1 {
        -1i16
    } else {
        1i16
    };
    assert(block::no_levels().update(scan[0] as int, level) =~= Seq::new(
        64,
        |i: int|
            if i != scan[0] {
                0i16
            } else if bits::bits(data, pos as int + 1, 1) == 1 {
                -1i16
            } else {
                1i16
            },
    ));
}

/// How many vectors a macroblock has for each direction, and what they count in. In a
/// frame picture type 1 is one vector for each field, type 2 one for the frame; in a
/// field picture type 1 is one vector, type 2 one for each half of sixteen by eight.
/// Dual prime, type 3, has one field vector and the small one that goes with it, in either.
pub proof fn law_motion_types_name_their_vectors(structure: PictureStructure)
    ensures
        block::motion_format(structure, 3) == (MotionSpec {
            count: 1,
            field_format: true,
            dmv: true,
        }),
        structure is Frame ==> block::motion_format(structure, 1) == (MotionSpec {
            count: 2,
            field_format: true,
            dmv: false,
        }) && block::motion_format(structure, 2) == (MotionSpec {
            count: 1,
            field_format: false,
            dmv: false,
        }),
        !(structure is Frame) ==> block::motion_format(structure, 1) == (MotionSpec {
            count: 1,
            field_format: true,
            dmv: false,
        }) && block::motion_format(structure, 2) == (MotionSpec {
            count: 2,
            field_format: true,
            dmv: false,
        }),
{
}

/// Where one vector of a direction was read it predicts both vectors of that direction;
/// the predictors of the other direction stay. Predictor `[r][s][t]` is
/// number `4 * r + 2 * s + t`.
pub proof fn law_one_vector_predicts_both(
    pmv: Seq<i32>,
    forward: bool,
    backward: bool,
    s: int,
    t: int,
)
    requires
        0 <= s < 2,
        0 <= t < 2,
        pmv.len() == 8,
    ensures
        ({
            let after = block::mirrored(pmv, forward, backward);
            let was_read = if s == 0 {
                forward
            } else {
                backward
            };
            &&& after[2 * s + t] == pmv[2 * s + t]
            &&& was_read ==> after[4 + 2 * s + t] == after[2 * s + t]
            &&& !was_read ==> after[4 + 2 * s + t] == pmv[4 + 2 * s + t]
        }),
{
}

} // verus!
