//! The motion vector and block layers of a macroblock.
use crate::bitreader::BitReader;
use crate::bits;
use crate::bits::power_of_two;
use crate::error::Error;
use crate::mpeg2::constants;
use crate::mpeg2::constants::{PictureStructure, ALTERNATE_SCAN, ZIGZAG_SCAN};
use crate::mpeg2::headers;
use crate::mpeg2::headers::{Picture, PictureView};
use crate::mpeg2::motion_type;
use crate::mpeg2::vlc::VlcTable;
use crate::mpeg2::vlc_tables::{EOB, ESCAPE};
use vstd::arithmetic::power2;
use vstd::prelude::*;

verus! {

/// A DC differential of `size` bits at `pos`: a leading zero makes it negative.
pub open spec fn dc_differential_at(data: Seq<u8>, pos: nat, size: nat) -> int {
    let v = bits::bits(data, pos as int, size) as int;
    if size == 0 {
        0
    } else if v >= power2::pow2((size - 1) as nat) {
        v
    } else {
        v - power2::pow2(size) + 1
    }
}

pub fn signed_dc_differential(r: &mut BitReader<'_>, size: u32) -> (value: i32)
    requires
        old(r).wf(),
        size <= 16,
    ensures
        final(r).wf(),
        final(r).data() == old(r).data(),
        old(r).at() <= final(r).at(),
        final(r).at() == bits::advance(old(r).data(), old(r).at(), size as nat),
        value == dc_differential_at(old(r).data(), old(r).at(), size as nat),
        -0x1_0000 < value < 0x1_0000,
{
    if size == 0 {
        return 0;
    }
    proof {
        power2::lemma2_to64();
        if size < 16 {
            power2::lemma_pow2_strictly_increases(size as nat, 16);
        }
    }
    let v: i32 = r.u(size) as i32;
    // A leading zero means the value is negative; sign-extend from `size` bits.
    if v >= power_of_two(size - 1) as i32 {
        v
    } else {
        v - power_of_two(size) as i32 + 1
    }
}

/// Derived from the motion type: how many vectors, in which format, and whether
/// a dmvector follows (Tables 6-17 and 6-18).
#[derive(Clone, Copy, Debug, PartialEq, Eq, Structural)]
pub struct MotionSpec {
    pub count: usize,
    pub field_format: bool,
    pub dmv: bool,
}

/// The motion format of a macroblock in a picture of `structure`.
pub open spec fn motion_format(structure: PictureStructure, motion: i32) -> MotionSpec {
    let frame = structure == PictureStructure::Frame;
    if motion == motion_type::DUAL_PRIME {
        MotionSpec { count: 1, field_format: true, dmv: true }
    } else if frame && motion == motion_type::FIELD {
        MotionSpec { count: 2, field_format: true, dmv: false }
    } else if frame {
        MotionSpec { count: 1, field_format: false, dmv: false }
    } else if motion == motion_type::FIELD {
        MotionSpec { count: 1, field_format: true, dmv: false }
    } else {
        MotionSpec { count: 2, field_format: true, dmv: false }
    }
}

pub fn motion_spec(picture_structure: PictureStructure, motion: i32) -> (spec_: MotionSpec)
    ensures
        spec_ == motion_format(picture_structure, motion),
{
    let frame: bool = picture_structure == PictureStructure::Frame;
    if motion == motion_type::DUAL_PRIME {
        return MotionSpec { count: 1, field_format: true, dmv: true };
    }
    if frame {
        // Frame picture: 1 = two field vectors, 2 = one frame vector.
        return if motion == motion_type::FIELD {
            MotionSpec { count: 2, field_format: true, dmv: false }
        } else {
            MotionSpec { count: 1, field_format: false, dmv: false }
        };
    }
    // Field picture: 1 = one field vector, 2 = 16x8 (two vectors).
    if motion == motion_type::FIELD {
        MotionSpec { count: 1, field_format: true, dmv: false }
    } else {
        MotionSpec { count: 2, field_format: true, dmv: false }
    }
}

/// The residual bits that a motion vector component of this `f_code` carries.
pub open spec fn residual_bits(f_code: u32) -> nat {
    if f_code == 0 {
        0
    } else {
        (f_code - 1) as nat
    }
}

/// How far one unit of a motion code reaches.
pub open spec fn motion_scale(f_code: u32) -> int {
    power2::pow2(residual_bits(f_code)) as int
}

proof fn lemma_motion_scale(f_code: u32)
    requires
        f_code < 16,
    ensures
        1 <= motion_scale(f_code) <= 0x4000,
        f_code <= 1 ==> motion_scale(f_code) == 1,
        f_code > 1 ==> motion_scale(f_code) > 1,
{
    power2::lemma2_to64();
    if residual_bits(f_code) < 14 {
        power2::lemma_pow2_strictly_increases(residual_bits(f_code), 14);
    }
    if 0 < residual_bits(f_code) {
        power2::lemma_pow2_strictly_increases(0, residual_bits(f_code));
    }
}

/// How far a vector lies from its prediction, for a motion code and the residual
/// behind it.
pub open spec fn motion_delta(code: int, residual: int, scale: int) -> int {
    if scale == 1 || code == 0 {
        code
    } else if code < 0 {
        -((-code - 1) * scale + residual + 1)
    } else {
        (code - 1) * scale + residual + 1
    }
}

/// A vector component brought back into the range of its scale.
pub open spec fn wrapped_component(vector: int, scale: int) -> int {
    if vector < -16 * scale {
        vector + 32 * scale
    } else if vector > 16 * scale - 1 {
        vector - 32 * scale
    } else {
        vector
    }
}

/// One motion vector component at `pos`, and the predictor it leaves behind
/// (clause 7.6.3.1). Where `halved` is set the vector counts in field lines while
/// the predictor is kept in frame lines.
#[verifier::opaque]
pub open spec fn motion_component_at(
    data: Seq<u8>,
    pos: nat,
    f_code: u32,
    predictor: i32,
    halved: bool,
) -> (nat, Result<(i32, i32), Error>) {
    let (p1, code) = VlcTable::MotionCode.decoded(data, pos);
    match code {
        Ok(code) => {
            let scale = motion_scale(f_code);
            let coded = !(scale == 1 || code == 0);
            let p2 = if coded {
                bits::advance(data, p1, residual_bits(f_code))
            } else {
                p1
            };
            let residual = bits::bits(data, p1 as int, residual_bits(f_code)) as int;
            let prediction = if halved {
                predictor as int / 2
            } else {
                predictor as int
            };
            let vector = wrapped_component(
                prediction + motion_delta(code as int, residual, scale),
                scale,
            );
            (
                p2,
                Ok(
                    (
                        vector as i32,
                        if halved {
                            (2 * vector) as i32
                        } else {
                            vector as i32
                        },
                    ),
                ),
            )
        },
        Err(e) => (p1, Err(e)),
    }
}

/// Half of a number, rounded down.
pub fn half_down(x: i32) -> (h: i32)
    requires
        x > i32::MIN,
    ensures
        h == x as int / 2,
{
    if x >= 0 {
        x / 2
    } else {
        -((-x) / 2) - (-x) % 2
    }
}

/// A predictor that a vector of this `f_code` can leave behind.
pub open spec fn predictor_fits(predictor: i32, f_code: u32) -> bool {
    -32 * motion_scale(f_code) <= predictor <= 32 * motion_scale(f_code)
}

/// Decode one motion vector component and update its predictor (clause 7.6.3.1).
/// `f_code` selects the residual width and the wrap-around range.
///
/// `field_vertical_in_frame` is true for the vertical component of a field
/// motion vector in a frame picture. Such a vector counts in field lines while
/// the predictor is kept in frame lines, so the predictor is halved on the way
/// in and doubled on the way out.
pub fn decode_motion_component(
    r: &mut BitReader<'_>,
    f_code: u32,
    pmv: &mut [i32; 8],
    pmv_index: usize,
    field_vertical_in_frame: bool,
) -> (result: Result<i32, Error>)
    requires
        old(r).wf(),
        f_code < 16,
        pmv_index < 8,
        predictor_fits(old(pmv)@[pmv_index as int], f_code),
    ensures
        final(r).wf(),
        final(r).data() == old(r).data(),
        old(r).at() <= final(r).at(),
        ({
            let (pos, outcome) = motion_component_at(
                old(r).data(),
                old(r).at(),
                f_code,
                old(pmv)@[pmv_index as int],
                field_vertical_in_frame,
            );
            &&& final(r).at() == pos
            &&& match result {
                Ok(vector) => outcome is Ok && vector == outcome->Ok_0.0 && final(pmv)@ == old(
                    pmv,
                )@.update(pmv_index as int, outcome->Ok_0.1) && predictor_fits(
                    outcome->Ok_0.1,
                    f_code,
                ) && predictor_fits(vector, f_code),
                Err(e) => outcome == Err::<(i32, i32), Error>(e) && final(pmv)@ == old(pmv)@,
            }
        }),
{
    proof {
        reveal(motion_component_at);
        lemma_motion_scale(f_code);
        power2::lemma2_to64();
    }
    let code: i32 = match VlcTable::MotionCode.decode(r) {
        Ok(code) => code,
        Err(e) => return Err(e),
    };
    let r_size: u32 = if f_code == 0 {
        0
    } else {
        f_code - 1
    };
    let f: i32 = power_of_two(r_size) as i32;
    let delta: i32 = if f == 1 || code == 0 {
        code
    } else {
        let residual: i32 = r.u(r_size) as i32;
        let steps: i32 = if code < 0 {
            -code - 1
        } else {
            code - 1
        };
        assert(0 <= steps * f <= 15 * f) by (nonlinear_arith)
            requires
                0 <= steps <= 15,
                f >= 1,
        ;
        let magnitude: i32 = steps * f + residual + 1;
        if code < 0 {
            -magnitude
        } else {
            magnitude
        }
    };
    let high: i32 = 16 * f - 1;
    let low: i32 = -16 * f;
    let range: i32 = 32 * f;
    // DIV is division rounding toward minus infinity.
    let prediction: i32 = if field_vertical_in_frame {
        half_down(pmv[pmv_index])
    } else {
        pmv[pmv_index]
    };
    let mut vector: i32 = prediction + delta;
    if vector < low {
        vector = vector + range;
    } else if vector > high {
        vector = vector - range;
    }
    pmv[pmv_index] = if field_vertical_in_frame {
        vector * 2
    } else {
        vector
    };
    Ok(vector)
}

/// The predictors with those of the first vector copied to the second, for each
/// direction that was read.
pub open spec fn mirrored(pmv: Seq<i32>, forward: bool, backward: bool) -> Seq<i32> {
    Seq::new(
        8,
        |i: int|
            if (forward && (i == 4 || i == 5)) || (backward && (i == 6 || i == 7)) {
                pmv[i - 4]
            } else {
                pmv[i]
            },
    )
}

pub fn mirror_single_vector_predictors(pmv: &mut [i32; 8], forward: bool, backward: bool)
    ensures
        final(pmv)@ == mirrored(old(pmv)@, forward, backward),
{
    if forward {
        pmv[4] = pmv[0];
        pmv[5] = pmv[1];
    }
    if backward {
        pmv[6] = pmv[2];
        pmv[7] = pmv[3];
    }
}

/// The level of an escaped coefficient at `pos`.
pub open spec fn escape_level_at(data: Seq<u8>, pos: nat, is_mpeg1: bool) -> (
    nat,
    Result<i32, Error>,
) {
    if is_mpeg1 {
        let raw = bits::bits(data, pos as int, 8) as int;
        let p1 = bits::advance(data, pos, 8);
        let long = raw == 0 || raw == 128;
        let low = bits::bits(data, p1 as int, 8) as int;
        let level = if raw == 0 {
            low
        } else if raw == 128 {
            low - 256
        } else if raw > 128 {
            raw - 256
        } else {
            raw
        };
        let p2 = if long {
            bits::advance(data, p1, 8)
        } else {
            p1
        };
        if level == 0 || level == -256 {
            (p2, Err(Error::EscapeLevel { level: level as i32 }))
        } else {
            (p2, Ok(level as i32))
        }
    } else {
        let raw = bits::bits(data, pos as int, 12) as int;
        (
            bits::advance(data, pos, 12),
            Ok(
                (if raw >= 2048 {
                    raw - 4096
                } else {
                    raw
                }) as i32,
            ),
        )
    }
}

pub fn escape_level(r: &mut BitReader<'_>, is_mpeg1: bool) -> (result: Result<i32, Error>)
    requires
        old(r).wf(),
    ensures
        final(r).wf(),
        final(r).data() == old(r).data(),
        old(r).at() <= final(r).at(),
        (final(r).at(), result) == escape_level_at(old(r).data(), old(r).at(), is_mpeg1),
        result is Ok ==> -2048 <= result->Ok_0 < 2048,
{
    proof {
        power2::lemma2_to64();
    }
    if is_mpeg1 {
        // ISO/IEC 11172-2: the 8-bit values 0 and -128 introduce a second
        // byte. MPEG-2 instead always carries a signed 12-bit level.
        let raw: i32 = r.u(8) as i32;
        let level: i32 = if raw == 0 {
            r.u(8) as i32
        } else if raw == 128 {
            r.u(8) as i32 - 256
        } else if raw > 128 {
            raw - 256
        } else {
            raw
        };
        if level == 0 || level == -256 {
            return Err(Error::EscapeLevel { level });
        }
        Ok(level)
    } else {
        let raw: i32 = r.u(12) as i32;
        Ok(
            if raw >= 2048 {
                raw - 4096
            } else {
                raw
            },
        )
    }
}

/// The coefficient table of a block.
pub open spec fn coefficient_table(second: bool) -> VlcTable {
    if second {
        VlcTable::Coefficients1
    } else {
        VlcTable::Coefficients0
    }
}

/// One run and level at `pos`, behind the symbol `symbol`.
pub open spec fn run_level_at(data: Seq<u8>, pos: nat, symbol: i32, is_mpeg1: bool) -> (
    nat,
    Result<(nat, i32), Error>,
) {
    if symbol == ESCAPE {
        let run = bits::bits(data, pos as int, 6);
        let (p1, level) = escape_level_at(data, bits::advance(data, pos, 6), is_mpeg1);
        match level {
            Ok(level) => (p1, Ok((run, level))),
            Err(e) => (p1, Err(e)),
        }
    } else {
        let run = (symbol as int / 256) as nat;
        let level = symbol as int % 256;
        let negative = bits::bits(data, pos as int, 1) == 1;
        (
            bits::advance(data, pos, 1),
            Ok(
                (
                    run,
                    (if negative {
                        -level
                    } else {
                        level
                    }) as i32,
                ),
            ),
        )
    }
}

/// The coefficients of a block at `pos`, where the next one has index `n` of the
/// scan and `levels` holds those before it.
pub open spec fn coefficients_at(
    data: Seq<u8>,
    pos: nat,
    second: bool,
    is_mpeg1: bool,
    scan: Seq<usize>,
    n: nat,
    levels: Seq<i16>,
) -> (nat, Result<Seq<i16>, Error>)
    decreases 8 * data.len() - pos,
{
    let (p1, symbol) = coefficient_table(second).decoded(data, pos);
    match symbol {
        Ok(symbol) => if symbol == EOB {
            (p1, Ok(levels))
        } else {
            let (p2, pair) = run_level_at(data, p1, symbol, is_mpeg1);
            match pair {
                Ok((run, level)) => {
                    if n + run > 63 {
                        (
                            p2,
                            Err(Error::CoefficientIndex { index: (n + run) as usize, bit: p2 as usize }),
                        )
                    } else {
                        proof {
                            coefficient_table(second).lemma_decoded(data, pos);
                        }
                        coefficients_at(
                            data,
                            p2,
                            second,
                            is_mpeg1,
                            scan,
                            n + run + 1,
                            levels.update(scan[(n + run) as int] as int, level as i16),
                        )
                    }
                },
                Err(e) => (p2, Err(e)),
            }
        },
        Err(e) => (p1, Err(e)),
    }
}

/// The DC predictor that a block uses: luma, Cb or Cr.
pub open spec fn dc_component(block_index: int) -> int {
    if block_index < 4 {
        0
    } else {
        block_index - 3
    }
}

/// The DC size table of a block.
pub open spec fn dc_size_table(block_index: int) -> VlcTable {
    if block_index < 4 {
        VlcTable::DcSizeLuma
    } else {
        VlcTable::DcSizeChroma
    }
}

/// A block without a coefficient.
pub open spec fn no_levels() -> Seq<i16> {
    Seq::new(64, |i: int| 0i16)
}

/// A block at `pos`: its levels in raster order, and the DC predictors it leaves.
#[verifier::opaque]
pub open spec fn block_at(
    data: Seq<u8>,
    pos: nat,
    pic: PictureView,
    dc_pred: Seq<i32>,
    block_index: int,
    intra: bool,
) -> (nat, Result<(Seq<i32>, Seq<i16>), Error>) {
    let scan = headers::scan_of(pic.coding);
    // Intra blocks use Table B.15 when intra_vlc_format is set; everything else
    // uses Table B.14.
    let second = intra && pic.coding.intra_vlc_format == 1;
    if intra {
        let (p1, size) = dc_size_table(block_index).decoded(data, pos);
        match size {
            Ok(size) => {
                let component = dc_component(block_index);
                let difference = dc_differential_at(data, p1, size as nat);
                let dc = dc_pred[component].wrapping_add(difference as i32);
                let (p2, levels) = coefficients_at(
                    data,
                    bits::advance(data, p1, size as nat),
                    second,
                    pic.is_mpeg1,
                    scan,
                    1,
                    no_levels().update(0, dc as i16),
                );
                match levels {
                    Ok(levels) => (p2, Ok((dc_pred.update(component, dc), levels))),
                    Err(e) => (p2, Err(e)),
                }
            },
            Err(e) => (p1, Err(e)),
        }
    } else {
        // The first coefficient of a non-intra block uses the one-bit code '1'
        // for (run 0, level 1); Table B.14's '11' form applies only from the
        // second coefficient onwards.
        let short = bits::bits(data, pos as int, 1) == 1;
        let p1 = bits::advance(data, pos, 1);
        let negative = bits::bits(data, p1 as int, 1) == 1;
        let (p2, levels) = if short {
            coefficients_at(
                data,
                bits::advance(data, p1, 1),
                second,
                pic.is_mpeg1,
                scan,
                1,
                no_levels().update(
                    scan[0] as int,
                    if negative {
                        -1i16
                    } else {
                        1i16
                    },
                ),
            )
        } else {
            coefficients_at(data, pos, second, pic.is_mpeg1, scan, 0, no_levels())
        };
        match levels {
            Ok(levels) => (p2, Ok((dc_pred, levels))),
            Err(e) => (p2, Err(e)),
        }
    }
}

/// Decode the run and level behind `symbol`.
fn decode_run_level(r: &mut BitReader<'_>, symbol: i32, is_mpeg1: bool) -> (result: Result<
    (usize, i32),
    Error,
>)
    requires
        old(r).wf(),
        -2 <= symbol <= 7937,
        symbol != EOB,
    ensures
        final(r).wf(),
        final(r).data() == old(r).data(),
        old(r).at() <= final(r).at(),
        final(r).at() == run_level_at(old(r).data(), old(r).at(), symbol, is_mpeg1).0,
        match result {
            Ok((run, level)) => run <= 63 && run_level_at(
                old(r).data(),
                old(r).at(),
                symbol,
                is_mpeg1,
            ).1 == Ok::<(nat, i32), Error>((run as nat, level)),
            Err(e) => run_level_at(old(r).data(), old(r).at(), symbol, is_mpeg1).1 == Err::<
                (nat, i32),
                Error,
            >(e),
        },
{
    proof {
        power2::lemma2_to64();
    }
    if symbol == ESCAPE {
        let run: usize = r.u(6) as usize;
        match escape_level(r, is_mpeg1) {
            Ok(level) => Ok((run, level)),
            Err(e) => Err(e),
        }
    } else {
        let run: usize = (symbol / 256) as usize;
        let level: i32 = symbol % 256;
        if r.flag() {
            Ok((run, -level))
        } else {
            Ok((run, level))
        }
    }
}

/// Decode the coefficients of a block, the next of which has index `first`.
fn decode_coefficients(
    r: &mut BitReader<'_>,
    second: bool,
    is_mpeg1: bool,
    scan: &[usize; 64],
    first: usize,
    out: &mut [i16; 64],
) -> (result: Result<(), Error>)
    requires
        old(r).wf(),
        first <= 1,
        forall|i: int| 0 <= i < 64 ==> 0 <= #[trigger] scan@[i] < 64,
    ensures
        final(r).wf(),
        final(r).data() == old(r).data(),
        old(r).at() <= final(r).at(),
        ({
            let (pos, levels) = coefficients_at(
                old(r).data(),
                old(r).at(),
                second,
                is_mpeg1,
                scan@,
                first as nat,
                old(out)@,
            );
            &&& final(r).at() == pos
            &&& match result {
                Ok(()) => levels == Ok::<Seq<i16>, Error>(final(out)@),
                Err(e) => levels == Err::<Seq<i16>, Error>(e),
            }
        }),
{
    let ghost goal = coefficients_at(
        r.data(),
        r.at(),
        second,
        is_mpeg1,
        scan@,
        first as nat,
        out@,
    );
    let ghost data = r.data();
    let mut n: usize = first;
    loop
        invariant
            r.wf(),
            data == old(r).data(),
            r.data() == data,
            old(r).at() <= r.at(),
            goal == coefficients_at(
                data,
                old(r).at(),
                second,
                is_mpeg1,
                scan@,
                first as nat,
                old(out)@,
            ),
            n <= 64,
            forall|i: int| 0 <= i < 64 ==> 0 <= #[trigger] scan@[i] < 64,
            coefficients_at(data, r.at(), second, is_mpeg1, scan@, n as nat, out@) == goal,
        decreases 8 * r.data().len() - r.at(),
    {
        proof {
            coefficient_table(second).lemma_decoded(r.data(), r.at());
        }
        let table = if second {
            VlcTable::Coefficients1
        } else {
            VlcTable::Coefficients0
        };
        let symbol: i32 = match table.decode(r) {
            Ok(symbol) => symbol,
            Err(e) => return Err(e),
        };
        if symbol == EOB {
            return Ok(());
        }
        let (run, level): (usize, i32) = match decode_run_level(r, symbol, is_mpeg1) {
            Ok(pair) => pair,
            Err(e) => return Err(e),
        };
        n = n + run;
        if n > 63 {
            return Err(Error::CoefficientIndex { index: n, bit: r.bit_pos() });
        }
        out[scan[n]] = level as i16;
        n = n + 1;
    }
}

/// Decode the block layer: run/level pairs into an 8x8 array of levels.
pub fn decode_block(
    r: &mut BitReader<'_>,
    pic: &Picture,
    dc_pred: &mut [i32; 3],
    block_index: usize,
    intra: bool,
    out: &mut [i16; 64],
) -> (result: Result<(), Error>)
    requires
        old(r).wf(),
        block_index < 6,
    ensures
        final(r).wf(),
        final(r).data() == old(r).data(),
        old(r).at() <= final(r).at(),
        ({
            let (pos, block) = block_at(
                old(r).data(),
                old(r).at(),
                pic@,
                old(dc_pred)@,
                block_index as int,
                intra,
            );
            &&& final(r).at() == pos
            &&& match result {
                Ok(()) => block == Ok::<(Seq<i32>, Seq<i16>), Error>(
                    (final(dc_pred)@, final(out)@),
                ),
                Err(e) => block == Err::<(Seq<i32>, Seq<i16>), Error>(e),
            }
        }),
{
    proof {
        reveal(block_at);
        constants::lemma_scans_in_range();
    }
    *out = [0; 64];
    assert(out@ =~= no_levels());
    let scan: &[usize; 64] = if pic.coding.alternate_scan {
        &ALTERNATE_SCAN
    } else {
        &ZIGZAG_SCAN
    };
    let second: bool = intra && pic.coding.intra_vlc_format == 1;
    let mut first: usize = 0;
    if intra {
        let is_luma: bool = block_index < 4;
        let table = if is_luma {
            VlcTable::DcSizeLuma
        } else {
            VlcTable::DcSizeChroma
        };
        let size: u32 = match table.decode(r) {
            Ok(size) => size as u32,
            Err(e) => return Err(e),
        };
        let component: usize = if is_luma {
            0
        } else {
            block_index - 3
        };  // 0 = Y, 1 = Cb, 2 = Cr
        let difference: i32 = signed_dc_differential(r, size);
        dc_pred[component] = dc_pred[component].wrapping_add(difference);
        out[0] = dc_pred[component] as i16;
        first = 1;
    } else if r.peek(1) == 1 {
        r.skip(1);
        out[scan[0]] = if r.flag() {
            -1
        } else {
            1
        };
        first = 1;
    }
    decode_coefficients(r, second, pic.is_mpeg1, scan, first, out)
}

} // verus!
