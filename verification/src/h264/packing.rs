//! How bits make bytes, and bytes make units.
use crate::h264::bitwriter;
use crate::h264::nal;
use vstd::prelude::*;

verus! {

/// A bit as a number.
pub open spec fn worth(bits: Seq<bool>, i: int) -> int {
    if 0 <= i < bits.len() && bits[i] {
        1
    } else {
        0
    }
}

/// Bits fill bytes from the top: of eight the first is worth 128, and each of the others half
/// of the one before it. A byte that is not full ends in zeros.
pub proof fn law_bits_fill_bytes_from_the_top(bits: Seq<bool>, k: int)
    requires
        0 <= k < (bits.len() + 7) / 8,
    ensures
        bitwriter::packed(bits).len() == (bits.len() + 7) / 8,
        bitwriter::packed(bits)[k] == 128 * worth(bits, 8 * k) + 64 * worth(bits, 8 * k + 1) + 32
            * worth(bits, 8 * k + 2) + 16 * worth(bits, 8 * k + 3) + 8 * worth(bits, 8 * k + 4) + 4
            * worth(bits, 8 * k + 5) + 2 * worth(bits, 8 * k + 6) + worth(bits, 8 * k + 7),
{
    assert((8 * k) % 8 == 0);
    assert((8 * k + 1) % 8 == 1);
    assert((8 * k + 2) % 8 == 2);
    assert((8 * k + 3) % 8 == 3);
    assert((8 * k + 4) % 8 == 4);
    assert((8 * k + 5) % 8 == 5);
    assert((8 * k + 6) % 8 == 6);
    assert((8 * k + 7) % 8 == 7);
}

/// A unit opens with a start code of four bytes and one byte that says how much it is needed
/// and what it is; what follows is the payload with its zeros kept apart.
pub proof fn law_units_open_with_their_kind(rbsp: Seq<u8>, ref_idc: int, kind: int)
    requires
        0 <= ref_idc < 4,
        0 <= kind < 32,
    ensures
        ({
            let unit = nal::nal_unit(rbsp, ref_idc, kind);
            &&& unit.len() >= 5
            &&& unit[0] == 0 && unit[1] == 0 && unit[2] == 0 && unit[3] == 1
            &&& unit[4] % 32 == kind
            &&& (unit[4] / 32) % 4 == ref_idc
            &&& unit[4] < 128
            &&& unit.skip(5) == nal::escaped(rbsp, 0)
        }),
{
    let unit = nal::nal_unit(rbsp, ref_idc, kind);
    assert(unit.skip(5) =~= nal::escaped(rbsp, 0));
}

} // verus!
