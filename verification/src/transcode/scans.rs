//! The orders that levels are written in visit every place of a block once.
use crate::h264::params::{ZIGZAG_4X4, ZIGZAG_8X8};
use crate::h264::reconstruct::{FIELD_SCAN_4X4, FIELD_SCAN_8X8};
use crate::transcode::intra;
use vstd::prelude::*;

verus! {

/// A scan that another undoes visits every place once.
proof fn lemma_undone(scan: Seq<usize>, turns: Seq<usize>, len: int)
    requires
        scan.len() == len,
        turns.len() == len,
        forall|k: int| 0 <= k < len ==> #[trigger] scan[k] < len && turns[scan[k] as int] == k,
    ensures
        intra::is_scan(scan, len),
{
    assert forall|a: int, b: int| 0 <= a < b < len implies scan[a] != scan[b] by {
        assert(turns[scan[a] as int] == a);
        assert(turns[scan[b] as int] == b);
    }
}

/// When each place of a block is visited.
const TURNS_ZIGZAG_8X8: [usize; 64] = [
    0, 1, 5, 6, 14, 15, 27, 28, 2, 4, 7, 13, 16, 26, 29, 42,
    3, 8, 12, 17, 25, 30, 41, 43, 9, 11, 18, 24, 31, 40, 44, 53,
    10, 19, 23, 32, 39, 45, 52, 54, 20, 22, 33, 38, 46, 51, 55, 60,
    21, 34, 37, 47, 50, 56, 59, 61, 35, 36, 48, 49, 57, 58, 62, 63,
];

pub proof fn lemma_zigzag_8x8()
    ensures
        intra::is_scan(ZIGZAG_8X8@, 64),
{
    lemma_undone(ZIGZAG_8X8@, TURNS_ZIGZAG_8X8@, 64);
}

/// When each place of a block is visited.
const TURNS_FIELD_SCAN_8X8: [usize; 64] = [
    0, 3, 8, 15, 22, 30, 38, 52, 1, 4, 14, 21, 29, 37, 45, 53,
    2, 7, 16, 23, 31, 39, 46, 58, 5, 9, 20, 28, 36, 44, 51, 59,
    6, 13, 24, 32, 40, 47, 54, 60, 10, 17, 25, 33, 41, 48, 55, 61,
    11, 18, 26, 34, 42, 49, 56, 62, 12, 19, 27, 35, 43, 50, 57, 63,
];

pub proof fn lemma_field_8x8()
    ensures
        intra::is_scan(FIELD_SCAN_8X8@, 64),
{
    lemma_undone(FIELD_SCAN_8X8@, TURNS_FIELD_SCAN_8X8@, 64);
}

/// When each place of a block is visited.
const TURNS_ZIGZAG_4X4: [usize; 16] = [
    0, 1, 5, 6, 2, 4, 7, 12, 3, 8, 11, 13, 9, 10, 14, 15,
];

pub proof fn lemma_zigzag_4x4()
    ensures
        intra::is_scan(ZIGZAG_4X4@, 16),
{
    lemma_undone(ZIGZAG_4X4@, TURNS_ZIGZAG_4X4@, 16);
}

/// When each place of a block is visited.
const TURNS_FIELD_SCAN_4X4: [usize; 16] = [
    0, 2, 8, 12, 1, 5, 9, 13, 3, 6, 10, 14, 4, 7, 11, 15,
];

pub proof fn lemma_field_4x4()
    ensures
        intra::is_scan(FIELD_SCAN_4X4@, 16),
{
    lemma_undone(FIELD_SCAN_4X4@, TURNS_FIELD_SCAN_4X4@, 16);
}

} // verus!
