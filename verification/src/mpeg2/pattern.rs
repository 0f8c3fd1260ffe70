//! What the coded block pattern of a decoded macroblock says.
use crate::bits;
use crate::mpeg2::block;
use crate::mpeg2::constants::mb_flag;
use crate::mpeg2::headers::{PictureView, Slice};
use crate::mpeg2::macroblock;
use crate::mpeg2::macroblock::{MacroblockView, SliceStateView};
use crate::mpeg2::vlc::VlcTable;
use vstd::prelude::*;

verus! {

/// The bit of a coded block pattern that stands for block `i`: the first block's is the
/// highest of six.
pub open spec fn pattern_bit(i: int) -> i32 {
    bits::place(5 - i) as i32
}

/// The macroblock knows where it stands, holds exactly the blocks that its pattern says,
/// all of them where it is intra, and none where it was skipped.
pub open spec fn shaped(mb: MacroblockView, at: int) -> bool {
    &&& mb.address == at
    &&& mb.blocks.len() == 6
    &&& forall|i: int|
        0 <= i < 6 ==> ((#[trigger] mb.blocks[i]) is Some <==> macroblock::has_flag(
            mb.cbp,
            pattern_bit(i),
        ))
    &&& macroblock::has_flag(mb.flags, mb_flag::INTRA) ==> mb.cbp == 0x3f
    &&& mb.skipped ==> mb.cbp == 0
}

/// Every macroblock of a picture is shaped.
pub open spec fn all_shaped(grid: Seq<Option<MacroblockView>>) -> bool {
    forall|at: int|
        0 <= at < grid.len() ==> ((#[trigger] grid[at]) matches Some(mb) ==> shaped(mb, at))
}

/// The digit of a pattern that stands for a block is the bit that does.
proof fn lemma_pattern_bit(cbp: i32, i: int)
    requires
        0 <= cbp <= 63,
        0 <= i < 6,
    ensures
        macroblock::has_flag(cbp, pattern_bit(i)) == macroblock::block_coded(false, cbp, i),
{
    assert(((cbp & 32) != 0) == ((cbp / 32) % 2 == 1) && ((cbp & 16) != 0) == ((cbp / 16) % 2 == 1)
        && ((cbp & 8) != 0) == ((cbp / 8) % 2 == 1) && ((cbp & 4) != 0) == ((cbp / 4) % 2 == 1)
        && ((cbp & 2) != 0) == ((cbp / 2) % 2 == 1) && ((cbp & 1) != 0) == (cbp % 2 == 1))
        by (bit_vector)
        requires
            0 <= cbp <= 63,
    ;
}

/// Every block is in the pattern of an intra macroblock, and none in an empty one.
proof fn lemma_full_and_empty(i: int)
    requires
        0 <= i < 6,
    ensures
        macroblock::has_flag(0x3f, pattern_bit(i)),
        !macroblock::has_flag(0, pattern_bit(i)),
{
    lemma_pattern_bit(0x3f, i);
    lemma_pattern_bit(0, i);
}

/// The blocks from block `i` on fill what the pattern says, and no other.
proof fn lemma_blocks(
    data: Seq<u8>,
    pos: nat,
    pic: PictureView,
    dc_pred: Seq<i32>,
    intra: bool,
    cbp: i32,
    i: int,
    blocks: Seq<Option<Seq<i16>>>,
)
    requires
        0 <= i <= 6,
        blocks.len() == 6,
        forall|k: int|
            0 <= k < i ==> ((#[trigger] blocks[k]) is Some <==> macroblock::block_coded(
                intra,
                cbp,
                k,
            )),
        forall|k: int| i <= k < 6 ==> (#[trigger] blocks[k]) is None,
        macroblock::blocks_at(data, pos, pic, dc_pred, intra, cbp, i, blocks).3 is Ok,
    ensures
        ({
            let after = macroblock::blocks_at(data, pos, pic, dc_pred, intra, cbp, i, blocks).2;
            &&& after.len() == 6
            &&& forall|k: int|
                0 <= k < 6 ==> ((#[trigger] after[k]) is Some <==> macroblock::block_coded(
                    intra,
                    cbp,
                    k,
                ))
        }),
    decreases 6 - i,
{
    if i < 6 {
        if macroblock::block_coded(intra, cbp, i) {
            let (p1, levels) = block::block_at(data, pos, pic, dc_pred, i, intra);
            if let Ok((dc, levels)) = levels {
                lemma_blocks(
                    data,
                    p1,
                    pic,
                    dc,
                    intra,
                    cbp,
                    i + 1,
                    blocks.update(i, Some(levels)),
                );
            }
        } else {
            lemma_blocks(data, pos, pic, dc_pred, intra, cbp, i + 1, blocks);
        }
    }
}

/// The pattern that a macroblock's header gives has six bits.
proof fn lemma_header(data: Seq<u8>, pos: nat, pic: PictureView, state: SliceStateView)
    ensures
        macroblock::macroblock_header_at(data, pos, pic, state).1 matches Ok(header) ==> 0
            <= header.cbp <= 63,
{
    reveal(macroblock::macroblock_header_at);
    assert forall|p: nat|
        (#[trigger] VlcTable::CodedBlockPattern.decoded(data, p)).1 matches Ok(cbp) ==> 0 <= cbp
            <= 63 by {
        VlcTable::CodedBlockPattern.lemma_decoded(data, p);
    }
}

/// A macroblock that could be decoded is shaped.
proof fn lemma_macroblock(
    data: Seq<u8>,
    pos: nat,
    pic: PictureView,
    state: SliceStateView,
    address: usize,
)
    requires
        macroblock::macroblock_at(data, pos, pic, state, address).result is Ok,
    ensures
        macroblock::macroblock_at(data, pos, pic, state, address).written matches Some(mb)
            && shaped(macroblock::normalized(mb, pic), address as int),
{
    reveal(macroblock::macroblock_at);
    lemma_header(data, pos, pic, state);
    let (p1, header) = macroblock::macroblock_header_at(data, pos, pic, state);
    let header = header->Ok_0;
    let intra = macroblock::has_flag(header.flags, mb_flag::INTRA);
    lemma_blocks(
        data,
        p1,
        pic,
        state.dc_pred,
        intra,
        header.cbp,
        0,
        macroblock::fresh_macroblock(address, header.quantiser_scale_code).blocks,
    );
    let mb = macroblock::macroblock_at(data, pos, pic, state, address).written->Some_0;
    assert forall|i: int| 0 <= i < 6 implies ((#[trigger] mb.blocks[i]) is Some
        <==> macroblock::has_flag(mb.cbp, pattern_bit(i))) by {
        lemma_full_and_empty(i);
        lemma_pattern_bit(header.cbp, i);
    }
}

/// A skipped macroblock is shaped.
proof fn lemma_skipped(pic: PictureView, state: SliceStateView, address: usize)
    ensures
        shaped(
            macroblock::normalized(macroblock::skipped_macroblock(pic, state, address), pic),
            address as int,
        ),
{
    let mb = macroblock::skipped_macroblock(pic, state, address);
    assert forall|i: int| 0 <= i < 6 implies ((#[trigger] mb.blocks[i]) is Some
        <==> macroblock::has_flag(mb.cbp, pattern_bit(i))) by {
        lemma_full_and_empty(i);
    }
    assert(forall|f: i32| (#[trigger] (f & (8i32 | 4i32))) & 1i32 == 0) by (bit_vector);
    assert(0i32 & 1i32 == 0) by (bit_vector);
}

/// Skipped macroblocks leave the picture shaped.
proof fn lemma_skipped_run(
    pic: PictureView,
    state: SliceStateView,
    address: int,
    count: nat,
    grid: Seq<Option<MacroblockView>>,
)
    requires
        grid.len() <= usize::MAX,
        all_shaped(grid),
    ensures
        all_shaped(macroblock::skipped_run(pic, state, address, count, grid).1),
        macroblock::skipped_run(pic, state, address, count, grid).1.len() == grid.len(),
    decreases count,
{
    if count > 0 {
        lemma_skipped_run(pic, state, address, (count - 1) as nat, grid);
        let (before, done) = macroblock::skipped_run(pic, state, address, (count - 1) as nat, grid);
        lemma_skipped(pic, before, (address + count) as usize);
    }
}

/// The macroblocks of a slice leave the picture shaped, from any position on.
proof fn lemma_macroblocks(
    data: Seq<u8>,
    pos: nat,
    pic: PictureView,
    state: SliceStateView,
    address: int,
    grid: Seq<Option<MacroblockView>>,
)
    requires
        grid.len() <= usize::MAX,
        all_shaped(grid),
    ensures
        ({
            let (end, after, result) = macroblock::macroblocks_at(
                data,
                pos,
                pic,
                state,
                address,
                grid,
            );
            &&& after.len() == grid.len()
            &&& result is Ok ==> all_shaped(after)
        }),
    decreases 8 * data.len() - pos,
{
    match macroblock::address_increment_at(data, pos, pic.is_mpeg1, 0) {
        (p1, Ok(Some(increment))) => {
            lemma_skipped_run(pic, state, address, (increment - 1) as nat, grid);
            let (state, grid) = macroblock::skipped_run(
                pic,
                state,
                address,
                (increment - 1) as nat,
                grid,
            );
            let at = address + increment;
            let outcome = macroblock::macroblock_at(data, p1, pic, state, at as usize);
            if outcome.result is Ok {
                lemma_macroblock(data, p1, pic, state, at as usize);
                let mb = outcome.written->Some_0;
                let after = macroblock::placed(grid, at, macroblock::normalized(mb, pic));
                assert(all_shaped(after));
                if pos < outcome.pos <= 8 * data.len() {
                    lemma_macroblocks(
                        data,
                        outcome.pos,
                        pic,
                        SliceStateView { prev_flags: Some(mb.flags), ..outcome.state },
                        at,
                        after,
                    );
                }
            }
        },
        _ => {},
    }
}

/// Behind a slice that could be decoded, every macroblock of the picture knows where it
/// stands, and holds a block exactly where its pattern says: every block where it is
/// intra, none where it was skipped.
pub proof fn law_blocks_are_where_the_pattern_says(
    data: Seq<u8>,
    pic: PictureView,
    slice: Slice,
    mb_width: int,
    grid: Seq<Option<MacroblockView>>,
)
    requires
        grid.len() <= usize::MAX,
        all_shaped(grid),
    ensures
        ({
            let (end, after, result) = macroblock::slice_decoded(data, pic, slice, mb_width, grid);
            &&& after.len() == grid.len()
            &&& result is Ok ==> all_shaped(after)
        }),
{
    lemma_macroblocks(
        data,
        bits::advance(data, 0, slice.data_start_bit as nat),
        pic,
        macroblock::slice_start(pic, slice),
        (slice.vertical_position - 1) * mb_width - 1,
        grid,
    );
}

/// A picture that nothing has been decoded of has no macroblock out of shape.
pub proof fn law_an_empty_picture_is_shaped(cells: nat)
    ensures
        all_shaped(Seq::new(cells, |i: int| None::<MacroblockView>)),
{
}

} // verus!
