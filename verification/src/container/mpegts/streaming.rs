//! How a transport stream is cut into chunks does not matter.
use crate::container::mpegts::demux;
use crate::container::mpegts::demux::DemuxView;
use crate::container::mpegts::packet;
use crate::container::mpegts::packet::TsView;
use crate::container::mpegts::pes::PacketView;
use vstd::prelude::*;

verus! {

/// A packet of the tables changes neither the bytes that wait nor the sound that was
/// asked for.
proof fn lemma_tabled_keeps(d: DemuxView, p: TsView)
    ensures
        demux::tabled(d, p).0.pending == d.pending,
        demux::tabled(d, p).0.audio_switch == d.audio_switch,
{
    reveal(demux::tabled);
}

/// A packet of a stream changes neither the bytes that wait nor the sound that was
/// asked for.
proof fn lemma_routed_keeps(d: DemuxView, p: TsView)
    ensures
        demux::routed(d, p).0.pending == d.pending,
        demux::routed(d, p).0.audio_switch == d.audio_switch,
{
    reveal(demux::routed);
}

/// A packet changes neither the bytes that wait nor the sound that was asked for.
proof fn lemma_stepped_keeps(d: DemuxView, bytes: Seq<u8>)
    ensures
        demux::stepped(d, bytes).0.pending == d.pending,
        demux::stepped(d, bytes).0.audio_switch == d.audio_switch,
{
    reveal(demux::stepped);
    if let Some(p) = packet::payload_of(bytes) {
        let noted = demux::counted(d, p);
        lemma_tabled_keeps(noted, p);
        lemma_routed_keeps(demux::tabled(noted, p).0, p);
        lemma_routed_keeps(noted, p);
    }
}

/// Where reading stops, fewer bytes are left than it takes to find a packet, and what
/// waits and what was asked for have not changed.
pub proof fn lemma_demuxed(d: DemuxView, input: Seq<u8>, at: int)
    requires
        0 <= at <= input.len(),
    ensures
        ({
            let (last, out, end) = demux::demuxed(d, input, at);
            &&& at <= end <= input.len()
            &&& input.len() - end < 1128
            &&& last.pending == d.pending
            &&& last.audio_switch == d.audio_switch
        }),
    decreases input.len() - at,
{
    if at + 188 <= input.len() {
        if input[at] != packet::SYNC_BYTE || d.unsynced {
            if input.len() - at >= 1128 {
                match packet::boundary(input.skip(at), 6) {
                    None => {
                        lemma_demuxed(DemuxView { unsynced: true, ..d }, input, at + 1128);
                    },
                    Some(offset) => {
                        packet::lemma_boundary(input.skip(at), offset);
                        let start = at + offset;
                        let synced = DemuxView { unsynced: false, ..d };
                        let bytes = input.subrange(start, start + 188);
                        lemma_stepped_keeps(synced, bytes);
                        lemma_demuxed(demux::stepped(synced, bytes).0, input, start + 188);
                    },
                }
            }
        } else {
            let bytes = input.subrange(at, at + 188);
            lemma_stepped_keeps(d, bytes);
            lemma_demuxed(demux::stepped(d, bytes).0, input, at + 188);
        }
    }
}

/// More bytes behind the input do not change what has become of it: reading goes on
/// from where it stopped.
proof fn lemma_resume(d: DemuxView, x: Seq<u8>, more: Seq<u8>, at: int)
    requires
        0 <= at <= x.len(),
    ensures
        ({
            let (last, out, end) = demux::demuxed(d, x, at);
            let (final_state, rest, final_end) = demux::demuxed(last, x + more, end);
            demux::demuxed(d, x + more, at) == (final_state, out + rest, final_end)
        }),
    decreases x.len() - at,
{
    let whole = x + more;
    let (last, out, end) = demux::demuxed(d, x, at);
    if at + 188 > x.len() || ((x[at] != packet::SYNC_BYTE || d.unsynced) && x.len() - at < 1128) {
        let rest = demux::demuxed(d, whole, at).1;
        assert(Seq::<PacketView>::empty() + rest =~= rest);
    } else if x[at] != packet::SYNC_BYTE || d.unsynced {
        assert(whole.skip(at) =~= x.skip(at) + more);
        packet::lemma_boundary_is_local(x.skip(at), more);
        match packet::boundary(x.skip(at), 6) {
            None => {
                lemma_resume(DemuxView { unsynced: true, ..d }, x, more, at + 1128);
            },
            Some(offset) => {
                packet::lemma_boundary(x.skip(at), offset);
                let start = at + offset;
                let synced = DemuxView { unsynced: false, ..d };
                let bytes = x.subrange(start, start + 188);
                assert(whole.subrange(start, start + 188) =~= bytes);
                let (next, first) = demux::stepped(synced, bytes);
                lemma_resume(next, x, more, start + 188);
                let o = demux::demuxed(next, x, start + 188).1;
                let rest = demux::demuxed(last, whole, end).1;
                assert(first + (o + rest) =~= (first + o) + rest);
            },
        }
    } else {
        let bytes = x.subrange(at, at + 188);
        assert(whole.subrange(at, at + 188) =~= bytes);
        let (next, first) = demux::stepped(d, bytes);
        lemma_resume(next, x, more, at + 188);
        let o = demux::demuxed(next, x, at + 188).1;
        let rest = demux::demuxed(last, whole, end).1;
        assert(first + (o + rest) =~= (first + o) + rest);
    }
}

/// What has been read is not looked at again.
proof fn lemma_shift(d: DemuxView, y: Seq<u8>, k: int, at: int)
    requires
        0 <= k <= at <= y.len(),
    ensures
        ({
            let (last, out, end) = demux::demuxed(d, y, at);
            demux::demuxed(d, y.skip(k), at - k) == (last, out, end - k)
        }),
    decreases y.len() - at,
{
    let z = y.skip(k);
    let b = at - k;
    if at + 188 <= y.len() {
        assert(z[b] == y[at]);
        if y[at] != packet::SYNC_BYTE || d.unsynced {
            if y.len() - at >= 1128 {
                assert(z.skip(b) =~= y.skip(at));
                match packet::boundary(y.skip(at), 6) {
                    None => {
                        lemma_shift(DemuxView { unsynced: true, ..d }, y, k, at + 1128);
                    },
                    Some(offset) => {
                        packet::lemma_boundary(y.skip(at), offset);
                        let start = at + offset;
                        let synced = DemuxView { unsynced: false, ..d };
                        let bytes = y.subrange(start, start + 188);
                        assert(z.subrange(start - k, start - k + 188) =~= bytes);
                        lemma_shift(demux::stepped(synced, bytes).0, y, k, start + 188);
                    },
                }
            }
        } else {
            let bytes = y.subrange(at, at + 188);
            assert(z.subrange(b, b + 188) =~= bytes);
            lemma_shift(demux::stepped(d, bytes).0, y, k, at + 188);
        }
    }
}

/// A demuxer hands out the same packets, and ends in the same state, whether it is
/// given a stretch of the stream whole or in two chunks, wherever the cut falls.
pub proof fn law_chunks_do_not_matter(d: DemuxView, a: Seq<u8>, b: Seq<u8>)
    ensures
        ({
            let (between, first) = demux::after_chunk(d, a);
            let (last, second) = demux::after_chunk(between, b);
            demux::after_chunk(d, a + b) == (last, first + second)
        }),
{
    let start = DemuxView { pending: seq![], ..demux::switched(d) };
    let x = d.pending + a;
    let whole = d.pending + (a + b);
    assert(whole =~= x + b);
    let (s1, o1, e1) = demux::demuxed(start, x, 0);
    lemma_demuxed(start, x, 0);
    lemma_resume(start, x, b, 0);
    let between = DemuxView { pending: x.skip(e1), ..s1 };
    let again = DemuxView { pending: seq![], ..demux::switched(between) };
    assert(again =~= s1);
    assert(x.skip(e1) + b =~= whole.skip(e1));
    lemma_shift(s1, whole, e1, e1);
    let (s2, o2, e2) = demux::demuxed(s1, whole, e1);
    lemma_demuxed(s1, whole, e1);
    assert(whole.skip(e1).skip(e2 - e1) =~= whole.skip(e2));
}

/// Between chunks the demuxer holds fewer bytes of the stream than it takes to find a
/// packet boundary, however much it has been given.
pub proof fn law_what_waits_is_bounded(d: DemuxView, chunk: Seq<u8>)
    ensures
        demux::after_chunk(d, chunk).0.pending.len() < 1128,
{
    lemma_demuxed(DemuxView { pending: seq![], ..demux::switched(d) }, d.pending + chunk, 0);
}

/// A demuxer that has room for a chunk and more has room for the rest when it has
/// taken the chunk.
pub proof fn law_room_is_kept(d: DemuxView, chunk: Seq<u8>, more: int)
    requires
        0 <= more,
        demux::fits(d, d.pending.len() as int + chunk.len() + more),
    ensures
        demux::fits(
            demux::after_chunk(d, chunk).0,
            demux::after_chunk(d, chunk).0.pending.len() as int + more,
        ),
{
    let start = DemuxView { pending: seq![], ..demux::switched(d) };
    let input = d.pending + chunk;
    assert(demux::fits(start, input.len() as int + more));
    lemma_demuxed(start, input, 0);
    lemma_room(start, input, 0, more);
}

/// Reading takes no more room than the bytes that are read.
proof fn lemma_room(d: DemuxView, input: Seq<u8>, at: int, more: int)
    requires
        0 <= more,
        0 <= at <= input.len(),
        demux::fits(d, input.len() - at + more),
    ensures
        ({
            let (last, out, end) = demux::demuxed(d, input, at);
            demux::fits(last, input.len() - end + more)
        }),
    decreases input.len() - at,
{
    if at + 188 <= input.len() {
        if input[at] != packet::SYNC_BYTE || d.unsynced {
            if input.len() - at >= 1128 {
                match packet::boundary(input.skip(at), 6) {
                    None => {
                        let lost = DemuxView { unsynced: true, ..d };
                        demux::lemma_fits_less(
                            lost,
                            input.len() - at + more,
                            input.len() - at - 1128 + more,
                        );
                        lemma_room(lost, input, at + 1128, more);
                    },
                    Some(offset) => {
                        packet::lemma_boundary(input.skip(at), offset);
                        let start = at + offset;
                        let synced = DemuxView { unsynced: false, ..d };
                        let bytes = input.subrange(start, start + 188);
                        demux::lemma_fits_less(
                            synced,
                            input.len() - at + more,
                            input.len() - start + more,
                        );
                        demux::lemma_stepped_fits(synced, bytes, input.len() - start - 188 + more);
                        lemma_room(demux::stepped(synced, bytes).0, input, start + 188, more);
                    },
                }
            }
        } else {
            let bytes = input.subrange(at, at + 188);
            demux::lemma_stepped_fits(d, bytes, input.len() - at - 188 + more);
            lemma_room(demux::stepped(d, bytes).0, input, at + 188, more);
        }
    }
}

} // verus!
