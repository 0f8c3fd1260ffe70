//! What a slice of a stream says of time, and what is taken out of a whole stream.
use crate::container::mpegts::carried;
use crate::container::mpegts::demux;
use crate::container::mpegts::demux::DemuxView;
use crate::container::mpegts::packet;
use crate::container::mpegts::pes::PacketView;
use crate::container::mpegts::probe;
use crate::container::mpegts::written;
use crate::container::mpegts::written::Outgoing;
use vstd::prelude::*;

verus! {

/// A packet that opens video or sound with a time on it tells that time, on whatever PID
/// it comes. One that opens nothing, opens something else or has no time tells none.
pub proof fn law_packets_tell_their_times(
    p: Outgoing,
    stream: int,
    length: int,
    marks: int,
    flags: int,
    header: int,
    prefix: int,
    pts: int,
    rest: Seq<u8>,
)
    requires
        p.fits(),
        p.payload == carried::front_bytes(stream, length, marks, flags, header)
            + carried::time_bytes(prefix, pts) + rest,
        0 <= stream < 256 && stream != 0xbf,
        0 <= length < 0x1_0000,
        0 <= marks < 64,
        0 <= flags < 256,
        0 <= header < 256,
        0 <= prefix < 16,
        0 <= pts < 0x2_0000_0000,
    ensures
        probe::times_from(p.bytes(), 0) == if p.start && 0xc0 <= stream <= 0xef && flags >= 128 {
            seq![pts as u64]
        } else {
            seq![]
        },
{
    let b = p.bytes();
    written::law_packets_are_read_as_written(p);
    carried::law_times_read_back(stream, length, marks, flags, header, prefix, pts, rest);
    let front = carried::front_bytes(stream, length, marks, flags, header);
    assert(p.payload[0] == front[0] && p.payload[1] == front[1] && p.payload[2] == front[2]
        && p.payload[3] == front[3]);
    assert(b.subrange(0, 188) =~= b);
    assert(b.len() == 188);
    reveal_with_fuel(probe::times_from, 2);
    assert(probe::times_from(b, 188) =~= seq![]);
}

/// What stands in front moves the times, and changes none of them.
proof fn lemma_times_behind(a: Seq<u8>, b: Seq<u8>, at: int)
    requires
        0 <= at,
    ensures
        probe::times_from(a + b, a.len() + at) == probe::times_from(b, at),
    decreases b.len() - at,
{
    if at + 188 <= b.len() {
        lemma_times_behind(a, b, at + 188);
        assert((a + b).subrange(a.len() + at, a.len() + at + 188) =~= b.subrange(at, at + 188));
    }
}

proof fn lemma_times_join(a: Seq<u8>, b: Seq<u8>, at: int)
    requires
        0 <= at <= a.len(),
        (a.len() - at) % 188 == 0,
    ensures
        probe::times_from(a + b, at) == probe::times_from(a, at) + probe::times_from(b, 0),
    decreases a.len() - at,
{
    if at == a.len() {
        lemma_times_behind(a, b, 0);
        assert(probe::times_from(a, at) =~= seq![]);
        assert(probe::times_from(a, at) + probe::times_from(b, 0) =~= probe::times_from(b, 0));
    } else {
        assert(a.len() - at >= 188);
        assert((a.len() - (at + 188)) % 188 == 0);
        lemma_times_join(a, b, at + 188);
        assert((a + b).subrange(at, at + 188) =~= a.subrange(at, at + 188));
        let rest = probe::times_from(a, at + 188);
        match probe::opening_time(a.subrange(at, at + 188)) {
            Some(pts) => {
                assert(seq![pts] + (rest + probe::times_from(b, 0)) =~= (seq![pts] + rest)
                    + probe::times_from(b, 0));
            },
            None => {},
        }
    }
}

/// Packets tell their times in the order in which they stand: whole packets in front of
/// others tell theirs first, and then the others tell the same as by themselves.
pub proof fn law_times_come_in_order(a: Seq<u8>, b: Seq<u8>)
    requires
        a.len() % 188 == 0,
    ensures
        probe::times_from(a + b, 0) == probe::times_from(a, 0) + probe::times_from(b, 0),
{
    lemma_times_join(a, b, 0);
}

/// Six packets begin a packet's length apart, from `at` on.
pub open spec fn six_packets(data: Seq<u8>, at: int) -> bool {
    &&& at + 940 < data.len()
    &&& data[at] == 0x47
    &&& data[at + 188] == 0x47
    &&& data[at + 376] == 0x47
    &&& data[at + 564] == 0x47
    &&& data[at + 752] == 0x47
    &&& data[at + 940] == 0x47
}

proof fn lemma_six(data: Seq<u8>, at: int)
    requires
        0 <= at,
    ensures
        packet::synced_at(data, at, 6) <==> six_packets(data, at),
{
    if packet::synced_at(data, at, 6) {
        assert(data[at + 188 * 0] == 0x47);
        assert(data[at + 188 * 1] == 0x47);
        assert(data[at + 188 * 2] == 0x47);
        assert(data[at + 188 * 3] == 0x47);
        assert(data[at + 188 * 4] == 0x47);
        assert(data[at + 188 * 5] == 0x47);
    }
    if six_packets(data, at) {
        assert forall|k: int| #![trigger data[at + 188 * k]] 0 <= k < 6 implies at + 188 * k
            < data.len() && data[at + 188 * k] == 0x47 by {
            assert(k == 0 || k == 1 || k == 2 || k == 3 || k == 4 || k == 5);
        }
    }
}

proof fn lemma_boundary_from(data: Seq<u8>, from: int, at: int)
    requires
        0 <= from <= at < 188,
        six_packets(data, at),
    ensures
        packet::boundary_from(data, from, 6) is Some,
        from <= packet::boundary_from(data, from, 6)->Some_0 <= at,
    decreases at - from,
{
    lemma_six(data, from);
    if !six_packets(data, from) {
        lemma_boundary_from(data, from + 1, at);
    }
}

proof fn lemma_boundary_is(data: Seq<u8>, from: int)
    requires
        0 <= from,
    ensures
        packet::boundary_from(data, from, 6) matches Some(at) ==> from <= at < 188 && six_packets(
            data,
            at,
        ),
    decreases 188 - from,
{
    if from < 188 && from < data.len() {
        lemma_six(data, from);
        if !six_packets(data, from) {
            lemma_boundary_is(data, from + 1);
        }
    }
}

/// A stream is known by six packets in a row, which may begin anywhere within the first
/// packet's length; reading begins at the first place where they do.
pub proof fn law_streams_are_known_by_their_packets(data: Seq<u8>)
    ensures
        forall|at: int|
            0 <= at < 188 && #[trigger] six_packets(data, at) ==> packet::boundary(data, 6)
                is Some && packet::boundary(data, 6)->Some_0 <= at,
        packet::boundary(data, 6) matches Some(at) ==> 0 <= at < 188 && six_packets(data, at),
        packet::is_transport_stream(data) ==> exists|at: int|
            0 <= at < 188 && #[trigger] six_packets(data, at),
        forall|at: int|
            0 <= at < 188 && #[trigger] six_packets(data, at) && data.len() >= 6 * 188
                ==> packet::is_transport_stream(data),
{
    lemma_boundary_is(data, 0);
    assert forall|at: int| 0 <= at < 188 && #[trigger] six_packets(data, at) implies packet::boundary(
        data,
        6,
    ) is Some && packet::boundary(data, 6)->Some_0 <= at by {
        lemma_boundary_from(data, 0, at);
    }
}

/// The times of a slice that opens in the middle of a packet are those of what follows
/// from its first whole packet on.
pub proof fn law_a_slice_is_read_from_its_first_packet(front: Seq<u8>, data: Seq<u8>)
    requires
        front.len() < 188,
        six_packets(data, 0),
        forall|at: int| 0 <= at < front.len() ==> !#[trigger] six_packets(front + data, at),
    ensures
        probe::times(front + data) == probe::times_from(data, 0),
{
    let all = front + data;
    assert(six_packets(all, front.len() as int));
    law_streams_are_known_by_their_packets(all);
    lemma_boundary_is(all, 0);
    assert(packet::boundary(all, 6) == Some(front.len() as int));
    lemma_times_behind(front, data, 0);
}

/// Video that comes in two parts comes out joined, all of it and nothing else: a packet of
/// video adds its bytes, any other adds none.
pub proof fn law_video_is_joined(a: Seq<PacketView>, b: Seq<PacketView>, p: PacketView)
    ensures
        probe::video_bytes(a + b, (a + b).len()) == probe::video_bytes(a, a.len())
            + probe::video_bytes(b, b.len()),
        probe::video_bytes(seq![p], 1) == if p.kind is Video {
            p.data
        } else {
            seq![]
        },
{
    lemma_video_front(a, b, a.len());
    lemma_video_behind(a, b, b.len());
    reveal_with_fuel(probe::video_bytes, 2);
    assert(seq![p][0] == p);
    assert(Seq::<u8>::empty() + p.data =~= p.data);
}

proof fn lemma_video_front(a: Seq<PacketView>, b: Seq<PacketView>, n: nat)
    requires
        n <= a.len(),
    ensures
        probe::video_bytes(a + b, n) == probe::video_bytes(a, n),
    decreases n,
{
    if n > 0 {
        lemma_video_front(a, b, (n - 1) as nat);
        assert((a + b)[n - 1] == a[n - 1]);
    }
}

proof fn lemma_video_behind(a: Seq<PacketView>, b: Seq<PacketView>, n: nat)
    requires
        n <= b.len(),
    ensures
        probe::video_bytes(a + b, a.len() + n) == probe::video_bytes(a, a.len())
            + probe::video_bytes(b, n),
    decreases n,
{
    if n == 0 {
        lemma_video_front(a, b, a.len());
        assert(probe::video_bytes(a, a.len()) + probe::video_bytes(b, 0) =~= probe::video_bytes(
            a,
            a.len(),
        ));
    } else {
        lemma_video_behind(a, b, (n - 1) as nat);
        assert((a + b)[a.len() + n - 1] == b[n - 1]);
        assert(probe::video_bytes(a + b, a.len() + n) =~= probe::video_bytes(a, a.len())
            + probe::video_bytes(b, n));
    }
}

/// What is extracted of a stream is all the video that is demultiplexed of it, what was
/// still accumulating at its end with the rest; there is always some.
pub proof fn law_all_the_video_is_extracted(data: Seq<u8>)
    ensures
        ({
            let (read, out) = demux::after_chunk(demux::fresh(None), data);
            let all = out + demux::at_end(read).1;
            let some = exists|i: int| 0 <= i < all.len() && (#[trigger] all[i]).kind is Video;
            match probe::extracted(data) {
                Ok(video) => some && video == probe::video_bytes(all, all.len()),
                Err(_) => some ==> read.unsynced || read.program.pmt_pids.is_empty(),
            }
        }),
{
    let (read, out) = demux::after_chunk(demux::fresh(None), data);
    let rest = demux::at_end(read).1;
    let all = out + rest;
    if all.len() > 0 {
        law_video_is_joined(out, rest, all[0]);
    } else {
        assert(all.len() == 0);
    }
    if probe::any_video(out) {
        let i = choose|i: int| 0 <= i < out.len() && (#[trigger] out[i]).kind is Video;
        assert(all[i].kind is Video);
    }
    if probe::any_video(rest) {
        let i = choose|i: int| 0 <= i < rest.len() && (#[trigger] rest[i]).kind is Video;
        assert(all[out.len() + i].kind is Video);
    }
    if exists|i: int| 0 <= i < all.len() && (#[trigger] all[i]).kind is Video {
        let i = choose|i: int| 0 <= i < all.len() && (#[trigger] all[i]).kind is Video;
        if i < out.len() {
            assert(out[i].kind is Video);
        } else {
            assert(rest[i - out.len()].kind is Video);
        }
    }
}

/// Where no packet begins reading resumes at the first place from which six stand in a row, as
/// if the stream had begun there.
pub proof fn law_reading_resumes_at_the_next_packet(d: DemuxView, input: Seq<u8>, at: int)
    requires
        input.len() >= 1128,
        input[0] != 0x47 || d.unsynced,
        packet::boundary(input, 6) == Some(at),
    ensures
        demux::demuxed(d, input, 0) == demux::demuxed(
            DemuxView { unsynced: false, ..d },
            input,
            at,
        ),
{
    lemma_boundary_is(input, 0);
    assert(input.skip(0) =~= input);
}

/// A damaged packet is counted as one and gives nothing, and so is a scrambled one; neither
/// disturbs what is accumulating.
pub proof fn law_unreadable_packets_are_only_counted(d: DemuxView, p: Outgoing)
    requires
        p.fits(),
        p.damaged || p.scrambling != 0,
    ensures
        ({
            let (after, out) = demux::stepped(d, p.bytes());
            &&& out.len() == 0
            &&& after.video == d.video && after.audio == d.audio && after.private == d.private
            &&& after.program == d.program
            &&& after.video_pts == d.video_pts && after.audio_pts == d.audio_pts
            &&& p.damaged ==> after.errors == d.errors + 1 && after.scrambled == d.scrambled
            &&& !p.damaged ==> after.scrambled == d.scrambled + 1 && after.errors == d.errors
        }),
{
    reveal(demux::stepped);
    written::law_packets_are_read_as_written(p);
}

} // verus!
