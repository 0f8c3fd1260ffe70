//! What a slice of a transport stream says by itself.
use crate::container::mpegts::demux;
use crate::container::mpegts::demux::MpegTsAvDemuxer;
use crate::container::mpegts::packet;
use crate::container::mpegts::packet::{MIN_SYNC_COUNT, TS_PACKET_SIZE};
use crate::container::mpegts::pes;
use crate::container::mpegts::pes::{ElementaryKind, ElementaryPacket, PacketView};
use crate::container::mpegts::streaming;
use crate::error::Error;
use vstd::prelude::*;

verus! {

/// The timestamp that a packet opens with, if it opens a packet of video or sound
/// that has one.
pub open spec fn opening_time(bytes: Seq<u8>) -> Option<u64> {
    match packet::payload_of(bytes) {
        Some(p) if p.payload_unit_start && (pes::opens_packet(p.data, ElementaryKind::Video)
            || pes::opens_packet(p.data, ElementaryKind::Audio)) => pes::timestamp(p.data),
        _ => None,
    }
}

/// The timestamps from `at` on.
pub open spec fn times_from(data: Seq<u8>, at: int) -> Seq<u64>
    decreases data.len() - at,
{
    if at + 188 > data.len() {
        seq![]
    } else {
        let rest = times_from(data, at + 188);
        match opening_time(data.subrange(at, at + 188)) {
            Some(pts) => seq![pts] + rest,
            None => rest,
        }
    }
}

/// The timestamps in a slice of a transport stream.
pub open spec fn times(data: Seq<u8>) -> Seq<u64> {
    match packet::boundary(data, 6) {
        Some(at) => times_from(data, at),
        None => seq![],
    }
}

/// The next presentation timestamp from `at` on, in 90 kHz units, and where to go on
/// behind it.
///
/// A player reads these out of a slice taken from anywhere in a file, so this
/// reads the PES headers where they lie rather than following a PID: the slice
/// may open mid-packet, and a program map it happens to miss would leave a
/// PID-driven demuxer with nothing to report.
fn walk_pts(data: &[u8], from: usize) -> (next: Option<(u64, usize)>)
    requires
        from <= data@.len() <= isize::MAX,
    ensures
        match next {
            Some((pts, at)) => from < at <= data@.len() && times_from(data@, from as int) == seq![
                pts,
            ] + times_from(data@, at as int),
            None => times_from(data@, from as int) == Seq::<u64>::empty(),
        },
{
    let mut at: usize = from;
    while data.len() - at >= TS_PACKET_SIZE
        invariant
            from <= at <= data@.len() <= isize::MAX,
            times_from(data@, from as int) == times_from(data@, at as int),
        decreases data@.len() - at,
    {
        // A payload the sync check walked past is worth stepping over rather
        // than giving up on: a slice is a fragment of a file, and one damaged
        // packet says nothing about the ones after it.
        if let Some(packet) = packet::payload_at(data, at) {
            if packet.payload_unit_start && (pes::is_pes_start(packet.data, ElementaryKind::Video)
                || pes::is_pes_start(packet.data, ElementaryKind::Audio)) {
                if let Some(pts) = pes::pes_pts(packet.data) {
                    return Some((pts, at + TS_PACKET_SIZE));
                }
            }
        }
        at = at + TS_PACKET_SIZE;
    }
    None
}

/// The first presentation timestamp in a slice, or `None` when it holds none.
///
/// This is what time it is at the byte the slice was taken from, which is what
/// a player seeking by byte needs to know: a hundred kilobytes answers it,
/// where converting to find out costs seconds of video.
pub fn first_pts(data: &[u8]) -> (first: Option<u64>)
    requires
        data@.len() <= isize::MAX,
    ensures
        first == if times(data@).len() > 0 {
            Some(times(data@)[0])
        } else {
            None
        },
{
    match packet::sync_offset(data, MIN_SYNC_COUNT) {
        Some(offset) => {
            proof {
                packet::lemma_boundary(data@, offset as int);
            }
            match walk_pts(data, offset) {
                Some((pts, _)) => Some(pts),
                None => None,
            }
        },
        None => None,
    }
}

/// The last presentation timestamp in a slice, or `None` when it holds none.
/// Read from the end of a file, this is where the file ends.
pub fn last_pts(data: &[u8]) -> (last: Option<u64>)
    requires
        data@.len() <= isize::MAX,
    ensures
        last == if times(data@).len() > 0 {
            Some(times(data@).last())
        } else {
            None
        },
{
    let mut at: usize = match packet::sync_offset(data, MIN_SYNC_COUNT) {
        Some(offset) => {
            proof {
                packet::lemma_boundary(data@, offset as int);
            }
            offset
        },
        None => {
            return None;
        },
    };
    let ghost all = times(data@);
    let mut last: Option<u64> = None;
    let mut walking = true;
    while walking
        invariant
            at <= data@.len() <= isize::MAX,
            all == times(data@),
            times_from(data@, at as int).len() <= all.len(),
            all.skip(all.len() - times_from(data@, at as int).len()) == times_from(
                data@,
                at as int,
            ),
            match last {
                Some(pts) => times_from(data@, at as int).len() < all.len() && pts == all[all.len()
                    - times_from(data@, at as int).len() - 1],
                None => times_from(data@, at as int) == all,
            },
            !walking ==> times_from(data@, at as int).len() == 0,
        decreases
                data@.len() - at,
                if walking {
                    1int
                } else {
                    0
                },
    {
        let ghost here = times_from(data@, at as int);
        match walk_pts(data, at) {
            Some((pts, next)) => {
                let ghost rest = times_from(data@, next as int);
                proof {
                    assert(here[0] == pts);
                    assert(all.skip(all.len() - here.len())[0] == all[all.len() - here.len()]);
                    assert(all.skip(all.len() - rest.len()) =~= all.skip(
                        all.len() - here.len(),
                    ).skip(1));
                    assert(here.skip(1) =~= rest);
                }
                last = Some(pts);
                at = next;
            },
            None => {
                walking = false;
            },
        }
    }
    last
}

/// The video among some packets, one behind the other.
pub open spec fn video_bytes(packets: Seq<PacketView>, n: nat) -> Seq<u8>
    decreases n,
{
    if n == 0 {
        seq![]
    } else {
        let before = video_bytes(packets, (n - 1) as nat);
        if packets[n - 1].kind is Video {
            before + packets[n - 1].data
        } else {
            before
        }
    }
}

/// One of the packets is video.
pub open spec fn any_video(packets: Seq<PacketView>) -> bool {
    exists|i: int| 0 <= i < packets.len() && (#[trigger] packets[i]).kind is Video
}

/// Append the video among some packets.
fn append_video(packets: &Vec<ElementaryPacket>, elementary: &mut Vec<u8>) -> (saw_video: bool)
    ensures
        final(elementary)@ == old(elementary)@ + video_bytes(
            pes::packet_views(packets@),
            packets@.len(),
        ),
        saw_video == any_video(pes::packet_views(packets@)),
{
    let ghost views = pes::packet_views(packets@);
    let mut saw_video = false;
    let mut i: usize = 0;
    assert(elementary@ + video_bytes(views, 0) =~= elementary@);
    while i < packets.len()
        invariant
            i <= packets@.len(),
            views == pes::packet_views(packets@),
            elementary@ == old(elementary)@ + video_bytes(views, i as nat),
            saw_video == exists|j: int| 0 <= j < i && (#[trigger] views[j]).kind is Video,
        decreases packets@.len() - i,
    {
        assert(views[i as int] == packets@[i as int]@);
        if packets[i].kind == ElementaryKind::Video {
            elementary.extend_from_slice(&packets[i].data);
            saw_video = true;
        }
        i = i + 1;
        assert(elementary@ =~= old(elementary)@ + video_bytes(views, i as nat));
    }
    saw_video
}

/// The first video stream of a transport stream, or why there is none.
pub open spec fn extracted(data: Seq<u8>) -> Result<Seq<u8>, Error> {
    let (read, out) = demux::after_chunk(demux::fresh(None), data);
    let rest = demux::at_end(read).1;
    if read.unsynced {
        Err(Error::NotTransportStream)
    } else if read.program.pmt_pids.is_empty() {
        Err(Error::NoProgram)
    } else if !any_video(out) && !any_video(rest) {
        Err(Error::NoVideo)
    } else {
        Ok(video_bytes(out, out.len()) + video_bytes(rest, rest.len()))
    }
}

/// Extract the first ISO/IEC 13818-2 video stream advertised by PAT/PMT, from a
/// transport stream held whole in memory.
pub fn extract_mpeg2_video_es(data: &[u8]) -> (result: Result<Vec<u8>, Error>)
    requires
        data@.len() <= isize::MAX,
    ensures
        match result {
            Ok(elementary) => extracted(data@) == Ok::<Seq<u8>, Error>(elementary@),
            Err(e) => extracted(data@) == Err::<Seq<u8>, Error>(e),
        },
{
    broadcast use vstd::std_specs::hash::group_hash_axioms;

    let mut demuxer = MpegTsAvDemuxer::new();
    let mut elementary: Vec<u8> = Vec::new();
    proof {
        assert(demux::fits(demuxer@, data@.len() as int));
        streaming::law_room_is_kept(demuxer@, data@, 0);
        demux::lemma_fits_less(
            demux::after_chunk(demuxer@, data@).0,
            demux::after_chunk(demuxer@, data@).0.pending.len() as int,
            0,
        );
    }
    let packets = match demuxer.push(data) {
        Ok(packets) => packets,
        Err(e) => {
            return Err(e);
        },
    };
    let saw_first = append_video(&packets, &mut elementary);
    if demuxer.unsynced {
        return Err(Error::NotTransportStream);
    }
    if demuxer.program.pmt_pids.is_empty() {
        return Err(Error::NoProgram);
    }
    let rest = match demuxer.finish() {
        Ok(packets) => packets,
        Err(e) => {
            return Err(e);
        },
    };
    let saw_rest = append_video(&rest, &mut elementary);
    if !saw_first && !saw_rest {
        return Err(Error::NoVideo);
    }
    let ghost views = (pes::packet_views(packets@), pes::packet_views(rest@));
    assert(elementary@ =~= video_bytes(views.0, views.0.len()) + video_bytes(
        views.1,
        views.1.len(),
    ));
    Ok(elementary)
}

} // verus!
