//! Sections over several packets, packets of the older form, and what shares a time.
use crate::container::mpegts::demux;
use crate::container::mpegts::demux::DemuxView;
use crate::container::mpegts::descriptors::PrivateStream;
use crate::container::mpegts::packet::TsView;
use crate::container::mpegts::pes;
use crate::container::mpegts::pes::{ElementaryKind, PacketView};
use crate::container::mpegts::section;
use vstd::prelude::*;

verus! {

/// The bytes are one section, as long as its own length says.
pub open spec fn is_section(bytes: Seq<u8>) -> bool {
    &&& bytes.len() >= 3
    &&& bytes[0] != 0xff
    &&& bytes.len() == 3 + 256 * (bytes[1] % 16) + bytes[2]
}

/// Of a section that is not all there yet nothing comes out, and nothing is lost.
proof fn lemma_part(section: Seq<u8>, cut: int)
    requires
        is_section(section),
        0 <= cut < section.len(),
    ensures
        section::sections_in(section.take(cut)) == (Seq::<Seq<u8>>::empty(), section.take(cut)),
{
    let part = section.take(cut);
    if cut >= 3 {
        assert(part[0] == section[0] && part[1] == section[1] && part[2] == section[2]);
    }
    if cut > 0 {
        assert(part[0] == section[0]);
    }
}

proof fn lemma_alone(section: Seq<u8>)
    requires
        is_section(section),
    ensures
        section::sections_in(section) == (seq![section], Seq::<u8>::empty()),
{
    section::law_sections_are_cut_by_their_lengths(section, Seq::<u8>::empty());
    assert(section + Seq::<u8>::empty() =~= section);
    assert(section::sections_in(Seq::<u8>::empty()) == (
        Seq::<Seq<u8>>::empty(),
        Seq::<u8>::empty(),
    ));
    assert(seq![section] + Seq::<Seq<u8>>::empty() =~= seq![section]);
}

/// A section that does not fit into one packet comes out with the packet that ends it,
/// wherever it was cut; the packet that begins it has a pointer in front.
pub proof fn law_sections_go_over_packets(section: Seq<u8>, cut: int, held: Seq<u8>)
    requires
        is_section(section),
        0 <= cut < section.len(),
    ensures
        ({
            let (none, part) = section::assembled(held, seq![0u8] + section.take(cut), true);
            let (whole, left) = section::assembled(part, section.skip(cut), false);
            &&& none.len() == 0
            &&& whole == seq![section]
            &&& left.len() == 0
        }),
{
    let first = seq![0u8] + section.take(cut);
    assert(first.skip(1) =~= section.take(cut));
    lemma_part(section, cut);
    assert(Seq::<Seq<u8>>::empty() + Seq::<Seq<u8>>::empty() =~= Seq::<Seq<u8>>::empty());
    assert(section.take(cut) + section.skip(cut) =~= section);
    lemma_alone(section);
}

/// A packet may end one section and begin another: the pointer in front says how much of it
/// belongs to the first.
pub proof fn law_the_pointer_parts_sections(section: Seq<u8>, cut: int, next: Seq<u8>)
    requires
        is_section(section),
        is_section(next),
        0 < cut < section.len(),
        section.len() - cut < 256,
    ensures
        ({
            let payload = seq![(section.len() - cut) as u8] + section.skip(cut) + next;
            section::assembled(section.take(cut), payload, true) == (
                seq![section, next],
                Seq::<u8>::empty(),
            )
        }),
{
    let n = section.len() - cut;
    let payload = seq![n as u8] + section.skip(cut) + next;
    assert(payload[0] == n);
    assert(payload.subrange(1, 1 + n) =~= section.skip(cut));
    assert(section.take(cut) + section.skip(cut) =~= section);
    assert(payload.skip(1 + n) =~= next);
    lemma_alone(section);
    lemma_alone(next);
    assert(seq![section] + seq![next] =~= seq![section, next]);
}

/// `n` bytes of stuffing.
pub open spec fn filling(n: nat) -> Seq<u8> {
    Seq::new(n, |i: int| 0xffu8)
}

proof fn lemma_filling(packet: Seq<u8>, from: int, to: int)
    requires
        0 <= from <= to < packet.len(),
        forall|i: int| from <= i < to ==> packet[i] == 0xff,
        packet[to] != 0xff,
    ensures
        pes::past_stuffing(packet, from) == to,
    decreases to - from,
{
    if from < to {
        lemma_filling(packet, from + 1, to);
    }
}

/// What stands between the length and the payload of a packet of the MPEG-1 form, behind the
/// stuffing: a buffer size or none, and then one time, two times or the byte that says there is
/// no time.
pub open spec fn older_header(buffer: Option<(u8, u8)>, times: Seq<u8>) -> bool {
    &&& buffer matches Some(size) ==> size.0 / 64 == 1
    &&& {
        ||| times.len() == 1 && times[0] == 0x0f
        ||| times.len() == 5 && times[0] / 16 == 2
        ||| times.len() == 10 && times[0] / 16 == 3
    }
}

/// The payload of a packet of the MPEG-1 form comes out too, whatever stuffing, buffer size
/// and times stand in front of it.
pub proof fn law_older_payloads_come_out(
    kind: ElementaryKind,
    stream: u8,
    stuffing: nat,
    buffer: Option<(u8, u8)>,
    times: Seq<u8>,
    payload: Seq<u8>,
)
    requires
        kind.accepts(stream),
        !(kind is PrivateStream2),
        older_header(buffer, times),
        payload.len() >= 2,
    ensures
        ({
            let front = seq![0u8, 0u8, 1u8, stream, 0u8, 0u8] + filling(stuffing) + (match buffer {
                Some(size) => seq![size.0, size.1],
                None => seq![],
            });
            pes::payload_in(front + times + payload, kind) == Some(payload)
        }),
{
    let size = match buffer {
        Some(size) => seq![size.0, size.1],
        None => Seq::<u8>::empty(),
    };
    let code = seq![0u8, 0u8, 1u8, stream, 0u8, 0u8];
    let front = code + filling(stuffing) + size;
    let packet = front + times + payload;
    assert(packet[0] == code[0] && packet[1] == code[1] && packet[2] == code[2] && packet[3]
        == code[3] && packet[4] == code[4] && packet[5] == code[5]);
    let first = 6 + stuffing as int;
    let marker = first + size.len();
    assert(packet[marker] == times[0]);
    if buffer is Some {
        assert(packet[first] == size[0]);
    }
    assert forall|i: int| 6 <= i < first implies packet[i] == 0xff by {
        assert(filling(stuffing)[i - 6] == 0xff);
    }
    lemma_filling(packet, 6, first);
    assert(packet[6] / 64 != 2);
    assert(pes::stated_length(packet) == 0);
    assert(packet.subrange(marker + times.len(), packet.len() as int) =~= payload);
}

/// Data without times of their own share that of the sound, or of the video where there is no
/// sound; a packet of video or sound that opens with a time brings that time on, and only its
/// own.
pub proof fn law_times_are_remembered(d: DemuxView, packet: TsView)
    ensures
        ({
            let after = demux::routed(d, packet).0;
            let opens = packet.payload_unit_start && pes::timestamp(packet.data) is Some;
            let video = d.program.streams.video == Some(packet.pid);
            let audio = !video && d.program.streams.audio == Some(packet.pid);
            &&& video && opens ==> after.video_pts == pes::timestamp(packet.data)
            &&& !(video && opens) ==> after.video_pts == d.video_pts
            &&& audio && opens ==> after.audio_pts == pes::timestamp(packet.data)
            &&& !(audio && opens) ==> after.audio_pts == d.audio_pts
            &&& d.program.streams.audio is Some ==> demux::shared_pts(d) == d.audio_pts
            &&& d.program.streams.audio is None ==> demux::shared_pts(d) == d.video_pts
        }),
{
    reveal(demux::routed);
}

/// Private data of the second kind that fill one transport packet come out with the time that
/// they share.
pub proof fn law_untimed_data_share_a_time(d: DemuxView, packet: TsView, data: Seq<u8>)
    requires
        d.program.streams.video != Some(packet.pid),
        d.program.streams.audio != Some(packet.pid),
        d.program.streams.private_streams.contains(
            PrivateStream { is_async: true, pid: packet.pid },
        ),
        !d.program.streams.private_streams.contains(
            PrivateStream { is_async: false, pid: packet.pid },
        ),
        demux::private_from(d.private, packet.pid, 0) == d.private.len(),
        packet.payload_unit_start,
        3 <= data.len() < 0x1_0000,
        packet.data == seq![
            0u8,
            0u8,
            1u8,
            0xbfu8,
            (data.len() / 256) as u8,
            (data.len() % 256) as u8,
        ] + data,
    ensures
        demux::routed(d, packet).1 == seq![
            PacketView {
                kind: ElementaryKind::PrivateStream2,
                pid: packet.pid,
                data,
                pts: if d.program.streams.audio is Some {
                    d.audio_pts
                } else {
                    d.video_pts
                },
            },
        ],
{
    let front = seq![
        0u8,
        0u8,
        1u8,
        0xbfu8,
        (data.len() / 256) as u8,
        (data.len() % 256) as u8,
    ];
    let held = front + data;
    assert(held[0] == front[0] && held[1] == front[1] && held[2] == front[2] && held[3]
        == front[3] && held[4] == front[4] && held[5] == front[5]);
    assert(pes::stated_length(held) == data.len());
    assert(held.subrange(6, held.len() as int) =~= data);
    reveal(demux::routed);
    let private = demux::with_private(d.private, packet.pid);
    assert(private[d.private.len() as int].1 == pes::idle());
    let out = demux::routed(d, packet).1;
    assert(out =~= pes::flushed(
        pes::PesView { continuity_counter: Some(packet.continuity_counter), parts: held },
        ElementaryKind::PrivateStream2,
        packet.pid,
        demux::shared_pts(d),
    ));
}

/// Where a map moves the video to another PID, what was accumulating on the old one is handed
/// out as the old one's video, and the new one starts with nothing and no time. So it is with
/// the sound. A map that moves neither changes nothing.
pub proof fn law_what_moves_starts_over(d: DemuxView, pid: u16)
    ensures
        ({
            let (v, out) = demux::video_moved(d, Some(pid));
            let (a, sound) = demux::audio_moved(d, Some(pid));
            &&& d.program.streams.video == Some(pid) ==> v == d && out.len() == 0
            &&& d.program.streams.video != Some(pid) ==> {
                &&& v.video.parts.len() == 0 && v.video_pts is None
                &&& v.audio == d.audio && v.audio_pts == d.audio_pts
                &&& pes::payload_in(d.video.parts, ElementaryKind::Video) matches Some(data)
                    ==> out.len() == 1 && out[0].data == data && out[0].pid == pid
                    && out[0].kind is Video && out[0].pts == pes::timestamp(d.video.parts)
            }
            &&& d.program.streams.audio == Some(pid) ==> a == d && sound.len() == 0
            &&& d.program.streams.audio != Some(pid) ==> {
                &&& a.audio.parts.len() == 0 && a.audio_pts is None
                &&& a.video == d.video && a.video_pts == d.video_pts
                &&& pes::payload_in(d.audio.parts, ElementaryKind::Audio) matches Some(data)
                    ==> sound.len() == 1 && sound[0].data == data && sound[0].pid == pid
                    && sound[0].kind is Audio && sound[0].pts == pes::timestamp(d.audio.parts)
            }
            &&& demux::video_moved(d, None) == (d, Seq::<PacketView>::empty())
            &&& demux::audio_moved(d, None) == (d, Seq::<PacketView>::empty())
        }),
{
}

} // verus!
