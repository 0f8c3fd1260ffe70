//! What a PES packet carries is what comes out of it.
use crate::container::mpegts::packet::TsView;
use crate::container::mpegts::pes;
use crate::container::mpegts::pes::{ElementaryKind, PacketView, PesView};
use vstd::prelude::*;

verus! {

/// A presentation time of 33 bits, as a PES header has it: three bits, fifteen and fifteen,
/// each behind a marker, with four bits in front that say what it is.
pub open spec fn time_bytes(prefix: int, pts: int) -> Seq<u8> {
    seq![
        (16 * prefix + 2 * (pts / 0x4000_0000) + 1) as u8,
        ((pts / 0x40_0000) % 0x100) as u8,
        (2 * ((pts / 0x8000) % 0x80) + 1) as u8,
        ((pts / 0x80) % 0x100) as u8,
        (2 * (pts % 0x80) + 1) as u8,
    ]
}

/// The front of a PES packet: the start code, the stream, the length of what follows, the
/// two bits that mark the MPEG-2 form among others, the flags, and how much header is left.
pub open spec fn front_bytes(stream: int, length: int, marks: int, flags: int, header: int) -> Seq<
    u8,
> {
    seq![
        0u8,
        0u8,
        1u8,
        stream as u8,
        (length / 256) as u8,
        (length % 256) as u8,
        (128 + marks) as u8,
        flags as u8,
        header as u8,
    ]
}

/// Every presentation time of 33 bits comes back, whatever follows it. A header whose flag is
/// not set gives none.
pub proof fn law_times_read_back(
    stream: int,
    length: int,
    marks: int,
    flags: int,
    header: int,
    prefix: int,
    pts: int,
    rest: Seq<u8>,
)
    requires
        0 <= stream < 256 && stream != 0xbf,
        0 <= length < 0x1_0000,
        0 <= marks < 64,
        0 <= flags < 256,
        0 <= header < 256,
        0 <= prefix < 16,
        0 <= pts < 0x2_0000_0000,
    ensures
        ({
            let packet = front_bytes(stream, length, marks, flags, header) + time_bytes(prefix, pts)
                + rest;
            &&& flags >= 128 ==> pes::timestamp(packet) == Some(pts as u64)
            &&& flags < 128 ==> pes::timestamp(packet) is None
        }),
{
    let front = front_bytes(stream, length, marks, flags, header);
    let time = time_bytes(prefix, pts);
    let packet = front + time + rest;
    assert(packet[3] == front[3]);
    assert(packet[6] == front[6]);
    assert(packet[7] == front[7]);
    assert(packet[9] == time[0] && packet[10] == time[1] && packet[11] == time[2] && packet[12]
        == time[3] && packet[13] == time[4]);
    let a = pts / 0x4000_0000;
    let b = (pts / 0x40_0000) % 0x100;
    let c = (pts / 0x8000) % 0x80;
    let d = (pts / 0x80) % 0x100;
    let e = pts % 0x80;
    assert(0 <= a < 8);
    assert(time[0] == 16 * prefix + 2 * a + 1);
    assert((time[0] / 2) % 8 == a);
    assert(time[2] / 2 == c);
    assert(time[4] / 2 == e);
    assert(pts == 0x4000_0000 * a + 0x40_0000 * b + 0x8000 * c + 0x80 * d + e) by {
        assert(pts / 0x40_0000 == 0x100 * a + b) by {
            assert((pts / 0x40_0000) / 0x100 == a);
        }
        assert(pts / 0x8000 == 0x80 * (pts / 0x40_0000) + c) by {
            assert((pts / 0x8000) / 0x80 == pts / 0x40_0000);
        }
        assert(pts / 0x80 == 0x100 * (pts / 0x8000) + d) by {
            assert((pts / 0x80) / 0x100 == pts / 0x8000);
        }
    }
}

/// Video is in streams 0xe0 to 0xef, sound in 0xc0 to 0xdf, and the two kinds of private data
/// in 0xbd and 0xbf: no stream is of two kinds.
pub proof fn law_streams_are_of_one_kind(a: ElementaryKind, b: ElementaryKind, stream: u8)
    requires
        a.accepts(stream),
        b.accepts(stream),
    ensures
        a == b,
        stream / 16 == 14 <==> a is Video,
        stream / 32 == 6 <==> a is Audio,
        stream == 189 <==> a is PrivateStream1,
        stream == 191 <==> a is PrivateStream2,
{
}

/// The payload of a packet of the MPEG-2 form comes out: what stands behind the header, up to
/// the end that its length names, or up to the end of what is there where the length is left
/// open or reaches further.
pub proof fn law_payloads_come_out(
    kind: ElementaryKind,
    stream: int,
    length: int,
    marks: int,
    flags: int,
    header: Seq<u8>,
    payload: Seq<u8>,
    behind: Seq<u8>,
)
    requires
        0 <= stream < 256,
        kind.accepts(stream as u8),
        !(kind is PrivateStream2),
        0 <= marks < 64,
        0 <= flags < 256,
        header.len() < 256,
        0 <= length < 0x1_0000,
        length == 0 || length == 3 + header.len() + payload.len(),
        length == 0 ==> behind.len() == 0,
    ensures
        ({
            let packet = front_bytes(stream, length, marks, flags, header.len() as int) + header
                + payload + behind;
            pes::payload_in(packet, kind) == Some(payload)
        }),
{
    let front = front_bytes(stream, length, marks, flags, header.len() as int);
    let packet = front + header + payload + behind;
    assert(packet[0] == front[0] && packet[1] == front[1] && packet[2] == front[2] && packet[3]
        == front[3] && packet[4] == front[4] && packet[5] == front[5] && packet[6] == front[6]
        && packet[7] == front[7] && packet[8] == front[8]);
    assert(packet[6] / 64 == 2);
    assert(pes::stated_length(packet) == length);
    let start = 9 + header.len() as int;
    let end = start + payload.len();
    assert(packet.subrange(start, end) =~= payload);
}

/// Private data of the second kind have no header behind the length.
pub proof fn law_second_private_data_have_no_header(length: int, payload: Seq<u8>)
    requires
        length == 0 || length == payload.len(),
        0 <= length < 0x1_0000,
        payload.len() >= 3,
    ensures
        ({
            let packet = seq![
                0u8,
                0u8,
                1u8,
                0xbfu8,
                (length / 256) as u8,
                (length % 256) as u8,
            ] + payload;
            &&& pes::payload_in(packet, ElementaryKind::PrivateStream2) == Some(payload)
            &&& pes::timestamp(packet) is None
        }),
{
    let front = seq![0u8, 0u8, 1u8, 0xbfu8, (length / 256) as u8, (length % 256) as u8];
    let packet = front + payload;
    assert(packet[0] == front[0] && packet[1] == front[1] && packet[2] == front[2] && packet[3]
        == front[3] && packet[4] == front[4] && packet[5] == front[5]);
    assert(pes::stated_length(packet) == length);
    assert(packet.subrange(6, packet.len() as int) =~= payload);
}

/// Bytes that do not open with a start code prefix, or that are of a stream of another kind,
/// carry nothing.
pub proof fn law_other_packets_carry_nothing(kind: ElementaryKind, packet: Seq<u8>)
    requires
        packet.len() >= 9,
        packet[0] != 0 || packet[1] != 0 || packet[2] != 1 || !kind.accepts(packet[3]),
    ensures
        pes::payload_in(packet, kind) is None,
{
}

/// A transport packet of a stream that is due next.
pub open spec fn due(state: PesView, packet: TsView) -> bool {
    &&& !packet.discontinuity
    &&& state.continuity_counter matches Some(last) && packet.continuity_counter == (last + 1) % 16
    &&& packet.continuity_counter < 16
    &&& state.continuity_counter matches Some(last) ==> last < 16
}

/// A packet that is due goes behind what is there: nothing comes out before the PES packet is
/// as long as it says, and then it comes out whole.
pub proof fn law_packets_accumulate(
    state: PesView,
    kind: ElementaryKind,
    pid: u16,
    packet: TsView,
    fallback: Option<u64>,
)
    requires
        due(state, packet),
        !packet.payload_unit_start,
    ensures
        ({
            let (after, out) = pes::accumulated(state, kind, pid, packet, fallback);
            let held = state.parts + packet.data;
            let length = 256 * held[4] + held[5];
            let headed = held.len() >= 9 && held[0] == 0 && held[1] == 0 && held[2] == 1;
            &&& headed && length != 0 && held.len() == 6 + length ==> after.parts.len() == 0
                && forall|data: Seq<u8>|
                pes::payload_in(held, kind) == Some(data) ==> out.len() == 1 && out[0].data == data
                    && out[0].kind == kind && out[0].pid == pid
            &&& headed && length != 0 && held.len() < 6 + length ==> after.parts == held
                && out.len() == 0 && after.continuity_counter == Some(packet.continuity_counter)
            &&& headed && length == 0 ==> after.parts == held && out.len() == 0
        }),
{
    let held = state.parts + packet.data;
    let last = state.continuity_counter->Some_0;
    assert((last + 1) % 16 != last);
    assert(Seq::<PacketView>::empty() + pes::flushed(
        PesView { continuity_counter: Some(packet.continuity_counter), parts: held },
        kind,
        pid,
        fallback,
    ) =~= pes::flushed(
        PesView { continuity_counter: Some(packet.continuity_counter), parts: held },
        kind,
        pid,
        fallback,
    ));
}

/// A packet that comes twice is taken once, and a gap throws away what was there.
pub proof fn law_repeats_and_gaps(
    state: PesView,
    kind: ElementaryKind,
    pid: u16,
    packet: TsView,
    fallback: Option<u64>,
)
    requires
        !packet.discontinuity,
        state.continuity_counter is Some,
    ensures
        ({
            let (after, out) = pes::accumulated(state, kind, pid, packet, fallback);
            let last = state.continuity_counter->Some_0;
            &&& packet.continuity_counter == last ==> after == state && out.len() == 0
            &&& packet.continuity_counter != last && packet.continuity_counter != (last + 1) % 16
                && !packet.payload_unit_start ==> after.parts.len() == 0 && out.len() == 0
                && after.continuity_counter is None
        }),
{
}

} // verus!
