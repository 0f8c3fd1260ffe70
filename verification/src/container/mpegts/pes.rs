//! The PES packets that elementary streams come in.
use crate::container::mpegts::packet::{TsPayload, TsView};
use vstd::prelude::*;

verus! {

/// Which elementary stream a packet belongs to. The two differ in the
/// `stream_id` range their PES headers may use (Table 2-22).
#[derive(Clone, Copy, PartialEq, Eq, Debug, Structural)]
pub enum ElementaryKind {
    Video,
    Audio,
    PrivateStream1,
    PrivateStream2,
}

impl ElementaryKind {
    /// The stream may carry this id.
    pub open spec fn accepts(self, stream_id: u8) -> bool {
        match self {
            ElementaryKind::Video => 0xe0 <= stream_id <= 0xef,
            ElementaryKind::Audio => 0xc0 <= stream_id <= 0xdf,
            ElementaryKind::PrivateStream1 => stream_id == 0xbd,
            ElementaryKind::PrivateStream2 => stream_id == 0xbf,
        }
    }

    pub fn accepts_stream_id(self, stream_id: u8) -> (accepts: bool)
        ensures
            accepts == self.accepts(stream_id),
    {
        match self {
            ElementaryKind::Video => 0xe0 <= stream_id && stream_id <= 0xef,
            ElementaryKind::Audio => 0xc0 <= stream_id && stream_id <= 0xdf,
            ElementaryKind::PrivateStream1 => stream_id == 0xbd,
            ElementaryKind::PrivateStream2 => stream_id == 0xbf,
        }
    }
}

#[derive(Clone, Debug)]
pub struct ElementaryPacket {
    pub kind: ElementaryKind,
    pub pid: u16,
    pub data: Vec<u8>,
    /// The PES presentation timestamp in 90 kHz units, when one is present.
    /// Video and audio rarely start at the same timestamp in a broadcast
    /// stream, so this is what puts the two tracks on a common timeline.
    pub pts: Option<u64>,
}

/// An elementary packet as a mathematical value.
#[verifier::ext_equal]
pub struct PacketView {
    pub kind: ElementaryKind,
    pub pid: u16,
    pub data: Seq<u8>,
    pub pts: Option<u64>,
}

impl View for ElementaryPacket {
    type V = PacketView;

    open spec fn view(&self) -> PacketView {
        PacketView { kind: self.kind, pid: self.pid, data: self.data@, pts: self.pts }
    }
}

/// Several packets.
pub open spec fn packet_views(packets: Seq<ElementaryPacket>) -> Seq<PacketView> {
    Seq::new(packets.len(), |i: int| packets[i]@)
}

/// The presentation timestamp that a PES header gives, if it gives one.
pub open spec fn timestamp(packet: Seq<u8>) -> Option<u64> {
    if packet.len() < 14 || packet[3] == 0xbf || packet[6] / 64 != 2 || packet[7] < 128 {
        None
    } else {
        Some(
            (0x4000_0000 * ((packet[9] / 2) % 8) + 0x40_0000 * packet[10] + 0x8000 * (packet[11]
                / 2) + 128 * packet[12] + packet[13] / 2) as u64,
        )
    }
}

pub fn pes_pts(packet: &[u8]) -> (pts: Option<u64>)
    ensures
        pts == timestamp(packet@),
{
    if packet.len() < 14 {
        return None;
    }
    if packet[3] == 0xbf {
        return None;
    }
    if packet[6] / 64 != 2 || packet[7] < 128 {
        return None;
    }
    Some(
        ((packet[9] / 2) % 8) as u64 * 0x4000_0000 + packet[10] as u64 * 0x40_0000 + (packet[11]
            / 2) as u64 * 0x8000 + packet[12] as u64 * 128 + (packet[13] / 2) as u64,
    )
}

/// The packet opens with a start code prefix.
pub open spec fn has_prefix(packet: Seq<u8>) -> bool {
    packet[0] == 0 && packet[1] == 0 && packet[2] == 1
}

/// The first byte from `at` on that is not stuffing.
pub open spec fn past_stuffing(packet: Seq<u8>, at: int) -> int
    decreases packet.len() - at,
{
    if at < packet.len() && packet[at] == 0xff {
        past_stuffing(packet, at + 1)
    } else {
        at
    }
}

/// Where the payload begins behind a header of the MPEG-1 form.
pub open spec fn mpeg1_payload_start(packet: Seq<u8>) -> Option<int> {
    let first = past_stuffing(packet, 6);
    if first >= packet.len() {
        None
    } else {
        // A buffer size may stand in front of the timestamps.
        let marker = if packet[first] / 64 == 1 {
            first + 2
        } else {
            first
        };
        if marker >= packet.len() {
            None
        } else if packet[marker] / 16 == 2 {
            Some(marker + 5)
        } else if packet[marker] / 16 == 3 {
            Some(marker + 10)
        } else if packet[marker] == 0x0f {
            Some(marker + 1)
        } else {
            None
        }
    }
}

/// Where the payload begins.
pub open spec fn payload_start(packet: Seq<u8>, kind: ElementaryKind) -> Option<int> {
    if kind is PrivateStream2 {
        Some(6)
    } else if packet[6] / 64 == 2 {
        Some(9 + packet[8])
    } else {
        mpeg1_payload_start(packet)
    }
}

/// How long the packet says it is behind the length itself; zero leaves it open.
pub open spec fn stated_length(packet: Seq<u8>) -> int {
    256 * packet[4] + packet[5]
}

/// What the packet carries, if it is one of this kind.
pub open spec fn payload_in(packet: Seq<u8>, kind: ElementaryKind) -> Option<Seq<u8>> {
    if packet.len() < 9 || !has_prefix(packet) || !kind.accepts(packet[3]) {
        None
    } else {
        let length = stated_length(packet);
        let end: int = if length == 0 || packet.len() < 6 + length {
            packet.len() as int
        } else {
            6 + length
        };
        match payload_start(packet, kind) {
            Some(start) if start <= end => Some(packet.subrange(start, end)),
            _ => None,
        }
    }
}

/// Where the payload begins behind a header of the MPEG-1 form, retained for older
/// transport streams.
fn find_mpeg1_start(packet: &[u8]) -> (start: Option<usize>)
    requires
        packet@.len() >= 9,
        packet@.len() <= isize::MAX,
    ensures
        match start {
            Some(at) => mpeg1_payload_start(packet@) == Some(at as int),
            None => mpeg1_payload_start(packet@) is None,
        },
{
    let mut start: usize = 6;
    while start < packet.len() && packet[start] == 0xff
        invariant
            6 <= start <= packet@.len(),
            packet@.len() <= isize::MAX,
            past_stuffing(packet@, 6) == past_stuffing(packet@, start as int),
        decreases packet@.len() - start,
    {
        start = start + 1;
    }
    if start >= packet.len() {
        return None;
    }
    if packet[start] / 64 == 1 {
        start = start + 2;
    }
    if start >= packet.len() {
        return None;
    }
    let marker: u8 = packet[start];
    if marker / 16 == 2 {
        Some(start + 5)
    } else if marker / 16 == 3 {
        Some(start + 10)
    } else if marker == 0x0f {
        Some(start + 1)
    } else {
        None
    }
}

pub fn pes_payload<'a>(packet: &'a [u8], kind: ElementaryKind) -> (payload: Option<&'a [u8]>)
    requires
        packet@.len() <= isize::MAX,
    ensures
        match payload {
            Some(data) => payload_in(packet@, kind) == Some(data@),
            None => payload_in(packet@, kind) is None,
        },
{
    if packet.len() < 9 || packet[0] != 0 || packet[1] != 0 || packet[2] != 1 {
        return None;
    }
    let stream_id: u8 = packet[3];
    if !kind.accepts_stream_id(stream_id) {
        return None;
    }
    let pes_length: usize = packet[4] as usize * 256 + packet[5] as usize;
    let start: usize = if kind == ElementaryKind::PrivateStream2 {
        // private_stream_2 is one of the stream ids with no optional PES
        // header (ISO/IEC 13818-1 table 2-17).
        6
    } else if packet[6] / 64 == 2 {
        9 + packet[8] as usize
    } else {
        match find_mpeg1_start(packet) {
            Some(start) => start,
            None => {
                return None;
            },
        }
    };
    let end: usize = if pes_length == 0 || packet.len() < 6 + pes_length {
        packet.len()
    } else {
        6 + pes_length
    };
    if start > end {
        return None;
    }
    Some(&packet[start..end])
}

/// How long the packet says it is, once its header is there.
pub open spec fn known_length(packet: Seq<u8>) -> Option<int> {
    if packet.len() < 9 || !has_prefix(packet) {
        None
    } else {
        Some(stated_length(packet))
    }
}

pub fn pes_packet_length(packet: &[u8]) -> (length: Option<usize>)
    ensures
        match length {
            Some(n) => known_length(packet@) == Some(n as int) && n <= 0xffff,
            None => known_length(packet@) is None,
        },
{
    if packet.len() < 9 || packet[0] != 0 || packet[1] != 0 || packet[2] != 1 {
        return None;
    }
    Some(packet[4] as usize * 256 + packet[5] as usize)
}

/// The payload opens a PES packet of the given kind.
pub open spec fn opens_packet(packet: Seq<u8>, kind: ElementaryKind) -> bool {
    packet.len() >= 4 && has_prefix(packet) && kind.accepts(packet[3])
}

/// Whether a packet payload opens a PES packet of the given kind. A payload
/// unit start on the right PID is not enough: broadcast streams interleave
/// other PES types on PIDs a PMT has already claimed.
pub fn is_pes_start(packet: &[u8], kind: ElementaryKind) -> (is: bool)
    ensures
        is == opens_packet(packet@, kind),
{
    packet.len() >= 4 && packet[0] == 0 && packet[1] == 0 && packet[2] == 1
        && kind.accepts_stream_id(packet[3])
}

/// A PES packet as it accumulates, as a mathematical value.
#[verifier::ext_equal]
pub struct PesView {
    pub continuity_counter: Option<u8>,
    pub parts: Seq<u8>,
}

/// One elementary stream's PES packet as it accumulates across TS packets.
pub struct PesState {
    pub continuity_counter: Option<u8>,
    pub parts: Vec<u8>,
}

impl View for PesState {
    type V = PesView;

    open spec fn view(&self) -> PesView {
        PesView { continuity_counter: self.continuity_counter, parts: self.parts@ }
    }
}

/// Nothing has accumulated.
pub open spec fn idle() -> PesView {
    PesView { continuity_counter: None, parts: seq![] }
}

/// What comes out of a packet that is complete, or that the input ends on.
pub open spec fn flushed(
    state: PesView,
    kind: ElementaryKind,
    pid: u16,
    fallback_pts: Option<u64>,
) -> Seq<PacketView> {
    match payload_in(state.parts, kind) {
        Some(data) => seq![
            PacketView {
                kind,
                pid,
                data,
                pts: match timestamp(state.parts) {
                    Some(pts) => Some(pts),
                    None => fallback_pts,
                },
            },
        ],
        None => seq![],
    }
}

/// What accumulates with one more TS packet, and what comes out.
pub open spec fn accumulated(
    state: PesView,
    kind: ElementaryKind,
    pid: u16,
    payload: TsView,
    fallback_pts: Option<u64>,
) -> (PesView, Seq<PacketView>) {
    let expected: Option<int> = match state.continuity_counter {
        Some(last) => Some((last + 1) % 16),
        None => None,
    };
    let broken = !payload.discontinuity && expected != Some(payload.continuity_counter as int);
    if !payload.discontinuity && state.continuity_counter == Some(payload.continuity_counter) {
        // The same packet again.
        (state, seq![])
    } else if !payload.payload_unit_start && broken {
        (idle(), seq![])
    } else {
        // A packet that left its length open ends where the next begins.
        let closed = if payload.payload_unit_start && !broken && known_length(state.parts) == Some(
            0int,
        ) {
            flushed(state, kind, pid, fallback_pts)
        } else {
            seq![]
        };
        let held = if payload.payload_unit_start {
            payload.data
        } else {
            state.parts + payload.data
        };
        let now = PesView {
            continuity_counter: Some(payload.continuity_counter),
            parts: held,
        };
        match known_length(held) {
            Some(length) if length != 0 && length + 6 == held.len() => (
                idle(),
                closed + flushed(now, kind, pid, fallback_pts),
            ),
            Some(length) if length != 0 && length + 6 < held.len() => (idle(), closed),
            _ => (now, closed),
        }
    }
}

impl PesState {
    pub fn new() -> (state: Self)
        ensures
            state@ == idle(),
    {
        let state = PesState { continuity_counter: None, parts: Vec::new() };
        assert(state@ =~= idle());
        state
    }

    /// Hand out what has accumulated.
    pub fn flush(
        &mut self,
        kind: ElementaryKind,
        pid: u16,
        output: &mut Vec<ElementaryPacket>,
        fallback_pts: Option<u64>,
    )
        requires
            old(self)@.parts.len() <= isize::MAX,
        ensures
            final(self)@ == idle(),
            packet_views(final(output)@) == packet_views(old(output)@) + flushed(
                old(self)@,
                kind,
                pid,
                fallback_pts,
            ),
    {
        let ghost parts = self.parts@;
        self.continuity_counter = None;
        match pes_payload(&self.parts, kind) {
            None => {
                self.parts.clear();
                assert(packet_views(output@) + Seq::<PacketView>::empty() =~= packet_views(
                    output@,
                ));
            },
            Some(payload) => {
                let mut data: Vec<u8> = Vec::new();
                data.extend_from_slice(payload);
                assert(data@ =~= payload@);
                let pts: Option<u64> = match pes_pts(&self.parts) {
                    Some(pts) => Some(pts),
                    None => fallback_pts,
                };
                self.parts.clear();
                let packet = ElementaryPacket { kind, pid, data, pts };
                let ghost view = packet@;
                output.push(packet);
                assert(packet_views(output@) =~= packet_views(old(output)@) + seq![view]);
            },
        }
        assert(self@ =~= idle());
    }

    /// Take one TS packet of the stream.
    pub fn push(
        &mut self,
        kind: ElementaryKind,
        pid: u16,
        payload: &TsPayload<'_>,
        output: &mut Vec<ElementaryPacket>,
        fallback_pts: Option<u64>,
    )
        requires
            old(self)@.parts.len() + payload.data@.len() <= isize::MAX,
            old(self)@.continuity_counter matches Some(last) ==> last < 16,
            payload.continuity_counter < 16,
        ensures
            final(self)@ == accumulated(old(self)@, kind, pid, payload@, fallback_pts).0,
            packet_views(final(output)@) == packet_views(old(output)@) + accumulated(
                old(self)@,
                kind,
                pid,
                payload@,
                fallback_pts,
            ).1,
    {
        let ghost had = packet_views(output@);
        let ghost outcome = accumulated(self@, kind, pid, payload@, fallback_pts);
        assert(had + Seq::<PacketView>::empty() =~= had);
        let expected: Option<u8> = match self.continuity_counter {
            Some(last) => Some((last + 1) % 16),
            None => None,
        };
        let broken: bool = !payload.discontinuity && match expected {
            Some(next) => next != payload.continuity_counter,
            None => true,
        };
        let repeated: bool = !payload.discontinuity && match self.continuity_counter {
            Some(last) => last == payload.continuity_counter,
            None => false,
        };
        if repeated {
            return ;
        }
        let ghost mut closed: Seq<PacketView> = seq![];
        if payload.payload_unit_start {
            if !broken {
                match pes_packet_length(&self.parts) {
                    Some(0) => {
                        proof {
                            closed = flushed(self@, kind, pid, fallback_pts);
                        }
                        self.flush(kind, pid, output, fallback_pts);
                    },
                    _ => {},
                }
            }
            self.parts.clear();
        } else if broken {
            self.parts.clear();
            self.continuity_counter = None;
            assert(self@ =~= idle());
            return ;
        }
        assert(packet_views(output@) =~= had + closed);
        let ghost kept = self.parts@;
        self.continuity_counter = Some(payload.continuity_counter);
        self.parts.extend_from_slice(payload.data);
        let ghost held = if payload.payload_unit_start {
            payload.data@
        } else {
            old(self)@.parts + payload.data@
        };
        assert(self.parts@ =~= held);
        let ghost now = self@;
        assert(had + closed + Seq::<PacketView>::empty() =~= had + closed);
        if let Some(length) = pes_packet_length(&self.parts) {
            if length != 0 && length + 6 == self.parts.len() {
                self.flush(kind, pid, output, fallback_pts);
                let ghost last = flushed(now, kind, pid, fallback_pts);
                assert(had + closed + last =~= had + (closed + last));
            } else if length != 0 && length + 6 < self.parts.len() {
                self.continuity_counter = None;
                self.parts.clear();
                assert(self@ =~= idle());
            }
        }
        assert(self@ =~= outcome.0);
    }
}

/// A stream's state always holds a counter of four bits.
pub proof fn lemma_counter_stays_small(
    state: PesView,
    kind: ElementaryKind,
    pid: u16,
    payload: TsView,
    fallback_pts: Option<u64>,
)
    requires
        state.continuity_counter matches Some(last) ==> last < 16,
        payload.continuity_counter < 16,
    ensures
        accumulated(state, kind, pid, payload, fallback_pts).0.continuity_counter matches Some(
            last,
        ) ==> last < 16,
        accumulated(state, kind, pid, payload, fallback_pts).0.parts.len() <= state.parts.len()
            + payload.data.len(),
{
}

} // verus!
