//! Reading the streams of a service out of a transport stream.
use crate::container::mpegts::descriptors;
use crate::container::mpegts::descriptors::{AudioStream, PrivateStream};
use crate::container::mpegts::ending;
use crate::container::mpegts::packet;
use crate::container::mpegts::packet::{TsPayload, TsView, MIN_SYNC_COUNT, SYNC_BYTE, SYNC_SPAN, TS_PACKET_SIZE};
use crate::container::mpegts::pes;
use crate::container::mpegts::pes::{ElementaryKind, ElementaryPacket, PacketView, PesState, PesView};
use crate::container::mpegts::program;
use crate::container::mpegts::program::{ProgramMap, ProgramView, StreamsView};
use crate::container::mpegts::section;
use crate::container::mpegts::sound;
use crate::error::Error;
use std::collections::HashMap;
use vstd::prelude::*;

verus! {

/// A demuxer as a mathematical value.
#[verifier::ext_equal]
pub struct DemuxView {
    pub pending: Seq<u8>,
    pub unsynced: bool,
    pub program: ProgramView,
    pub video: PesView,
    pub audio: PesView,
    pub audio_switch: Option<u16>,
    pub private: Seq<(u16, PesView)>,
    pub video_pts: Option<u64>,
    pub audio_pts: Option<u64>,
    pub scrambled: int,
    pub errors: int,
    pub dropped: int,
    pub continuity: Map<u16, u8>,
}

/// What has accumulated of a private stream.
pub struct PrivateState {
    pub pid: u16,
    pub state: PesState,
}

/// Stateful MPEG-2-video/AAC demuxer, for streaming a file through in bounded
/// memory rather than holding all of it.
pub struct MpegTsAvDemuxer {
    pub pending: Vec<u8>,
    pub unsynced: bool,
    pub program: ProgramMap,
    pub video: PesState,
    pub audio: PesState,
    /// A sound stream the caller has asked to be read instead, which takes
    /// effect at the next packet boundary; see [`MpegTsAvDemuxer::select_audio`].
    pub audio_switch: Option<u16>,
    pub private: Vec<PrivateState>,
    pub video_pts: Option<u64>,
    pub audio_pts: Option<u64>,
    pub scrambled: u64,
    pub errors: u64,
    pub dropped: u64,
    pub continuity: HashMap<u16, u8>,
}

/// What has accumulated of the private streams.
pub open spec fn private_views(states: Seq<PrivateState>) -> Seq<(u16, PesView)> {
    Seq::new(states.len(), |i: int| (states[i].pid, states[i].state@))
}

impl View for MpegTsAvDemuxer {
    type V = DemuxView;

    open spec fn view(&self) -> DemuxView {
        DemuxView {
            pending: self.pending@,
            unsynced: self.unsynced,
            program: self.program@,
            video: self.video@,
            audio: self.audio@,
            audio_switch: self.audio_switch,
            private: private_views(self.private@),
            video_pts: self.video_pts,
            audio_pts: self.audio_pts,
            scrambled: self.scrambled as int,
            errors: self.errors as int,
            dropped: self.dropped as int,
            continuity: self.continuity@,
        }
    }
}

/// The stream's counter is one of four bits, and `more` bytes can still accumulate.
pub open spec fn stream_fits(state: PesView, more: int) -> bool {
    &&& state.continuity_counter matches Some(last) ==> last < 16
    &&& state.parts.len() + more <= isize::MAX
}

/// `more` bytes can still accumulate of every stream.
pub open spec fn pes_fit(d: DemuxView, more: int) -> bool {
    &&& stream_fits(d.video, more)
    &&& stream_fits(d.audio, more)
    &&& forall|i: int| 0 <= i < d.private.len() ==> stream_fits((#[trigger] d.private[i]).1, more)
}

/// `more` bytes can still accumulate of every table.
pub open spec fn sections_fit(p: ProgramView, more: int) -> bool {
    forall|pid: u16|
        #[trigger] p.assemblers.contains_key(pid) ==> p.assemblers[pid].len() + more <= isize::MAX
}

/// Every counter that is remembered is one of four bits.
pub open spec fn counters_small(continuity: Map<u16, u8>) -> bool {
    forall|pid: u16| #[trigger] continuity.contains_key(pid) ==> continuity[pid] < 16
}

/// `more` can still be counted.
pub open spec fn counts_fit(d: DemuxView, more: int) -> bool {
    &&& d.scrambled + more <= u64::MAX
    &&& d.errors + more <= u64::MAX
    &&& d.dropped + more <= u64::MAX
}

/// The demuxer can take `more` bytes: its counters are ones of four bits, and neither
/// what accumulates nor what is counted grows out of bounds.
pub open spec fn fits(d: DemuxView, more: int) -> bool {
    &&& 0 <= more <= isize::MAX
    &&& pes_fit(d, more)
    &&& sections_fit(d.program, more)
    &&& counters_small(d.continuity)
    &&& counts_fit(d, more)
}

/// A demuxer that has read nothing.
pub open spec fn fresh(service_id: Option<u16>) -> DemuxView {
    DemuxView {
        pending: seq![],
        unsynced: false,
        program: program::unread(service_id),
        video: pes::idle(),
        audio: pes::idle(),
        audio_switch: None,
        private: seq![],
        video_pts: None,
        audio_pts: None,
        scrambled: 0,
        errors: 0,
        dropped: 0,
        continuity: Map::empty(),
    }
}

/// The sound stream that was asked for is read from here on.
pub open spec fn switched(d: DemuxView) -> DemuxView {
    match d.audio_switch {
        Some(pid) => DemuxView {
            audio_switch: None,
            audio: pes::idle(),
            program: ProgramView {
                streams: StreamsView { audio: Some(pid), ..d.program.streams },
                ..d.program
            },
            audio_pts: None,
            ..d
        },
        None => d,
    }
}

/// This sound is asked for: it is to be read from the next chunk on if it is offered.
pub open spec fn selected(d: DemuxView, pid: u16) -> DemuxView {
    DemuxView {
        program: ProgramView { wanted_audio: Some(pid), ..d.program },
        audio_switch: if d.program.streams.audio == Some(pid) {
            None
        } else if program::offers(d.program.streams.audio_streams, pid) {
            Some(pid)
        } else {
            d.audio_switch
        },
        ..d
    }
}

/// The time that a private packet without one of its own is shown at.
pub open spec fn shared_pts(d: DemuxView) -> Option<u64> {
    if d.program.streams.audio is Some {
        d.audio_pts
    } else {
        d.video_pts
    }
}

/// The packet's counter is taken note of. Where it is not the one that was due, the
/// count of what was dropped grows by how far it lies ahead of that one, and by 16
/// more: a jump from 3 to 6, which misses two packets, counts as 18.
pub open spec fn counted(d: DemuxView, packet: TsView) -> DemuxView {
    if packet.discontinuity {
        DemuxView { continuity: d.continuity.remove(packet.pid), ..d }
    } else {
        let expected: int = if d.continuity.contains_key(packet.pid) {
            (d.continuity[packet.pid] + 1) % 16
        } else {
            packet.continuity_counter as int
        };
        DemuxView {
            continuity: d.continuity.insert(packet.pid, packet.continuity_counter),
            dropped: if packet.continuity_counter != expected {
                d.dropped + packet.continuity_counter + 16 - expected
            } else {
                d.dropped
            },
            ..d
        }
    }
}

/// The video is read from this stream now; what has accumulated of another is handed
/// out.
pub open spec fn video_moved(d: DemuxView, before: Option<u16>) -> (DemuxView, Seq<PacketView>) {
    match before {
        Some(pid) if d.program.streams.video != before => (
            DemuxView { video: pes::idle(), video_pts: None, ..d },
            pes::flushed(d.video, ElementaryKind::Video, pid, None),
        ),
        _ => (d, seq![]),
    }
}

/// The sound is read from this stream now; what has accumulated of another is handed
/// out.
pub open spec fn audio_moved(d: DemuxView, before: Option<u16>) -> (DemuxView, Seq<PacketView>) {
    match before {
        Some(pid) if d.program.streams.audio != before => (
            DemuxView { audio: pes::idle(), audio_pts: None, ..d },
            pes::flushed(d.audio, ElementaryKind::Audio, pid, None),
        ),
        _ => (d, seq![]),
    }
}

/// What a private stream is flushed as when the tables have been read again, if it
/// is. One that is still listed, as captions or as superimposed text, is flushed as
/// the other of the two. Its packet has not the stream id of that kind, so a packet
/// in progress is thrown away. Only captions that are no longer listed as such are
/// handed out.
pub open spec fn reread_kind(streams: StreamsView, pid: u16) -> Option<ElementaryKind> {
    if !streams.private_streams.contains(PrivateStream { is_async: false, pid }) {
        Some(ElementaryKind::PrivateStream1)
    } else if !streams.private_streams.contains(PrivateStream { is_async: true, pid }) {
        Some(ElementaryKind::PrivateStream2)
    } else {
        None
    }
}

/// What comes out of the first `n` private streams when the tables have been read
/// again.
pub open spec fn private_out(d: DemuxView, n: nat) -> Seq<PacketView>
    decreases n,
{
    if n == 0 {
        seq![]
    } else {
        let (pid, state) = d.private[n - 1];
        private_out(d, (n - 1) as nat) + match reread_kind(d.program.streams, pid) {
            Some(kind) => pes::flushed(state, kind, pid, shared_pts(d)),
            None => seq![],
        }
    }
}

/// What is left of the private streams when the tables have been read again: the
/// first `n` of them have been flushed.
pub open spec fn private_left(d: DemuxView, n: int) -> Seq<(u16, PesView)> {
    Seq::new(
        d.private.len(),
        |i: int|
            if i < n && reread_kind(d.program.streams, d.private[i].0) is Some {
                (d.private[i].0, pes::idle())
            } else {
                d.private[i]
            },
    )
}

/// A packet of the tables.
#[verifier::opaque]
pub open spec fn tabled(d: DemuxView, packet: TsView) -> (DemuxView, Seq<PacketView>) {
    let (program, changed) = program::pushed(d.program, packet);
    let read = DemuxView { program, continuity: d.continuity.remove_keys(changed), ..d };
    let (moved, video_out) = video_moved(read, d.program.streams.video);
    let (settled, audio_out) = audio_moved(moved, d.program.streams.audio);
    (
        DemuxView { private: private_left(settled, settled.private.len() as int), ..settled },
        video_out + audio_out + private_out(settled, settled.private.len()),
    )
}

/// What the streams of a PID are read as, if they are.
pub open spec fn read_as(streams: StreamsView, pid: u16) -> Option<ElementaryKind> {
    if streams.video == Some(pid) {
        Some(ElementaryKind::Video)
    } else if streams.audio == Some(pid) {
        Some(ElementaryKind::Audio)
    } else if streams.private_streams.contains(PrivateStream { is_async: false, pid }) {
        Some(ElementaryKind::PrivateStream1)
    } else if streams.private_streams.contains(PrivateStream { is_async: true, pid }) {
        Some(ElementaryKind::PrivateStream2)
    } else {
        None
    }
}

/// Where a private stream's state stands, from `i` on.
pub open spec fn private_from(private: Seq<(u16, PesView)>, pid: u16, i: int) -> int
    decreases private.len() - i,
{
    if i >= private.len() {
        private.len() as int
    } else if private[i].0 == pid {
        i
    } else {
        private_from(private, pid, i + 1)
    }
}

/// The private streams' states with one for this PID.
pub open spec fn with_private(private: Seq<(u16, PesView)>, pid: u16) -> Seq<(u16, PesView)> {
    if private_from(private, pid, 0) < private.len() {
        private
    } else {
        private.push((pid, pes::idle()))
    }
}

/// The time that the packet opens with, or else the one before.
pub open spec fn latest(packet: TsView, before: Option<u64>) -> Option<u64> {
    if packet.payload_unit_start && pes::timestamp(packet.data) is Some {
        pes::timestamp(packet.data)
    } else {
        before
    }
}

/// A packet of one of the streams.
#[verifier::opaque]
pub open spec fn routed(d: DemuxView, packet: TsView) -> (DemuxView, Seq<PacketView>) {
    let pid = packet.pid;
    match read_as(d.program.streams, pid) {
        None => (d, seq![]),
        Some(ElementaryKind::Video) => {
            let (video, out) = pes::accumulated(
                d.video,
                ElementaryKind::Video,
                pid,
                packet,
                None,
            );
            (DemuxView { video, video_pts: latest(packet, d.video_pts), ..d }, out)
        },
        Some(ElementaryKind::Audio) => {
            let (audio, out) = pes::accumulated(
                d.audio,
                ElementaryKind::Audio,
                pid,
                packet,
                None,
            );
            (DemuxView { audio, audio_pts: latest(packet, d.audio_pts), ..d }, out)
        },
        Some(kind) => {
            let private = with_private(d.private, pid);
            let at = private_from(d.private, pid, 0);
            let (state, out) = pes::accumulated(
                private[at].1,
                kind,
                pid,
                packet,
                if kind is PrivateStream2 {
                    shared_pts(d)
                } else {
                    None
                },
            );
            (DemuxView { private: private.update(at, (pid, state)), ..d }, out)
        },
    }
}

/// One packet, of 188 bytes.
#[verifier::opaque]
pub open spec fn stepped(d: DemuxView, bytes: Seq<u8>) -> (DemuxView, Seq<PacketView>) {
    match packet::payload_of(bytes) {
        None => (d, seq![]),
        Some(packet) => if packet.transport_error_indicator {
            (DemuxView { errors: d.errors + 1, ..d }, seq![])
        } else if packet.scrambled {
            let noted = counted(d, packet);
            (DemuxView { scrambled: noted.scrambled + 1, ..noted }, seq![])
        } else {
            let noted = counted(d, packet);
            if packet.pid == 0 || noted.program.pmt_pids.contains(packet.pid) {
                let (read, out) = tabled(noted, packet);
                let (after, more) = routed(read, packet);
                (after, out + more)
            } else {
                routed(noted, packet)
            }
        },
    }
}

/// What becomes of the input from `at` on: the state after it, what comes out, and
/// where the reading stopped for want of bytes.
pub open spec fn demuxed(d: DemuxView, input: Seq<u8>, at: int) -> (
    DemuxView,
    Seq<PacketView>,
    int,
)
    decreases input.len() - at,
{
    if at < 0 || at + 188 > input.len() {
        (d, seq![], at)
    } else if input[at] != SYNC_BYTE || d.unsynced {
        if input.len() - at < 1128 {
            (d, seq![], at)
        } else {
            match packet::boundary(input.skip(at), 6) {
                None => demuxed(DemuxView { unsynced: true, ..d }, input, at + 1128),
                Some(offset) => if 0 <= offset && at + offset + 188 <= input.len() {
                    let start = at + offset;
                    let (next, out) = stepped(
                        DemuxView { unsynced: false, ..d },
                        input.subrange(start, start + 188),
                    );
                    let (last, more, end) = demuxed(next, input, start + 188);
                    (last, out + more, end)
                } else {
                    (d, seq![], at)
                },
            }
        }
    } else {
        let (next, out) = stepped(d, input.subrange(at, at + 188));
        let (last, more, end) = demuxed(next, input, at + 188);
        (last, out + more, end)
    }
}

/// What becomes of the demuxer with one more chunk, and what comes out.
pub open spec fn after_chunk(d: DemuxView, chunk: Seq<u8>) -> (DemuxView, Seq<PacketView>) {
    let input = d.pending + chunk;
    let (last, out, end) = demuxed(DemuxView { pending: seq![], ..switched(d) }, input, 0);
    (DemuxView { pending: input.skip(end), ..last }, out)
}

/// What a private stream is read as.
pub open spec fn private_kind(stream: PrivateStream) -> ElementaryKind {
    if stream.is_async {
        ElementaryKind::PrivateStream2
    } else {
        ElementaryKind::PrivateStream1
    }
}

/// What the first `n` private streams of the program hand out at the end of the
/// input, and what is left of them.
pub open spec fn private_end(d: DemuxView, n: nat) -> (Seq<(u16, PesView)>, Seq<PacketView>)
    decreases n,
{
    if n == 0 {
        (d.private, seq![])
    } else {
        let (private, out) = private_end(d, (n - 1) as nat);
        let pid = d.program.streams.private_streams[n - 1].pid;
        let at = private_from(private, pid, 0);
        if at < private.len() {
            (
                private.update(at, (pid, pes::idle())),
                out + pes::flushed(
                    private[at].1,
                    private_kind(d.program.streams.private_streams[n - 1]),
                    pid,
                    shared_pts(d),
                ),
            )
        } else {
            (private, out)
        }
    }
}

/// What becomes of the demuxer at the end of the input, and what comes out.
pub open spec fn at_end(d: DemuxView) -> (DemuxView, Seq<PacketView>) {
    let (video, video_out) = match d.program.streams.video {
        Some(pid) => (
            pes::idle(),
            pes::flushed(d.video, ElementaryKind::Video, pid, None),
        ),
        None => (d.video, seq![]),
    };
    let (audio, audio_out) = match d.program.streams.audio {
        Some(pid) => (
            pes::idle(),
            pes::flushed(d.audio, ElementaryKind::Audio, pid, None),
        ),
        None => (d.audio, seq![]),
    };
    let (private, private_out) = private_end(d, d.program.streams.private_streams.len());
    (DemuxView { video, audio, private, ..d }, video_out + audio_out + private_out)
}

/// Whether a private stream is one of the program's.
fn lists_private(streams: &Vec<PrivateStream>, stream: PrivateStream) -> (lists: bool)
    ensures
        lists == streams@.contains(stream),
{
    let mut i: usize = 0;
    while i < streams.len()
        invariant
            i <= streams@.len(),
            forall|j: int| 0 <= j < i ==> streams@[j] != stream,
        decreases streams@.len() - i,
    {
        if streams[i] == stream {
            return true;
        }
        i = i + 1;
    }
    false
}

/// Where a private stream's state stands, or how many there are.
fn find_private(private: &Vec<PrivateState>, pid: u16) -> (at: usize)
    ensures
        at == private_from(private_views(private@), pid, 0),
        at <= private@.len(),
        at < private@.len() ==> private@[at as int].pid == pid,
{
    let mut i: usize = 0;
    while i < private.len()
        invariant
            i <= private@.len(),
            private_from(private_views(private@), pid, 0) == private_from(
                private_views(private@),
                pid,
                i as int,
            ),
        decreases private@.len() - i,
    {
        if private[i].pid == pid {
            return i;
        }
        i = i + 1;
    }
    private.len()
}

/// Counting keeps the counters small, and counts no more than 31 at a time.
proof fn lemma_counted_fits(d: DemuxView, p: TsView, more: int)
    requires
        counters_small(d.continuity),
        counts_fit(d, more + 31),
        p.continuity_counter < 16,
    ensures
        counters_small(counted(d, p).continuity),
        counts_fit(counted(d, p), more),
{
    let e = counted(d, p);
    assert forall|pid: u16| #[trigger] e.continuity.contains_key(pid) implies e.continuity[pid]
        < 16 by {
        if d.continuity.contains_key(pid) {
            assert(d.continuity[pid] < 16);
        }
    }
}

/// Sections do not change what the assemblers hold.
proof fn lemma_sections_keep_assemblers(
    p: ProgramView,
    sections: Seq<Seq<u8>>,
    pid: u16,
    n: nat,
)
    ensures
        program::with_sections(p, sections, pid, n).assemblers == p.assemblers,
    decreases n,
{
    if n > 0 {
        lemma_sections_keep_assemblers(p, sections, pid, (n - 1) as nat);
    }
}

/// A packet of the tables adds to one assembler no more than it carries, and to
/// nothing else.
proof fn lemma_tabled_fits(d: DemuxView, p: TsView, more: int)
    requires
        0 <= more <= isize::MAX,
        sections_fit(d.program, more + p.data.len()),
        p.data.len() + more <= isize::MAX,
        counters_small(d.continuity),
    ensures
        ({
            let e = tabled(d, p).0;
            &&& sections_fit(e.program, more)
            &&& counters_small(e.continuity)
            &&& e.scrambled == d.scrambled && e.errors == d.errors && e.dropped == d.dropped
        }),
{
    reveal(tabled);
    let e = tabled(d, p).0;
    let held = program::held_for(d.program, p.pid);
    let (sections, rest) = section::assembled(held, p.data, p.payload_unit_start);
    section::lemma_sections_are_short(held, p.data, p.payload_unit_start);
    let start = ProgramView { assemblers: d.program.assemblers.insert(p.pid, rest), ..d.program };
    lemma_sections_keep_assemblers(start, sections, p.pid, sections.len());
    assert(e.program.assemblers == start.assemblers);
    assert forall|pid: u16| #[trigger]
        e.program.assemblers.contains_key(pid) implies e.program.assemblers[pid].len() + more
        <= isize::MAX by {
        if d.program.assemblers.contains_key(pid) {
            assert(d.program.assemblers[pid].len() + more + p.data.len() <= isize::MAX);
        }
        if pid == p.pid {
            assert(rest.len() <= held.len() + p.data.len());
        }
    }
}

/// A packet of a stream adds to that stream no more than it carries, and to nothing
/// else.
proof fn lemma_routed_fits(d: DemuxView, p: TsView, more: int)
    requires
        pes_fit(d, more + p.data.len()),
        0 <= more,
        p.data.len() + more <= isize::MAX,
        p.continuity_counter < 16,
    ensures
        ({
            let e = routed(d, p).0;
            &&& pes_fit(e, more)
            &&& e.program == d.program
            &&& e.continuity == d.continuity
            &&& e.scrambled == d.scrambled && e.errors == d.errors && e.dropped == d.dropped
        }),
{
    reveal(routed);
    let e = routed(d, p).0;
    match read_as(d.program.streams, p.pid) {
        None => {},
        Some(ElementaryKind::Video) => {
            pes::lemma_counter_stays_small(d.video, ElementaryKind::Video, p.pid, p, None);
        },
        Some(ElementaryKind::Audio) => {
            pes::lemma_counter_stays_small(d.audio, ElementaryKind::Audio, p.pid, p, None);
        },
        Some(kind) => {
            let private = with_private(d.private, p.pid);
            let at = private_from(d.private, p.pid, 0);
            lemma_private_from(d.private, p.pid, 0);
            assert(stream_fits(private[at].1, more + p.data.len()));
            let fallback = if kind is PrivateStream2 {
                shared_pts(d)
            } else {
                None
            };
            pes::lemma_counter_stays_small(private[at].1, kind, p.pid, p, fallback);
        },
    }
    assert forall|i: int| 0 <= i < e.private.len() implies stream_fits(
        (#[trigger] e.private[i]).1,
        more,
    ) by {
        if i < d.private.len() {
            assert(stream_fits(d.private[i].1, more + p.data.len()));
        }
    }
}

/// A private stream is found where it stands, or behind all others.
proof fn lemma_private_from(private: Seq<(u16, PesView)>, pid: u16, i: int)
    requires
        0 <= i <= private.len(),
    ensures
        i <= private_from(private, pid, i) <= private.len(),
    decreases private.len() - i,
{
    if i < private.len() && private[i].0 != pid {
        lemma_private_from(private, pid, i + 1);
    }
}

/// What a packet carries is no longer than it.
proof fn lemma_payload_is_short(bytes: Seq<u8>)
    requires
        bytes.len() == 188,
    ensures
        packet::payload_of(bytes) matches Some(p) ==> p.data.len() <= 184 && p.continuity_counter
            < 16,
{
}

/// A packet takes no more room than its own bytes.
pub proof fn lemma_stepped_fits(d: DemuxView, bytes: Seq<u8>, more: int)
    requires
        fits(d, more + 188),
        0 <= more,
        bytes.len() == 188,
    ensures
        fits(stepped(d, bytes).0, more),
{
    reveal(stepped);
    lemma_payload_is_short(bytes);
    lemma_fits_less(d, more + 188, more);
    match packet::payload_of(bytes) {
        None => {},
        Some(p) => if !p.transport_error_indicator {
            lemma_counted_fits(d, p, more + 1);
            if !p.scrambled {
                let noted = counted(d, p);
                if p.pid == 0 || noted.program.pmt_pids.contains(p.pid) {
                    assert(pes_fit(noted, more + p.data.len())) by {
                        lemma_fits_less(d, more + 188, more + p.data.len() as int);
                    }
                    lemma_tabled_pes(noted, p, more + p.data.len() as int);
                    lemma_fits_less(d, more + 188, more + p.data.len() as int);
                    lemma_tabled_fits(noted, p, more);
                    lemma_routed_fits(tabled(noted, p).0, p, more);
                } else {
                    assert(pes_fit(noted, more + p.data.len())) by {
                        lemma_fits_less(d, more + 188, more + p.data.len() as int);
                    }
                    lemma_routed_fits(noted, p, more);
                }
            }
        },
    }
}

/// Fewer bytes fit where more do.
pub proof fn lemma_fits_less(d: DemuxView, more: int, less: int)
    requires
        fits(d, more),
        0 <= less <= more,
    ensures
        fits(d, less),
{
    assert forall|i: int| 0 <= i < d.private.len() implies stream_fits(
        (#[trigger] d.private[i]).1,
        less,
    ) by {
        assert(stream_fits(d.private[i].1, more));
    }
}

impl MpegTsAvDemuxer {
    pub fn new() -> (demuxer: Self)
        ensures
            demuxer@ == fresh(None),
            forall|n: int| 0 <= n <= isize::MAX ==> fits(demuxer@, n),
            sound::coherent(demuxer@),
    {
        MpegTsAvDemuxer::for_service(None)
    }

    /// Take the streams of one named service rather than of whichever program
    /// map turns up first.
    pub fn for_service(service_id: Option<u16>) -> (demuxer: Self)
        ensures
            demuxer@ == fresh(service_id),
            forall|n: int| 0 <= n <= isize::MAX ==> fits(demuxer@, n),
            sound::coherent(demuxer@),
    {
        let demuxer = MpegTsAvDemuxer {
            pending: Vec::new(),
            unsynced: false,
            program: ProgramMap::new(service_id),
            video: PesState::new(),
            audio: PesState::new(),
            audio_switch: None,
            private: Vec::new(),
            video_pts: None,
            audio_pts: None,
            scrambled: 0,
            errors: 0,
            dropped: 0,
            continuity: HashMap::new(),
        };
        assert(demuxer@.private =~= Seq::<(u16, PesView)>::empty());
        assert(demuxer@ =~= fresh(service_id));
        proof {
            sound::law_a_new_demuxer_is_coherent(service_id);
        }
        demuxer
    }

    /// The service the streams being demuxed belong to, once a program map has
    /// named it.
    pub fn service_id(&self) -> (service: Option<u16>)
        ensures
            service == self@.program.service,
    {
        self.program.service
    }

    /// Every service the program association table has announced, in order.
    pub fn service_ids(&self) -> (services: &[u16])
        ensures
            services@ == self@.program.services,
    {
        self.program.services.as_slice()
    }

    /// Whether the program map has named an AAC-LC audio stream yet. The
    /// caller needs this to decide whether to hold video back waiting for
    /// audio that may never come.
    pub fn has_aac_audio(&self) -> (has_audio: bool)
        ensures
            has_audio == (self@.program.streams.audio is Some),
    {
        self.program.streams.audio.is_some()
    }

    /// Every sound stream the chosen service offers, in the order its program
    /// map lists them. Empty until that map arrives.
    pub fn audio_streams(&self) -> (streams: &[AudioStream])
        ensures
            descriptors::audio_views(streams@) == self@.program.streams.audio_streams,
    {
        self.program.streams.audio_streams.as_slice()
    }

    /// Which of them is being read.
    pub fn audio_pid(&self) -> (pid: Option<u16>)
        ensures
            pid == self@.program.streams.audio,
    {
        self.program.streams.audio
    }

    /// How many packets could not be read for being scrambled.
    pub fn scrambled(&self) -> (count: u64)
        ensures
            count == self@.scrambled,
    {
        self.scrambled
    }

    /// How far the packets' counters have jumped.
    pub fn dropped(&self) -> (count: u64)
        ensures
            count == self@.dropped,
    {
        self.dropped
    }

    /// How many packets were marked as damaged.
    pub fn errors(&self) -> (count: u64)
        ensures
            count == self@.errors,
    {
        self.errors
    }

    /// Read the sound from another of the service's streams from here on.
    ///
    /// A broadcast that carries a second sound carries both at once, so this
    /// changes only which one is taken: nothing already handed out is revisited,
    /// and the stream being left is not rewound. That is what a viewer pressing
    /// the button during a live broadcast is asking for, and it is all that can
    /// be offered anyway -- the fragments made from the old sound have been
    /// appended and are being played.
    ///
    /// The choice is remembered rather than applied to one map, so a station
    /// that moves its streams and names the same sound again keeps it. A PID
    /// this service does not offer is remembered too and does nothing until it
    /// does.
    pub fn select_audio(&mut self, pid: u16)
        ensures
            final(self)@ == selected(old(self)@, pid),
            sound::coherent(old(self)@) ==> sound::coherent(final(self)@),
    {
        self.program.wanted_audio = Some(pid);
        let reading: bool = match self.program.streams.audio {
            Some(current) => current == pid,
            None => false,
        };
        if reading {
            self.audio_switch = None;
        } else if program::has_audio(&self.program.streams.audio_streams, pid) {
            self.audio_switch = Some(pid);
        }
        proof {
            if sound::coherent(old(self)@) {
                sound::law_selecting_keeps_coherent(old(self)@, pid);
            }
        }
    }

    fn take_audio_switch(&mut self)
        ensures
            final(self)@ == switched(old(self)@),
    {
        if let Some(pid) = self.audio_switch {
            self.audio_switch = None;
            self.audio = PesState::new();
            self.program.streams.audio = Some(pid);
            self.audio_pts = None;
            assert(self@ =~= switched(old(self)@));
        }
    }

    /// ARIB character superimpose is timed by the accompanying audio PES, or
    /// by video when the service has no audio. Its own PES commonly has no PTS.
    fn fallback_pts(&self) -> (pts: Option<u64>)
        ensures
            pts == shared_pts(self@),
    {
        if self.program.streams.audio.is_some() {
            self.audio_pts
        } else {
            self.video_pts
        }
    }

    fn note_continuity(&mut self, packet: &TsPayload<'_>)
        requires
            packet.continuity_counter < 16,
            forall|pid: u16|
                #[trigger] old(self)@.continuity.contains_key(pid) ==> old(self)@.continuity[pid]
                    < 16,
            old(self)@.dropped + 31 <= u64::MAX,
        ensures
            final(self)@ == counted(old(self)@, packet@),
    {
        broadcast use vstd::std_specs::hash::group_hash_axioms;

        if packet.discontinuity {
            self.continuity.remove(&packet.pid);
            assert(self@ =~= counted(old(self)@, packet@));
            return ;
        }
        let previous: Option<u8> = match self.continuity.get(&packet.pid) {
            Some(counter) => Some(*counter),
            None => None,
        };
        self.continuity.insert(packet.pid, packet.continuity_counter);
        if let Some(last) = previous {
            assert(old(self)@.continuity.contains_key(packet.pid));
            assert(last == old(self)@.continuity[packet.pid]);
            let expected: u8 = (last + 1) % 16;
            if packet.continuity_counter != expected {
                self.dropped = self.dropped + (packet.continuity_counter + 16 - expected) as u64;
            }
        }
        assert(self@ =~= counted(old(self)@, packet@));
    }

    /// Forget the counters of PIDs that came to a service or left it.
    fn forget(&mut self, changed: &Vec<u16>)
        ensures
            final(self)@ == (DemuxView {
                continuity: old(self)@.continuity.remove_keys(changed@.to_set()),
                ..old(self)@
            }),
    {
        broadcast use vstd::std_specs::hash::group_hash_axioms;

        let ghost before = self@;
        let mut i: usize = 0;
        assert(self@.continuity =~= before.continuity.remove_keys(changed@.take(0).to_set()));
        assert(self@ =~= DemuxView { continuity: self@.continuity, ..before });
        while i < changed.len()
            invariant
                i <= changed@.len(),
                self@ == (DemuxView { continuity: self@.continuity, ..before }),
                self@.continuity == before.continuity.remove_keys(
                    changed@.take(i as int).to_set(),
                ),
            decreases changed@.len() - i,
        {
            let pid: u16 = changed[i];
            let ghost so_far = self@.continuity;
            self.continuity.remove(&pid);
            proof {
                program::lemma_push_inserts(changed@.take(i as int), pid);
                assert(changed@.take(i + 1) =~= changed@.take(i as int).push(pid));
            }
            i = i + 1;
            assert(self@.continuity =~= before.continuity.remove_keys(
                changed@.take(i as int).to_set(),
            ));
            assert(self@ =~= DemuxView { continuity: self@.continuity, ..before });
        }
        assert(changed@.take(changed@.len() as int) =~= changed@);
    }

    /// Hand out what has accumulated of the video, where it is read from another
    /// stream now.
    fn settle_video(&mut self, before: Option<u16>, output: &mut Vec<ElementaryPacket>)
        requires
            old(self)@.video.parts.len() <= isize::MAX,
        ensures
            final(self)@ == video_moved(old(self)@, before).0,
            pes::packet_views(final(output)@) == pes::packet_views(old(output)@) + video_moved(
                old(self)@,
                before,
            ).1,
    {
        let ghost had = pes::packet_views(output@);
        assert(had + Seq::<PacketView>::empty() =~= had);
        if let Some(pid) = before {
            let moved: bool = match self.program.streams.video {
                Some(now) => now != pid,
                None => true,
            };
            if moved {
                self.video.flush(ElementaryKind::Video, pid, output, None);
                self.video_pts = None;
                assert(self@ =~= video_moved(old(self)@, before).0);
            }
        }
    }

    /// Hand out what has accumulated of the sound, where it is read from another
    /// stream now.
    fn settle_audio(&mut self, before: Option<u16>, output: &mut Vec<ElementaryPacket>)
        requires
            old(self)@.audio.parts.len() <= isize::MAX,
        ensures
            final(self)@ == audio_moved(old(self)@, before).0,
            pes::packet_views(final(output)@) == pes::packet_views(old(output)@) + audio_moved(
                old(self)@,
                before,
            ).1,
    {
        let ghost had = pes::packet_views(output@);
        assert(had + Seq::<PacketView>::empty() =~= had);
        if let Some(pid) = before {
            let moved: bool = match self.program.streams.audio {
                Some(now) => now != pid,
                None => true,
            };
            if moved {
                self.audio.flush(ElementaryKind::Audio, pid, output, None);
                self.audio_pts = None;
                assert(self@ =~= audio_moved(old(self)@, before).0);
            }
        }
    }

    /// Hand out what has accumulated of the private streams when the tables have been
    /// read again.
    fn settle_private(&mut self, output: &mut Vec<ElementaryPacket>)
        requires
            forall|i: int|
                0 <= i < old(self)@.private.len() ==> (#[trigger] old(
                    self,
                )@.private[i]).1.parts.len() <= isize::MAX,
        ensures
            final(self)@ == (DemuxView {
                private: private_left(old(self)@, old(self)@.private.len() as int),
                ..old(self)@
            }),
            pes::packet_views(final(output)@) == pes::packet_views(old(output)@) + private_out(
                old(self)@,
                old(self)@.private.len(),
            ),
    {
        let ghost d = self@;
        let ghost had = pes::packet_views(output@);
        let fallback_pts: Option<u64> = self.fallback_pts();
        let mut i: usize = 0;
        assert(self@.private =~= private_left(d, 0));
        assert(self@ =~= DemuxView { private: self@.private, ..d });
        assert(had + private_out(d, 0) =~= had);
        while i < self.private.len()
            invariant
                i <= self.private@.len(),
                self.private@.len() == d.private.len(),
                fallback_pts == shared_pts(d),
                forall|j: int|
                    0 <= j < d.private.len() ==> (#[trigger] d.private[j]).1.parts.len()
                        <= isize::MAX,
                self@ == (DemuxView { private: self@.private, ..d }),
                self@.private == private_left(d, i as int),
                pes::packet_views(output@) == had + private_out(d, i as nat),
            decreases d.private.len() - i,
        {
            let pid: u16 = self.private[i].pid;
            let ghost so_far = pes::packet_views(output@);
            let ghost before = self.private@;
            assert(private_left(d, i as int)[i as int] == d.private[i as int]);
            assert(private_views(before)[i as int] == (
                before[i as int].pid,
                before[i as int].state@,
            ));
            assert(d.private[i as int].1.parts.len() <= isize::MAX);
            if !lists_private(
                &self.program.streams.private_streams,
                PrivateStream { is_async: false, pid },
            ) {
                self.private[i].state.flush(
                    ElementaryKind::PrivateStream1,
                    pid,
                    output,
                    fallback_pts,
                );
            } else if !lists_private(
                &self.program.streams.private_streams,
                PrivateStream { is_async: true, pid },
            ) {
                self.private[i].state.flush(
                    ElementaryKind::PrivateStream2,
                    pid,
                    output,
                    fallback_pts,
                );
            } else {
                assert(so_far + Seq::<PacketView>::empty() =~= so_far);
            }
            i = i + 1;
            assert(pes::packet_views(output@) =~= had + private_out(d, i as nat));
            assert forall|j: int| 0 <= j < d.private.len() implies self@.private[j] == private_left(
                d,
                i as int,
            )[j] by {
                assert(private_views(before)[j] == private_left(d, i - 1)[j]);
                if j != i - 1 {
                    assert(self.private@[j] == before[j]);
                }
            }
            assert(self@.private =~= private_left(d, i as int));
            assert(self@ =~= DemuxView { private: self@.private, ..d });
        }
    }

    /// Take one packet of the tables.
    fn take_table(&mut self, packet: &TsPayload<'_>, output: &mut Vec<ElementaryPacket>)
        requires
            packet.data@.len() <= 184,
            pes_fit(old(self)@, 184),
            sections_fit(old(self)@.program, 184),
        ensures
            final(self)@ == tabled(old(self)@, packet@).0,
            pes::packet_views(final(output)@) == pes::packet_views(old(output)@) + tabled(
                old(self)@,
                packet@,
            ).1,
    {
        reveal(tabled);
        let ghost d = self@;
        let ghost had = pes::packet_views(output@);
        let prev_video_pid: Option<u16> = self.program.streams.video;
        let prev_audio_pid: Option<u16> = self.program.streams.audio;
        let changed_pids = self.program.push(packet);
        let ghost pushed = program::pushed(d.program, packet@);
        assert(self@ =~= DemuxView { program: pushed.0, ..d });
        self.forget(&changed_pids);
        let ghost read = self@;
        assert(read =~= DemuxView {
            program: pushed.0,
            continuity: d.continuity.remove_keys(pushed.1),
            ..d
        });
        self.settle_video(prev_video_pid, output);
        let ghost moved = self@;
        self.settle_audio(prev_audio_pid, output);
        let ghost settled = self@;
        assert(settled.private == d.private);
        self.settle_private(output);
        let ghost a = video_moved(read, prev_video_pid).1;
        let ghost b = audio_moved(moved, prev_audio_pid).1;
        let ghost c = private_out(settled, settled.private.len());
        assert(had + a + b + c =~= had + (a + b + c));
    }

    /// Take one packet of one of the streams.
    fn take_stream(&mut self, packet: &TsPayload<'_>, output: &mut Vec<ElementaryPacket>)
        requires
            pes_fit(old(self)@, 184),
            packet.data@.len() <= 184,
            packet.continuity_counter < 16,
        ensures
            final(self)@ == routed(old(self)@, packet@).0,
            pes::packet_views(final(output)@) == pes::packet_views(old(output)@) + routed(
                old(self)@,
                packet@,
            ).1,
    {
        reveal(routed);
        let ghost d = self@;
        let ghost had = pes::packet_views(output@);
        assert(had + Seq::<PacketView>::empty() =~= had);
        let pid: u16 = packet.pid;
        let fallback_pts: Option<u64> = self.fallback_pts();
        let is_video: bool = match self.program.streams.video {
            Some(video) => video == pid,
            None => false,
        };
        let is_audio: bool = match self.program.streams.audio {
            Some(audio) => audio == pid,
            None => false,
        };
        let opening: Option<u64> = if packet.payload_unit_start {
            pes::pes_pts(packet.data)
        } else {
            None
        };
        if is_video {
            if opening.is_some() {
                self.video_pts = opening;
            }
            self.video.push(ElementaryKind::Video, pid, packet, output, None);
            assert(self@ =~= routed(d, packet@).0);
        } else if is_audio {
            if opening.is_some() {
                self.audio_pts = opening;
            }
            self.audio.push(ElementaryKind::Audio, pid, packet, output, None);
            assert(self@ =~= routed(d, packet@).0);
        } else {
            let captions: bool = lists_private(
                &self.program.streams.private_streams,
                PrivateStream { is_async: false, pid },
            );
            let superimposed: bool = lists_private(
                &self.program.streams.private_streams,
                PrivateStream { is_async: true, pid },
            );
            if captions || superimposed {
                let at: usize = find_private(&self.private, pid);
                let ghost before = self.private@;
                if at == self.private.len() {
                    self.private.push(PrivateState { pid, state: PesState::new() });
                }
                assert(self@.private =~= with_private(d.private, pid));
                assert(self@.private[at as int] == (pid, self.private@[at as int].state@));
                assert(stream_fits(self@.private[at as int].1, 184)) by {
                    if at < before.len() {
                        assert(stream_fits(d.private[at as int].1, 184));
                    }
                }
                let ghost ready = self@.private;
                if captions {
                    self.private[at].state.push(
                        ElementaryKind::PrivateStream1,
                        pid,
                        packet,
                        output,
                        None,
                    );
                } else {
                    self.private[at].state.push(
                        ElementaryKind::PrivateStream2,
                        pid,
                        packet,
                        output,
                        fallback_pts,
                    );
                }
                assert(self@.private =~= ready.update(
                    at as int,
                    (pid, self.private@[at as int].state@),
                ));
                assert(self@ =~= routed(d, packet@).0);
            }
        }
    }

    /// Take the packet at `at`.
    fn take_packet(&mut self, input: &[u8], at: usize, output: &mut Vec<ElementaryPacket>)
        requires
            fits(old(self)@, 188),
            at + 188 <= input@.len() <= isize::MAX,
        ensures
            final(self)@ == stepped(old(self)@, input@.subrange(at as int, at + 188)).0,
            pes::packet_views(final(output)@) == pes::packet_views(old(output)@) + stepped(
                old(self)@,
                input@.subrange(at as int, at + 188),
            ).1,
    {
        reveal(stepped);
        let ghost d = self@;
        let ghost had = pes::packet_views(output@);
        assert(had + Seq::<PacketView>::empty() =~= had);
        let packet = match packet::payload_at(input, at) {
            Some(packet) => packet,
            None => {
                return ;
            },
        };
        if packet.transport_error_indicator {
            self.errors = self.errors + 1;
            assert(self@ =~= DemuxView { errors: d.errors + 1, ..d });
            return ;
        }
        proof {
            lemma_counted_fits(d, packet@, 1);
        }
        self.note_continuity(&packet);
        let ghost noted = self@;
        if packet.scrambled {
            self.scrambled = self.scrambled + 1;
            assert(self@ =~= DemuxView { scrambled: noted.scrambled + 1, ..noted });
            return ;
        }
        proof {
            lemma_fits_less(d, 188, 184);
            assert(pes_fit(noted, 184));
        }
        let wanted: bool = self.program.wants(packet.pid);
        if wanted {
            proof {
                lemma_tabled_pes(noted, packet@, 184);
            }
            self.take_table(&packet, output);
            let ghost read = self@;
            self.take_stream(&packet, output);
            let ghost a = tabled(noted, packet@).1;
            let ghost b = routed(read, packet@).1;
            assert(had + a + b =~= had + (a + b));
        } else {
            self.take_stream(&packet, output);
        }
    }

    /// Take one more chunk of the transport stream, wherever it was cut, and hand
    /// out the packets that it completes.
    pub fn push(&mut self, chunk: &[u8]) -> (result: Result<Vec<ElementaryPacket>, Error>)
        requires
            fits(old(self)@, old(self)@.pending.len() as int + chunk@.len()),
        ensures
            final(self)@ == after_chunk(old(self)@, chunk@).0,
            result matches Ok(output) && pes::packet_views(output@) == after_chunk(
                old(self)@,
                chunk@,
            ).1,
            sound::coherent(old(self)@) ==> sound::coherent(final(self)@),
    {
        let ghost d = self@;
        let mut input: Vec<u8> = Vec::new();
        core::mem::swap(&mut input, &mut self.pending);
        input.extend_from_slice(chunk);
        assert(input@ =~= d.pending + chunk@);
        self.take_audio_switch();
        let ghost start = DemuxView { pending: seq![], ..switched(d) };
        assert(self@ =~= start);
        let mut at: usize = 0;
        let mut output: Vec<ElementaryPacket> = Vec::new();
        let ghost outcome = demuxed(start, input@, 0);
        assert(pes::packet_views(output@) + outcome.1 =~= outcome.1);
        let mut reading = true;
        while reading && input.len() - at >= TS_PACKET_SIZE
            invariant
                at <= input@.len() <= isize::MAX,
                outcome == demuxed(start, input@, 0),
                outcome.0 == demuxed(self@, input@, at as int).0,
                outcome.1 == pes::packet_views(output@) + demuxed(self@, input@, at as int).1,
                outcome.2 == demuxed(self@, input@, at as int).2,
                fits(self@, input@.len() - at),
                !reading ==> demuxed(self@, input@, at as int) == (
                    self@,
                    Seq::<PacketView>::empty(),
                    at as int,
                ),
            decreases
                    input@.len() - at,
                    if reading {
                        1int
                    } else {
                        0
                    },
        {
            let mut begin: usize = at;
            let ghost had = pes::packet_views(output@);
            let ghost before = self@;
            if input[at] != SYNC_BYTE || self.unsynced {
                if input.len() - at < SYNC_SPAN {
                    reading = false;
                    continue ;
                }
                let ghost tail = input@.skip(at as int);
                assert(input@.subrange(at as int, input@.len() as int) =~= tail);
                match packet::sync_offset(&input[at..input.len()], MIN_SYNC_COUNT) {
                    Some(offset) => {
                        proof {
                            packet::lemma_boundary(tail, offset as int);
                        }
                        begin = at + offset;
                        self.unsynced = false;
                        assert(self@ =~= DemuxView { unsynced: false, ..before });
                    },
                    None => {
                        self.unsynced = true;
                        assert(self@ =~= DemuxView { unsynced: true, ..before });
                        proof {
                            lemma_fits_less(before, input@.len() - at, input@.len() - at - 1128);
                        }
                        at = at + SYNC_SPAN;
                        continue ;
                    },
                }
            }
            let ghost synced = self@;
            let ghost bytes = input@.subrange(begin as int, begin + 188);
            proof {
                lemma_fits_less(before, input@.len() - at, input@.len() - begin);
                lemma_fits_less(before, input@.len() - at, 188);
                lemma_stepped_fits(synced, bytes, input@.len() - begin - 188);
            }
            self.take_packet(&input, begin, &mut output);
            at = begin + TS_PACKET_SIZE;
            let ghost out = stepped(synced, bytes).1;
            let ghost more = demuxed(self@, input@, at as int).1;
            assert(had + (out + more) =~= had + out + more);
        }
        assert(demuxed(self@, input@, at as int) == (
            self@,
            Seq::<PacketView>::empty(),
            at as int,
        ));
        assert(pes::packet_views(output@) + Seq::<PacketView>::empty() =~= pes::packet_views(
            output@,
        ));
        let ghost last = self@;
        self.pending = input.split_off(at);
        assert(self@.pending =~= (d.pending + chunk@).skip(at as int));
        assert(self@ =~= after_chunk(d, chunk@).0);
        proof {
            if sound::coherent(d) {
                sound::law_reading_keeps_coherent(d, chunk@);
            }
        }
        Ok(output)
    }

    /// Flush whatever PES packets were still accumulating at end of input.
    pub fn finish(&mut self) -> (result: Result<Vec<ElementaryPacket>, Error>)
        requires
            fits(old(self)@, 0),
        ensures
            final(self)@ == at_end(old(self)@).0,
            result matches Ok(output) && pes::packet_views(output@) == at_end(old(self)@).1,
            forall|more: int| fits(old(self)@, more) ==> #[trigger] fits(final(self)@, more),
            sound::coherent(old(self)@) ==> sound::coherent(final(self)@),
    {
        let ghost d = self@;
        let mut output: Vec<ElementaryPacket> = Vec::new();
        let fallback_pts: Option<u64> = self.fallback_pts();
        assert(pes::packet_views(output@) =~= Seq::<PacketView>::empty());
        if let Some(video_pid) = self.program.streams.video {
            self.video.flush(ElementaryKind::Video, video_pid, &mut output, None);
        }
        let ghost a = pes::packet_views(output@);
        assert(a + Seq::<PacketView>::empty() =~= a);
        if let Some(audio_pid) = self.program.streams.audio {
            self.audio.flush(ElementaryKind::Audio, audio_pid, &mut output, None);
        }
        let ghost had = pes::packet_views(output@);
        let ghost flushed = self@;
        assert(flushed.private == d.private);
        assert(had + private_end(d, 0).1 =~= had);
        let mut i: usize = 0;
        while i < self.program.streams.private_streams.len()
            invariant
                i <= self.program.streams.private_streams@.len(),
                self.program@ == d.program,
                fits(d, 0),
                fallback_pts == shared_pts(d),
                self@ == (DemuxView { private: self@.private, ..flushed }),
                flushed.program == d.program,
                self@.private == private_end(d, i as nat).0,
                forall|j: int|
                    0 <= j < self@.private.len() ==> stream_fits(
                        (#[trigger] self@.private[j]).1,
                        0,
                    ),
                pes::packet_views(output@) == had + private_end(d, i as nat).1,
            decreases self.program.streams.private_streams@.len() - i,
        {
            let pid: u16 = self.program.streams.private_streams[i].pid;
            let kind: ElementaryKind = if self.program.streams.private_streams[i].is_async {
                ElementaryKind::PrivateStream2
            } else {
                ElementaryKind::PrivateStream1
            };
            let at: usize = find_private(&self.private, pid);
            let ghost before = self@.private;
            let ghost so_far = private_end(d, i as nat).1;
            if at < self.private.len() {
                assert(stream_fits(self@.private[at as int].1, 0));
                assert(self@.private[at as int].1 == self.private@[at as int].state@);
                self.private[at].state.flush(kind, pid, &mut output, fallback_pts);
                assert(self@.private =~= before.update(at as int, (pid, pes::idle())));
            }
            i = i + 1;
            assert(pes::packet_views(output@) =~= had + private_end(d, i as nat).1);
            assert(self@ =~= DemuxView { private: self@.private, ..flushed });
        }
        assert(self@ =~= at_end(d).0);
        assert forall|more: int| fits(d, more) implies #[trigger] fits(self@, more) by {
            ending::law_the_end_keeps_the_room(d, more);
        }
        Ok(output)
    }
}

/// A packet of the tables adds nothing to any stream.
proof fn lemma_tabled_pes(d: DemuxView, p: TsView, more: int)
    requires
        pes_fit(d, more),
        0 <= more <= isize::MAX,
    ensures
        pes_fit(tabled(d, p).0, more),
{
    reveal(tabled);
    let e = tabled(d, p).0;
    assert forall|i: int| 0 <= i < e.private.len() implies stream_fits(
        (#[trigger] e.private[i]).1,
        more,
    ) by {
        assert(stream_fits(d.private[i].1, more));
    }
}

} // verus!
