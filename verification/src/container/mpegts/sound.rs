//! Which sound is read, in every state that a demuxer comes to.
use crate::container::mpegts::demux;
use crate::container::mpegts::demux::DemuxView;
use crate::container::mpegts::packet;
use crate::container::mpegts::packet::SYNC_BYTE;
use crate::container::mpegts::pes::PacketView;
use crate::container::mpegts::program;
use crate::container::mpegts::program::{ProgramView, StreamsView};
use crate::container::mpegts::section;
use crate::container::mpegts::streaming;
use vstd::prelude::*;

verus! {

/// A sound is read exactly when one is offered, and it is one of those offered.
pub open spec fn sound_named(streams: StreamsView) -> bool {
    &&& streams.audio is Some <==> streams.audio_streams.len() > 0
    &&& streams.audio matches Some(pid) ==> program::offers(streams.audio_streams, pid)
}

/// The service that is read and the one that is held back name their sound, and no
/// service is announced twice.
pub open spec fn map_coherent(p: ProgramView) -> bool {
    &&& sound_named(p.streams)
    &&& p.deferred matches Some(deferred) ==> sound_named(deferred.streams)
    &&& p.services.no_duplicates()
}

/// What waits is too little to find a packet in.
pub open spec fn waits(pending: Seq<u8>, unsynced: bool) -> bool {
    pending.len() < 188 || (pending.len() < 1128 && (pending[0] != SYNC_BYTE || unsynced))
}

/// The demuxer's tables fit together, a sound that was asked for is one of those
/// offered, and no packet is waiting.
pub open spec fn coherent(d: DemuxView) -> bool {
    &&& map_coherent(d.program)
    &&& d.audio_switch matches Some(pid) ==> program::offers(
        d.program.streams.audio_streams,
        pid,
    )
    &&& waits(d.pending, d.unsynced)
}

/// What a table announces does not repeat a service.
proof fn lemma_announced(section: Seq<u8>, i: int, services: Seq<u16>, pmt_pids: Set<u16>)
    requires
        services.no_duplicates(),
    ensures
        program::announced(section, i, services, pmt_pids).0.no_duplicates(),
    decreases section.len() - i,
{
    if i + 3 < section.len() - 4 {
        let program = program::pair(section, i);
        if program == 0 {
            lemma_announced(section, i + 4, services, pmt_pids);
        } else {
            let more = if services.contains(program) {
                services
            } else {
                services.push(program)
            };
            assert(more.no_duplicates());
            lemma_announced(
                section,
                i + 4,
                more,
                pmt_pids.insert(program::pid_in(section, i + 2)),
            );
        }
    }
}

/// A section keeps the map coherent.
proof fn lemma_section(p: ProgramView, section: Seq<u8>, pid: u16)
    requires
        map_coherent(p),
    ensures
        map_coherent(program::with_section(p, section, pid)),
{
    lemma_announced(section, 8, p.services, p.pmt_pids);
    let l = program::listed(
        section,
        12 + program::length_in(section, 10),
        program::nothing_listed(),
    );
    if l.audio_streams.len() > 0 {
        assert(l.audio_streams[0].pid == l.audio_streams[0].pid);
        assert(program::offers(l.audio_streams, l.audio_streams[0].pid));
    }
}

/// Sections keep the map coherent.
proof fn lemma_sections(p: ProgramView, sections: Seq<Seq<u8>>, pid: u16, n: nat)
    requires
        map_coherent(p),
    ensures
        map_coherent(program::with_sections(p, sections, pid, n)),
    decreases n,
{
    if n > 0 {
        lemma_sections(p, sections, pid, (n - 1) as nat);
        lemma_section(
            program::with_sections(p, sections, pid, (n - 1) as nat),
            sections[n - 1],
            pid,
        );
    }
}

/// A packet keeps the map coherent, and the sound that was asked for with it.
proof fn lemma_stepped(d: DemuxView, bytes: Seq<u8>)
    requires
        map_coherent(d.program),
    ensures
        map_coherent(demux::stepped(d, bytes).0.program),
{
    reveal(demux::stepped);
    reveal(demux::tabled);
    reveal(demux::routed);
    if let Some(p) = packet::payload_of(bytes) {
        let noted = demux::counted(d, p);
        assert(noted.program == d.program);
        let (sections, rest) = section::assembled(
            program::held_for(noted.program, p.pid),
            p.data,
            p.payload_unit_start,
        );
        let fed = ProgramView {
            assemblers: noted.program.assemblers.insert(p.pid, rest),
            ..noted.program
        };
        lemma_sections(fed, sections, p.pid, sections.len());
    }
}

/// Reading keeps the map coherent, and leaves too little to find a packet in.
proof fn lemma_demuxed(d: DemuxView, input: Seq<u8>, at: int)
    requires
        map_coherent(d.program),
        0 <= at <= input.len(),
    ensures
        ({
            let (last, out, end) = demux::demuxed(d, input, at);
            &&& map_coherent(last.program)
            &&& at <= end <= input.len()
            &&& waits(input.skip(end), last.unsynced)
        }),
    decreases input.len() - at,
{
    if at + 188 <= input.len() {
        if input[at] != SYNC_BYTE || d.unsynced {
            if input.len() - at >= 1128 {
                match packet::boundary(input.skip(at), 6) {
                    None => {
                        lemma_demuxed(DemuxView { unsynced: true, ..d }, input, at + 1128);
                    },
                    Some(offset) => {
                        packet::lemma_boundary(input.skip(at), offset);
                        let start = at + offset;
                        let synced = DemuxView { unsynced: false, ..d };
                        let bytes = input.subrange(start, start + 188);
                        lemma_stepped(synced, bytes);
                        lemma_demuxed(demux::stepped(synced, bytes).0, input, start + 188);
                    },
                }
            }
        } else {
            let bytes = input.subrange(at, at + 188);
            lemma_stepped(d, bytes);
            lemma_demuxed(demux::stepped(d, bytes).0, input, at + 188);
        }
    }
}

/// In a demuxer that has read nothing, no sound is read and none is offered, and no
/// service is announced twice.
pub proof fn law_a_new_demuxer_is_coherent(service_id: Option<u16>)
    ensures
        coherent(demux::fresh(service_id)),
{
}

/// Whatever is read, a sound is read exactly when one is offered, it is one of those
/// offered, and no service is announced twice.
pub proof fn law_reading_keeps_coherent(d: DemuxView, chunk: Seq<u8>)
    requires
        coherent(d),
    ensures
        coherent(demux::after_chunk(d, chunk).0),
{
    let start = DemuxView { pending: seq![], ..demux::switched(d) };
    let input = d.pending + chunk;
    lemma_demuxed(start, input, 0);
    streaming::lemma_demuxed(start, input, 0);
}

/// Asking for a sound changes neither the one that is read nor those offered, and
/// leaves the demuxer coherent.
pub proof fn law_selecting_keeps_coherent(d: DemuxView, pid: u16)
    requires
        coherent(d),
    ensures
        coherent(demux::selected(d, pid)),
        demux::selected(d, pid).program.streams == d.program.streams,
        demux::selected(d, pid).program.service == d.program.service,
{
}

/// Nothing comes of a chunk that holds nothing, but that the sound which was asked for
/// is read from there on.
proof fn lemma_empty_chunk(d: DemuxView)
    requires
        coherent(d),
    ensures
        demux::after_chunk(d, seq![]) == (demux::switched(d), Seq::<PacketView>::empty()),
{
    let start = DemuxView { pending: seq![], ..demux::switched(d) };
    let input = d.pending + Seq::<u8>::empty();
    assert(input =~= d.pending);
    assert(demux::demuxed(start, input, 0) == (start, Seq::<PacketView>::empty(), 0int));
    assert(input.skip(0) =~= d.pending);
}

/// A sound that is offered is read from the next chunk on, even where that chunk holds
/// nothing. One that is not offered changes nothing but what is asked for.
pub proof fn law_a_chosen_sound_is_read_from_the_next_chunk_on(d: DemuxView, pid: u16)
    requires
        coherent(d),
        d.audio_switch is None,
    ensures
        ({
            let (after, out) = demux::after_chunk(demux::selected(d, pid), seq![]);
            &&& out == Seq::<PacketView>::empty()
            &&& after.program.streams.audio_streams == d.program.streams.audio_streams
            &&& after.program.service == d.program.service
            &&& program::offers(d.program.streams.audio_streams, pid)
                ==> after.program.streams.audio == Some(pid)
            &&& !program::offers(d.program.streams.audio_streams, pid) ==> after
                == (DemuxView {
                program: ProgramView { wanted_audio: Some(pid), ..d.program },
                ..d
            })
        }),
{
    law_selecting_keeps_coherent(d, pid);
    lemma_empty_chunk(demux::selected(d, pid));
}

} // verus!
