//! The streams that a program map advertises are the ones that are taken.
use crate::container::mpegts::demux;
use crate::container::mpegts::demux::DemuxView;
use crate::container::mpegts::descriptors;
use crate::container::mpegts::descriptors::AudioView;
use crate::container::mpegts::packet;
use crate::container::mpegts::packet::TsView;
use crate::container::mpegts::pes::ElementaryKind;
use crate::container::mpegts::program;
use crate::container::mpegts::program::{Listed, ProgramView};
use crate::container::mpegts::section;
use crate::container::mpegts::written;
use crate::container::mpegts::written::{Association, Outgoing};
use vstd::prelude::*;

verus! {

/// One stream of a program map: its type, its PID and its descriptors.
#[verifier::ext_equal]
pub struct Advertised {
    pub kind: u8,
    pub others: int,
    pub pid: int,
    pub more: int,
    pub info: Seq<u8>,
}

impl Advertised {
    /// The stream can be written into a map.
    pub open spec fn fits(self) -> bool {
        &&& 0 <= self.others < 8
        &&& 0 <= self.pid < 0x2000
        &&& 0 <= self.more < 16
        &&& self.info.len() < 0x1000
    }

    /// MPEG-1 video is of type 1, MPEG-2 video of type 2.
    pub open spec fn is_video(self) -> bool {
        self.kind == 1 || self.kind == 2
    }

    /// AAC in ADTS frames is of type 15.
    pub open spec fn is_sound(self) -> bool {
        self.kind == 15
    }

    /// Private PES packets are of type 6.
    pub open spec fn is_private(self) -> bool {
        self.kind == 6
    }

    /// The stream's bytes in a map.
    pub open spec fn bytes(self) -> Seq<u8> {
        seq![self.kind] + written::pid_bytes(self.others, self.pid) + written::length_bytes(
            self.more,
            self.info.len() as int,
        ) + self.info
    }
}

/// The streams from `k` on, in bytes.
pub open spec fn stream_bytes(list: Seq<Advertised>, k: int) -> Seq<u8>
    decreases list.len() - k,
{
    if k >= list.len() {
        seq![]
    } else {
        list[k].bytes() + stream_bytes(list, k + 1)
    }
}

/// The first video stream from `k` on.
pub open spec fn first_video(list: Seq<Advertised>, k: int) -> Option<u16>
    decreases list.len() - k,
{
    if k >= list.len() {
        None
    } else if list[k].is_video() {
        Some(list[k].pid as u16)
    } else {
        first_video(list, k + 1)
    }
}

/// The sound streams from `k` on.
pub open spec fn sounds(list: Seq<Advertised>, k: int) -> Seq<AudioView>
    decreases list.len() - k,
{
    if k >= list.len() {
        seq![]
    } else if list[k].is_sound() {
        seq![descriptors::audio_of(list[k].pid as u16, list[k].info)] + sounds(list, k + 1)
    } else {
        sounds(list, k + 1)
    }
}

/// The private streams from `k` on, each with its component tag.
pub open spec fn privates(list: Seq<Advertised>, k: int) -> Seq<(u16, Option<u8>)>
    decreases list.len() - k,
{
    if k >= list.len() {
        seq![]
    } else if list[k].is_private() {
        seq![(list[k].pid as u16, descriptors::component_tag_of(list[k].info))] + privates(
            list,
            k + 1,
        )
    } else {
        privates(list, k + 1)
    }
}

/// One of the streams from `k` on has this PID.
pub open spec fn advertises(list: Seq<Advertised>, k: int, pid: u16) -> bool {
    exists|j: int| k <= j < list.len() && (#[trigger] list[j]).pid == pid
}

/// One stream of a map is read.
proof fn lemma_one_stream(
    section: Seq<u8>,
    front: Seq<u8>,
    stream: Advertised,
    rest: Seq<u8>,
    so_far: Listed,
)
    requires
        stream.fits(),
        rest.len() >= 4,
        section == front + stream.bytes() + rest,
    ensures
        program::listed(section, front.len() as int, so_far) == program::listed(
            section,
            (front.len() + stream.bytes().len()) as int,
            Listed {
                video: if so_far.video is None && stream.is_video() {
                    Some(stream.pid as u16)
                } else {
                    so_far.video
                },
                audio_streams: if stream.is_sound() {
                    so_far.audio_streams.push(
                        descriptors::audio_of(stream.pid as u16, stream.info),
                    )
                } else {
                    so_far.audio_streams
                },
                private: if stream.is_private() {
                    so_far.private.push(
                        (stream.pid as u16, descriptors::component_tag_of(stream.info)),
                    )
                } else {
                    so_far.private
                },
                pids: so_far.pids.insert(stream.pid as u16),
            },
        ),
{
    let i = front.len() as int;
    let p = written::pid_bytes(stream.others, stream.pid);
    let n = written::length_bytes(stream.more, stream.info.len() as int);
    let b = stream.bytes();
    assert(b.len() == 5 + stream.info.len());
    assert(section[i] == b[0]);
    written::law_pids_read_back(front + seq![stream.kind], stream.others, stream.pid, n + stream.info + rest);
    assert((front + seq![stream.kind]) + p + (n + stream.info + rest) =~= section);
    written::law_lengths_read_back(
        front + seq![stream.kind] + p,
        stream.more,
        stream.info.len() as int,
        stream.info + rest,
    );
    assert((front + seq![stream.kind] + p) + n + (stream.info + rest) =~= section);
    assert(section.subrange(i + 5, i + 5 + stream.info.len()) =~= stream.info);
    assert(program::pid_in(section, i + 1) == stream.pid);
    assert(program::length_in(section, i + 3) == stream.info.len());
}

/// What the streams from `k` on add to a map.
proof fn lemma_listed(
    section: Seq<u8>,
    front: Seq<u8>,
    list: Seq<Advertised>,
    checksum: Seq<u8>,
    k: int,
    so_far: Listed,
)
    requires
        0 <= k <= list.len(),
        checksum.len() == 4,
        section == front + stream_bytes(list, k) + checksum,
        forall|j: int| 0 <= j < list.len() ==> (#[trigger] list[j]).fits(),
    ensures
        ({
            let all = program::listed(section, front.len() as int, so_far);
            &&& all.video == if so_far.video is None {
                first_video(list, k)
            } else {
                so_far.video
            }
            &&& all.audio_streams == so_far.audio_streams + sounds(list, k)
            &&& all.private == so_far.private + privates(list, k)
            &&& forall|pid: u16|
                #[trigger] all.pids.contains(pid) <==> so_far.pids.contains(pid) || advertises(
                    list,
                    k,
                    pid,
                )
        }),
    decreases list.len() - k,
{
    if k == list.len() {
        assert(so_far.audio_streams + sounds(list, k) =~= so_far.audio_streams);
        assert(so_far.private + privates(list, k) =~= so_far.private);
    } else {
        let stream = list[k];
        let rest = stream_bytes(list, k + 1);
        assert(stream.fits());
        assert(front + stream.bytes() + (rest + checksum) =~= section);
        lemma_one_stream(section, front, stream, rest + checksum, so_far);
        let next = Listed {
            video: if so_far.video is None && stream.is_video() {
                Some(stream.pid as u16)
            } else {
                so_far.video
            },
            audio_streams: if stream.is_sound() {
                so_far.audio_streams.push(descriptors::audio_of(stream.pid as u16, stream.info))
            } else {
                so_far.audio_streams
            },
            private: if stream.is_private() {
                so_far.private.push(
                    (stream.pid as u16, descriptors::component_tag_of(stream.info)),
                )
            } else {
                so_far.private
            },
            pids: so_far.pids.insert(stream.pid as u16),
        };
        assert((front + stream.bytes()) + rest + checksum =~= section);
        lemma_listed(section, front + stream.bytes(), list, checksum, k + 1, next);
        let all = program::listed(section, front.len() as int, so_far);
        assert(next.audio_streams + sounds(list, k + 1) =~= so_far.audio_streams + sounds(list, k));
        assert(next.private + privates(list, k + 1) =~= so_far.private + privates(list, k));
        assert forall|pid: u16| #[trigger] all.pids.contains(pid) <==> so_far.pids.contains(pid)
            || advertises(list, k, pid) by {
            if advertises(list, k, pid) && !advertises(list, k + 1, pid) {
                let j = choose|j: int| k <= j < list.len() && (#[trigger] list[j]).pid == pid;
                assert(j == k);
            }
            if advertises(list, k + 1, pid) {
                let j = choose|j: int| k + 1 <= j < list.len() && (#[trigger] list[j]).pid == pid;
                assert(list[j].pid == pid);
            }
            assert(list[k].pid == stream.pid);
        }
    }
}

/// A map lists the streams that were written into it, on any PIDs and behind any
/// descriptors: its picture is the first video stream, its sounds are the AAC streams in
/// order, and each is described by its own descriptors.
pub proof fn law_maps_list_their_streams(
    front: Seq<u8>,
    list: Seq<Advertised>,
    checksum: Seq<u8>,
)
    requires
        checksum.len() == 4,
        forall|j: int| 0 <= j < list.len() ==> (#[trigger] list[j]).fits(),
    ensures
        ({
            let section = front + stream_bytes(list, 0) + checksum;
            let all = program::listed(section, front.len() as int, program::nothing_listed());
            &&& all.video == first_video(list, 0)
            &&& all.audio_streams == sounds(list, 0)
            &&& all.private == privates(list, 0)
            &&& forall|pid: u16| #[trigger] all.pids.contains(pid) <==> advertises(list, 0, pid)
        }),
{
    let section = front + stream_bytes(list, 0) + checksum;
    lemma_listed(section, front, list, checksum, 0, program::nothing_listed());
    assert(program::nothing_listed().audio_streams + sounds(list, 0) =~= sounds(list, 0));
    assert(program::nothing_listed().private + privates(list, 0) =~= privates(list, 0));
}

/// A section with the length of what follows it in front. The two bytes of the length
/// open with the bit of the long form and three more.
pub open spec fn long_section(table: u8, body: Seq<u8>) -> Seq<u8> {
    seq![table] + written::length_bytes(11, body.len() as int) + body
}

/// Bytes of ones.
pub open spec fn stuffing(n: nat) -> Seq<u8> {
    Seq::new(n, |i: int| 0xffu8)
}

/// A payload that begins with a section and holds nothing else.
pub open spec fn lone_payload(section: Seq<u8>, fill: nat) -> Seq<u8> {
    seq![0u8] + section + stuffing(fill)
}

/// A section at the front of a payload comes out whole.
proof fn lemma_lone_section(held: Seq<u8>, table: u8, body: Seq<u8>, fill: nat)
    requires
        table != 0xff,
        body.len() < 0x1000,
    ensures
        section::assembled(held, lone_payload(long_section(table, body), fill), true) == (
            seq![long_section(table, body)],
            Seq::<u8>::empty(),
        ),
{
    let s = long_section(table, body);
    let n = written::length_bytes(11, body.len() as int);
    let payload = lone_payload(s, fill);
    written::law_lengths_read_back(seq![table], 11, body.len() as int, body);
    assert(s[1] == n[0]);
    assert(s[2] == n[1]);
    assert(s[0] == table);
    assert(section::section_len(s) == s.len());
    assert(payload.skip(1) =~= s + stuffing(fill));
    section::law_sections_are_cut_by_their_lengths(s, stuffing(fill));
    let rest = section::sections_in(stuffing(fill));
    if fill > 0 {
        assert(stuffing(fill)[0] == 0xff);
    } else {
        assert(stuffing(fill) =~= seq![]);
    }
    assert(rest.0 =~= seq![]);
    assert(rest.1 =~= Seq::<u8>::empty());
    assert(seq![s] + rest.0 =~= seq![s]);
    assert(Seq::<Seq<u8>>::empty() + (seq![s] + rest.0) =~= seq![s]);
    assert(payload[0] == 0);
}

/// A program association table of one program.
pub open spec fn lone_association(
    stream_id: int,
    state: Seq<u8>,
    line: Association,
    checksum: Seq<u8>,
) -> Seq<u8> {
    long_section(
        0,
        written::pair_bytes(stream_id) + state + (written::pair_bytes(line.program)
            + written::pid_bytes(line.others, line.pid)) + checksum,
    )
}

/// A program map. `state` holds the version and the number of the section, `clock` the
/// two bytes that name the PID of the clock, `info` the program's own descriptors.
pub open spec fn program_map(
    program: int,
    state: Seq<u8>,
    clock: Seq<u8>,
    info: Seq<u8>,
    list: Seq<Advertised>,
    checksum: Seq<u8>,
) -> Seq<u8> {
    long_section(
        2,
        written::pair_bytes(program) + state + clock + written::length_bytes(15, info.len() as int)
            + info + stream_bytes(list, 0) + checksum,
    )
}

/// The front of a program map, up to its first stream.
proof fn lemma_map_front(
    program: int,
    state: Seq<u8>,
    clock: Seq<u8>,
    info: Seq<u8>,
    list: Seq<Advertised>,
    checksum: Seq<u8>,
) -> (front: Seq<u8>)
    requires
        0 <= program < 0x1_0000,
        state.len() == 3,
        clock.len() == 2,
        info.len() < 0x1000,
        checksum.len() == 4,
    ensures
        ({
            let s = program_map(program, state, clock, info, list, checksum);
            &&& front.len() == 12 + info.len()
            &&& s == front + stream_bytes(list, 0) + checksum
            &&& s[0] == 2
            &&& s.len() >= 16
            &&& program::pair(s, 3) == program
            &&& program::length_in(s, 10) == info.len()
        }),
{
    let s = program_map(program, state, clock, info, list, checksum);
    let p = written::pair_bytes(program);
    let n = written::length_bytes(15, info.len() as int);
    let body = p + state + clock + n + info + stream_bytes(list, 0) + checksum;
    let head = seq![2u8] + written::length_bytes(11, body.len() as int);
    let front = head + p + state + clock + n + info;
    assert(s =~= front + stream_bytes(list, 0) + checksum);
    let tail = info + stream_bytes(list, 0) + checksum;
    written::law_pairs_read_back(head, program, state + clock + n + tail);
    assert(head + p + (state + clock + n + tail) =~= s);
    written::law_lengths_read_back(head + p + state + clock, 15, info.len() as int, tail);
    assert((head + p + state + clock) + n + tail =~= s);
    assert(s[0] == head[0]);
    front
}

/// A map of the service that is looked for, or of the first service announced where none
/// is, is taken: its streams are those that are read, on the PIDs that were written.
pub proof fn law_a_map_is_taken(
    p: ProgramView,
    map_pid: u16,
    program: int,
    state: Seq<u8>,
    clock: Seq<u8>,
    info: Seq<u8>,
    list: Seq<Advertised>,
    checksum: Seq<u8>,
)
    requires
        0 <= program < 0x1_0000,
        state.len() == 3,
        clock.len() == 2,
        info.len() < 0x1000,
        checksum.len() == 4,
        forall|j: int| 0 <= j < list.len() ==> (#[trigger] list[j]).fits(),
        map_pid != 0,
        p.service is None,
        p.rank == usize::MAX,
        p.wanted_audio is None,
        p.wanted_service == Some(program as u16) || (p.wanted_service is None && p.services.len()
            > 0 && p.services[0] == program && first_video(list, 0) is Some),
    ensures
        ({
            let s = program_map(program, state, clock, info, list, checksum);
            let q = program::with_section(p, s, map_pid);
            &&& q.service == Some(program as u16)
            &&& q.streams.video == first_video(list, 0)
            &&& q.streams.audio_streams == sounds(list, 0)
            &&& q.streams.audio == if sounds(list, 0).len() > 0 {
                Some(sounds(list, 0)[0].pid)
            } else {
                None
            }
            &&& q.pmt_pids == p.pmt_pids
        }),
{
    let s = program_map(program, state, clock, info, list, checksum);
    let front = lemma_map_front(program, state, clock, info, list, checksum);
    law_maps_list_their_streams(front, list, checksum);
    let service = program as u16;
    if p.wanted_service is None {
        assert(program::rank_from(p.services, service, 0) == 0);
    }
}

/// What a table's packet leaves of a program's state.
proof fn lemma_table_packet(
    d: DemuxView,
    packet: TsView,
    table: u8,
    body: Seq<u8>,
    fill: nat,
)
    requires
        table != 0xff,
        body.len() < 0x1000,
        packet.data == lone_payload(long_section(table, body), fill),
        packet.payload_unit_start,
    ensures
        ({
            let (after, out) = demux::tabled(d, packet);
            let q = program::with_section(d.program, long_section(table, body), packet.pid);
            &&& after.program.streams == q.streams
            &&& after.program.service == q.service
            &&& after.program.services == q.services
            &&& after.program.pmt_pids == q.pmt_pids
            &&& after.program.rank == q.rank
            &&& after.program.wanted_audio == q.wanted_audio
            &&& after.program.wanted_service == q.wanted_service
        }),
{
    reveal(demux::tabled);
    let s = long_section(table, body);
    let p = d.program;
    lemma_lone_section(program::held_for(p, packet.pid), table, body, fill);
    let started = ProgramView {
        assemblers: p.assemblers.insert(packet.pid, Seq::<u8>::empty()),
        ..p
    };
    reveal_with_fuel(program::with_sections, 2);
    assert(program::fed(p, packet) == program::with_section(started, s, packet.pid));
    lemma_assemblers_do_not_matter(p, started, s, packet.pid);
}

/// What a section tells does not hang on what the assemblers hold.
proof fn lemma_assemblers_do_not_matter(p: ProgramView, q: ProgramView, s: Seq<u8>, pid: u16)
    requires
        q == (ProgramView { assemblers: q.assemblers, ..p }),
    ensures
        ({
            let a = program::with_section(p, s, pid);
            let b = program::with_section(q, s, pid);
            &&& b == (ProgramView { assemblers: b.assemblers, ..a })
        }),
{
    let service = program::pair(s, 3);
    let rank = program::rank_from(p.services, service, 0);
    let l = program::listed(s, 12 + program::length_in(s, 10), program::nothing_listed());
    let x = ProgramView {
        all_service_pids: p.all_service_pids.insert(service, l.pids),
        changed_pids: p.changed_pids.union(
            program::differing(program::known_pids(p.all_service_pids, service), l.pids),
        ),
        inspected_services: p.inspected_services.insert(service),
        ..p
    };
    let y = ProgramView { assemblers: q.assemblers, ..x };
    assert(program::all_inspected(x, rank) == program::all_inspected(y, rank));
    match x.deferred {
        Some(deferred) => {
            assert(program::all_inspected(x, deferred.rank) == program::all_inspected(
                y,
                deferred.rank,
            ));
        },
        None => {},
    }
}

/// From the tables to the streams: a demuxer that has read nothing, given a table that
/// names one program and its map on any PID, and on that PID a map whose first video
/// stream and first sound stream are on any other PIDs, reads the packets of those PIDs
/// as the picture and as the sound.
pub proof fn law_tables_lead_to_the_streams(
    first: Outgoing,
    second: Outgoing,
    stream_id: int,
    table_state: Seq<u8>,
    line: Association,
    table_sum: Seq<u8>,
    state: Seq<u8>,
    clock: Seq<u8>,
    info: Seq<u8>,
    list: Seq<Advertised>,
    sum: Seq<u8>,
    fill_1: nat,
    fill_2: nat,
)
    requires
        0 <= stream_id < 0x1_0000,
        line.fits(),
        line.program != 0,
        line.pid != 0,
        table_state.len() == 3 && state.len() == 3 && clock.len() == 2,
        table_sum.len() == 4 && sum.len() == 4,
        forall|j: int| 0 <= j < list.len() ==> (#[trigger] list[j]).fits(),
        first_video(list, 0) is Some,
        first.fits() && second.fits(),
        !first.damaged && !second.damaged,
        first.scrambling == 0 && second.scrambling == 0,
        first.start && second.start,
        first.pid == 0 && second.pid == line.pid,
        first.payload == lone_payload(
            lone_association(stream_id, table_state, line, table_sum),
            fill_1,
        ),
        second.payload == lone_payload(
            program_map(line.program, state, clock, info, list, sum),
            fill_2,
        ),
    ensures
        ({
            let known = demux::stepped(demux::fresh(None), first.bytes()).0;
            let taken = demux::stepped(known, second.bytes()).0;
            &&& known.program.pmt_pids.contains(second.pid as u16)
            &&& taken.program.streams.video == first_video(list, 0)
            &&& demux::read_as(taken.program.streams, first_video(list, 0)->Some_0) == Some(
                ElementaryKind::Video,
            )
            &&& sounds(list, 0).len() > 0 && Some(sounds(list, 0)[0].pid) != first_video(list, 0)
                ==> demux::read_as(taken.program.streams, sounds(list, 0)[0].pid) == Some(
                ElementaryKind::Audio,
            )
        }),
{
    reveal(demux::stepped);
    let d = demux::fresh(None);
    written::law_packets_are_read_as_written(first);
    written::law_packets_are_read_as_written(second);
    let a = packet::payload_of(first.bytes())->Some_0;
    let b = packet::payload_of(second.bytes())->Some_0;
    // The table.
    let table_body = written::pair_bytes(stream_id) + table_state + (written::pair_bytes(
        line.program,
    ) + written::pid_bytes(line.others, line.pid)) + table_sum;
    let noted = demux::counted(d, a);
    lemma_table_packet(noted, a, 0, table_body, fill_1);
    let read = demux::tabled(noted, a).0;
    lemma_routing_keeps_program(read, a);
    let known = demux::stepped(d, first.bytes()).0;
    assert(known.program == read.program);
    lemma_table_of_one(noted.program, stream_id, table_state, line, table_sum);
    assert(known.program.pmt_pids.contains(line.pid as u16));
    // The map.
    let front = lemma_map_front(line.program, state, clock, info, list, sum);
    let map_body = written::pair_bytes(line.program) + state + clock + written::length_bytes(
        15,
        info.len() as int,
    ) + info + stream_bytes(list, 0) + sum;
    let s = program_map(line.program, state, clock, info, list, sum);
    assert(s.len() <= 188);
    let counted = demux::counted(known, b);
    lemma_table_packet(counted, b, 2, map_body, fill_2);
    law_a_map_is_taken(
        counted.program,
        b.pid,
        line.program,
        state,
        clock,
        info,
        list,
        sum,
    );
    let taken = demux::tabled(counted, b).0;
    lemma_routing_keeps_program(taken, b);
    assert(demux::stepped(known, second.bytes()).0.program == taken.program);
}

/// Routing a packet to its stream changes nothing of what is known of the program.
proof fn lemma_routing_keeps_program(d: DemuxView, packet: TsView)
    ensures
        demux::routed(d, packet).0.program == d.program,
{
    reveal(demux::routed);
}

/// A table of one program announces its map.
proof fn lemma_table_of_one(
    p: ProgramView,
    stream_id: int,
    state: Seq<u8>,
    line: Association,
    checksum: Seq<u8>,
)
    requires
        line.fits(),
        line.program != 0,
        state.len() == 3,
        checksum.len() == 4,
        p.services.len() == 0,
        p.service is None,
        p.deferred is None,
    ensures
        ({
            let s = lone_association(stream_id, state, line, checksum);
            let q = program::with_section(p, s, 0);
            &&& q.pmt_pids.contains(line.pid as u16)
            &&& q.services.len() > 0 && q.services[0] == line.program
            &&& q.service is None
            &&& q.rank == p.rank
            &&& q.wanted_service == p.wanted_service
            &&& q.wanted_audio == p.wanted_audio
        }),
{
    let s = lone_association(stream_id, state, line, checksum);
    let list = seq![line];
    let body = written::pair_bytes(stream_id) + state + (written::pair_bytes(line.program)
        + written::pid_bytes(line.others, line.pid)) + checksum;
    let front = seq![0u8] + written::length_bytes(11, body.len() as int) + written::pair_bytes(
        stream_id,
    ) + state;
    reveal_with_fuel(written::association_bytes, 2);
    assert(written::association_bytes(list, 0) =~= written::pair_bytes(line.program)
        + written::pid_bytes(line.others, line.pid));
    assert(s =~= written::association_table(front, list, checksum));
    assert(s[0] == front[0]);
    written::law_associations_are_announced(front, list, checksum, p.services, p.pmt_pids);
    let (all, maps) = program::announced(s, 8, p.services, p.pmt_pids);
    assert(list[0].program != 0);
    assert(written::names_map(list, 0, line.pid as u16));
    assert(written::names_program(list, 0, line.program as u16)) by {
        assert(list[0].program == line.program as u16);
    }
    assert(all.contains(line.program as u16));
    let j = all.index_of(line.program as u16);
    assert(all[0] == line.program) by {
        assert(all.contains(all[0]));
        assert(!p.services.contains(all[0]));
        assert(written::names_program(list, 0, all[0]));
    }
}

} // verus!
