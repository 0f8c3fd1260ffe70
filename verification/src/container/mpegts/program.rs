//! Which streams a transport stream offers, and which of them are taken.
use crate::container::mpegts::descriptors;
use crate::container::mpegts::descriptors::{AudioStream, AudioView, PrivateStream};
use crate::container::mpegts::packet::{TsPayload, TsView};
use crate::container::mpegts::section;
use crate::container::mpegts::section::SectionAssembler;
use std::collections::{HashMap, HashSet};
use vstd::prelude::*;

verus! {

pub const STREAM_TYPE_MPEG1_VIDEO: u8 = 0x01;

pub const STREAM_TYPE_MPEG2_VIDEO: u8 = 0x02;

pub const STREAM_TYPE_AAC_ADTS: u8 = 0x0f;

pub const STREAM_TYPE_PRIVATE: u8 = 0x06;

/// Two bytes as a number.
pub open spec fn pair(section: Seq<u8>, at: int) -> u16 {
    (256 * section[at] + section[at + 1]) as u16
}

/// The low 13 bits of two bytes.
pub open spec fn pid_in(section: Seq<u8>, at: int) -> u16 {
    (256 * (section[at] % 32) + section[at + 1]) as u16
}

/// The low 12 bits of two bytes.
pub open spec fn length_in(section: Seq<u8>, at: int) -> int {
    256 * (section[at] % 16) + section[at + 1]
}

/// Two bytes as a number.
fn read_pair(section: &[u8], at: usize) -> (v: u16)
    requires
        at + 1 < section@.len(),
    ensures
        v == pair(section@, at as int),
{
    section[at] as u16 * 256 + section[at + 1] as u16
}

/// The low 13 bits of two bytes.
fn read_pid(section: &[u8], at: usize) -> (v: u16)
    requires
        at + 1 < section@.len(),
    ensures
        v == pid_in(section@, at as int),
{
    (section[at] % 32) as u16 * 256 + section[at + 1] as u16
}

/// The low 12 bits of two bytes.
fn read_length(section: &[u8], at: usize) -> (v: usize)
    requires
        at + 1 < section@.len(),
    ensures
        v == length_in(section@, at as int),
        v <= 0xfff,
{
    (section[at] % 16) as usize * 256 + section[at + 1] as usize
}

/// Whether a list holds a number.
fn list_contains(list: &Vec<u16>, x: u16) -> (contains: bool)
    ensures
        contains == list@.contains(x),
{
    let mut i: usize = 0;
    while i < list.len()
        invariant
            i <= list@.len(),
            forall|j: int| 0 <= j < i ==> list@[j] != x,
        decreases list@.len() - i,
    {
        if list[i] == x {
            return true;
        }
        i = i + 1;
    }
    false
}

/// The streams that are taken from a service.
#[verifier::ext_equal]
pub struct StreamsView {
    pub video: Option<u16>,
    pub audio: Option<u16>,
    pub audio_streams: Seq<AudioView>,
    pub private_streams: Seq<PrivateStream>,
}

/// The streams that are taken from a service.
pub struct ServiceStreams {
    pub video: Option<u16>,
    pub audio: Option<u16>,
    /// Every sound stream the service's map advertises, in the order it
    /// lists them.
    pub audio_streams: Vec<AudioStream>,
    pub private_streams: Vec<PrivateStream>,
}

impl View for ServiceStreams {
    type V = StreamsView;

    open spec fn view(&self) -> StreamsView {
        StreamsView {
            video: self.video,
            audio: self.audio,
            audio_streams: descriptors::audio_views(self.audio_streams@),
            private_streams: self.private_streams@,
        }
    }
}

/// No streams.
pub open spec fn no_streams() -> StreamsView {
    StreamsView { video: None, audio: None, audio_streams: seq![], private_streams: seq![] }
}

/// A service that is held back, as a mathematical value.
#[verifier::ext_equal]
pub struct DeferredView {
    pub service: u16,
    pub rank: usize,
    pub streams: StreamsView,
}

/// A service that is held back until those announced ahead of it have been seen.
pub struct DeferredProgram {
    pub service: u16,
    pub rank: usize,
    pub streams: ServiceStreams,
}

impl View for DeferredProgram {
    type V = DeferredView;

    open spec fn view(&self) -> DeferredView {
        DeferredView { service: self.service, rank: self.rank, streams: self.streams@ }
    }
}

/// The elementary stream PIDs a program advertises, as a mathematical value.
#[verifier::ext_equal]
pub struct ProgramView {
    pub pmt_pids: Set<u16>,
    pub wanted_service: Option<u16>,
    pub service: Option<u16>,
    pub rank: usize,
    pub deferred: Option<DeferredView>,
    pub inspected_services: Set<u16>,
    pub seen_pat_sections: Set<u32>,
    pub streams: StreamsView,
    pub wanted_audio: Option<u16>,
    pub services: Seq<u16>,
    pub all_service_pids: Map<u16, Set<u16>>,
    pub changed_pids: Set<u16>,
    pub assemblers: Map<u16, Seq<u8>>,
}

/// The elementary stream PIDs a program advertises.
pub struct ProgramMap {
    pub pmt_pids: HashSet<u16>,
    /// Which service to take, when the caller has said. A recording can hold
    /// more than one -- a broadcaster's sub-channel rides in the same transport
    /// stream, with its own video and its own audio -- and without being told,
    /// whichever program map arrives first is the one that gets used.
    pub wanted_service: Option<u16>,
    /// The service the streams below were taken from, once one has been, and
    /// where it sits in the program association table.
    pub service: Option<u16>,
    pub rank: usize,
    /// Best playable map seen while waiting for the PAT's first service. It is
    /// only a fallback for the case where that first service has no picture.
    pub deferred: Option<DeferredProgram>,
    /// Services whose program maps have been read. PMTs may arrive in a
    /// different order from the PAT, so a playable service is not selected
    /// until every service announced ahead of it has been inspected.
    pub inspected_services: HashSet<u16>,
    /// PAT sections already read, used to distinguish another section of a
    /// large PAT from the next transmission of the same section. Each is known
    /// by its transport stream, its version and its number.
    pub seen_pat_sections: HashSet<u32>,
    pub streams: ServiceStreams,
    /// Which sound the caller has asked for. It is a choice about the service
    /// rather than about one program map, so it survives a map that does not
    /// offer it -- a station that moves its streams still owes the viewer the
    /// sound they picked once it names it again.
    pub wanted_audio: Option<u16>,
    /// Every service seen in the program association table, in the order they
    /// were announced.
    pub services: Vec<u16>,
    pub all_service_pids: HashMap<u16, Vec<u16>>,
    pub changed_pids: Vec<u16>,
    pub assemblers: HashMap<u16, SectionAssembler>,
}

/// What each service is made of.
pub open spec fn pid_sets(pids: Map<u16, Vec<u16>>) -> Map<u16, Set<u16>> {
    pids.map_values(|list: Vec<u16>| list@.to_set())
}

/// What each assembler holds.
pub open spec fn held_bytes(assemblers: Map<u16, SectionAssembler>) -> Map<u16, Seq<u8>> {
    assemblers.map_values(|assembler: SectionAssembler| assembler@)
}

impl View for ProgramMap {
    type V = ProgramView;

    open spec fn view(&self) -> ProgramView {
        ProgramView {
            pmt_pids: self.pmt_pids@,
            wanted_service: self.wanted_service,
            service: self.service,
            rank: self.rank,
            deferred: match self.deferred {
                Some(program) => Some(program@),
                None => None,
            },
            inspected_services: self.inspected_services@,
            seen_pat_sections: self.seen_pat_sections@,
            streams: self.streams@,
            wanted_audio: self.wanted_audio,
            services: self.services@,
            all_service_pids: pid_sets(self.all_service_pids@),
            changed_pids: self.changed_pids@.to_set(),
            assemblers: held_bytes(self.assemblers@),
        }
    }
}

/// A program map that nothing has been read into.
pub open spec fn unread(wanted_service: Option<u16>) -> ProgramView {
    ProgramView {
        pmt_pids: Set::empty(),
        wanted_service,
        service: None,
        rank: usize::MAX,
        deferred: None,
        inspected_services: Set::empty(),
        seen_pat_sections: Set::empty(),
        streams: no_streams(),
        wanted_audio: None,
        services: seq![],
        all_service_pids: Map::empty(),
        changed_pids: Set::empty(),
        assemblers: Map::empty(),
    }
}

/// The service that was held back is taken.
pub open spec fn activated(p: ProgramView) -> ProgramView {
    match p.deferred {
        Some(deferred) => ProgramView {
            service: Some(deferred.service),
            rank: deferred.rank,
            streams: deferred.streams,
            deferred: None,
            ..p
        },
        None => p,
    }
}

/// What a program association table announces from `i` on.
pub open spec fn announced(section: Seq<u8>, i: int, services: Seq<u16>, pmt_pids: Set<u16>) -> (
    Seq<u16>,
    Set<u16>,
)
    decreases section.len() - i,
{
    if i + 3 >= section.len() - 4 {
        (services, pmt_pids)
    } else {
        let program = pair(section, i);
        if program == 0 {
            announced(section, i + 4, services, pmt_pids)
        } else {
            announced(
                section,
                i + 4,
                if services.contains(program) {
                    services
                } else {
                    services.push(program)
                },
                pmt_pids.insert(pid_in(section, i + 2)),
            )
        }
    }
}

/// Which section of which program association table this is.
pub open spec fn table_id(section: Seq<u8>) -> u32 {
    (0x1_0000 * pair(section, 3) + 256 * ((section[5] / 2) % 32) + section[6]) as u32
}

/// What is known after a program association table.
pub open spec fn with_association(p: ProgramView, section: Seq<u8>) -> ProgramView {
    let (services, pmt_pids) = announced(section, 8, p.services, p.pmt_pids);
    let q = ProgramView {
        services,
        pmt_pids,
        seen_pat_sections: p.seen_pat_sections.insert(table_id(section)),
        ..p
    };
    if p.seen_pat_sections.contains(table_id(section)) && q.service is None {
        activated(q)
    } else {
        q
    }
}

/// What a program map lists.
#[verifier::ext_equal]
pub struct Listed {
    pub video: Option<u16>,
    pub audio_streams: Seq<AudioView>,
    pub private: Seq<(u16, Option<u8>)>,
    pub pids: Set<u16>,
}

/// What a program map lists from `i` on.
pub open spec fn listed(section: Seq<u8>, i: int, so_far: Listed) -> Listed
    decreases section.len() - i,
{
    let end = section.len() - 4;
    if i + 4 >= end {
        so_far
    } else {
        let kind = section[i];
        let pid = pid_in(section, i + 1);
        let info_end = i + 5 + length_in(section, i + 3);
        let named = Listed { pids: so_far.pids.insert(pid), ..so_far };
        if info_end > end {
            named
        } else {
            let info = section.subrange(i + 5, info_end);
            listed(
                section,
                info_end,
                Listed {
                    video: if so_far.video is None && (kind == STREAM_TYPE_MPEG1_VIDEO || kind
                        == STREAM_TYPE_MPEG2_VIDEO) {
                        Some(pid)
                    } else {
                        so_far.video
                    },
                    audio_streams: if kind == STREAM_TYPE_AAC_ADTS {
                        so_far.audio_streams.push(descriptors::audio_of(pid, info))
                    } else {
                        so_far.audio_streams
                    },
                    private: if kind == STREAM_TYPE_PRIVATE {
                        so_far.private.push((pid, descriptors::component_tag_of(info)))
                    } else {
                        so_far.private
                    },
                    ..named
                },
            )
        }
    }
}

/// Nothing is listed.
pub open spec fn nothing_listed() -> Listed {
    Listed { video: None, audio_streams: seq![], private: seq![], pids: Set::empty() }
}

/// One of the sound streams has this PID.
pub open spec fn offers(streams: Seq<AudioView>, pid: u16) -> bool {
    exists|i: int| 0 <= i < streams.len() && (#[trigger] streams[i]).pid == pid
}

/// The sound that was asked for, while it is offered, and otherwise the one that
/// comes first.
pub open spec fn chosen_audio(wanted: Option<u16>, streams: Seq<AudioView>) -> Option<u16> {
    if wanted matches Some(pid) && offers(streams, pid) {
        wanted
    } else if streams.len() > 0 {
        Some(streams[0].pid)
    } else {
        None
    }
}

/// Where a service stands among those announced, from `i` on.
pub open spec fn rank_from(services: Seq<u16>, service: u16, i: int) -> usize
    decreases services.len() - i,
{
    if i >= services.len() {
        usize::MAX
    } else if services[i] == service {
        i as usize
    } else {
        rank_from(services, service, i + 1)
    }
}

/// Every service announced ahead of this rank has been inspected.
pub open spec fn all_inspected(p: ProgramView, rank: usize) -> bool {
    rank <= p.services.len() && forall|i: int|
        0 <= i < rank ==> p.inspected_services.contains(#[trigger] p.services[i])
}

/// What one set holds and the other does not.
pub open spec fn differing(a: Set<u16>, b: Set<u16>) -> Set<u16> {
    Set::new(|pid: u16| a.contains(pid) != b.contains(pid))
}

/// What a service was made of, as far as it is known.
pub open spec fn known_pids(pids: Map<u16, Set<u16>>, service: u16) -> Set<u16> {
    if pids.contains_key(service) {
        pids[service]
    } else {
        Set::empty()
    }
}

/// What is known after a program map.
pub open spec fn with_map(p: ProgramView, section: Seq<u8>) -> ProgramView {
    let service = pair(section, 3);
    let rank = rank_from(p.services, service, 0);
    if (p.wanted_service matches Some(wanted) && wanted != service) || (p.service is Some && rank
        >= p.rank && p.service != Some(service)) {
        p
    } else {
        let l = listed(section, 12 + length_in(section, 10), nothing_listed());
        let streams = StreamsView {
            video: l.video,
            audio: chosen_audio(p.wanted_audio, l.audio_streams),
            audio_streams: l.audio_streams,
            private_streams: descriptors::chosen_private(l.private),
        };
        let q = ProgramView {
            all_service_pids: p.all_service_pids.insert(service, l.pids),
            changed_pids: p.changed_pids.union(
                differing(known_pids(p.all_service_pids, service), l.pids),
            ),
            inspected_services: p.inspected_services.insert(service),
            ..p
        };
        if streams.video is None && p.wanted_service is None {
            // A service with no picture in it is not the one being watched, but
            // one behind it may have waited for this.
            if q.deferred matches Some(deferred) && all_inspected(q, deferred.rank) {
                activated(q)
            } else {
                q
            }
        } else if p.wanted_service is None && p.rank == usize::MAX && !all_inspected(q, rank) {
            if q.deferred matches Some(deferred) && rank >= deferred.rank {
                q
            } else {
                ProgramView { deferred: Some(DeferredView { service, rank, streams }), ..q }
            }
        } else {
            ProgramView { service: Some(service), rank, streams, ..q }
        }
    }
}

/// What is known after a section.
pub open spec fn with_section(p: ProgramView, section: Seq<u8>, pid: u16) -> ProgramView {
    if section.len() < 12 {
        p
    } else if pid == 0 && section[0] == 0x00 {
        with_association(p, section)
    } else if section[0] == 0x02 {
        with_map(p, section)
    } else {
        p
    }
}

/// What is known after the first `n` sections.
pub open spec fn with_sections(p: ProgramView, sections: Seq<Seq<u8>>, pid: u16, n: nat) -> ProgramView
    decreases n,
{
    if n == 0 {
        p
    } else {
        with_section(with_sections(p, sections, pid, (n - 1) as nat), sections[n - 1], pid)
    }
}

/// What the assembler of a PID holds.
pub open spec fn held_for(p: ProgramView, pid: u16) -> Seq<u8> {
    if p.assemblers.contains_key(pid) {
        p.assemblers[pid]
    } else {
        seq![]
    }
}

/// What is known after a packet, before the changes are taken note of.
pub open spec fn fed(p: ProgramView, packet: TsView) -> ProgramView {
    let (sections, rest) = section::assembled(
        held_for(p, packet.pid),
        packet.data,
        packet.payload_unit_start,
    );
    with_sections(
        ProgramView { assemblers: p.assemblers.insert(packet.pid, rest), ..p },
        sections,
        packet.pid,
        sections.len(),
    )
}

/// What is known after a packet, and the PIDs that came to a service or left it.
pub open spec fn pushed(p: ProgramView, packet: TsView) -> (ProgramView, Set<u16>) {
    let q = fed(p, packet);
    (ProgramView { changed_pids: Set::empty(), ..q }, q.changed_pids)
}

/// Pushing to a list inserts into its set.
pub proof fn lemma_push_inserts(list: Seq<u16>, x: u16)
    ensures
        list.push(x).to_set() == list.to_set().insert(x),
{
    let a = list.push(x);
    assert forall|y: u16| a.to_set().contains(y) == list.to_set().insert(x).contains(y) by {
        if list.contains(y) {
            let i = choose|i: int| 0 <= i < list.len() && list[i] == y;
            assert(a[i] == y);
        }
        assert(a[list.len() as int] == x);
        if a.contains(y) {
            let i = choose|i: int| 0 <= i < a.len() && a[i] == y;
            if i < list.len() {
                assert(list[i] == y);
            }
        }
    }
    assert(a.to_set() =~= list.to_set().insert(x));
}

/// What a program map lists, as it is read.
struct Listing {
    video: Option<u16>,
    audio_streams: Vec<AudioStream>,
    private: Vec<(u16, Option<u8>)>,
    pids: Vec<u16>,
}

impl View for Listing {
    type V = Listed;

    closed spec fn view(&self) -> Listed {
        Listed {
            video: self.video,
            audio_streams: descriptors::audio_views(self.audio_streams@),
            private: self.private@,
            pids: self.pids@.to_set(),
        }
    }
}

/// Read the streams that a program map lists.
fn list_streams(section: &[u8]) -> (listing: Listing)
    requires
        12 <= section@.len() <= isize::MAX,
    ensures
        listing@ == listed(section@, 12 + length_in(section@, 10), nothing_listed()),
{
    let mut listing = Listing {
        video: None,
        audio_streams: Vec::new(),
        private: Vec::new(),
        pids: Vec::new(),
    };
    assert(listing@ =~= nothing_listed()) by {
        assert(listing.pids@.to_set() =~= Set::<u16>::empty());
    }
    let end: usize = section.len() - 4;
    let mut i: usize = 12 + read_length(section, 10);
    let ghost outcome = listed(section@, i as int, nothing_listed());
    while i + 4 < end
        invariant
            12 <= section@.len() <= isize::MAX,
            end == section@.len() - 4,
            i <= section@.len() + 0x2000,
            outcome == listed(section@, i as int, listing@),
            outcome == listed(section@, 12 + length_in(section@, 10), nothing_listed()),
        decreases section@.len() + 0x2000 - i,
    {
        let ghost so_far = listing@;
        let stream_type: u8 = section[i];
        let stream_pid: u16 = read_pid(section, i + 1);
        proof {
            lemma_push_inserts(listing.pids@, stream_pid);
        }
        listing.pids.push(stream_pid);
        let info_length: usize = read_length(section, i + 3);
        let info_start: usize = i + 5;
        let info_end: usize = info_start + info_length;
        if info_end > end {
            assert(listing@ =~= Listed { pids: so_far.pids.insert(stream_pid), ..so_far });
            return listing;
        }
        let descriptors: &[u8] = &section[info_start..info_end];
        let ghost info = section@.subrange(i + 5, info_end as int);
        assert(descriptors@ == info);
        if listing.video.is_none() && (stream_type == STREAM_TYPE_MPEG1_VIDEO || stream_type
            == STREAM_TYPE_MPEG2_VIDEO) {
            listing.video = Some(stream_pid);
        }
        if stream_type == STREAM_TYPE_AAC_ADTS {
            let ghost before = listing.audio_streams@;
            let stream = AudioStream::from_descriptors(stream_pid, descriptors);
            let ghost view = stream@;
            listing.audio_streams.push(stream);
            assert(descriptors::audio_views(listing.audio_streams@) =~= descriptors::audio_views(
                before,
            ).push(view));
        }
        if stream_type == STREAM_TYPE_PRIVATE {
            listing.private.push((stream_pid, descriptors::component_tag(descriptors)));
        }
        i = info_end;
    }
    listing
}

/// Where a service stands among those announced.
fn find_rank(services: &Vec<u16>, service: u16) -> (rank: usize)
    ensures
        rank == rank_from(services@, service, 0),
{
    let mut i: usize = 0;
    while i < services.len()
        invariant
            i <= services@.len(),
            rank_from(services@, service, 0) == rank_from(services@, service, i as int),
        decreases services@.len() - i,
    {
        if services[i] == service {
            return i;
        }
        i = i + 1;
    }
    usize::MAX
}

/// Whether one of the sound streams has this PID.
pub fn has_audio(streams: &Vec<AudioStream>, pid: u16) -> (has_it: bool)
    ensures
        has_it == offers(descriptors::audio_views(streams@), pid),
{
    let mut i: usize = 0;
    while i < streams.len()
        invariant
            i <= streams@.len(),
            forall|j: int|
                0 <= j < i ==> (#[trigger] descriptors::audio_views(streams@)[j]).pid != pid,
        decreases streams@.len() - i,
    {
        if streams[i].pid == pid {
            assert(descriptors::audio_views(streams@)[i as int].pid == pid);
            return true;
        }
        i = i + 1;
    }
    false
}

/// The sound that was asked for, while it is offered, and otherwise the one that
/// comes first.
fn choose_audio(wanted: Option<u16>, streams: &Vec<AudioStream>) -> (audio: Option<u16>)
    ensures
        audio == chosen_audio(wanted, descriptors::audio_views(streams@)),
{
    if let Some(pid) = wanted {
        if has_audio(streams, pid) {
            return Some(pid);
        }
    }
    if streams.len() > 0 {
        Some(streams[0].pid)
    } else {
        None
    }
}

/// Append the PIDs of `list` that the two lists do not share.
fn note_differing(changed: &mut Vec<u16>, list: &Vec<u16>, old_pids: &Vec<u16>, new_pids: &Vec<u16>)
    ensures
        final(changed)@.to_set() == old(changed)@.to_set().union(
            differing(old_pids@.to_set(), new_pids@.to_set()).intersect(list@.to_set()),
        ),
{
    let ghost before = changed@.to_set();
    let ghost all = differing(old_pids@.to_set(), new_pids@.to_set());
    let mut i: usize = 0;
    assert(before =~= before.union(all.intersect(list@.take(0).to_set())));
    while i < list.len()
        invariant
            i <= list@.len(),
            all == differing(old_pids@.to_set(), new_pids@.to_set()),
            changed@.to_set() == before.union(all.intersect(list@.take(i as int).to_set())),
        decreases list@.len() - i,
    {
        let pid: u16 = list[i];
        proof {
            lemma_push_inserts(list@.take(i as int), pid);
            assert(list@.take(i + 1) =~= list@.take(i as int).push(pid));
            lemma_push_inserts(changed@, pid);
        }
        if list_contains(old_pids, pid) != list_contains(new_pids, pid) {
            changed.push(pid);
        }
        i = i + 1;
        assert(changed@.to_set() =~= before.union(all.intersect(list@.take(i as int).to_set())));
    }
    assert(list@.take(list@.len() as int) =~= list@);
}

impl ProgramMap {
    /// Take the streams of the service that is wanted, or of the one that comes
    /// first.
    pub fn new(wanted_service: Option<u16>) -> (map: Self)
        ensures
            map@ == unread(wanted_service),
    {
        let map = ProgramMap {
            pmt_pids: HashSet::new(),
            wanted_service,
            service: None,
            rank: usize::MAX,
            deferred: None,
            inspected_services: HashSet::new(),
            seen_pat_sections: HashSet::new(),
            streams: ServiceStreams {
                video: None,
                audio: None,
                audio_streams: Vec::new(),
                private_streams: Vec::new(),
            },
            wanted_audio: None,
            services: Vec::new(),
            all_service_pids: HashMap::new(),
            changed_pids: Vec::new(),
            assemblers: HashMap::new(),
        };
        assert(map@.changed_pids =~= Set::empty());
        assert(map@.all_service_pids =~= Map::empty());
        assert(map@.assemblers =~= Map::empty());
        assert(map@.streams =~= no_streams());
        assert(map@ =~= unread(wanted_service));
        map
    }

    /// Take the service that was held back.
    fn activate_deferred(&mut self)
        ensures
            final(self)@ == activated(old(self)@),
    {
        let mut deferred: Option<DeferredProgram> = None;
        core::mem::swap(&mut deferred, &mut self.deferred);
        if let Some(program) = deferred {
            self.service = Some(program.service);
            self.rank = program.rank;
            self.streams = program.streams;
        }
        assert(self@ =~= activated(old(self)@));
    }

    /// Whether a packet of this PID carries tables.
    pub fn wants(&self, pid: u16) -> (wants: bool)
        ensures
            wants == (pid == 0 || self@.pmt_pids.contains(pid)),
    {
        broadcast use vstd::std_specs::hash::group_hash_axioms;

        pid == 0 || self.pmt_pids.contains(&pid)
    }

    /// Take one packet of a table, and return the PIDs that came to a service or
    /// left it.
    pub fn push(&mut self, packet: &TsPayload<'_>) -> (changed: Vec<u16>)
        requires
            held_for(old(self)@, packet.pid).len() + packet.data@.len() <= isize::MAX,
        ensures
            final(self)@ == pushed(old(self)@, packet@).0,
            changed@.to_set() == pushed(old(self)@, packet@).1,
    {
        broadcast use vstd::std_specs::hash::group_hash_axioms;

        let ghost start = self@;
        let ghost outcome = section::assembled(
            held_for(start, packet.pid),
            packet.data@,
            packet.payload_unit_start,
        );
        let ghost maps = self.assemblers@;
        let mut assembler = match self.assemblers.remove(&packet.pid) {
            Some(assembler) => assembler,
            None => SectionAssembler::new(),
        };
        assert(assembler@ =~= held_for(start, packet.pid));
        let mut sections: Vec<Vec<u8>> = Vec::new();
        assembler.push(packet.data, packet.payload_unit_start, &mut sections);
        assert(section::section_views(sections@) =~= outcome.0);
        let ghost rest = assembler@;
        self.assemblers.insert(packet.pid, assembler);
        assert(held_bytes(self.assemblers@) =~= held_bytes(maps).insert(packet.pid, rest));
        let ghost fresh = ProgramView {
            assemblers: start.assemblers.insert(packet.pid, rest),
            ..start
        };
        assert(self@ =~= fresh);
        proof {
            section::lemma_sections_are_short(
                held_for(start, packet.pid),
                packet.data@,
                packet.payload_unit_start,
            );
        }
        let mut i: usize = 0;
        while i < sections.len()
            invariant
                i <= sections@.len(),
                section::section_views(sections@) == outcome.0,
                forall|j: int|
                    0 <= j < outcome.0.len() ==> (#[trigger] outcome.0[j]).len() <= 0x1002,
                self@ == with_sections(fresh, outcome.0, packet.pid, i as nat),
            decreases sections@.len() - i,
        {
            assert(outcome.0[i as int] == sections@[i as int]@);
            self.scan(&sections[i], packet.pid);
            i = i + 1;
        }
        let ghost after = self@;
        let mut changed: Vec<u16> = Vec::new();
        core::mem::swap(&mut changed, &mut self.changed_pids);
        assert(self.changed_pids@.to_set() =~= Set::<u16>::empty());
        assert(self@ =~= pushed(start, packet@).0);
        changed
    }

    /// Scan a PAT or PMT section, recording the PMT PIDs and the first MPEG-2
    /// video and AAC elementary streams they advertise.
    pub fn scan(&mut self, section: &[u8], pid: u16)
        requires
            section@.len() <= 0x2000,
        ensures
            final(self)@ == with_section(old(self)@, section@, pid),
    {
        if section.len() < 12 {
            return ;
        }
        if pid == 0 && section[0] == 0x00 {
            self.scan_association(section);
        } else if section[0] == 0x02 {
            self.scan_map(section);
        }
    }

    /// Read a program association table.
    fn scan_association(&mut self, section: &[u8])
        requires
            12 <= section@.len() <= 0x2000,
        ensures
            final(self)@ == with_association(old(self)@, section@),
    {
        broadcast use vstd::std_specs::hash::group_hash_axioms;

        let ghost start = self@;
        // A service can remain in the PAT after its PMT has disappeared.
        // Once the PAT repeats after a playable candidate was seen, the
        // absent earlier map must not leave that candidate waiting forever.
        let id: u32 = read_pair(section, 3) as u32 * 0x1_0000 + ((section[5] / 2) % 32) as u32 * 256
            + section[6] as u32;
        assert(id == table_id(section@));
        let repeated_pat: bool = self.seen_pat_sections.contains(&id);
        self.seen_pat_sections.insert(id);
        let ghost seen = start.seen_pat_sections.insert(id);
        let ghost outcome = announced(section@, 8, start.services, start.pmt_pids);
        let end: usize = section.len() - 4;
        let mut i: usize = 8;
        assert(self@ =~= ProgramView { seen_pat_sections: seen, ..start });
        while i + 3 < end
            invariant
                12 <= section@.len() <= 0x2000,
                end == section@.len() - 4,
                i <= section@.len() + 4,
                outcome == announced(
                    section@,
                    i as int,
                    self@.services,
                    self@.pmt_pids,
                ),
                self@ == (ProgramView {
                    seen_pat_sections: seen,
                    services: self@.services,
                    pmt_pids: self@.pmt_pids,
                    ..start
                }),
            decreases section@.len() + 4 - i,
        {
            let program: u16 = read_pair(section, i);
            if program != 0 {
                if !list_contains(&self.services, program) {
                    self.services.push(program);
                }
                self.pmt_pids.insert(read_pid(section, i + 2));
            }
            i = i + 4;
        }
        if repeated_pat && self.service.is_none() {
            self.activate_deferred();
        }
    }

    /// Whether every service announced ahead of this rank has been inspected.
    fn inspected_before(&self, rank: usize) -> (all: bool)
        ensures
            all == all_inspected(self@, rank),
    {
        broadcast use vstd::std_specs::hash::group_hash_axioms;

        if rank > self.services.len() {
            return false;
        }
        let mut i: usize = 0;
        while i < rank
            invariant
                i <= rank <= self.services@.len(),
                forall|j: int|
                    0 <= j < i ==> self@.inspected_services.contains(#[trigger] self@.services[j]),
            decreases rank - i,
        {
            if !self.inspected_services.contains(&self.services[i]) {
                assert(!self@.inspected_services.contains(self@.services[i as int]));
                return false;
            }
            i = i + 1;
        }
        true
    }

    /// Remember what a service is made of, and what has changed in that.
    fn note_pids(&mut self, service: u16, all_pids: Vec<u16>)
        ensures
            final(self)@ == (ProgramView {
                all_service_pids: old(self)@.all_service_pids.insert(service, all_pids@.to_set()),
                changed_pids: old(self)@.changed_pids.union(
                    differing(
                        known_pids(old(self)@.all_service_pids, service),
                        all_pids@.to_set(),
                    ),
                ),
                inspected_services: old(self)@.inspected_services.insert(service),
                ..old(self)@
            }),
    {
        broadcast use vstd::std_specs::hash::group_hash_axioms;

        let ghost start = self@;
        let ghost maps = self.all_service_pids@;
        let ghost now = all_pids@.to_set();
        let old_pids: Vec<u16> = match self.all_service_pids.remove(&service) {
            Some(pids) => pids,
            None => Vec::new(),
        };
        let ghost known = known_pids(start.all_service_pids, service);
        assert(old_pids@.to_set() =~= known);
        note_differing(&mut self.changed_pids, &old_pids, &old_pids, &all_pids);
        note_differing(&mut self.changed_pids, &all_pids, &old_pids, &all_pids);
        self.all_service_pids.insert(service, all_pids);
        self.inspected_services.insert(service);
        assert(self@.changed_pids =~= start.changed_pids.union(differing(known, now)));
        assert(self@.all_service_pids =~= start.all_service_pids.insert(service, now));
        assert(self@ =~= ProgramView {
            all_service_pids: start.all_service_pids.insert(service, now),
            changed_pids: start.changed_pids.union(differing(known, now)),
            inspected_services: start.inspected_services.insert(service),
            ..start
        });
    }

    /// Read a program map.
    fn scan_map(&mut self, section: &[u8])
        requires
            12 <= section@.len() <= 0x2000,
        ensures
            final(self)@ == with_map(old(self)@, section@),
    {
        let ghost start = self@;
        // The service this map describes, which is the table's own id
        // extension. Taking a stream from one service and a stream from
        // another would put a programme's picture against a different
        // programme's sound, so both come from here or neither does.
        let service: u16 = read_pair(section, 3);
        if let Some(wanted) = self.wanted_service {
            if wanted != service {
                return ;
            }
        }
        // Which map arrives first is the multiplexer's business, and the
        // one in front is not always the programme anyone is watching: a
        // data service sits alongside the television it belongs to and can
        // be described first while naming the same streams. The order the
        // program association table announces its services in is the
        // broadcaster's own, so that is the order to prefer.
        let rank: usize = find_rank(&self.services, service);
        // A map from the service already chosen is not a competitor to be
        // ranked against it: it is that service saying what it is made of
        // now, which is how a station announces that its picture has moved
        // to another elementary stream.
        if let Some(taken) = self.service {
            if rank >= self.rank && taken != service {
                return ;
            }
        }
        let listing = list_streams(section);
        let ghost l = listing@;
        // The sound the caller picked, while this map still carries it, and
        // otherwise the one the broadcast puts first.
        let audio: Option<u16> = choose_audio(self.wanted_audio, &listing.audio_streams);
        let streams = ServiceStreams {
            video: listing.video,
            audio,
            audio_streams: listing.audio_streams,
            private_streams: descriptors::select_private_streams(listing.private),
        };
        let ghost taken = streams@;
        self.note_pids(service, listing.pids);
        let ghost q = self@;
        // A service with no picture in it is not the one being watched,
        // unless the caller named it.
        if streams.video.is_none() && self.wanted_service.is_none() {
            // A playable service encountered ahead of this PMT may now be
            // used if every service before it has also proved empty.
            let ready: bool = match &self.deferred {
                Some(deferred) => self.inspected_before(deferred.rank),
                None => false,
            };
            if ready {
                self.activate_deferred();
            }
            return ;
        }
        // PMTs and PES packets are interleaved in real broadcasts. Do not
        // start emitting a lower-ranked programme merely because its PMT
        // arrived before the first programme's PMT; by the time that map
        // arrives, switching may already have been locked out.
        if self.wanted_service.is_none() && self.rank == usize::MAX && !self.inspected_before(
            rank,
        ) {
            let better: bool = match &self.deferred {
                Some(deferred) => rank < deferred.rank,
                None => true,
            };
            if better {
                self.deferred = Some(DeferredProgram { service, rank, streams });
                assert(self@ =~= ProgramView {
                    deferred: Some(DeferredView { service, rank, streams: taken }),
                    ..q
                });
            }
            return ;
        }
        self.service = Some(service);
        self.rank = rank;
        self.streams = streams;
        assert(self@ =~= ProgramView { service: Some(service), rank, streams: taken, ..q });
    }
}

} // verus!
