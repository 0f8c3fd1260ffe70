//! Which service, which sound and which captions are chosen, and what they are called.
use crate::container::mpegts::demux;
use crate::container::mpegts::demux::DemuxView;
use crate::container::mpegts::descriptors;
use crate::container::mpegts::descriptors::AudioView;
use crate::container::mpegts::packet::TsView;
use crate::container::mpegts::program;
use crate::container::mpegts::program::ProgramView;
use vstd::prelude::*;

verus! {

/// One of the sounds has this PID.
pub open spec fn among(streams: Seq<AudioView>, pid: u16) -> bool {
    exists|i: int| 0 <= i < streams.len() && (#[trigger] streams[i]).pid == pid
}

/// The sound that was asked for is chosen where it is there, and the first one where it is not
/// or none was asked for.
pub proof fn law_the_sound_asked_for_is_chosen(wanted: Option<u16>, streams: Seq<AudioView>)
    ensures
        ({
            let chosen = program::chosen_audio(wanted, streams);
            &&& chosen is None <==> streams.len() == 0
            &&& chosen matches Some(pid) ==> among(streams, pid)
            &&& wanted matches Some(pid) ==> among(streams, pid) ==> chosen == wanted
            &&& streams.len() > 0 && (wanted is None || !among(streams, wanted->Some_0)) ==> chosen
                == Some(streams[0].pid)
        }),
{
    if streams.len() > 0 {
        assert(among(streams, streams[0].pid)) by {
            assert(streams[0].pid == streams[0].pid);
        }
    }
    if let Some(pid) = wanted {
        assert(program::offers(streams, pid) == among(streams, pid));
        if streams.len() == 0 {
            assert(!among(streams, pid));
        }
    }
}

/// Where a service stands among those announced: at its first place, and nowhere where it was
/// not announced.
pub proof fn law_services_rank_as_announced(services: Seq<u16>, service: u16, i: int)
    requires
        0 <= i <= services.len() < usize::MAX,
    ensures
        ({
            let rank = program::rank_from(services, service, i);
            &&& rank == usize::MAX <==> forall|j: int|
                i <= j < services.len() ==> #[trigger] services[j] != service
            &&& rank != usize::MAX ==> i <= rank < services.len() && services[rank as int]
                == service && forall|j: int| i <= j < rank ==> #[trigger] services[j] != service
        }),
    decreases services.len() - i,
{
    if i < services.len() {
        law_services_rank_as_announced(services, service, i + 1);
        if services[i] != service {
            let rank = program::rank_from(services, service, i);
            assert forall|j: int| i <= j < rank && rank != usize::MAX implies #[trigger] services[j]
                != service by {
                if j > i {
                    assert(i + 1 <= j);
                }
            }
        }
    }
}

/// A descriptor as it is written: its tag, its length and its body.
pub open spec fn written(tag: u8, body: Seq<u8>) -> Seq<u8> {
    seq![tag, body.len() as u8] + body
}

/// The first descriptor of a tag is found, whatever descriptors of other tags stand in front of
/// it and whatever stands behind.
pub proof fn law_descriptors_are_found(
    front: Seq<u8>,
    tag: u8,
    body: Seq<u8>,
    behind: Seq<u8>,
)
    requires
        body.len() < 256,
    ensures
        descriptors::descriptor_from(
            front + written(tag, body) + behind,
            tag,
            front.len() as int,
        ) == Some(body),
{
    let all = front + written(tag, body) + behind;
    let at = front.len() as int;
    let w = written(tag, body);
    assert(all[at] == w[0]);
    assert(all[at + 1] == w[1]);
    assert(all.subrange(at + 2, at + 2 + body.len()) =~= body);
}

/// A descriptor of another tag is passed over.
pub proof fn law_other_descriptors_are_passed_over(
    front: Seq<u8>,
    other: u8,
    body: Seq<u8>,
    behind: Seq<u8>,
    tag: u8,
)
    requires
        body.len() < 256,
        other != tag,
    ensures
        ({
            let all = front + written(other, body) + behind;
            descriptors::descriptor_from(all, tag, front.len() as int)
                == descriptors::descriptor_from(all, tag, front.len() + 2 + body.len() as int)
        }),
{
    let all = front + written(other, body) + behind;
    let at = front.len() as int;
    let w = written(other, body);
    assert(all[at] == w[0]);
    assert(all[at + 1] == w[1]);
}

/// The tag of a component is the one byte that its identifier descriptor holds.
pub proof fn law_component_tags_are_read(tag: u8, behind: Seq<u8>)
    ensures
        descriptors::component_tag_of(written(0x52, seq![tag]) + behind) == Some(tag),
{
    law_descriptors_are_found(Seq::<u8>::empty(), 0x52, seq![tag], behind);
    assert(Seq::<u8>::empty() + written(0x52, seq![tag]) + behind =~= written(0x52, seq![tag])
        + behind);
}

/// Captions are in components 0x30 to 0x37, superimposed text in 0x38 to 0x3f, and their one-seg
/// forms in 0x87 and 0x88. The default of each is taken before any other, and no stream that is
/// not of its kind.
pub proof fn law_the_default_component_is_preferred(
    streams: Seq<(u16, Option<u8>)>,
    low: u8,
    high: u8,
    other: u8,
    i: int,
)
    requires
        low <= high,
        0 <= i < streams.len(),
        forall|j: int|
            0 <= j < i ==> (#[trigger] streams[j]).1 != Some(low) && streams[j].1 != Some(other),
        streams[i].1 == Some(low) || streams[i].1 == Some(other),
    ensures
        descriptors::preferred(streams, low, high, other) == Some(streams[i].0),
{
    lemma_first_tagged(streams, low, low, other, 0, i);
}

/// The first stream whose tag is of a kind is found.
proof fn lemma_first_tagged(
    streams: Seq<(u16, Option<u8>)>,
    low: u8,
    high: u8,
    other: u8,
    from: int,
    i: int,
)
    requires
        0 <= from <= i < streams.len(),
        forall|j: int|
            from <= j < i ==> !descriptors::tagged((#[trigger] streams[j]).1, low, high, other),
        descriptors::tagged(streams[i].1, low, high, other),
    ensures
        descriptors::first_tagged(streams, low, high, other, from) == Some(streams[i].0),
    decreases i - from,
{
    if from < i {
        assert(!descriptors::tagged(streams[from].1, low, high, other));
        lemma_first_tagged(streams, low, high, other, from + 1, i);
    }
}

/// Without the default the first of the kind is taken.
pub proof fn law_the_first_component_is_taken(
    streams: Seq<(u16, Option<u8>)>,
    low: u8,
    high: u8,
    other: u8,
    i: int,
)
    requires
        low < high,
        0 <= i < streams.len(),
        forall|j: int|
            0 <= j < streams.len() ==> (#[trigger] streams[j]).1 != Some(low) && streams[j].1
                != Some(other),
        forall|j: int|
            0 <= j < i ==> !((#[trigger] streams[j]).1 matches Some(t) && low <= t <= high),
        streams[i].1 matches Some(t) && low <= t <= high,
    ensures
        descriptors::preferred(streams, low, high, other) == Some(streams[i].0),
{
    lemma_none_tagged(streams, low, low, other, 0);
    lemma_first_tagged(streams, low, high, other, 0, i);
}

/// Where no stream is of a kind, none is found.
proof fn lemma_none_tagged(
    streams: Seq<(u16, Option<u8>)>,
    low: u8,
    high: u8,
    other: u8,
    from: int,
)
    requires
        0 <= from <= streams.len(),
        forall|j: int|
            from <= j < streams.len() ==> !descriptors::tagged(
                (#[trigger] streams[j]).1,
                low,
                high,
                other,
            ),
    ensures
        descriptors::first_tagged(streams, low, high, other, from) is None,
    decreases streams.len() - from,
{
    if from < streams.len() {
        assert(!descriptors::tagged(streams[from].1, low, high, other));
        lemma_none_tagged(streams, low, high, other, from + 1);
    }
}

/// The streams of captions are numbered from 0x30, those of superimposed text from 0x38.
pub proof fn law_captions_and_superimposed_text(pid: u16, tag: u8)
    ensures
        ({
            let chosen = descriptors::chosen_private(seq![(pid, Some(tag))]);
            let captions = 0x30 <= tag <= 0x37 || tag == 0x87;
            let text = 0x38 <= tag <= 0x3f || tag == 0x88;
            &&& captions ==> chosen.len() == 1 && chosen[0].pid == pid && !chosen[0].is_async
            &&& text ==> chosen.len() == 1 && chosen[0].pid == pid && chosen[0].is_async
            &&& !captions && !text ==> chosen.len() == 0
        }),
{
    reveal_with_fuel(descriptors::first_tagged, 3);
}

/// A packet whose counter is due drops nothing; one that is not counts as dropped what it lies
/// ahead of that, and sixteen more. A discontinuity that is announced drops nothing, and lets
/// the counter start over.
pub proof fn law_gaps_are_counted(d: DemuxView, packet: TsView)
    requires
        packet.continuity_counter < 16,
        d.continuity.contains_key(packet.pid),
        d.continuity[packet.pid] < 16,
    ensures
        ({
            let after = demux::counted(d, packet);
            let last = d.continuity[packet.pid] as int;
            &&& packet.discontinuity ==> after.dropped == d.dropped
                && !after.continuity.contains_key(packet.pid)
            &&& !packet.discontinuity ==> after.continuity.contains_key(packet.pid)
                && after.continuity[packet.pid] == packet.continuity_counter
            &&& !packet.discontinuity && (packet.continuity_counter - last) % 16 == 1
                ==> after.dropped == d.dropped
            &&& !packet.discontinuity && (packet.continuity_counter - last) % 16 != 1
                ==> after.dropped > d.dropped && (after.dropped - d.dropped
                - packet.continuity_counter + last + 1) % 16 == 0
            &&& after.errors == d.errors && after.scrambled == d.scrambled
            &&& after.program == d.program
        }),
{
}

/// An ISO 639 language is three letters, in lower case whichever way they were written; what is
/// not made of letters names none.
pub proof fn law_languages_are_letters(code: Seq<u8>)
    requires
        code.len() == 3,
    ensures
        ({
            let letter = |b: u8| 65 <= b <= 90 || 97 <= b <= 122;
            let all = letter(code[0]) && letter(code[1]) && letter(code[2]);
            &&& !all ==> descriptors::language(code).len() == 0
            &&& all ==> descriptors::language(code).len() == 1
        }),
{
    let letter = |b: u8| 65 <= b <= 90 || 97 <= b <= 122;
    let all = letter(code[0]) && letter(code[1]) && letter(code[2]);
    if all {
        assert forall|i: int| 0 <= i < code.len() implies descriptors::is_letter(
            #[trigger] code[i],
        ) by {
            assert(i == 0 || i == 1 || i == 2);
        }
    } else {
        assert(!descriptors::is_letter(code[0]) || !descriptors::is_letter(code[1])
            || !descriptors::is_letter(code[2]));
    }
}

/// The PID of the video that a map lists.
pub open spec fn video_in(map: Seq<u8>) -> Option<u16> {
    program::listed(map, 12 + program::length_in(map, 10), program::nothing_listed()).video
}

/// A service that was asked for is the only one whose map is taken, and it is taken with a
/// picture in it or without. A service that is watched gives way to one that was announced
/// before it and has a picture, and to no other.
pub proof fn law_one_service_is_watched(p: ProgramView, map: Seq<u8>)
    ensures
        ({
            let service = program::pair(map, 3);
            let rank = program::rank_from(p.services, service, 0);
            let q = program::with_map(p, map);
            &&& p.wanted_service matches Some(wanted) ==> {
                &&& wanted != service ==> q == p
                &&& wanted == service && p.service is None ==> q.service == Some(service)
                    && q.streams.video == video_in(map)
            }
            &&& p.wanted_service is None && p.service is Some && p.service != Some(service) ==> {
                &&& rank >= p.rank ==> q == p
                &&& rank < p.rank && video_in(map) is Some && p.rank != usize::MAX ==> q.service
                    == Some(service) && q.rank == rank && q.streams.video == video_in(map)
            }
        }),
{
}

/// Every service announced before one of rank `rank` has had its map read.
pub open spec fn all_before_read(p: ProgramView, service: u16, rank: int) -> bool {
    rank <= p.services.len() && forall|i: int|
        0 <= i < rank ==> (#[trigger] p.services[i]) == service
            || p.inspected_services.contains(p.services[i])
}

/// Where nothing is watched yet, a service with a picture is watched at once if the maps of
/// all those announced before it have been read. Otherwise it is held back, unless one that
/// was announced before it is held back already. A service without a picture is not watched.
pub proof fn law_services_wait_for_those_before(p: ProgramView, map: Seq<u8>)
    requires
        p.wanted_service is None,
        p.service is None,
        p.rank == usize::MAX,
    ensures
        ({
            let service = program::pair(map, 3);
            let rank = program::rank_from(p.services, service, 0);
            let q = program::with_map(p, map);
            &&& video_in(map) is Some && all_before_read(p, service, rank as int) ==> q.service
                == Some(service) && q.streams.video == video_in(map)
            &&& video_in(map) is Some && !all_before_read(p, service, rank as int) ==> {
                &&& q.service is None
                &&& p.deferred is None ==> (q.deferred matches Some(d) && d.service == service
                    && d.rank == rank && d.streams.video == video_in(map))
                &&& p.deferred matches Some(d) ==> {
                    &&& rank >= d.rank ==> q.deferred == p.deferred
                    &&& rank < d.rank ==> (q.deferred matches Some(e) && e.service == service)
                }
            }
            &&& video_in(map) is None ==> q.service != Some(service) || (p.deferred matches Some(d)
                && d.service == service)
        }),
{
    let service = program::pair(map, 3);
    let rank = program::rank_from(p.services, service, 0);
    let inspected = p.inspected_services.insert(service);
    assert forall|i: int| 0 <= i < p.services.len() implies (inspected.contains(
        #[trigger] p.services[i],
    ) <==> p.services[i] == service || p.inspected_services.contains(p.services[i])) by {}
}

/// A service that was held back is watched when a map without a picture was all that it
/// waited for, and when the association table comes round again.
pub proof fn law_what_was_held_back_is_watched(p: ProgramView, map: Seq<u8>, table: Seq<u8>)
    requires
        p.wanted_service is None,
        p.service is None,
        p.rank == usize::MAX,
        p.deferred is Some,
    ensures
        ({
            let d = p.deferred->Some_0;
            let q = program::with_map(p, map);
            let again = program::with_association(p, table);
            &&& video_in(map) is None && all_before_read(
                p,
                program::pair(map, 3),
                d.rank as int,
            ) ==> q.service == Some(d.service) && q.streams == d.streams && q.deferred is None
            &&& p.seen_pat_sections.contains(program::table_id(table)) ==> again.service == Some(
                d.service,
            ) && again.streams == d.streams && again.rank == d.rank
            &&& !p.seen_pat_sections.contains(program::table_id(table)) ==> again.service is None
        }),
{
    let service = program::pair(map, 3);
    let inspected = p.inspected_services.insert(service);
    assert forall|i: int| 0 <= i < p.services.len() implies (inspected.contains(
        #[trigger] p.services[i],
    ) <==> p.services[i] == service || p.inspected_services.contains(p.services[i])) by {}
}

} // verus!
