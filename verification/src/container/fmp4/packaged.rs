//! What a presentation and its fragments hold.
use crate::container::adts;
use crate::container::adts::AacConfig;
use crate::container::fmp4::init;
use crate::container::fmp4::init::CodecView;
use crate::container::fmp4::media;
use crate::container::fmp4::package;
use crate::container::fmp4::package::{CodedView, Fmp4AudioSamples, FragmentView};
use crate::container::fmp4::payload;
use crate::container::fmp4::payload::PayloadView;
use crate::container::fmp4::playback;
use crate::container::fmp4::presented;
use crate::container::fmp4::timeline;
use crate::container::fmp4::timeline::{TimelineView, UnitView};
use crate::container::fmp4::timing;
use crate::container::fmp4::timing::{TimingView, UnitLeadIn};
use crate::error::Error;
use vstd::prelude::*;

verus! {

/// A decoder can be started on the samples with an IDR slice in them and on the one that a
/// recovery point stands in front of, and on no others. The message that says so goes into
/// that sample, in front of its slices; every other sample is left as it was.
pub proof fn law_samples_are_marked(nals: Seq<Seq<u8>>, t: TimelineView, unit: CodedView, i: int)
    requires
        package::coded_unit(nals, t) == Ok::<CodedView, Error>(unit),
        0 <= i < payload::samples_of(nals).len(),
        payload::recovery_index(nals) matches Some(at) ==> 0 <= at < payload::samples_of(
            nals,
        ).len(),
    ensures
        ({
            let plain = payload::samples_of(nals);
            let recovers = payload::recovery_index(nals) == Some(i);
            &&& unit.samples.len() == plain.len()
            &&& unit.sync_samples.len() == plain.len()
            &&& unit.sync_samples[i] <==> recovers || exists|k: int|
                0 <= k < plain[i].len() && (#[trigger] plain[i][k])[0] % 32 == 5
            &&& !recovers ==> unit.samples[i] == plain[i]
            &&& recovers && payload::any_of_kind(nals, 6) ==> unit.samples[i].len()
                == plain[i].len() + 1 && unit.samples[i].skip(1) == plain[i]
                && unit.samples[i][0][0] % 32 == 6
        }),
{
    reveal(package::coded_unit);
    let plain = payload::samples_of(nals);
    let marks = Seq::new(plain.len(), |j: int| payload::any_of_kind(plain[j], 5));
    assert(marks[i] == payload::any_of_kind(plain[i], 5));
    if payload::any_of_kind(plain[i], 5) {
        let k = choose|k: int|
            0 <= k < plain[i].len() && payload::kind_of(#[trigger] plain[i][k]) == 5;
        assert(plain[i][k][0] % 32 == 5);
    }
    if exists|k: int| 0 <= k < plain[i].len() && (#[trigger] plain[i][k])[0] % 32 == 5 {
        let k = choose|k: int| 0 <= k < plain[i].len() && (#[trigger] plain[i][k])[0] % 32 == 5;
        assert(payload::kind_of(plain[i][k]) == 5);
    }
    if payload::any_of_kind(nals, 6) {
        let k = choose|k: int| 0 <= k < nals.len() && payload::kind_of(#[trigger] nals[k]) == 6;
        lemma_found(nals, 6, 0, k);
    }
    if payload::recovery_index(nals) == Some(i) && payload::any_of_kind(nals, 6) {
        assert(unit.samples[i] == plain[i].insert(0, payload::found(nals, 6)->Some_0));
        assert(unit.samples[i].skip(1) =~= plain[i]);
    }
}

/// The search for a unit of a kind ends on the first one.
proof fn lemma_found(nals: Seq<Seq<u8>>, kind: int, from: int, k: int)
    requires
        0 <= from <= k < nals.len(),
        payload::kind_of(nals[k]) == kind,
    ensures
        payload::first_of_kind(nals, kind, from) matches Some(at) && from <= at <= k
            && payload::kind_of(nals[at]) == kind,
    decreases k - from,
{
    if payload::kind_of(nals[from]) != kind {
        lemma_found(nals, kind, from + 1, k);
    }
}

/// The unit that is found of a kind is the first of them; nothing is found where there is
/// none.
pub proof fn law_the_first_of_a_kind_is_found(nals: Seq<Seq<u8>>, kind: int, k: int)
    requires
        0 <= k <= nals.len(),
        forall|j: int| 0 <= j < k ==> (#[trigger] nals[j])[0] % 32 != kind,
        k < nals.len() ==> nals[k][0] % 32 == kind,
    ensures
        payload::found(nals, kind) == if k < nals.len() {
            Some(nals[k])
        } else {
            None
        },
{
    lemma_not_found(nals, kind, 0, k);
}

proof fn lemma_not_found(nals: Seq<Seq<u8>>, kind: int, from: int, k: int)
    requires
        0 <= from <= k <= nals.len(),
        forall|j: int| 0 <= j < k ==> (#[trigger] nals[j])[0] % 32 != kind,
    ensures
        payload::first_of_kind(nals, kind, from) == payload::first_of_kind(nals, kind, k),
    decreases k - from,
{
    if from < k {
        assert(nals[from][0] % 32 != kind);
        lemma_not_found(nals, kind, from + 1, k);
    }
}

/// A presentation is a first fragment that begins with the film, its initialization segment,
/// its media and its name.
pub proof fn law_a_presentation_is_its_first_fragment(h264: Seq<u8>, t: TimelineView)
    requires
        package::h264_presentation(h264, t) is Ok,
        package::coded_unit(payload::annex_b_units(h264), t) matches Ok(unit)
            && unit.timing.reorder_delay >= 0,
    ensures
        ({
            let whole = package::h264_presentation(h264, t)->Ok_0;
            package::h264_fragment(h264, t, 1, 0, None, None) matches Ok(f) && f.init_segment
                == whole.0 && f.media_segment == whole.1 && f.mime_codec == whole.2
                && f.sample_count == whole.3
        }),
{
}

/// So is one whose pictures were carried through untouched, with its first picture shown
/// from the start.
pub proof fn law_untouched_presentations_are_first_fragments(es: Seq<u8>, unit: UnitView)
    requires
        timing::timing_of(unit.timeline, UnitLeadIn::FirstPicture).reorder_delay >= 0,
    ensures
        ({
            let whole = package::mpeg2_presentation(es, unit);
            package::mpeg2_fragment(
                es,
                unit,
                1,
                0,
                UnitLeadIn::FirstPicture,
                true,
                true,
                None,
                None,
            ) matches Ok(f) && f.init_segment == whole.0 && f.media_segment == whole.1
                && f.mime_codec == whole.2 && f.sample_count == whole.3
        }),
{
}

/// A fragment is numbered as it was asked to be and begins as far ahead of what it shows as
/// its pictures are held back. It says how many samples it has, and how long a player takes
/// to decode them all, which is when the next one is due. It is described where a codec is
/// given, and only there.
pub proof fn law_a_fragment_plays_what_it_was_given(
    video: PayloadView,
    t: TimelineView,
    timing: TimingView,
    sync_samples: Seq<bool>,
    describe: Option<CodecView>,
    sequence_number: u32,
    start: u64,
    audio: Option<&AacConfig>,
    f: FragmentView,
)
    requires
        package::fragment_of(
            video,
            t,
            timing,
            sync_samples,
            describe,
            sequence_number,
            start,
            audio,
            None,
        ) == Ok::<FragmentView, Error>(f),
        video.samples.len() > 0,
        timing.durations.len() == video.samples.len(),
        timing.reorder_delay >= 0,
        presented::sizes_fit(video),
        f.media_segment.len() <= u32::MAX,
    ensures
        ({
            let b = f.media_segment;
            &&& playback::number(b, 20) == sequence_number
            &&& timing.reorder_delay <= start ==> 0x1_0000_0000 * playback::number(b, 60)
                + playback::number(b, 64) + timing.reorder_delay == start
            &&& timing.reorder_delay > start ==> playback::number(b, 60) == 0
                && playback::number(b, 64) == 0
            &&& playback::number(b, 80) == f.sample_count
            &&& f.sample_count == video.samples.len()
            &&& f.duration == presented::decoded_at(b, 88, video.samples.len())
            &&& b.skip(96 + 16 * video.samples.len() as int) == video.all_media()
            &&& describe is None ==> f.init_segment.len() == 0 && f.mime_codec.len() == 0
            &&& describe matches Some(codec) ==> f.init_segment == init::init_bytes(
                codec,
                t.width,
                t.height,
                t.sample_aspect_ratio,
                adts::config_view(audio),
            )
        }),
{
    let base = package::base_time(start, timing.reorder_delay);
    let n = video.samples.len();
    assert(video.sample(0).len() <= u32::MAX);
    playback::law_a_player_finds_the_video(
        video,
        timing.durations,
        timing.compositions,
        sync_samples,
        sequence_number,
        base,
        0,
    );
    presented::lemma_decoded_at(
        video,
        timing.durations,
        timing.compositions,
        sync_samples,
        sequence_number,
        base,
        n,
    );
    let b = f.media_segment;
    lemma_number_bounds(b, 60);
    lemma_number_bounds(b, 64);
}

proof fn lemma_number_bounds(b: Seq<u8>, at: int)
    ensures
        0 <= playback::number(b, at) <= u32::MAX,
{
    reveal(playback::number);
}

/// A fragment with sound in it has the sound's own time on the sound's track, and the
/// samples of both.
pub proof fn law_sound_keeps_its_own_time(
    video: PayloadView,
    t: TimelineView,
    timing: TimingView,
    sync_samples: Seq<bool>,
    describe: Option<CodecView>,
    sequence_number: u32,
    start: u64,
    audio: Option<&AacConfig>,
    track: Fmp4AudioSamples,
    f: FragmentView,
)
    requires
        package::fragment_of(
            video,
            t,
            timing,
            sync_samples,
            describe,
            sequence_number,
            start,
            audio,
            Some(&track),
        ) == Ok::<FragmentView, Error>(f),
        video.samples.len() > 0,
        track.samples@.len() > 0,
        0 <= timing.reorder_delay <= start,
        f.media_segment.len() <= u32::MAX,
    ensures
        ({
            let b = f.media_segment;
            let sound = 88 + 16 * video.samples.len() as int;
            &&& playback::number(b, 20) == sequence_number
            &&& playback::number(b, 44) == 1
            &&& 0x1_0000_0000 * playback::number(b, 60) + playback::number(b, 64)
                + timing.reorder_delay == start
            &&& playback::number(b, 80) == video.samples.len()
            &&& playback::number(b, sound + 20) == 2
            &&& 0x1_0000_0000 * playback::number(b, sound + 36) + playback::number(b, sound + 40)
                == track.base_decode_time
            &&& playback::number(b, sound + 56) == track.samples@.len()
        }),
{
    presented::law_a_player_finds_both_tracks(
        video,
        timing.durations,
        timing.compositions,
        sync_samples,
        media::views(track.samples@),
        sequence_number,
        package::base_time(start, timing.reorder_delay),
        track.base_decode_time,
    );
}

/// A presentation with sound is named as the one without it, with the sound's codec behind
/// the video's in the same quotes.
pub proof fn law_sound_is_named_behind_the_video(codec: CodecView)
    ensures
        ({
            let plain = init::mime_of(codec, false);
            let both = init::mime_of(codec, true);
            &&& plain.take(19) == "video/mp4; codecs=\""@
            &&& plain.len() == 20 + init::codec_name(codec).len()
            &&& plain.subrange(19, plain.len() - 1) == init::codec_name(codec)
            &&& both == plain.drop_last() + ",mp4a.40.2"@ + "\""@
            &&& plain.last() == '"'
        }),
{
    reveal_strlit("video/mp4; codecs=\"");
    reveal_strlit("\"");
    reveal_strlit("");
    let plain = init::mime_of(codec, false);
    let both = init::mime_of(codec, true);
    assert(plain.take(19) =~= "video/mp4; codecs=\""@);
    assert(plain.subrange(19, plain.len() - 1) =~= init::codec_name(codec));
    assert(both =~= plain.drop_last() + ",mp4a.40.2"@ + "\""@);
}

/// A start code that ends the headers of a sequence stands at `at`: of a picture, of a group
/// or of a slice.
pub open spec fn ends_headers(data: Seq<u8>, at: int) -> bool {
    &&& at + 4 <= data.len()
    &&& data[at] == 0 && data[at + 1] == 0 && data[at + 2] == 1
    &&& data[at + 3] <= 0xaf || data[at + 3] == 0xb8
}

proof fn lemma_headers_end(data: Seq<u8>, from: int, at: int)
    requires
        0 <= from <= at,
        ends_headers(data, at),
        forall|i: int| from <= i < at ==> !#[trigger] ends_headers(data, i),
    ensures
        timeline::header_block_end(data, from) == at,
    decreases at - from,
{
    if from < at {
        assert(!ends_headers(data, from));
        if data[from] == 0 && data[from + 1] == 0 && data[from + 2] == 1 {
            assert(from + 4 <= at) by {
                assert(data[from + 2] != 0);
                assert(data[from + 3] != 0);
            }
            lemma_headers_end(data, from + 4, at);
        } else {
            lemma_headers_end(data, from + 1, at);
        }
    }
}

/// The headers in front of a unit run up to its first picture, group or slice, whatever
/// extensions and user data stand between; bytes that do not open with a sequence header have
/// none.
pub proof fn law_headers_run_to_the_first_picture(data: Seq<u8>, at: int)
    requires
        4 <= at,
        ends_headers(data, at),
        forall|i: int| 4 <= i < at ==> !#[trigger] ends_headers(data, i),
    ensures
        timeline::header_block(data) == if data[0] == 0 && data[1] == 0 && data[2] == 1 && data[3]
            == 0xb3 {
            at
        } else {
            0
        },
{
    lemma_headers_end(data, 4, at);
}

} // verus!
