//! What a player presents of a media segment, and when.
use crate::container::fmp4::boxes;
use crate::container::fmp4::kind;
use crate::container::fmp4::media;
use crate::container::fmp4::payload::PayloadView;
use crate::container::fmp4::playback;
use crate::container::fmp4::timeline::TimelineView;
use crate::container::fmp4::timing;
use crate::container::fmp4::timing::UnitLeadIn;
use vstd::prelude::*;

verus! {

/// When a player decodes sample `i` of a run whose entries stand at `at`: after as long
/// as all samples before it last.
pub open spec fn decoded_at(b: Seq<u8>, at: int, i: nat) -> int
    decreases i,
{
    if i == 0 {
        0
    } else {
        decoded_at(b, at, (i - 1) as nat) + playback::number(b, at + 16 * (i - 1))
    }
}

/// When a player shows sample `i` of a run: as far behind its decode time as its entry
/// says.
pub open spec fn presented_at(b: Seq<u8>, at: int, i: nat) -> int {
    decoded_at(b, at, i) + playback::number(b, at + 16 * i + 12)
}

/// Every sample can be measured in 32 bits.
pub open spec fn sizes_fit(video: PayloadView) -> bool {
    forall|i: int| 0 <= i < video.samples.len() ==> (#[trigger] video.sample(i)).len() <= u32::MAX
}

/// The decode times of a segment are the sums of the durations that went into it.
pub proof fn lemma_decoded_at(
    video: PayloadView,
    durations: Seq<u32>,
    compositions: Seq<u32>,
    sync_samples: Seq<bool>,
    sequence_number: u32,
    base_decode_time: u64,
    i: nat,
)
    requires
        media::video_segment(
            video,
            durations,
            compositions,
            sync_samples,
            sequence_number,
            base_decode_time,
        ).len() <= u32::MAX,
        i <= video.samples.len(),
        sizes_fit(video),
    ensures
        ({
            let b = media::video_segment(
                video,
                durations,
                compositions,
                sync_samples,
                sequence_number,
                base_decode_time,
            );
            decoded_at(b, 88, i) == timing::elapsed(durations, i)
        }),
    decreases i,
{
    if i > 0 {
        let k = (i - 1) as nat;
        assert(video.sample(k as int).len() <= u32::MAX);
        lemma_decoded_at(
            video,
            durations,
            compositions,
            sync_samples,
            sequence_number,
            base_decode_time,
            k,
        );
        playback::law_a_player_finds_the_video(
            video,
            durations,
            compositions,
            sync_samples,
            sequence_number,
            base_decode_time,
            k as int,
        );
    }
}

/// A player shows every picture of a unit when its timeline says, counted from the first
/// of them and held back by the delay: the decode time that the entries of the segment add
/// up to, and the composition offset that stands in the picture's own, make that time.
pub proof fn law_a_player_shows_pictures_on_time(
    t: TimelineView,
    k: nat,
    video: PayloadView,
    sync_samples: Seq<bool>,
    sequence_number: u32,
    base_decode_time: u64,
)
    requires
        timing::tellable(t),
        k < t.presentation_indices.len(),
        timing::delay_of(t) + t.time_of(k as int) - t.first_time() <= u32::MAX,
        video.samples.len() == timing::content_samples(t),
        sizes_fit(video),
        ({
            let told = timing::timing_of(t, UnitLeadIn::Nothing);
            media::video_segment(
                video,
                told.durations,
                told.compositions,
                sync_samples,
                sequence_number,
                base_decode_time,
            ).len() <= u32::MAX
        }),
        timing::samples_before(t, k) < video.samples.len(),
    ensures
        ({
            let told = timing::timing_of(t, UnitLeadIn::Nothing);
            let b = media::video_segment(
                video,
                told.durations,
                told.compositions,
                sync_samples,
                sequence_number,
                base_decode_time,
            );
            presented_at(b, 88, timing::samples_before(t, k)) == t.time_of(k as int)
                - t.first_time() + timing::delay_of(t)
        }),
{
    let told = timing::timing_of(t, UnitLeadIn::Nothing);
    let s = timing::samples_before(t, k);
    timing::law_pictures_are_shown_on_time(t, k);
    assert(video.sample(s as int).len() <= u32::MAX);
    lemma_decoded_at(
        video,
        told.durations,
        told.compositions,
        sync_samples,
        sequence_number,
        base_decode_time,
        s,
    );
    playback::law_a_player_finds_the_video(
        video,
        told.durations,
        told.compositions,
        sync_samples,
        sequence_number,
        base_decode_time,
        s as int,
    );
}

/// A unit is held back by no more than it has to: by one frame, or by as much as makes
/// some picture shown the moment it is decoded.
pub proof fn law_no_unit_is_held_back_in_vain(t: TimelineView)
    ensures
        ({
            let offsets = timing::laid(t, t.presentation_indices.len()).offsets;
            ||| timing::delay_of(t) == t.sample_duration
            ||| exists|i: int|
                0 <= i < offsets.len() && #[trigger] offsets[i] + timing::delay_of(t) == 0
        }),
{
    let offsets = timing::laid(t, t.presentation_indices.len()).offsets;
    lemma_least_is_one(offsets, offsets.len());
}

/// The least of some offsets is one of them, or zero.
proof fn lemma_least_is_one(offsets: Seq<int>, n: nat)
    requires
        n <= offsets.len(),
    ensures
        timing::least(offsets, n) >= 0 || exists|i: int|
            0 <= i < n && #[trigger] offsets[i] == timing::least(offsets, n),
    decreases n,
{
    if n > 0 {
        lemma_least_is_one(offsets, (n - 1) as nat);
        if timing::least(offsets, n) == offsets[n - 1] {
            assert(offsets[n - 1] == timing::least(offsets, n));
        }
    }
}

/// A player that takes a segment of both tracks apart finds the video's part of the
/// fragment first and the sound's behind it, each with its own entries, its own time and
/// its own place in the media: the samples of the video first, the access units of the
/// sound behind them.
#[verifier::spinoff_prover]
#[verifier::rlimit(60)]
pub proof fn law_a_player_finds_both_tracks(
    video: PayloadView,
    durations: Seq<u32>,
    compositions: Seq<u32>,
    sync_samples: Seq<bool>,
    sound: Seq<Seq<u8>>,
    sequence_number: u32,
    video_time: u64,
    sound_time: u64,
)
    requires
        media::shared_segment(
            video,
            durations,
            compositions,
            sync_samples,
            sound,
            sequence_number,
            video_time,
            sound_time,
        ).len() <= u32::MAX,
        video.samples.len() > 0,
        sound.len() > 0,
    ensures
        ({
            let b = media::shared_segment(
                video,
                durations,
                compositions,
                sync_samples,
                sound,
                sequence_number,
                video_time,
                sound_time,
            );
            let n = video.samples.len();
            let m = sound.len();
            let second = 88 + 16 * n as int;
            let end = second + 64 + 8 * m as int;
            &&& playback::is_box(b, 0, playback::moof(), end)
            &&& playback::number(b, 20) == sequence_number
            &&& playback::is_track_fragment(
                b,
                24,
                1,
                video_time as int,
                1,
                0xf01,
                n as int,
                end + 8,
                media::video_entries(video, durations, compositions, sync_samples, n),
            )
            &&& playback::is_track_fragment(
                b,
                second,
                2,
                sound_time as int,
                0,
                0x301,
                m as int,
                end + 8 + video.all_media().len(),
                media::sound_entries(sound, m),
            )
            &&& playback::is_box(b, end, playback::mdat(), b.len() as int)
            &&& b.skip(end + 8) == video.all_media() + media::joined(sound, m)
        }),
{
    let b = media::shared_segment(
        video,
        durations,
        compositions,
        sync_samples,
        sound,
        sequence_number,
        video_time,
        sound_time,
    );
    let n = video.samples.len();
    let m = sound.len();
    let v = media::video_run(video, durations, compositions, sync_samples, video_time);
    let s = media::sound_run(sound, sound_time);
    playback::lemma_video_entries_length(video, durations, compositions, sync_samples, n);
    playback::lemma_sound_entries_length(sound, m);
    let bytes = video.all_media() + media::joined(sound, m);
    let draft = media::shared_fragment(sequence_number, v, s, 0, 0);
    let x = media::behind(draft, 0);
    let y = media::behind(draft, video.all_media().len());
    let front = media::shared_fragment(sequence_number, v, s, x, y);
    lemma_shared_length(sequence_number, v, s, 0, 0);
    assert(b == front + boxes::boxed_bytes(kind::MDAT@, bytes)) by {
        reveal(media::shared_segment);
        assert(Seq::<u8>::empty() + front =~= front);
    }
    lemma_both(b, sequence_number, v, s, x, y, bytes);
    assert(draft.len() == 152 + 16 * n + 8 * m);
    assert(draft.len() + 8 + video.all_media().len() <= b.len());
}

/// A segment of two tracks: the front of the fragment, and the media behind it.
#[verifier::spinoff_prover]
#[verifier::rlimit(60)]
proof fn lemma_both(
    b: Seq<u8>,
    sequence_number: u32,
    v: media::Run,
    s: media::Run,
    x: u32,
    y: u32,
    bytes: Seq<u8>,
)
    requires
        b == media::shared_fragment(sequence_number, v, s, x, y) + boxes::boxed_bytes(
            kind::MDAT@,
            bytes,
        ),
        b.len() <= u32::MAX,
        v.flags < 0x100_0000 && s.flags < 0x100_0000,
        0 < v.count,
        0 < s.count,
        v.entries.len() == 16 * v.count,
        s.entries.len() == 8 * s.count,
    ensures
        b.len() == 160 + v.entries.len() + s.entries.len() + bytes.len(),
        playback::is_box(
            b,
            0,
            playback::moof(),
            (152 + v.entries.len() + s.entries.len()) as int,
        ),
        playback::number(b, 20) == sequence_number,
        playback::is_track_fragment(
            b,
            24,
            v.track as int,
            v.base_decode_time as int,
            v.version as int,
            v.flags as int,
            v.count as int,
            x as int,
            v.entries,
        ),
        playback::is_track_fragment(
            b,
            88 + v.entries.len() as int,
            s.track as int,
            s.base_decode_time as int,
            s.version as int,
            s.flags as int,
            s.count as int,
            y as int,
            s.entries,
        ),
        playback::is_box(
            b,
            (152 + v.entries.len() + s.entries.len()) as int,
            playback::mdat(),
            b.len() as int,
        ),
        b.skip(160 + v.entries.len() + s.entries.len() as int) == bytes,
{
    let front = media::shared_fragment(sequence_number, v, s, x, y);
    lemma_shared_length(sequence_number, v, s, x, y);
    lemma_media_length(bytes);
    playback::lemma_media_behind(b, front, bytes);
    lemma_shared_front(b, sequence_number, v, s, x, y);
}

/// Media in a box take eight bytes more.
proof fn lemma_media_length(bytes: Seq<u8>)
    ensures
        boxes::boxed_bytes(kind::MDAT@, bytes).len() == 8 + bytes.len(),
{
    playback::lemma_names();
}

/// The front of a fragment of two tracks takes 152 bytes and their entries.
proof fn lemma_shared_length(sequence_number: u32, v: media::Run, s: media::Run, x: u32, y: u32)
    requires
        v.count > 0,
        s.count > 0,
    ensures
        media::shared_fragment(sequence_number, v, s, x, y).len() == 152 + v.entries.len()
            + s.entries.len(),
{
    reveal(media::shared_fragment);
    playback::lemma_names();
    playback::lemma_track_length(v, x, x);
    playback::lemma_track_length(s, y, y);
}

/// The front of a fragment of two tracks.
#[verifier::spinoff_prover]
#[verifier::rlimit(60)]
proof fn lemma_shared_front(
    b: Seq<u8>,
    sequence_number: u32,
    v: media::Run,
    s: media::Run,
    x: u32,
    y: u32,
)
    requires
        playback::stands(b, 0, media::shared_fragment(sequence_number, v, s, x, y)),
        b.len() <= u32::MAX,
        v.flags < 0x100_0000 && s.flags < 0x100_0000,
        0 < v.count <= u32::MAX,
        0 < s.count <= u32::MAX,
    ensures
        playback::is_box(b, 0, playback::moof(), (152 + v.entries.len() + s.entries.len()) as int),
        playback::number(b, 20) == sequence_number,
        playback::is_track_fragment(
            b,
            24,
            v.track as int,
            v.base_decode_time as int,
            v.version as int,
            v.flags as int,
            v.count as int,
            x as int,
            v.entries,
        ),
        playback::is_track_fragment(
            b,
            88 + v.entries.len() as int,
            s.track as int,
            s.base_decode_time as int,
            s.version as int,
            s.flags as int,
            s.count as int,
            y as int,
            s.entries,
        ),
{
    let e = Seq::<u8>::empty();
    let p = media::track_fragment(v, x);
    let q = media::track_fragment(s, y);
    let header = media::fragment_header(sequence_number);
    playback::lemma_track_length(v, x, x);
    playback::lemma_track_length(s, y, y);
    assert(media::shared_fragment(sequence_number, v, s, x, y) == boxes::boxed_bytes(
        kind::MOOF@,
        e + header + (p + q),
    )) by {
        reveal(media::shared_fragment);
        assert(e + header + p + q =~= e + header + (p + q));
    }
    playback::lemma_fragment_front(b, sequence_number, p + q);
    playback::lemma_parts(b, 24, p, q);
    playback::lemma_track_fragment(b, 24, v, x);
    playback::lemma_track_fragment(b, 88 + v.entries.len() as int, s, y);
}

} // verus!
