//! The media segments: the samples, and when each is decoded and shown.
use crate::container::adts::AAC_FRAME_SAMPLES;
use crate::container::fmp4::boxes;
use crate::container::fmp4::boxes::Buf;
use crate::container::fmp4::kind;
use crate::container::fmp4::payload::{PayloadView, VideoPayload};
use vstd::prelude::*;

verus! {

/// Flags of a sample that a decoder can be started on: it depends on no other.
pub const SYNC_FLAGS: u32 = 0x0200_0000;

/// Flags of any other sample.
pub const DELTA_FLAGS: u32 = 0x0101_0000;

/// Which track a fragment is of, and where it begins.
pub struct Run {
    pub track: u32,
    pub base_decode_time: u64,
    pub version: u8,
    pub flags: u32,
    pub count: nat,
    pub entries: Seq<u8>,
}

/// What the first `n` samples are declared as: how long each lasts, how many bytes it
/// takes, whether a decoder can start on it, and how far it is shown behind its
/// decode time.
pub open spec fn video_entries(
    video: PayloadView,
    durations: Seq<u32>,
    compositions: Seq<u32>,
    sync_samples: Seq<bool>,
    n: nat,
) -> Seq<u8>
    decreases n,
{
    if n == 0 {
        Seq::<u8>::empty()
    } else {
        video_entries(video, durations, compositions, sync_samples, (n - 1) as nat) + boxes::be32(
            durations[n - 1],
        ) + boxes::be32(boxes::low32(video.sample(n - 1).len())) + boxes::be32(
            if sync_samples[n - 1] {
                SYNC_FLAGS
            } else {
                DELTA_FLAGS
            },
        ) + boxes::be32(compositions[n - 1])
    }
}

/// What the samples of a fragment are declared as.
fn make_video_entries(
    video: &VideoPayload<'_>,
    durations: &[u32],
    compositions: &[u32],
    sync_samples: &[bool],
) -> (entries: Vec<u8>)
    requires
        durations@.len() >= video@.samples.len(),
        compositions@.len() >= video@.samples.len(),
        sync_samples@.len() >= video@.samples.len(),
    ensures
        entries@ == video_entries(
            video@,
            durations@,
            compositions@,
            sync_samples@,
            video@.samples.len(),
        ),
{
    let mut entries = Buf::new();
    let mut i: usize = 0;
    while i < video.len()
        invariant
            i <= video@.samples.len(),
            durations@.len() >= video@.samples.len(),
            compositions@.len() >= video@.samples.len(),
            sync_samples@.len() >= video@.samples.len(),
            entries@ == video_entries(
                video@,
                durations@,
                compositions@,
                sync_samples@,
                i as nat,
            ),
        decreases video@.samples.len() - i,
    {
        entries.u32(durations[i]);
        entries.u32(video.sample_bytes(i));
        // sample_flags: non-reference and non-sync unless this is an IDR or a
        // recovery picture. Safari needs the container flag to retain an MSE
        // eviction boundary; the recovery-point SEI tells the decoder how the
        // non-IDR I picture becomes independently usable.
        entries.u32(
            if sync_samples[i] {
                SYNC_FLAGS
            } else {
                DELTA_FLAGS
            },
        );
        entries.u32(compositions[i]);
        i = i + 1;
    }
    entries.into_vec()
}

/// Several byte strings.
pub open spec fn views(samples: Seq<Vec<u8>>) -> Seq<Seq<u8>> {
    Seq::new(samples.len(), |i: int| samples[i]@)
}

/// The first `n` byte strings, one behind the other.
pub open spec fn joined(samples: Seq<Seq<u8>>, n: nat) -> Seq<u8>
    decreases n,
{
    if n == 0 {
        Seq::<u8>::empty()
    } else {
        joined(samples, (n - 1) as nat) + samples[n - 1]
    }
}

/// What the first `n` access units of sound are declared as: how long each lasts and
/// how many bytes it takes.
pub open spec fn sound_entries(samples: Seq<Seq<u8>>, n: nat) -> Seq<u8>
    decreases n,
{
    if n == 0 {
        Seq::<u8>::empty()
    } else {
        sound_entries(samples, (n - 1) as nat) + boxes::be32(AAC_FRAME_SAMPLES) + boxes::be32(
            boxes::low32(samples[n - 1].len()),
        )
    }
}

/// What the access units of sound are declared as.
fn make_sound_entries(samples: &Vec<Vec<u8>>) -> (entries: Vec<u8>)
    ensures
        entries@ == sound_entries(views(samples@), samples@.len()),
{
    let mut entries = Buf::new();
    let mut i: usize = 0;
    while i < samples.len()
        invariant
            i <= samples@.len(),
            entries@ == sound_entries(views(samples@), i as nat),
        decreases samples@.len() - i,
    {
        entries.u32(AAC_FRAME_SAMPLES);
        entries.u32(boxes::truncated(samples[i].len(), 0));
        i = i + 1;
    }
    entries.into_vec()
}

/// The fragment's number.
pub open spec fn fragment_header(sequence_number: u32) -> Seq<u8> {
    boxes::full_box_bytes(
        kind::MFHD@,
        0,
        0,
        Seq::<u8>::empty() + boxes::be32(sequence_number),
    )
}

/// One track's part of a fragment: where it begins in time, where its bytes begin,
/// counted from the front of the fragment, and its samples.
#[verifier::opaque]
pub open spec fn track_fragment(run: Run, data_offset: u32) -> Seq<u8> {
    let tfhd = boxes::full_box_bytes(
        kind::TFHD@,
        0,
        0x020000,
        Seq::<u8>::empty() + boxes::be32(run.track),
    );
    let tfdt = boxes::full_box_bytes(
        kind::TFDT@,
        1,
        0,
        Seq::<u8>::empty() + boxes::be64(run.base_decode_time),
    );
    let trun = boxes::full_box_bytes(
        kind::TRUN@,
        run.version,
        run.flags,
        Seq::<u8>::empty() + boxes::be32(boxes::low32(run.count)) + boxes::be32(data_offset)
            + run.entries,
    );
    boxes::boxed_bytes(kind::TRAF@, Seq::<u8>::empty() + tfhd + tfdt + trun)
}

/// One track's part of a fragment.
fn make_traf(
    track: u32,
    base_decode_time: u64,
    offset: u32,
    entries: &Vec<u8>,
    count: usize,
    version: u8,
    flags: u32,
) -> (bytes: Vec<u8>)
    ensures
        bytes@ == track_fragment(
            Run {
                track,
                base_decode_time,
                version,
                flags,
                count: count as nat,
                entries: entries@,
            },
            offset,
        ),
{
    reveal(track_fragment);
    let mut tfhd = Buf::new();
    tfhd.u32(track);
    let mut tfdt = Buf::new();
    // Version 1: a session resumed mid-file starts where it sits in the
    // whole presentation, and 32 bits of 90 kHz ticks runs out after
    // thirteen hours.
    tfdt.u64(base_decode_time);
    let mut trun = Buf::new();
    trun.u32(boxes::truncated(count, 0));
    trun.u32(offset);
    trun.bytes(entries);
    let mut body = Buf::new();
    body.bytes(&boxes::full_box(&kind::TFHD, 0, 0x020000, &tfhd.into_vec()));
    body.bytes(&boxes::full_box(&kind::TFDT, 1, 0, &tfdt.into_vec()));
    body.bytes(&boxes::full_box(&kind::TRUN, version, flags, &trun.into_vec()));
    boxes::boxed(&kind::TRAF, &body.into_vec())
}

/// The video of a fragment.
pub open spec fn video_run(
    video: PayloadView,
    durations: Seq<u32>,
    compositions: Seq<u32>,
    sync_samples: Seq<bool>,
    base_decode_time: u64,
) -> Run {
    Run {
        track: 1,
        base_decode_time,
        version: 1,
        flags: 0x000f01,
        count: video.samples.len(),
        entries: video_entries(
            video,
            durations,
            compositions,
            sync_samples,
            video.samples.len(),
        ),
    }
}

/// The sound of a fragment.
pub open spec fn sound_run(samples: Seq<Seq<u8>>, base_decode_time: u64) -> Run {
    Run {
        track: 2,
        base_decode_time,
        version: 0,
        flags: 0x000301,
        count: samples.len(),
        entries: sound_entries(samples, samples.len()),
    }
}

/// The front of a fragment that holds one track.
#[verifier::opaque]
pub open spec fn lone_fragment(sequence_number: u32, run: Run, data_offset: u32) -> Seq<u8> {
    boxes::boxed_bytes(
        kind::MOOF@,
        Seq::<u8>::empty() + fragment_header(sequence_number) + track_fragment(run, data_offset),
    )
}

/// Where the bytes behind the front of a fragment and a box header begin.
pub open spec fn behind(front: Seq<u8>, skipped: nat) -> u32 {
    boxes::low32(front.len() + 8 + skipped)
}

/// A video-only media segment: the front of the fragment, then the samples.
#[verifier::opaque]
pub open spec fn video_segment(
    video: PayloadView,
    durations: Seq<u32>,
    compositions: Seq<u32>,
    sync_samples: Seq<bool>,
    sequence_number: u32,
    base_decode_time: u64,
) -> Seq<u8> {
    let run = video_run(video, durations, compositions, sync_samples, base_decode_time);
    let offset = behind(lone_fragment(sequence_number, run, 0), 0);
    Seq::<u8>::empty() + lone_fragment(sequence_number, run, offset) + boxes::boxed_bytes(
        kind::MDAT@,
        Seq::<u8>::empty() + video.all_media(),
    )
}

/// The fragment's number.
fn make_mfhd(sequence_number: u32) -> (bytes: Vec<u8>)
    ensures
        bytes@ == fragment_header(sequence_number),
{
    let mut body = Buf::new();
    body.u32(sequence_number);
    boxes::full_box(&kind::MFHD, 0, 0, &body.into_vec())
}

/// The front of a video-only fragment.
fn make_video_moof(
    sequence_number: u32,
    base_decode_time: u64,
    offset: u32,
    entries: &Vec<u8>,
    count: usize,
) -> (bytes: Vec<u8>)
    ensures
        bytes@ == lone_fragment(
            sequence_number,
            Run {
                track: 1,
                base_decode_time,
                version: 1,
                flags: 0x000f01,
                count: count as nat,
                entries: entries@,
            },
            offset,
        ),
{
    reveal(lone_fragment);
    let mut body = Buf::new();
    body.bytes(&make_mfhd(sequence_number));
    body.bytes(&make_traf(1, base_decode_time, offset, entries, count, 1, 0x000f01));
    boxes::boxed(&kind::MOOF, &body.into_vec())
}

/// A video-only media segment.
pub fn make_media_segment(
    video: &VideoPayload<'_>,
    durations: &[u32],
    compositions: &[u32],
    sync_samples: &[bool],
    sequence_number: u32,
    base_decode_time: u64,
) -> (segment: Vec<u8>)
    requires
        durations@.len() >= video@.samples.len(),
        compositions@.len() >= video@.samples.len(),
        sync_samples@.len() >= video@.samples.len(),
    ensures
        segment@ == video_segment(
            video@,
            durations@,
            compositions@,
            sync_samples@,
            sequence_number,
            base_decode_time,
        ),
{
    reveal(video_segment);
    let entries = make_video_entries(video, durations, compositions, sync_samples);
    // The data offset is relative to the moof, whose size depends on the offset
    // only through its fixed-width field, so one rebuild settles it.
    let unsettled = make_video_moof(sequence_number, base_decode_time, 0, &entries, video.len());
    let offset: u32 = boxes::truncated(unsettled.len(), 8);
    let mut mdat = Buf::new();
    video.write_media(&mut mdat);
    let mut out = Buf::new();
    out.bytes(
        &make_video_moof(sequence_number, base_decode_time, offset, &entries, video.len()),
    );
    out.bytes(&boxes::boxed(&kind::MDAT, &mdat.into_vec()));
    out.into_vec()
}

/// The front of a fragment that holds both tracks. A track with nothing in the
/// fragment has no part in it.
#[verifier::opaque]
pub open spec fn shared_fragment(
    sequence_number: u32,
    video: Run,
    sound: Run,
    video_offset: u32,
    sound_offset: u32,
) -> Seq<u8> {
    boxes::boxed_bytes(
        kind::MOOF@,
        Seq::<u8>::empty() + fragment_header(sequence_number) + (if video.count > 0 {
            track_fragment(video, video_offset)
        } else {
            Seq::<u8>::empty()
        }) + (if sound.count > 0 {
            track_fragment(sound, sound_offset)
        } else {
            Seq::<u8>::empty()
        }),
    )
}

/// A media segment with video and sound: the front of the fragment, then the video's
/// samples, then the sound's.
#[verifier::opaque]
pub open spec fn shared_segment(
    video: PayloadView,
    durations: Seq<u32>,
    compositions: Seq<u32>,
    sync_samples: Seq<bool>,
    sound: Seq<Seq<u8>>,
    sequence_number: u32,
    video_base_decode_time: u64,
    audio_base_decode_time: u64,
) -> Seq<u8> {
    let v = video_run(video, durations, compositions, sync_samples, video_base_decode_time);
    let s = sound_run(sound, audio_base_decode_time);
    let front = shared_fragment(sequence_number, v, s, 0, 0);
    let settled = shared_fragment(
        sequence_number,
        v,
        s,
        behind(front, 0),
        behind(front, video.all_media().len()),
    );
    Seq::<u8>::empty() + settled + boxes::boxed_bytes(
        kind::MDAT@,
        video.all_media() + joined(sound, sound.len()),
    )
}

/// Write several byte strings, one behind the other.
fn write_all(samples: &Vec<Vec<u8>>, out: &mut Buf)
    ensures
        final(out)@ == old(out)@ + joined(views(samples@), samples@.len()),
{
    let mut i: usize = 0;
    assert(out@ + joined(views(samples@), 0) =~= out@);
    while i < samples.len()
        invariant
            i <= samples@.len(),
            out@ == old(out)@ + joined(views(samples@), i as nat),
        decreases samples@.len() - i,
    {
        out.bytes(&samples[i]);
        i = i + 1;
        assert(out@ =~= old(out)@ + joined(views(samples@), i as nat));
    }
}

/// The front of a fragment that holds both tracks.
fn make_shared_moof(
    sequence_number: u32,
    video_base_decode_time: u64,
    video_offset: u32,
    video_entries: &Vec<u8>,
    video_count: usize,
    audio_base_decode_time: u64,
    audio_offset: u32,
    audio_entries: &Vec<u8>,
    audio_count: usize,
) -> (bytes: Vec<u8>)
    ensures
        bytes@ == shared_fragment(
            sequence_number,
            Run {
                track: 1,
                base_decode_time: video_base_decode_time,
                version: 1,
                flags: 0x000f01,
                count: video_count as nat,
                entries: video_entries@,
            },
            Run {
                track: 2,
                base_decode_time: audio_base_decode_time,
                version: 0,
                flags: 0x000301,
                count: audio_count as nat,
                entries: audio_entries@,
            },
            video_offset,
            audio_offset,
        ),
{
    reveal(shared_fragment);
    let nothing: Vec<u8> = Vec::new();
    let mut body = Buf::new();
    body.bytes(&make_mfhd(sequence_number));
    // A track with nothing in this fragment takes no traf: the audio of a
    // recording runs out before its video does, and a trun describing no
    // samples is not something to hand a parser.
    if video_count > 0 {
        body.bytes(
            &make_traf(
                1,
                video_base_decode_time,
                video_offset,
                video_entries,
                video_count,
                1,
                0x000f01,
            ),
        );
    } else {
        body.bytes(&nothing);
    }
    if audio_count > 0 {
        body.bytes(
            &make_traf(
                2,
                audio_base_decode_time,
                audio_offset,
                audio_entries,
                audio_count,
                0,
                0x000301,
            ),
        );
    } else {
        body.bytes(&nothing);
    }
    boxes::boxed(&kind::MOOF, &body.into_vec())
}

/// One fragment carrying both tracks, so an MSE implementation sees a `traf`
/// for each in the same `moof` rather than two interleaved fragment streams.
pub fn make_av_media_segment(
    video: &VideoPayload<'_>,
    durations: &[u32],
    compositions: &[u32],
    sync_samples: &[bool],
    audio_samples: &Vec<Vec<u8>>,
    sequence_number: u32,
    video_base_decode_time: u64,
    audio_base_decode_time: u64,
) -> (segment: Vec<u8>)
    requires
        durations@.len() >= video@.samples.len(),
        compositions@.len() >= video@.samples.len(),
        sync_samples@.len() >= video@.samples.len(),
    ensures
        segment@ == shared_segment(
            video@,
            durations@,
            compositions@,
            sync_samples@,
            views(audio_samples@),
            sequence_number,
            video_base_decode_time,
            audio_base_decode_time,
        ),
{
    reveal(shared_segment);
    let video_entries = make_video_entries(video, durations, compositions, sync_samples);
    let audio_entries = make_sound_entries(audio_samples);
    let unsettled = make_shared_moof(
        sequence_number,
        video_base_decode_time,
        0,
        &video_entries,
        video.len(),
        audio_base_decode_time,
        0,
        &audio_entries,
        audio_samples.len(),
    );
    let payload_start: u32 = boxes::truncated(unsettled.len(), 8);
    let audio_start: u32 = payload_start.wrapping_add(video.total_bytes());
    proof {
        boxes::lemma_low32_sum(unsettled@.len() + 8, video@.all_media().len());
    }
    let moof = make_shared_moof(
        sequence_number,
        video_base_decode_time,
        payload_start,
        &video_entries,
        video.len(),
        audio_base_decode_time,
        audio_start,
        &audio_entries,
        audio_samples.len(),
    );
    let mut mdat = Buf::new();
    video.write_media(&mut mdat);
    write_all(audio_samples, &mut mdat);
    let mut out = Buf::new();
    out.bytes(&moof);
    assert(mdat@ =~= video@.all_media() + joined(views(audio_samples@), audio_samples@.len()));
    out.bytes(&boxes::boxed(&kind::MDAT, &mdat.into_vec()));
    out.into_vec()
}

/// Where a fragment says that a track's bytes begin does not change how long its
/// front is.
proof fn lemma_offset_keeps_length(run: Run, a: u32, b: u32)
    ensures
        track_fragment(run, a).len() == track_fragment(run, b).len(),
{
    reveal(track_fragment);
}

/// The samples of a video-only segment stand where the fragment says they do: the
/// data offset, counted from the front of the segment, is where the media begins, and
/// the media runs to the end of the segment.
pub proof fn law_data_offset_finds_the_samples(
    video: PayloadView,
    durations: Seq<u32>,
    compositions: Seq<u32>,
    sync_samples: Seq<bool>,
    sequence_number: u32,
    base_decode_time: u64,
)
    requires
        video_segment(
            video,
            durations,
            compositions,
            sync_samples,
            sequence_number,
            base_decode_time,
        ).len() <= u32::MAX,
    ensures
        ({
            let segment = video_segment(
                video,
                durations,
                compositions,
                sync_samples,
                sequence_number,
                base_decode_time,
            );
            let run = video_run(video, durations, compositions, sync_samples, base_decode_time);
            let offset = behind(lone_fragment(sequence_number, run, 0), 0);
            &&& segment.take(offset - 8) == lone_fragment(sequence_number, run, offset)
            &&& segment.skip(offset as int) == video.all_media()
        }),
{
    reveal(video_segment);
    let segment = video_segment(
        video,
        durations,
        compositions,
        sync_samples,
        sequence_number,
        base_decode_time,
    );
    let run = video_run(video, durations, compositions, sync_samples, base_decode_time);
    let offset = behind(lone_fragment(sequence_number, run, 0), 0);
    let front = lone_fragment(sequence_number, run, offset);
    lemma_lone_length(sequence_number, run, 0, offset);
    assert(Seq::<u8>::empty() + video.all_media() =~= video.all_media());
    lemma_segment(front, video.all_media());
    assert(segment == Seq::<u8>::empty() + front + boxes::boxed_bytes(
        kind::MDAT@,
        video.all_media(),
    ));
}

/// The length of a fragment's front does not hang on the offset in it.
proof fn lemma_lone_length(sequence_number: u32, run: Run, a: u32, b: u32)
    ensures
        lone_fragment(sequence_number, run, a).len() == lone_fragment(
            sequence_number,
            run,
            b,
        ).len(),
{
    reveal(lone_fragment);
    lemma_offset_keeps_length(run, a, b);
}

/// The length of a fragment's front does not hang on the offsets in it.
proof fn lemma_shared_length(
    sequence_number: u32,
    v: Run,
    s: Run,
    a: u32,
    b: u32,
)
    ensures
        shared_fragment(sequence_number, v, s, a, b).len() == shared_fragment(
            sequence_number,
            v,
            s,
            0,
            0,
        ).len(),
{
    reveal(shared_fragment);
    lemma_offset_keeps_length(v, a, 0);
    lemma_offset_keeps_length(s, b, 0);
}

/// A front, then a box of media.
proof fn lemma_segment(front: Seq<u8>, media: Seq<u8>)
    ensures
        ({
            let segment = Seq::<u8>::empty() + front + boxes::boxed_bytes(kind::MDAT@, media);
            &&& segment.len() == front.len() + 8 + media.len()
            &&& segment.take(front.len() as int) == front
            &&& segment.skip(front.len() as int + 8) == media
        }),
{
    let segment = Seq::<u8>::empty() + front + boxes::boxed_bytes(kind::MDAT@, media);
    assert(kind::MDAT@.len() == 4);
    assert(segment.take(front.len() as int) =~= front);
    assert(segment.skip(front.len() as int + 8) =~= media);
}

/// The samples of a segment that both tracks share stand where the fragment says they
/// do: the video's where the media begins, the sound's behind them.
pub proof fn law_shared_offsets_find_the_samples(
    video: PayloadView,
    durations: Seq<u32>,
    compositions: Seq<u32>,
    sync_samples: Seq<bool>,
    sound: Seq<Seq<u8>>,
    sequence_number: u32,
    video_base_decode_time: u64,
    audio_base_decode_time: u64,
)
    requires
        shared_segment(
            video,
            durations,
            compositions,
            sync_samples,
            sound,
            sequence_number,
            video_base_decode_time,
            audio_base_decode_time,
        ).len() <= u32::MAX,
    ensures
        ({
            let segment = shared_segment(
                video,
                durations,
                compositions,
                sync_samples,
                sound,
                sequence_number,
                video_base_decode_time,
                audio_base_decode_time,
            );
            let v = video_run(
                video,
                durations,
                compositions,
                sync_samples,
                video_base_decode_time,
            );
            let s = sound_run(sound, audio_base_decode_time);
            let front = shared_fragment(sequence_number, v, s, 0, 0);
            let at = behind(front, 0);
            let sound_at = behind(front, video.all_media().len());
            &&& segment.take(at - 8) == shared_fragment(sequence_number, v, s, at, sound_at)
            &&& segment.subrange(at as int, sound_at as int) == video.all_media()
            &&& segment.skip(sound_at as int) == joined(sound, sound.len())
        }),
{
    let segment = shared_segment(
        video,
        durations,
        compositions,
        sync_samples,
        sound,
        sequence_number,
        video_base_decode_time,
        audio_base_decode_time,
    );
    let v = video_run(video, durations, compositions, sync_samples, video_base_decode_time);
    let s = sound_run(sound, audio_base_decode_time);
    let front = shared_fragment(sequence_number, v, s, 0, 0);
    let at = behind(front, 0);
    let sound_at = behind(front, video.all_media().len());
    let settled = shared_fragment(sequence_number, v, s, at, sound_at);
    lemma_shared_length(sequence_number, v, s, at, sound_at);
    let media = video.all_media();
    let rest = joined(sound, sound.len());
    lemma_shared_segment(settled, media, rest);
    assert(segment == Seq::<u8>::empty() + settled + boxes::boxed_bytes(
        kind::MDAT@,
        media + rest,
    )) by {
        reveal(shared_segment);
    }
    assert(at == settled.len() + 8);
    assert(sound_at == at + media.len());
}

/// A front, then a box of the media of two tracks.
proof fn lemma_shared_segment(front: Seq<u8>, media: Seq<u8>, rest: Seq<u8>)
    ensures
        ({
            let segment = Seq::<u8>::empty() + front + boxes::boxed_bytes(
                kind::MDAT@,
                media + rest,
            );
            let at = front.len() as int + 8;
            &&& segment.len() == at + media.len() + rest.len()
            &&& segment.take(front.len() as int) == front
            &&& segment.subrange(at, at + media.len()) == media
            &&& segment.skip(at + media.len()) == rest
        }),
{
    let segment = Seq::<u8>::empty() + front + boxes::boxed_bytes(kind::MDAT@, media + rest);
    let at = front.len() as int + 8;
    lemma_segment(front, media + rest);
    let tail = segment.skip(at);
    assert(tail == media + rest);
    assert(segment.subrange(at, at + media.len()) =~= tail.take(media.len() as int));
    assert(tail.take(media.len() as int) =~= media);
    assert(segment.skip(at + media.len()) =~= tail.skip(media.len() as int));
    assert(tail.skip(media.len() as int) =~= rest);
}

} // verus!
