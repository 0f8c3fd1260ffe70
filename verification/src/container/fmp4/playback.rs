//! A media segment as a player takes it apart.
use crate::container::fmp4::boxes;
use crate::container::fmp4::kind;
use crate::container::fmp4::media;
use crate::container::fmp4::media::Run;
use crate::container::fmp4::payload::PayloadView;
use vstd::prelude::*;

verus! {

/// The number that the four bytes at `at` spell, most significant byte first.
#[verifier::opaque]
pub open spec fn number(b: Seq<u8>, at: int) -> int {
    0x100_0000 * b[at] + 0x1_0000 * b[at + 1] + 0x100 * b[at + 2] + b[at + 3]
}

/// Whether a box of this name stands at `at` and reaches up to `end`: its size, which
/// counts the size itself and the name, comes first, and its name behind it.
#[verifier::opaque]
pub open spec fn is_box(b: Seq<u8>, at: int, name: Seq<u8>, end: int) -> bool {
    &&& 0 <= at
    &&& at + 8 <= end <= b.len()
    &&& number(b, at) == end - at
    &&& b.subrange(at + 4, at + 8) == name
}

/// Whether `part` stands at `at`.
#[verifier::opaque]
pub open spec fn stands(b: Seq<u8>, at: int, part: Seq<u8>) -> bool {
    0 <= at && at + part.len() <= b.len() && b.subrange(at, at + part.len()) == part
}

/// Where two parts stand together, each stands.
pub proof fn lemma_parts(b: Seq<u8>, at: int, x: Seq<u8>, y: Seq<u8>)
    requires
        stands(b, at, x + y),
    ensures
        stands(b, at, x),
        stands(b, at + x.len(), y),
{
    reveal(stands);
    let whole = x + y;
    assert(b.subrange(at, at + whole.len()) =~= whole);
    assert forall|i: int| 0 <= i < x.len() implies b.subrange(at, at + x.len())[i] == x[i] by {
        assert(whole[i] == x[i]);
        assert(b.subrange(at, at + whole.len())[i] == b[at + i]);
    }
    assert(b.subrange(at, at + x.len()) =~= x);
    let from = at + x.len();
    assert forall|i: int| 0 <= i < y.len() implies b.subrange(from, from + y.len())[i] == y[i] by {
        assert(whole[x.len() + i] == y[i]);
        assert(b.subrange(at, at + whole.len())[x.len() + i] == b[from + i]);
    }
    assert(b.subrange(from, from + y.len()) =~= y);
}

/// A whole stands at its own front.
pub proof fn lemma_whole(b: Seq<u8>)
    ensures
        stands(b, 0, b),
{
    reveal(stands);
    assert(b.subrange(0, b.len() as int) =~= b);
}

/// A part of a part stands where the two places add up to.
pub proof fn lemma_inside(b: Seq<u8>, at: int, part: Seq<u8>, from: int, inner: Seq<u8>)
    requires
        stands(b, at, part),
        stands(part, from, inner),
    ensures
        stands(b, at + from, inner),
{
    reveal(stands);
    assert forall|i: int| 0 <= i < inner.len() implies b.subrange(
        at + from,
        at + from + inner.len(),
    )[i] == inner[i] by {
        assert(part.subrange(from, from + inner.len())[i] == part[from + i]);
        assert(b.subrange(at, at + part.len())[from + i] == b[at + from + i]);
    }
    assert(b.subrange(at + from, at + from + inner.len()) =~= inner);
}

/// A number is read where it stands.
pub proof fn lemma_number(b: Seq<u8>, at: int, v: u32)
    requires
        stands(b, at, boxes::be32(v)),
    ensures
        number(b, at) == v,
{
    reveal(stands);
    reveal(number);
    let part = boxes::be32(v);
    let s = b.subrange(at, at + part.len());
    assert(s[0] == b[at] && s[1] == b[at + 1] && s[2] == b[at + 2] && s[3] == b[at + 3]);
    assert(part[0] == v / 0x100_0000);
    assert(part[1] == (v / 0x1_0000) % 256);
    assert(part[2] == (v / 256) % 256);
    assert(part[3] == v % 256);
}

/// A box is one where it stands, and its content stands behind its header.
pub proof fn lemma_box(b: Seq<u8>, at: int, name: Seq<u8>, payload: Seq<u8>)
    requires
        stands(b, at, boxes::boxed_bytes(name, payload)),
        name.len() == 4,
        b.len() <= u32::MAX,
    ensures
        is_box(b, at, name, at + 8 + payload.len()),
        stands(b, at + 8, payload),
        boxes::boxed_bytes(name, payload).len() == 8 + payload.len(),
{
    reveal(is_box);
    reveal(stands);
    let size = boxes::be32(boxes::low32(8 + payload.len()));
    lemma_parts(b, at, size + name, payload);
    lemma_parts(b, at, size, name);
    lemma_number(b, at, boxes::low32(8 + payload.len()));
}

/// As [`lemma_box`], for a box whose content opens with a version and flags.
pub proof fn lemma_full_box(b: Seq<u8>, at: int, name: Seq<u8>, version: u8, flags: u32, payload: Seq<u8>)
    requires
        stands(b, at, boxes::full_box_bytes(name, version, flags, payload)),
        name.len() == 4,
        flags < 0x100_0000,
        b.len() <= u32::MAX,
    ensures
        is_box(b, at, name, at + 12 + payload.len()),
        number(b, at + 8) == 0x100_0000 * version + flags,
        stands(b, at + 12, payload),
        boxes::full_box_bytes(name, version, flags, payload).len() == 12 + payload.len(),
{
    reveal(stands);
    reveal(number);
    let front = Seq::<u8>::empty() + seq![version] + boxes::be24(flags);
    lemma_box(b, at, name, front + payload);
    lemma_parts(b, at + 8, front, payload);
    let s = b.subrange(at + 8, at + 8 + front.len());
    assert(s[0] == b[at + 8] && s[1] == b[at + 9] && s[2] == b[at + 10] && s[3] == b[at + 11]);
    assert(front[0] == version);
    assert(front[1] == (flags / 0x1_0000) % 256);
    assert(front[2] == (flags / 256) % 256);
    assert(front[3] == flags % 256);
}

/// The entries of a run of video are sixteen bytes a sample: how long it lasts, how many
/// bytes it takes, its flags, and how far behind its decode time it is shown. The flags
/// of a sample that a decoder can start on say that it depends on no other; those of any
/// other say that it does, and that it is no sync sample.
#[verifier::spinoff_prover]
#[verifier::rlimit(60)]
pub proof fn law_video_entries_read_back(
    video: PayloadView,
    durations: Seq<u32>,
    compositions: Seq<u32>,
    sync_samples: Seq<bool>,
    n: nat,
    i: int,
)
    requires
        0 <= i < n,
        video.sample(i).len() <= u32::MAX,
    ensures
        ({
            let entries = media::video_entries(video, durations, compositions, sync_samples, n);
            &&& entries.len() == 16 * n
            &&& number(entries, 16 * i) == durations[i]
            &&& number(entries, 16 * i + 4) == video.sample(i).len()
            &&& number(entries, 16 * i + 8) == if sync_samples[i] {
                0x0200_0000int
            } else {
                0x0101_0000
            }
            &&& number(entries, 16 * i + 12) == compositions[i]
        }),
    decreases n,
{
    let all = media::video_entries(video, durations, compositions, sync_samples, n);
    let k = (n - 1) as nat;
    let before = media::video_entries(video, durations, compositions, sync_samples, k);
    lemma_video_entries_length(video, durations, compositions, sync_samples, k);
    let a = boxes::be32(durations[n - 1]);
    let b = boxes::be32(boxes::low32(video.sample(n - 1).len()));
    let flags = if sync_samples[n - 1] {
        media::SYNC_FLAGS
    } else {
        media::DELTA_FLAGS
    };
    let c = boxes::be32(flags);
    let d = boxes::be32(compositions[n - 1]);
    assert(all == before + a + b + c + d);
    lemma_whole(all);
    lemma_parts(all, 0, before + a + b + c, d);
    lemma_parts(all, 0, before + a + b, c);
    lemma_parts(all, 0, before + a, b);
    lemma_parts(all, 0, before, a);
    if i == n - 1 {
        lemma_number(all, 16 * i, durations[i]);
        lemma_number(all, 16 * i + 4, boxes::low32(video.sample(i).len()));
        lemma_number(all, 16 * i + 8, flags);
        lemma_number(all, 16 * i + 12, compositions[i]);
    } else {
        law_video_entries_read_back(video, durations, compositions, sync_samples, k, i);
        lemma_number_inside(all, 0, before, 16 * i);
        lemma_number_inside(all, 0, before, 16 * i + 4);
        lemma_number_inside(all, 0, before, 16 * i + 8);
        lemma_number_inside(all, 0, before, 16 * i + 12);
    }
}

/// A number of a part is a number of the whole.
pub proof fn lemma_number_inside(b: Seq<u8>, at: int, part: Seq<u8>, from: int)
    requires
        stands(b, at, part),
        0 <= from,
        from + 4 <= part.len(),
    ensures
        number(b, at + from) == number(part, from),
{
    reveal(stands);
    reveal(number);
    let s = b.subrange(at, at + part.len());
    assert(s[from] == b[at + from] && s[from + 1] == b[at + from + 1] && s[from + 2] == b[at + from
        + 2] && s[from + 3] == b[at + from + 3]);
}

/// The entries of a run of video take sixteen bytes a sample.
pub proof fn lemma_video_entries_length(
    video: PayloadView,
    durations: Seq<u32>,
    compositions: Seq<u32>,
    sync_samples: Seq<bool>,
    n: nat,
)
    ensures
        media::video_entries(video, durations, compositions, sync_samples, n).len() == 16 * n,
    decreases n,
{
    if n > 0 {
        lemma_video_entries_length(video, durations, compositions, sync_samples, (n - 1) as nat);
    }
}

/// The entries of a run of sound are eight bytes an access unit: the 1024 samples that
/// each lasts, and how many bytes it takes.
pub proof fn law_sound_entries_read_back(samples: Seq<Seq<u8>>, n: nat, i: int)
    requires
        0 <= i < n,
        samples[i].len() <= u32::MAX,
    ensures
        ({
            let entries = media::sound_entries(samples, n);
            &&& entries.len() == 8 * n
            &&& number(entries, 8 * i) == 1024
            &&& number(entries, 8 * i + 4) == samples[i].len()
        }),
    decreases n,
{
    let all = media::sound_entries(samples, n);
    let k = (n - 1) as nat;
    let before = media::sound_entries(samples, k);
    lemma_sound_entries_length(samples, k);
    let a = boxes::be32(1024);
    let b = boxes::be32(boxes::low32(samples[n - 1].len()));
    assert(all == before + a + b);
    lemma_whole(all);
    lemma_parts(all, 0, before + a, b);
    lemma_parts(all, 0, before, a);
    if i == n - 1 {
        lemma_number(all, 8 * i, 1024);
        lemma_number(all, 8 * i + 4, boxes::low32(samples[i].len()));
    } else {
        law_sound_entries_read_back(samples, k, i);
        lemma_number_inside(all, 0, before, 8 * i);
        lemma_number_inside(all, 0, before, 8 * i + 4);
    }
}

/// The entries of a run of sound take eight bytes an access unit.
pub proof fn lemma_sound_entries_length(samples: Seq<Seq<u8>>, n: nat)
    ensures
        media::sound_entries(samples, n).len() == 8 * n,
    decreases n,
{
    if n > 0 {
        lemma_sound_entries_length(samples, (n - 1) as nat);
    }
}

/// `moof`
pub open spec fn moof() -> Seq<u8> {
    seq![0x6d, 0x6f, 0x6f, 0x66]
}

/// `mfhd`
pub open spec fn mfhd() -> Seq<u8> {
    seq![0x6d, 0x66, 0x68, 0x64]
}

/// `traf`
pub open spec fn traf() -> Seq<u8> {
    seq![0x74, 0x72, 0x61, 0x66]
}

/// `tfhd`
pub open spec fn tfhd() -> Seq<u8> {
    seq![0x74, 0x66, 0x68, 0x64]
}

/// `tfdt`
pub open spec fn tfdt() -> Seq<u8> {
    seq![0x74, 0x66, 0x64, 0x74]
}

/// `trun`
pub open spec fn trun() -> Seq<u8> {
    seq![0x74, 0x72, 0x75, 0x6e]
}

/// `mdat`
pub open spec fn mdat() -> Seq<u8> {
    seq![0x6d, 0x64, 0x61, 0x74]
}

/// One track's part of a fragment as a player finds it at `at`: which track it is of and
/// that its offsets count from the front of the fragment, when it begins, how many
/// samples it has, where their bytes begin, and their entries, `entries` bytes in all.
/// The fields of an entry are those that the flags of the run announce: duration, size,
/// flags and composition offset.
pub open spec fn is_track_fragment(
    b: Seq<u8>,
    at: int,
    track: int,
    base_decode_time: int,
    version: int,
    flags: int,
    count: int,
    data_offset: int,
    entries: Seq<u8>,
) -> bool {
    let end = at + 64 + entries.len();
    &&& is_box(b, at, traf(), end)
    &&& is_box(b, at + 8, tfhd(), at + 24)
    &&& number(b, at + 16) == 0x02_0000
    &&& number(b, at + 20) == track
    &&& is_box(b, at + 24, tfdt(), at + 44)
    &&& number(b, at + 32) == 0x0100_0000
    &&& 0x1_0000_0000 * number(b, at + 36) + number(b, at + 40) == base_decode_time
    &&& is_box(b, at + 44, trun(), end)
    &&& number(b, at + 52) == 0x0100_0000 * version + flags
    &&& number(b, at + 56) == count
    &&& number(b, at + 60) == data_offset
    &&& stands(b, at + 64, entries)
}

/// The header of a track's part of a fragment.
proof fn lemma_track_header(b: Seq<u8>, at: int, track: u32)
    requires
        stands(
            b,
            at,
            boxes::full_box_bytes(
                kind::TFHD@,
                0,
                0x020000,
                Seq::<u8>::empty() + boxes::be32(track),
            ),
        ),
        b.len() <= u32::MAX,
    ensures
        is_box(b, at, tfhd(), at + 16),
        number(b, at + 8) == 0x02_0000,
        number(b, at + 12) == track,
{
    lemma_names();
    let own = Seq::<u8>::empty() + boxes::be32(track);
    assert(own =~= boxes::be32(track));
    lemma_full_box(b, at, kind::TFHD@, 0, 0x020000, own);
    lemma_number(b, at + 12, track);
}

/// When a track's part of a fragment begins.
proof fn lemma_track_time(b: Seq<u8>, at: int, time: u64)
    requires
        stands(
            b,
            at,
            boxes::full_box_bytes(kind::TFDT@, 1, 0, Seq::<u8>::empty() + boxes::be64(time)),
        ),
        b.len() <= u32::MAX,
    ensures
        is_box(b, at, tfdt(), at + 20),
        number(b, at + 8) == 0x0100_0000,
        0x1_0000_0000 * number(b, at + 12) + number(b, at + 16) == time,
{
    lemma_names();
    let own = Seq::<u8>::empty() + boxes::be64(time);
    let high = (time / 0x1_0000_0000) as u32;
    let low = (time % 0x1_0000_0000) as u32;
    assert(own =~= boxes::be32(high) + boxes::be32(low));
    lemma_full_box(b, at, kind::TFDT@, 1, 0, own);
    lemma_parts(b, at + 12, boxes::be32(high), boxes::be32(low));
    lemma_number(b, at + 12, high);
    lemma_number(b, at + 16, low);
}

/// The run of samples of a track's part of a fragment.
#[verifier::spinoff_prover]
#[verifier::rlimit(60)]
proof fn lemma_track_run(b: Seq<u8>, at: int, run: Run, data_offset: u32)
    requires
        stands(
            b,
            at,
            boxes::full_box_bytes(
                kind::TRUN@,
                run.version,
                run.flags,
                Seq::<u8>::empty() + boxes::be32(boxes::low32(run.count)) + boxes::be32(data_offset)
                    + run.entries,
            ),
        ),
        b.len() <= u32::MAX,
        run.flags < 0x100_0000,
        run.count <= u32::MAX,
    ensures
        is_box(b, at, trun(), at + 20 + run.entries.len()),
        number(b, at + 8) == 0x0100_0000 * run.version + run.flags,
        number(b, at + 12) == run.count,
        number(b, at + 16) == data_offset,
        stands(b, at + 20, run.entries),
{
    lemma_names();
    let e = Seq::<u8>::empty();
    let count = boxes::be32(boxes::low32(run.count));
    let offset = boxes::be32(data_offset);
    lemma_full_box(
        b,
        at,
        kind::TRUN@,
        run.version,
        run.flags,
        e + count + offset + run.entries,
    );
    lemma_parts(b, at + 12, e + count + offset, run.entries);
    lemma_parts(b, at + 12, e + count, offset);
    assert(e + count =~= count);
    lemma_number(b, at + 12, boxes::low32(run.count));
    lemma_number(b, at + 16, data_offset);
}

/// Three boxes in a fourth.
proof fn lemma_three(b: Seq<u8>, at: int, x: Seq<u8>, y: Seq<u8>, z: Seq<u8>)
    requires
        stands(b, at, boxes::boxed_bytes(kind::TRAF@, Seq::<u8>::empty() + x + y + z)),
        b.len() <= u32::MAX,
        x.len() == 16,
        y.len() == 20,
    ensures
        is_box(b, at, traf(), at + 44 + z.len()),
        stands(b, at + 8, x),
        stands(b, at + 24, y),
        stands(b, at + 44, z),
        boxes::boxed_bytes(kind::TRAF@, Seq::<u8>::empty() + x + y + z).len() == 44 + z.len(),
{
    lemma_names();
    let e = Seq::<u8>::empty();
    lemma_box(b, at, kind::TRAF@, e + x + y + z);
    lemma_parts(b, at + 8, e + x + y, z);
    lemma_parts(b, at + 8, e + x, y);
    assert(e + x =~= x);
}

/// One track's part of a fragment is found where it stands.
#[verifier::spinoff_prover]
#[verifier::rlimit(60)]
pub proof fn lemma_track_fragment(b: Seq<u8>, at: int, run: Run, data_offset: u32)
    requires
        stands(b, at, media::track_fragment(run, data_offset)),
        b.len() <= u32::MAX,
        run.flags < 0x100_0000,
        run.count <= u32::MAX,
    ensures
        is_track_fragment(
            b,
            at,
            run.track as int,
            run.base_decode_time as int,
            run.version as int,
            run.flags as int,
            run.count as int,
            data_offset as int,
            run.entries,
        ),
        media::track_fragment(run, data_offset).len() == 64 + run.entries.len(),
{
    reveal(media::track_fragment);
    let e = Seq::<u8>::empty();
    lemma_names();
    let x = boxes::full_box_bytes(kind::TFHD@, 0, 0x020000, e + boxes::be32(run.track));
    let y = boxes::full_box_bytes(kind::TFDT@, 1, 0, e + boxes::be64(run.base_decode_time));
    let z = boxes::full_box_bytes(
        kind::TRUN@,
        run.version,
        run.flags,
        e + boxes::be32(boxes::low32(run.count)) + boxes::be32(data_offset) + run.entries,
    );
    assert(x.len() == 16);
    assert(y.len() == 20);
    assert(z.len() == 20 + run.entries.len());
    lemma_three(b, at, x, y, z);
    lemma_track_header(b, at + 8, run.track);
    lemma_track_time(b, at + 24, run.base_decode_time);
    lemma_track_run(b, at + 44, run, data_offset);
}

/// The boxes have the names that players know.
pub proof fn lemma_names()
    ensures
        kind::MOOF@ == moof(),
        kind::MFHD@ == mfhd(),
        kind::TRAF@ == traf(),
        kind::TFHD@ == tfhd(),
        kind::TFDT@ == tfdt(),
        kind::TRUN@ == trun(),
        kind::MDAT@ == mdat(),
{
    assert(kind::MOOF@ =~= moof());
    assert(kind::MFHD@ =~= mfhd());
    assert(kind::TRAF@ =~= traf());
    assert(kind::TFHD@ =~= tfhd());
    assert(kind::TFDT@ =~= tfdt());
    assert(kind::TRUN@ =~= trun());
    assert(kind::MDAT@ =~= mdat());
}

/// The front of a fragment, up to its tracks.
#[verifier::spinoff_prover]
#[verifier::rlimit(60)]
pub proof fn lemma_fragment_front(b: Seq<u8>, sequence_number: u32, tracks: Seq<u8>)
    requires
        stands(
            b,
            0,
            boxes::boxed_bytes(
                kind::MOOF@,
                Seq::<u8>::empty() + media::fragment_header(sequence_number) + tracks,
            ),
        ),
        b.len() <= u32::MAX,
    ensures
        is_box(b, 0, moof(), 24 + tracks.len() as int),
        is_box(b, 8, mfhd(), 24),
        number(b, 16) == 0,
        number(b, 20) == sequence_number,
        stands(b, 24, tracks),
        boxes::boxed_bytes(
            kind::MOOF@,
            Seq::<u8>::empty() + media::fragment_header(sequence_number) + tracks,
        ).len() == 24 + tracks.len(),
{
    let e = Seq::<u8>::empty();
    lemma_names();
    let own = e + boxes::be32(sequence_number);
    let header = boxes::full_box_bytes(kind::MFHD@, 0, 0, own);
    assert(own =~= boxes::be32(sequence_number));
    assert(e + header =~= header);
    lemma_box(b, 0, kind::MOOF@, e + header + tracks);
    lemma_parts(b, 8, e + header, tracks);
    lemma_full_box(b, 8, kind::MFHD@, 0, 0, own);
    lemma_number(b, 20, sequence_number);
}

/// A player that takes a video-only segment apart finds one fragment of track 1: its
/// number, when it begins, and for each sample the duration, the size, the flags and the
/// composition offset that it was given. The fragment says that the bytes of the samples
/// begin where they do, and they run to the end of the segment.
#[verifier::spinoff_prover]
#[verifier::rlimit(60)]
pub proof fn law_a_player_finds_the_video(
    video: PayloadView,
    durations: Seq<u32>,
    compositions: Seq<u32>,
    sync_samples: Seq<bool>,
    sequence_number: u32,
    base_decode_time: u64,
    i: int,
)
    requires
        media::video_segment(
            video,
            durations,
            compositions,
            sync_samples,
            sequence_number,
            base_decode_time,
        ).len() <= u32::MAX,
        0 <= i < video.samples.len(),
        video.sample(i).len() <= u32::MAX,
    ensures
        ({
            let b = media::video_segment(
                video,
                durations,
                compositions,
                sync_samples,
                sequence_number,
                base_decode_time,
            );
            let n = video.samples.len() as int;
            let end = 88 + 16 * n;
            &&& is_box(b, 0, moof(), end)
            &&& is_box(b, 8, mfhd(), 24)
            &&& number(b, 20) == sequence_number
            &&& is_box(b, 24, traf(), end)
            &&& is_box(b, 32, tfhd(), 48)
            &&& number(b, 40) == 0x02_0000
            &&& number(b, 44) == 1
            &&& is_box(b, 48, tfdt(), 68)
            &&& number(b, 56) == 0x0100_0000
            &&& 0x1_0000_0000 * number(b, 60) + number(b, 64) == base_decode_time
            &&& is_box(b, 68, trun(), end)
            &&& number(b, 76) == 0x0100_0f01
            &&& number(b, 80) == n
            &&& number(b, 84) == end + 8
            &&& number(b, 88 + 16 * i) == durations[i]
            &&& number(b, 88 + 16 * i + 4) == video.sample(i).len()
            &&& number(b, 88 + 16 * i + 8) == if sync_samples[i] {
                0x0200_0000int
            } else {
                0x0101_0000
            }
            &&& number(b, 88 + 16 * i + 12) == compositions[i]
            &&& is_box(b, end, mdat(), b.len() as int)
            &&& b.skip(end + 8) == video.all_media()
        }),
{
    let b = media::video_segment(
        video,
        durations,
        compositions,
        sync_samples,
        sequence_number,
        base_decode_time,
    );
    let n = video.samples.len();
    let run = media::video_run(video, durations, compositions, sync_samples, base_decode_time);
    lemma_video_entries_length(video, durations, compositions, sync_samples, n);
    lemma_lone_length(sequence_number, run, 0);
    let offset = media::behind(media::lone_fragment(sequence_number, run, 0), 0);
    lemma_lone_length(sequence_number, run, offset);
    let front = media::lone_fragment(sequence_number, run, offset);
    assert(b == front + boxes::boxed_bytes(kind::MDAT@, video.all_media())) by {
        reveal(media::video_segment);
        assert(Seq::<u8>::empty() + front =~= front);
        assert(Seq::<u8>::empty() + video.all_media() =~= video.all_media());
    }
    lemma_media_behind(b, front, video.all_media());
    lemma_lone_front(b, sequence_number, run, offset);
    law_video_entries_read_back(video, durations, compositions, sync_samples, n, i);
    lemma_number_inside(b, 88, run.entries, 16 * i);
    lemma_number_inside(b, 88, run.entries, 16 * i + 4);
    lemma_number_inside(b, 88, run.entries, 16 * i + 8);
    lemma_number_inside(b, 88, run.entries, 16 * i + 12);
}

/// A front, and the media in a box behind it.
pub proof fn lemma_media_behind(b: Seq<u8>, front: Seq<u8>, bytes: Seq<u8>)
    requires
        b == front + boxes::boxed_bytes(kind::MDAT@, bytes),
        b.len() <= u32::MAX,
    ensures
        stands(b, 0, front),
        is_box(b, front.len() as int, mdat(), b.len() as int),
        b.skip(front.len() as int + 8) == bytes,
{
    lemma_names();
    let rest = boxes::boxed_bytes(kind::MDAT@, bytes);
    lemma_whole(b);
    lemma_parts(b, 0, front, rest);
    lemma_box(b, front.len() as int, kind::MDAT@, bytes);
    lemma_rest(b, front.len() as int + 8, bytes);
}

/// The front of a fragment of one track.
proof fn lemma_lone_front(b: Seq<u8>, sequence_number: u32, run: Run, offset: u32)
    requires
        stands(b, 0, media::lone_fragment(sequence_number, run, offset)),
        b.len() <= u32::MAX,
        run.flags < 0x100_0000,
        run.count <= u32::MAX,
    ensures
        is_box(b, 0, moof(), 88 + run.entries.len() as int),
        is_box(b, 8, mfhd(), 24),
        number(b, 20) == sequence_number,
        is_track_fragment(
            b,
            24,
            run.track as int,
            run.base_decode_time as int,
            run.version as int,
            run.flags as int,
            run.count as int,
            offset as int,
            run.entries,
        ),
{
    reveal(media::lone_fragment);
    let tracks = media::track_fragment(run, offset);
    lemma_track_length(run, offset, offset);
    lemma_fragment_front(b, sequence_number, tracks);
    lemma_track_fragment(b, 24, run, offset);
}

/// What stands up to the end is all that follows.
pub proof fn lemma_rest(b: Seq<u8>, at: int, part: Seq<u8>)
    requires
        stands(b, at, part),
        at + part.len() == b.len(),
    ensures
        b.skip(at) == part,
{
    reveal(stands);
    assert(b.skip(at) =~= b.subrange(at, at + part.len()));
}

/// A track's part of a fragment takes 64 bytes and its entries.
pub proof fn lemma_track_length(run: Run, a: u32, b: u32)
    ensures
        media::track_fragment(run, a).len() == 64 + run.entries.len(),
        media::track_fragment(run, b).len() == 64 + run.entries.len(),
{
    reveal(media::track_fragment);
    lemma_names();
}

/// The front of a fragment of one track takes 88 bytes and its entries.
proof fn lemma_lone_length(sequence_number: u32, run: Run, offset: u32)
    ensures
        media::lone_fragment(sequence_number, run, offset).len() == 88 + run.entries.len(),
{
    reveal(media::lone_fragment);
    lemma_names();
    lemma_track_length(run, offset, offset);
}

} // verus!
