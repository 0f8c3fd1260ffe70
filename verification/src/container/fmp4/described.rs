//! An initialization segment as a player takes it apart.
use crate::container::adts::AacView;
use crate::container::fmp4::boxes;
use crate::container::fmp4::init;
use crate::container::fmp4::init::CodecView;
use crate::container::fmp4::kind;
use crate::container::fmp4::playback;
use crate::mpeg2::headers::SampleAspectRatio;
use vstd::arithmetic::div_mod;
use vstd::prelude::*;

verus! {

/// The number that the two bytes at `at` spell, most significant byte first.
pub open spec fn short(b: Seq<u8>, at: int) -> int {
    0x100 * b[at] + b[at + 1]
}

/// A track header names its track, and gives the size that it is shown at.
pub proof fn law_track_headers_read_back(track: u32, volume: u16, width: u32, height: u32)
    ensures
        ({
            let b = init::track_header(track, volume, width, height);
            &&& b.len() == 92
            &&& playback::number(b, 0) == 92
            &&& b.subrange(4, 8) == seq![0x74u8, 0x6b, 0x68, 0x64]
            // The track is enabled, and takes part in the presentation.
            &&& playback::number(b, 8) == 7
            &&& playback::number(b, 20) == track
            &&& short(b, 44) == volume
            &&& playback::number(b, 48) == 0x1_0000
            &&& playback::number(b, 64) == 0x1_0000
            &&& playback::number(b, 80) == 0x4000_0000
            &&& playback::number(b, 84) == width
            &&& playback::number(b, 88) == height
        }),
{
    reveal(playback::number);
    let b = init::track_header(track, volume, width, height);
    assert(b.subrange(4, 8) =~= seq![0x74u8, 0x6b, 0x68, 0x64]);
    assert(b[44] == volume / 256 && b[45] == volume % 256);
    assert(b[84] == width / 0x100_0000 && b[85] == (width / 0x1_0000) % 256 && b[86] == (width
        / 256) % 256 && b[87] == width % 256);
}

/// The movie's clock ticks 90000 times a second.
pub proof fn law_movie_headers_read_back(next_track: u32)
    ensures
        ({
            let b = init::movie_header(next_track);
            &&& b.len() == 108
            &&& playback::number(b, 0) == 108
            &&& b.subrange(4, 8) == seq![0x6du8, 0x76, 0x68, 0x64]
            &&& playback::number(b, 8) == 0
            &&& playback::number(b, 20) == 90000
            &&& playback::number(b, 28) == 0x1_0000
            &&& short(b, 32) == 0x100
            &&& playback::number(b, 44) == 0x1_0000
            &&& playback::number(b, 60) == 0x1_0000
            &&& playback::number(b, 76) == 0x4000_0000
            &&& playback::number(b, 104) == next_track
        }),
{
    reveal(playback::number);
    let b = init::movie_header(next_track);
    assert(b.subrange(4, 8) =~= seq![0x6du8, 0x76, 0x68, 0x64]);
}

/// A media header gives the clock of its track.
pub proof fn law_media_headers_read_back(timescale: u32)
    ensures
        ({
            let b = init::media_header(timescale);
            &&& b.len() == 32
            &&& playback::number(b, 0) == 32
            &&& b.subrange(4, 8) == seq![0x6du8, 0x64, 0x68, 0x64]
            &&& playback::number(b, 8) == 0
            &&& playback::number(b, 20) == timescale
        }),
{
    reveal(playback::number);
    let b = init::media_header(timescale);
    assert(b.subrange(4, 8) =~= seq![0x6du8, 0x64, 0x68, 0x64]);
}

/// A handler says what its track is: four letters behind its version and a zero.
pub proof fn law_handlers_read_back(class: Seq<u8>, name: Seq<u8>)
    requires
        class.len() == 4,
        name.len() < 100,
    ensures
        ({
            let b = init::handler(class, name);
            &&& b.len() == 32 + name.len()
            &&& playback::number(b, 0) == b.len()
            &&& b.subrange(4, 8) == seq![0x68u8, 0x64, 0x6c, 0x72]
            &&& b.subrange(16, 20) == class
            &&& b.skip(32) == name
        }),
{
    reveal(playback::number);
    let b = init::handler(class, name);
    assert(b.subrange(4, 8) =~= seq![0x68u8, 0x64, 0x6c, 0x72]);
    assert(b.subrange(16, 20) =~= class);
    assert(b.skip(32) =~= name);
}

/// A track's defaults name the track and the description of its samples, and leave the
/// rest to the fragments.
pub proof fn law_track_defaults_read_back(track: u32)
    ensures
        ({
            let b = init::track_defaults(track);
            &&& b.len() == 32
            &&& playback::number(b, 0) == 32
            &&& b.subrange(4, 8) == seq![0x74u8, 0x72, 0x65, 0x78]
            &&& playback::number(b, 12) == track
            &&& playback::number(b, 16) == 1
            &&& playback::number(b, 20) == 0
            &&& playback::number(b, 24) == 0
            &&& playback::number(b, 28) == 0
        }),
{
    reveal(playback::number);
    let b = init::track_defaults(track);
    assert(b.subrange(4, 8) =~= seq![0x74u8, 0x72, 0x65, 0x78]);
}

/// The shape of a picture's samples: how wide they are, and how high.
#[verifier::spinoff_prover]
#[verifier::rlimit(80)]
pub proof fn law_pixel_aspects_read_back(sar: SampleAspectRatio)
    ensures
        ({
            let b = init::pixel_aspect(Some(sar));
            &&& b.len() == 16
            &&& playback::number(b, 0) == 16
            &&& b.subrange(4, 8) == seq![0x70u8, 0x61, 0x73, 0x70]
            &&& playback::number(b, 8) == sar.width
            &&& playback::number(b, 12) == sar.height
        }),
        init::pixel_aspect(None).len() == 0,
{
    reveal(playback::number);
    let b = init::pixel_aspect(Some(sar));
    assert(b.subrange(4, 8) =~= seq![0x70u8, 0x61, 0x73, 0x70]);
}

/// The configuration of an AVC decoder repeats the profile, the compatibility flags and the
/// level of the sequence parameter set, says that units are behind lengths of four bytes,
/// and holds both parameter sets, each behind its own length.
#[verifier::spinoff_prover]
#[verifier::rlimit(60)]
pub proof fn law_avc_configurations_read_back(sps: Seq<u8>, pps: Seq<u8>)
    requires
        4 <= sps.len() <= 0xffff,
        pps.len() <= 0xffff,
    ensures
        ({
            let b = init::avc_config(sps, pps);
            let n = sps.len() as int;
            let m = pps.len() as int;
            &&& b.len() == 19 + n + m
            &&& playback::number(b, 0) == b.len()
            &&& b.subrange(4, 8) == seq![0x61u8, 0x76, 0x63, 0x43]
            &&& b[8] == 1
            &&& b[9] == sps[1] && b[10] == sps[2] && b[11] == sps[3]
            &&& b[12] % 4 == 3
            &&& b[13] % 32 == 1
            &&& short(b, 14) == n
            &&& b.subrange(16, 16 + n) == sps
            &&& b[16 + n] == 1
            &&& short(b, 17 + n) == m
            &&& b.skip(19 + n) == pps
        }),
{
    let b = init::avc_config(sps, pps);
    let n = sps.len() as int;
    let e = Seq::<u8>::empty();
    let head = e + seq![1u8, sps[1], sps[2], sps[3], 0xff, 0xe1];
    let x = boxes::be16(init::low16(sps.len()));
    let y = boxes::be16(init::low16(pps.len()));
    let one = seq![1u8];
    assert(kind::AVC_CONFIG@ =~= seq![0x61u8, 0x76, 0x63, 0x43]);
    playback::lemma_whole(b);
    lemma_avc_length(sps, pps);
    playback::lemma_box(b, 0, kind::AVC_CONFIG@, head + x + sps + one + y + pps);
    playback::lemma_parts(b, 8, head + x + sps + one + y, pps);
    playback::lemma_parts(b, 8, head + x + sps + one, y);
    playback::lemma_parts(b, 8, head + x + sps, one);
    playback::lemma_parts(b, 8, head + x, sps);
    playback::lemma_parts(b, 8, head, x);
    lemma_lone_byte(b, 16 + n, 1);
    lemma_short(b, 14, init::low16(sps.len()));
    lemma_short(b, 17 + n, init::low16(pps.len()));
    playback::lemma_rest(b, 19 + n, pps);
    assert(b[8] == head[0] && b[9] == head[1] && b[10] == head[2] && b[11] == head[3] && b[12]
        == head[4] && b[13] == head[5] && b.subrange(16, 16 + n) == sps) by {
        reveal(playback::stands);
        let s = b.subrange(8, 14);
        assert(s[0] == b[8] && s[1] == b[9] && s[2] == b[10] && s[3] == b[11] && s[4] == b[12]
            && s[5] == b[13]);
    }
    assert(b.subrange(4, 8) == kind::AVC_CONFIG@ && playback::number(b, 0) == b.len()) by {
        reveal(playback::is_box);
    }
}

/// How long the configuration of an AVC decoder is.
proof fn lemma_avc_length(sps: Seq<u8>, pps: Seq<u8>)
    ensures
        init::avc_config(sps, pps).len() == 19 + sps.len() + pps.len(),
{
    assert(kind::AVC_CONFIG@.len() == 4);
}

/// A number of two bytes is read where it stands.
proof fn lemma_short(b: Seq<u8>, at: int, v: u16)
    requires
        playback::stands(b, at, boxes::be16(v)),
    ensures
        short(b, at) == v,
{
    reveal(playback::stands);
    let s = b.subrange(at, at + 2);
    assert(s[0] == b[at] && s[1] == b[at + 1]);
}

/// The length of a descriptor: seven bits of each byte, up to the first byte whose high
/// bit is clear, which is the fourth.
pub open spec fn descriptor_length(b: Seq<u8>, at: int) -> int {
    0x20_0000 * (b[at + 1] % 128) + 0x4000 * (b[at + 2] % 128) + 0x80 * (b[at + 3] % 128) + b[at
        + 4]
}

/// Whether a descriptor of this tag stands at `at`, with four bytes of length and this
/// payload.
pub open spec fn is_descriptor(b: Seq<u8>, at: int, tag: u8, payload: Seq<u8>) -> bool {
    &&& b[at] == tag
    &&& b[at + 1] >= 128 && b[at + 2] >= 128 && b[at + 3] >= 128 && b[at + 4] < 128
    &&& descriptor_length(b, at) == payload.len()
    &&& playback::stands(b, at + 5, payload)
}

/// A descriptor is read as it was written: its tag, its length and its payload.
pub proof fn law_descriptors_read_back(b: Seq<u8>, at: int, tag: u8, payload: Seq<u8>)
    requires
        payload.len() < 0x1000_0000,
        playback::stands(b, at, init::descriptor_bytes(tag, payload)),
    ensures
        is_descriptor(b, at, tag, payload),
        init::descriptor_bytes(tag, payload).len() == 5 + payload.len(),
{
    let d = init::descriptor_bytes(tag, payload);
    let front = d.take(5);
    let n = payload.len() as int;
    assert(d =~= front + payload);
    playback::lemma_parts(b, at, front, payload);
    reveal(playback::stands);
    let s = b.subrange(at, at + front.len());
    assert(s[0] == b[at] && s[1] == b[at + 1] && s[2] == b[at + 2] && s[3] == b[at + 3] && s[4]
        == b[at + 4]);
    assert(front[0] == tag);
    assert(front[1] == 128 + (n / 0x20_0000) % 128);
    assert(front[2] == 128 + (n / 0x4000) % 128);
    assert(front[3] == 128 + (n / 128) % 128);
    assert(front[4] == n % 128);
    assert((n / 0x20_0000) % 128 == n / 0x20_0000);
    assert(n == 0x20_0000 * (n / 0x20_0000) + 0x4000 * ((n / 0x4000) % 128) + 0x80 * ((n / 128)
        % 128) + n % 128) by {
        assert((n / 0x4000) / 128 == n / 0x20_0000);
        assert((n / 128) / 128 == n / 0x4000);
    }
}

/// An elementary stream descriptor box: behind the number of the stream stands what
/// decodes it, and in that the bytes that the decoder starts from.
#[verifier::spinoff_prover]
#[verifier::rlimit(60)]
pub proof fn law_stream_descriptors_read_back(
    es_id: u16,
    object_type: u8,
    stream_type: u8,
    info: Seq<u8>,
)
    requires
        info.len() < 0x100_0000,
    ensures
        ({
            let b = init::esds(es_id, object_type, stream_type, info);
            let n = info.len() as int;
            &&& b.len() == 49 + n
            &&& playback::number(b, 0) == b.len()
            &&& b.subrange(4, 8) == seq![0x65u8, 0x73, 0x64, 0x73]
            &&& playback::number(b, 8) == 0
            &&& b[12] == 3 && descriptor_length(b, 12) == 32 + n
            &&& short(b, 17) == es_id
            &&& b[19] == 0
            &&& b[20] == 4 && descriptor_length(b, 20) == 18 + n
            &&& b[25] == object_type
            &&& b[26] == stream_type
            &&& b[38] == 5 && descriptor_length(b, 38) == n
            &&& b.subrange(43, 43 + n) == info
            &&& b[43 + n] == 6 && descriptor_length(b, 43 + n) == 1
            &&& b[48 + n] == 2
        }),
{
    let b = init::esds(es_id, object_type, stream_type, info);
    let e = Seq::<u8>::empty();
    let inner = init::descriptor_bytes(5, info);
    let middle = e + seq![object_type] + seq![stream_type] + boxes::zeros(3) + boxes::be32(0)
        + boxes::be32(0) + inner;
    let config = init::descriptor_bytes(4, middle);
    let last = init::descriptor_bytes(6, seq![0x02u8]);
    let own = e + boxes::be16(es_id) + seq![0u8] + config + last;
    let whole = init::descriptor_bytes(3, own);
    playback::lemma_whole(b);
    assert(kind::ESDS@ =~= seq![0x65u8, 0x73, 0x64, 0x73]);
    assert(inner.len() == 5 + info.len());
    assert(middle.len() == 18 + info.len());
    assert(config.len() == 23 + info.len());
    assert(last.len() == 6);
    assert(own.len() == 32 + info.len());
    playback::lemma_full_box(b, 0, kind::ESDS@, 0, 0, whole);
    law_descriptors_read_back(b, 12, 3, own);
    let front = e + boxes::be16(es_id) + seq![0u8];
    playback::lemma_parts(b, 17, front + config, last);
    playback::lemma_parts(b, 17, front, config);
    lemma_three_bytes(b, 17, front);
    law_descriptors_read_back(b, 20, 4, middle);
    let head = e + seq![object_type] + seq![stream_type] + boxes::zeros(3) + boxes::be32(0)
        + boxes::be32(0);
    playback::lemma_parts(b, 25, head, inner);
    lemma_three_bytes(b, 25, head);
    law_descriptors_read_back(b, 38, 5, info);
    law_descriptors_read_back(b, 43 + info.len() as int, 6, seq![0x02u8]);
    lemma_lone_byte(b, 48 + info.len() as int, 2);
    assert(b.subrange(43, 43 + info.len() as int) == info) by {
        reveal(playback::stands);
    }
    assert(b.subrange(4, 8) == kind::ESDS@ && playback::number(b, 0) == b.len()) by {
        reveal(playback::is_box);
    }
}

/// The first three bytes of a part.
proof fn lemma_three_bytes(b: Seq<u8>, at: int, part: Seq<u8>)
    requires
        playback::stands(b, at, part),
        part.len() >= 3,
    ensures
        b[at] == part[0],
        b[at + 1] == part[1],
        b[at + 2] == part[2],
{
    reveal(playback::stands);
    let s = b.subrange(at, at + part.len());
    assert(s[0] == b[at] && s[1] == b[at + 1] && s[2] == b[at + 2]);
}

/// A part of one byte.
proof fn lemma_lone_byte(b: Seq<u8>, at: int, v: u8)
    requires
        playback::stands(b, at, seq![v]),
    ensures
        b[at] == v,
{
    reveal(playback::stands);
    let s = b.subrange(at, at + 1);
    assert(s[0] == b[at]);
}

/// Whole numbers in sixteen bits and sixteen of fraction keep their value.
pub proof fn law_fixed_points_keep_whole_numbers(value: nat)
    requires
        value < 0x1_0000,
    ensures
        init::fixed(value) / 0x1_0000 == value,
        init::fixed(value) % 0x1_0000 == 0,
{
}

/// The width that a picture is shown at is its own, widened as its samples are, to the
/// nearest of the steps of which a sample has 65536. Square samples change nothing.
pub proof fn law_pictures_are_shown_as_wide_as_their_samples(
    width: u32,
    ratio: Option<SampleAspectRatio>,
)
    ensures
        ratio is None ==> init::display_width(width, ratio) == width * 0x1_0000,
        ratio matches Some(sar) ==> sar.width > 0 && sar.height > 0 ==> ({
            let shown = init::display_width(width, ratio);
            let wanted = width * sar.width * 0x1_0000;
            &&& -(sar.height as int) <= 2 * (sar.height * shown - wanted) <= sar.height
            &&& sar.width == sar.height ==> shown == width * 0x1_0000
        }),
{
    if let Some(sar) = ratio {
        if sar.width > 0 && sar.height > 0 {
            let h = sar.height as int;
            let wanted = width * sar.width * 0x1_0000;
            let a = wanted + sar.height / 2;
            let shown = init::display_width(width, ratio);
            assert(shown == a / h);
            div_mod::lemma_fundamental_div_mod(a, h);
            div_mod::lemma_mod_bound(a, h);
            if sar.width == sar.height {
                assert(wanted == h * (width * 0x1_0000)) by (nonlinear_arith)
                    requires
                        wanted == width * h * 0x1_0000,
                ;
                let w = width * 0x1_0000;
                assert(shown == w) by (nonlinear_arith)
                    requires
                        h > 0,
                        h * w + h / 2 == h * shown + a % h,
                        0 <= a % h < h,
                ;
            }
        }
    }
}

/// A video sample entry: its size, then the configuration of the decoder, then the shape of
/// the samples where it is known.
#[verifier::spinoff_prover]
#[verifier::rlimit(60)]
pub proof fn law_video_entries_read_back(
    name: Seq<u8>,
    config: Seq<u8>,
    width: u32,
    height: u32,
    ratio: Option<SampleAspectRatio>,
)
    requires
        name.len() == 4,
        width < 0x1_0000,
        height < 0x1_0000,
        config.len() < 0x100_0000,
    ensures
        ({
            let b = init::video_entry(name, config, width, height, ratio);
            &&& b.len() == 86 + config.len() + init::pixel_aspect(ratio).len()
            &&& playback::number(b, 0) == b.len()
            &&& b.subrange(4, 8) == name
            &&& short(b, 14) == 1
            &&& short(b, 32) == width
            &&& short(b, 34) == height
            &&& short(b, 48) == 1
            &&& short(b, 82) == 24
            &&& playback::stands(b, 86, config)
            &&& playback::stands(b, 86 + config.len() as int, init::pixel_aspect(ratio))
        }),
{
    let b = init::video_entry(name, config, width, height, ratio);
    let e = Seq::<u8>::empty();
    let shape = init::pixel_aspect(ratio);
    let a = e + boxes::zeros(6) + boxes::be16(1) + boxes::zeros(16);
    let c = a + boxes::be16(init::low16(width as nat));
    let d = c + boxes::be16(init::low16(height as nat));
    let f = d + boxes::be32(init::fixed(72)) + boxes::be32(init::fixed(72)) + boxes::be32(0);
    let g = f + boxes::be16(1) + boxes::zeros(32);
    let h = g + boxes::be16(0x18);
    let i = h + boxes::be16(0xffff);
    assert(shape.len() <= 16) by {
        assert(kind::PASP@.len() == 4);
    }
    assert(i.len() == 78);
    assert(b.len() == 86 + config.len() + shape.len());
    playback::lemma_whole(b);
    playback::lemma_box(b, 0, name, i + config + shape);
    playback::lemma_parts(b, 8, i + config, shape);
    playback::lemma_parts(b, 8, i, config);
    playback::lemma_parts(b, 8, h, boxes::be16(0xffff));
    playback::lemma_parts(b, 8, g, boxes::be16(0x18));
    lemma_short(b, 82, 0x18);
    playback::lemma_parts(b, 8, f + boxes::be16(1), boxes::zeros(32));
    playback::lemma_parts(b, 8, f, boxes::be16(1));
    lemma_short(b, 48, 1);
    playback::lemma_parts(
        b,
        8,
        d + boxes::be32(init::fixed(72)) + boxes::be32(init::fixed(72)),
        boxes::be32(0),
    );
    playback::lemma_parts(
        b,
        8,
        d + boxes::be32(init::fixed(72)),
        boxes::be32(init::fixed(72)),
    );
    playback::lemma_parts(b, 8, d, boxes::be32(init::fixed(72)));
    playback::lemma_parts(b, 8, c, boxes::be16(init::low16(height as nat)));
    lemma_short(b, 34, init::low16(height as nat));
    playback::lemma_parts(b, 8, a, boxes::be16(init::low16(width as nat)));
    lemma_short(b, 32, init::low16(width as nat));
    playback::lemma_parts(b, 8, e + boxes::zeros(6) + boxes::be16(1), boxes::zeros(16));
    playback::lemma_parts(b, 8, e + boxes::zeros(6), boxes::be16(1));
    lemma_short(b, 14, 1);
    assert(b.subrange(4, 8) == name && playback::number(b, 0) == b.len()) by {
        reveal(playback::is_box);
    }
}

/// A sound sample entry: how many channels, of sixteen bits, at which rate, and what
/// decodes them.
#[verifier::spinoff_prover]
#[verifier::rlimit(60)]
pub proof fn law_sound_entries_read_back(audio: AacView)
    requires
        audio.channel_count < 0x1_0000,
        audio.sample_rate < 0x1_0000,
        audio.audio_specific_config.len() < 0x10_0000,
    ensures
        ({
            let b = init::sound_entry(audio);
            &&& playback::number(b, 0) == b.len()
            // mp4a
            &&& playback::number(b, 4) == 0x6d70_3461
            &&& short(b, 14) == 1
            &&& short(b, 24) == audio.channel_count
            &&& short(b, 26) == 16
            &&& playback::number(b, 32) == 0x1_0000 * audio.sample_rate
            &&& playback::stands(b, 36, init::esds(2, 0x40, 0x15, audio.audio_specific_config))
        }),
{
    lemma_stream_length(2, 0x40, 0x15, audio.audio_specific_config);
    lemma_small_numbers(audio);
    lemma_sound_entry(
        init::sound_entry(audio),
        audio.channel_count as u16,
        (0x1_0000 * audio.sample_rate) as u32,
        init::esds(2, 0x40, 0x15, audio.audio_specific_config),
    );
}

/// Small numbers fit where they are written.
proof fn lemma_small_numbers(audio: AacView)
    requires
        audio.channel_count < 0x1_0000,
        audio.sample_rate < 0x1_0000,
    ensures
        init::low16(audio.channel_count as nat) == audio.channel_count as u16,
        init::fixed(audio.sample_rate as nat) == (0x1_0000 * audio.sample_rate) as u32,
{
}

/// How long an elementary stream descriptor box is.
proof fn lemma_stream_length(es_id: u16, object_type: u8, stream_type: u8, info: Seq<u8>)
    requires
        info.len() < 0x100_0000,
    ensures
        init::esds(es_id, object_type, stream_type, info).len() == 49 + info.len(),
{
    law_stream_descriptors_read_back(es_id, object_type, stream_type, info);
}

/// A sound sample entry, whatever stands at its end.
#[verifier::spinoff_prover]
#[verifier::rlimit(60)]
proof fn lemma_sound_entry(b: Seq<u8>, channels: u16, rate: u32, stream: Seq<u8>)
    requires
        b == boxes::boxed_bytes(
            kind::MP4A@,
            Seq::<u8>::empty() + boxes::zeros(6) + boxes::be16(1) + boxes::zeros(8) + boxes::be16(
                channels,
            ) + boxes::be16(16) + boxes::be16(0) + boxes::be16(0) + boxes::be32(rate) + stream,
        ),
        stream.len() < 0x100_0000,
    ensures
        playback::number(b, 0) == b.len(),
        playback::number(b, 4) == 0x6d70_3461,
        short(b, 14) == 1,
        short(b, 24) == channels,
        short(b, 26) == 16,
        playback::number(b, 32) == rate,
        playback::stands(b, 36, stream),
{
    let e = Seq::<u8>::empty();
    let a = e + boxes::zeros(6) + boxes::be16(1) + boxes::zeros(8);
    let c = a + boxes::be16(channels);
    let d = c + boxes::be16(16);
    let f = d + boxes::be16(0) + boxes::be16(0);
    assert(f.len() == 24);
    assert(kind::MP4A@ =~= seq![0x6du8, 0x70, 0x34, 0x61]);
    assert(b.len() == 36 + stream.len());
    playback::lemma_whole(b);
    playback::lemma_box(b, 0, kind::MP4A@, f + boxes::be32(rate) + stream);
    playback::lemma_parts(b, 8, f + boxes::be32(rate), stream);
    playback::lemma_parts(b, 8, f, boxes::be32(rate));
    playback::lemma_number(b, 32, rate);
    playback::lemma_parts(b, 8, d + boxes::be16(0), boxes::be16(0));
    playback::lemma_parts(b, 8, d, boxes::be16(0));
    playback::lemma_parts(b, 8, c, boxes::be16(16));
    lemma_short(b, 26, 16);
    playback::lemma_parts(b, 8, a, boxes::be16(channels));
    lemma_short(b, 24, channels);
    playback::lemma_parts(b, 8, e + boxes::zeros(6) + boxes::be16(1), boxes::zeros(8));
    playback::lemma_parts(b, 8, e + boxes::zeros(6), boxes::be16(1));
    lemma_short(b, 14, 1);
    assert(b.subrange(4, 8) == kind::MP4A@ && playback::number(b, 0) == b.len()) by {
        reveal(playback::is_box);
    }
    let n = b.subrange(4, 8);
    assert(n[0] == b[4] && n[1] == b[5] && n[2] == b[6] && n[3] == b[7]);
    reveal(playback::number);
}

/// Four letters.
pub open spec fn letters(a: u8, b: u8, c: u8, d: u8) -> Seq<u8> {
    seq![a, b, c, d]
}

/// A track as a player finds it at `at`: a header of 92 bytes that says which track it is
/// and how large it is shown, the clock of its media, what handles them, and one
/// description of its samples. `extra` is how long the header of its kind of media is.
pub open spec fn is_track(
    b: Seq<u8>,
    at: int,
    end: int,
    header: Seq<u8>,
    timescale: u32,
    handled: Seq<u8>,
    extra: int,
    entry: Seq<u8>,
) -> bool {
    let inside = at + 100 + 40 + handled.len();
    let table = inside + 8 + extra + 36;
    // trak
    &&& playback::is_box(b, at, letters(0x74, 0x72, 0x61, 0x6b), end)
    &&& playback::stands(b, at + 8, header)
    // mdia
    &&& playback::is_box(b, at + 100, letters(0x6d, 0x64, 0x69, 0x61), end)
    &&& playback::stands(b, at + 108, init::media_header(timescale))
    &&& playback::stands(b, at + 140, handled)
    // minf
    &&& playback::is_box(b, inside, letters(0x6d, 0x69, 0x6e, 0x66), end)
    // stbl
    &&& playback::is_box(b, table, letters(0x73, 0x74, 0x62, 0x6c), end)
    // stsd
    &&& playback::is_box(
        b,
        table + 8,
        letters(0x73, 0x74, 0x73, 0x64),
        table + 24 + entry.len(),
    )
    &&& playback::number(b, table + 20) == 1
    &&& playback::stands(b, table + 24, entry)
    &&& end == table + 92 + entry.len()
}

/// The table of a track's samples: one description of them, and no samples of its own.
proof fn lemma_sample_table(b: Seq<u8>, at: int, entry: Seq<u8>)
    requires
        playback::stands(b, at, init::sample_table(entry)),
        b.len() <= u32::MAX,
    ensures
        playback::is_box(b, at, letters(0x73, 0x74, 0x62, 0x6c), at + 92 + entry.len()),
        playback::is_box(b, at + 8, letters(0x73, 0x74, 0x73, 0x64), at + 24 + entry.len()),
        playback::number(b, at + 20) == 1,
        playback::stands(b, at + 24, entry),
        init::sample_table(entry).len() == 92 + entry.len(),
{
    let e = Seq::<u8>::empty();
    let count = e + boxes::be32(0);
    let x = boxes::full_box_bytes(kind::STSD@, 0, 0, e + boxes::be32(1) + entry);
    let p = boxes::full_box_bytes(kind::STTS@, 0, 0, count);
    let q = boxes::full_box_bytes(kind::STSC@, 0, 0, count);
    let r = boxes::full_box_bytes(kind::STSZ@, 0, 0, count + boxes::be32(0));
    let t = boxes::full_box_bytes(kind::STCO@, 0, 0, count);
    assert(kind::STBL@ =~= letters(0x73, 0x74, 0x62, 0x6c));
    assert(kind::STSD@ =~= letters(0x73, 0x74, 0x73, 0x64));
    assert(x.len() == 16 + entry.len());
    assert(p.len() == 16 && q.len() == 16 && r.len() == 20 && t.len() == 16);
    lemma_table(b, at, x, p, q, r, t);
    playback::lemma_full_box(b, at + 8, kind::STSD@, 0, 0, e + boxes::be32(1) + entry);
    playback::lemma_parts(b, at + 20, e + boxes::be32(1), entry);
    assert(e + boxes::be32(1) =~= boxes::be32(1));
    playback::lemma_number(b, at + 20, 1);
}

/// Five boxes in a table.
proof fn lemma_table(
    b: Seq<u8>,
    at: int,
    x: Seq<u8>,
    p: Seq<u8>,
    q: Seq<u8>,
    r: Seq<u8>,
    t: Seq<u8>,
)
    requires
        playback::stands(
            b,
            at,
            boxes::boxed_bytes(kind::STBL@, Seq::<u8>::empty() + x + p + q + r + t),
        ),
        b.len() <= u32::MAX,
    ensures
        playback::is_box(
            b,
            at,
            kind::STBL@,
            at + 8 + x.len() + p.len() + q.len() + r.len() + t.len(),
        ),
        playback::stands(b, at + 8, x),
        boxes::boxed_bytes(kind::STBL@, Seq::<u8>::empty() + x + p + q + r + t).len() == 8
            + x.len() + p.len() + q.len() + r.len() + t.len(),
{
    let e = Seq::<u8>::empty();
    assert(kind::STBL@.len() == 4);
    playback::lemma_box(b, at, kind::STBL@, e + x + p + q + r + t);
    playback::lemma_parts(b, at + 8, e + x + p + q + r, t);
    playback::lemma_parts(b, at + 8, e + x + p + q, r);
    playback::lemma_parts(b, at + 8, e + x + p, q);
    playback::lemma_parts(b, at + 8, e + x, p);
    assert(e + x =~= x);
}

/// Two boxes of known names, one in the other, with something in front.
proof fn lemma_nested(b: Seq<u8>, at: int, name: Seq<u8>, x: Seq<u8>, y: Seq<u8>, z: Seq<u8>)
    requires
        playback::stands(
            b,
            at,
            boxes::boxed_bytes(name, Seq::<u8>::empty() + x + y + z),
        ),
        name.len() == 4,
        b.len() <= u32::MAX,
    ensures
        playback::is_box(b, at, name, at + 8 + x.len() + y.len() + z.len()),
        playback::stands(b, at + 8, x),
        playback::stands(b, at + 8 + x.len(), y),
        playback::stands(b, at + 8 + x.len() + y.len(), z),
        boxes::boxed_bytes(name, Seq::<u8>::empty() + x + y + z).len() == 8 + x.len() + y.len()
            + z.len(),
{
    let e = Seq::<u8>::empty();
    playback::lemma_box(b, at, name, e + x + y + z);
    playback::lemma_parts(b, at + 8, e + x + y, z);
    playback::lemma_parts(b, at + 8, e + x, y);
    assert(e + x =~= x);
}

/// The boxes of a track, whatever stands in them.
proof fn lemma_track_boxes(
    b: Seq<u8>,
    at: int,
    header: Seq<u8>,
    clock: Seq<u8>,
    handled: Seq<u8>,
    media: Seq<u8>,
    info: Seq<u8>,
    table: Seq<u8>,
)
    requires
        playback::stands(
            b,
            at,
            boxes::boxed_bytes(
                kind::TRAK@,
                Seq::<u8>::empty() + header + boxes::boxed_bytes(
                    kind::MDIA@,
                    Seq::<u8>::empty() + clock + handled + boxes::boxed_bytes(
                        kind::MINF@,
                        Seq::<u8>::empty() + media + info + table,
                    ),
                ),
            ),
        ),
        b.len() <= u32::MAX,
        header.len() == 92,
        clock.len() == 32,
        info.len() == 36,
    ensures
        ({
            let inside = at + 140 + handled.len();
            let end = inside + 44 + media.len() + table.len();
            &&& playback::is_box(b, at, letters(0x74, 0x72, 0x61, 0x6b), end)
            &&& playback::stands(b, at + 8, header)
            &&& playback::is_box(b, at + 100, letters(0x6d, 0x64, 0x69, 0x61), end)
            &&& playback::stands(b, at + 108, clock)
            &&& playback::stands(b, at + 140, handled)
            &&& playback::is_box(b, inside, letters(0x6d, 0x69, 0x6e, 0x66), end)
            &&& playback::stands(b, inside + 44 + media.len(), table)
        }),
{
    let e = Seq::<u8>::empty();
    let minf = boxes::boxed_bytes(kind::MINF@, e + media + info + table);
    let mdia = boxes::boxed_bytes(kind::MDIA@, e + clock + handled + minf);
    assert(kind::TRAK@ =~= letters(0x74, 0x72, 0x61, 0x6b));
    assert(kind::MDIA@ =~= letters(0x6d, 0x64, 0x69, 0x61));
    assert(kind::MINF@ =~= letters(0x6d, 0x69, 0x6e, 0x66));
    lemma_track_box(b, at, header, mdia);
    lemma_nested(b, at + 100, kind::MDIA@, clock, handled, minf);
    lemma_nested(b, at + 140 + handled.len(), kind::MINF@, media, info, table);
}

/// A track is found where it stands.
#[verifier::spinoff_prover]
#[verifier::rlimit(60)]
proof fn lemma_track(
    b: Seq<u8>,
    at: int,
    header: Seq<u8>,
    timescale: u32,
    handled: Seq<u8>,
    media: Seq<u8>,
    entry: Seq<u8>,
)
    requires
        playback::stands(b, at, init::track(header, timescale, handled, media, entry)),
        b.len() <= u32::MAX,
        header.len() == 92,
    ensures
        is_track(
            b,
            at,
            at + 276 + handled.len() + media.len() + entry.len(),
            header,
            timescale,
            handled,
            media.len() as int,
            entry,
        ),
{
    lemma_clock_length(timescale);
    lemma_data_information_length();
    lemma_table_length(entry);
    lemma_track_boxes(
        b,
        at,
        header,
        init::media_header(timescale),
        handled,
        media,
        init::data_information(),
        init::sample_table(entry),
    );
    lemma_sample_table(b, at + 140 + handled.len() + 44 + media.len(), entry);
}

/// How long a media header is.
proof fn lemma_clock_length(timescale: u32)
    ensures
        init::media_header(timescale).len() == 32,
{
    law_media_headers_read_back(timescale);
}

/// The header of a track and its media.
proof fn lemma_track_box(b: Seq<u8>, at: int, header: Seq<u8>, mdia: Seq<u8>)
    requires
        playback::stands(
            b,
            at,
            boxes::boxed_bytes(kind::TRAK@, Seq::<u8>::empty() + header + mdia),
        ),
        b.len() <= u32::MAX,
    ensures
        playback::is_box(b, at, kind::TRAK@, at + 8 + header.len() + mdia.len()),
        playback::stands(b, at + 8, header),
        playback::stands(b, at + 8 + header.len(), mdia),
        boxes::boxed_bytes(kind::TRAK@, Seq::<u8>::empty() + header + mdia).len() == 8
            + header.len() + mdia.len(),
{
    let e = Seq::<u8>::empty();
    assert(kind::TRAK@.len() == 4);
    playback::lemma_box(b, at, kind::TRAK@, e + header + mdia);
    playback::lemma_parts(b, at + 8, e + header, mdia);
    assert(e + header =~= header);
}

/// Where the media are takes 36 bytes to say: in the file itself.
proof fn lemma_data_information_length()
    ensures
        init::data_information().len() == 36,
{
    assert(kind::DINF@.len() == 4);
    assert(kind::DREF@.len() == 4);
    assert(kind::URL@.len() == 4);
}

/// The track header of a video track: track 1, without sound, as wide as its samples make
/// it and as high as it is.
pub open spec fn video_header_of(
    width: u32,
    height: u32,
    ratio: Option<SampleAspectRatio>,
) -> Seq<u8> {
    init::track_header(
        1,
        0,
        (init::display_width(width, ratio) % 0x1_0000_0000) as u32,
        init::fixed(height as nat),
    )
}

/// The video track of a segment whose parts these are.
pub open spec fn video_track_at(
    b: Seq<u8>,
    codec: CodecView,
    width: u32,
    height: u32,
    ratio: Option<SampleAspectRatio>,
    end: int,
) -> bool {
    is_track(
        b,
        148,
        end,
        video_header_of(width, height, ratio),
        90000,
        init::handler(letters(0x76, 0x69, 0x64, 0x65), kind::VIDEO_HANDLER@),
        20,
        init::video_entry(init::entry_of(codec).0, init::entry_of(codec).1, width, height, ratio),
    )
}

/// The file type, and the movie with its own header in front of its tracks.
pub open spec fn movie_at(b: Seq<u8>, next_track: u32) -> bool {
    // ftyp, moov
    &&& playback::is_box(b, 0, letters(0x66, 0x74, 0x79, 0x70), 32)
    &&& playback::is_box(b, 32, letters(0x6d, 0x6f, 0x6f, 0x76), b.len() as int)
    &&& playback::stands(b, 40, init::movie_header(next_track))
}

/// A player that takes an initialization segment without sound apart finds the video as
/// track 1 on a clock of 90 kHz, and that it comes in fragments. The number of the next
/// track is one that is not taken.
#[verifier::spinoff_prover]
#[verifier::rlimit(60)]
pub proof fn law_a_player_finds_the_video_track(
    codec: CodecView,
    width: u32,
    height: u32,
    ratio: Option<SampleAspectRatio>,
)
    requires
        init::init_bytes(codec, width, height, ratio, None).len() <= u32::MAX,
    ensures
        ({
            let b = init::init_bytes(codec, width, height, ratio, None);
            let end = 148 + init::video_track(codec, width, height, ratio).len() as int;
            &&& movie_at(b, 2)
            &&& video_track_at(b, codec, width, height, ratio, end)
            // mvex
            &&& playback::is_box(b, end, letters(0x6d, 0x76, 0x65, 0x78), b.len() as int)
            &&& playback::stands(b, end + 8, init::track_defaults(1))
        }),
{
    let b = init::init_bytes(codec, width, height, ratio, None);
    let video = init::video_track(codec, width, height, ratio);
    lemma_parts_of_lone(codec, width, height, ratio, video);
    lemma_track_of_video(b, codec, width, height, ratio);
}

/// A video track behind the movie header.
#[verifier::spinoff_prover]
#[verifier::rlimit(60)]
proof fn lemma_track_of_video(
    b: Seq<u8>,
    codec: CodecView,
    width: u32,
    height: u32,
    ratio: Option<SampleAspectRatio>,
)
    requires
        playback::stands(b, 148, init::video_track(codec, width, height, ratio)),
        b.len() <= u32::MAX,
    ensures
        video_track_at(
            b,
            codec,
            width,
            height,
            ratio,
            148 + init::video_track(codec, width, height, ratio).len() as int,
        ),
{
    lemma_video_track_length(codec, width, height, ratio);
    lemma_video_track(b, 148, codec, width, height, ratio);
}

/// The parts of an initialization segment without sound.
#[verifier::spinoff_prover]
#[verifier::rlimit(60)]
proof fn lemma_parts_of_lone(
    codec: CodecView,
    width: u32,
    height: u32,
    ratio: Option<SampleAspectRatio>,
    video: Seq<u8>,
)
    requires
        video == init::video_track(codec, width, height, ratio),
        init::init_bytes(codec, width, height, ratio, None).len() <= u32::MAX,
    ensures
        ({
            let b = init::init_bytes(codec, width, height, ratio, None);
            let end = 148 + video.len() as int;
            &&& movie_at(b, 2)
            &&& playback::stands(b, 148, video)
            &&& playback::is_box(b, end, letters(0x6d, 0x76, 0x65, 0x78), b.len() as int)
            &&& playback::stands(b, end + 8, init::track_defaults(1))
        }),
{
    reveal(init::init_bytes);
    let b = init::init_bytes(codec, width, height, ratio, None);
    let e = Seq::<u8>::empty();
    lemma_front_lengths(2, 1);
    lemma_movie(b, init::movie_header(2), video, e, init::track_defaults(1), e);
}

/// As [`law_a_player_finds_the_video_track`], of a segment with sound: the sound is track 2
/// on the clock of its sample rate, and comes in fragments too.
#[verifier::spinoff_prover]
#[verifier::rlimit(60)]
pub proof fn law_a_player_finds_the_sound_track(
    codec: CodecView,
    width: u32,
    height: u32,
    ratio: Option<SampleAspectRatio>,
    audio: AacView,
)
    requires
        init::init_bytes(codec, width, height, ratio, Some(audio)).len() <= u32::MAX,
    ensures
        ({
            let b = init::init_bytes(codec, width, height, ratio, Some(audio));
            let end = 148 + init::video_track(codec, width, height, ratio).len() as int;
            let last = end + init::sound_track(audio).len() as int;
            &&& movie_at(b, 3)
            &&& video_track_at(b, codec, width, height, ratio, end)
            &&& is_track(
                b,
                end,
                last,
                init::track_header(2, 0x0100, 0, 0),
                audio.sample_rate,
                init::handler(letters(0x73, 0x6f, 0x75, 0x6e), kind::SOUND_HANDLER@),
                16,
                init::sound_entry(audio),
            )
            // mvex
            &&& playback::is_box(b, last, letters(0x6d, 0x76, 0x65, 0x78), b.len() as int)
            &&& playback::stands(b, last + 8, init::track_defaults(1))
            &&& playback::stands(b, last + 40, init::track_defaults(2))
        }),
{
    let b = init::init_bytes(codec, width, height, ratio, Some(audio));
    let video = init::video_track(codec, width, height, ratio);
    let sound = init::sound_track(audio);
    lemma_parts_of_both(codec, width, height, ratio, audio, video, sound);
    lemma_track_of_video(b, codec, width, height, ratio);
    lemma_track_of_sound(b, 148 + video.len() as int, audio);
}

/// A sound track.
#[verifier::spinoff_prover]
#[verifier::rlimit(80)]
proof fn lemma_track_of_sound(b: Seq<u8>, at: int, audio: AacView)
    requires
        playback::stands(b, at, init::sound_track(audio)),
        b.len() <= u32::MAX,
    ensures
        is_track(
            b,
            at,
            at + init::sound_track(audio).len(),
            init::track_header(2, 0x0100, 0, 0),
            audio.sample_rate,
            init::handler(letters(0x73, 0x6f, 0x75, 0x6e), kind::SOUND_HANDLER@),
            16,
            init::sound_entry(audio),
        ),
{
    lemma_sound_track_length(audio);
    lemma_sound_track(b, at, audio);
}

/// The parts of an initialization segment with sound.
#[verifier::spinoff_prover]
#[verifier::rlimit(80)]
proof fn lemma_parts_of_both(
    codec: CodecView,
    width: u32,
    height: u32,
    ratio: Option<SampleAspectRatio>,
    audio: AacView,
    video: Seq<u8>,
    sound: Seq<u8>,
)
    requires
        video == init::video_track(codec, width, height, ratio),
        sound == init::sound_track(audio),
        init::init_bytes(codec, width, height, ratio, Some(audio)).len() <= u32::MAX,
    ensures
        ({
            let b = init::init_bytes(codec, width, height, ratio, Some(audio));
            let end = 148 + video.len() as int;
            let last = end + sound.len() as int;
            &&& movie_at(b, 3)
            &&& playback::stands(b, 148, video)
            &&& playback::stands(b, end, sound)
            &&& playback::is_box(b, last, letters(0x6d, 0x76, 0x65, 0x78), b.len() as int)
            &&& playback::stands(b, last + 8, init::track_defaults(1))
            &&& playback::stands(b, last + 40, init::track_defaults(2))
        }),
{
    reveal(init::init_bytes);
    let b = init::init_bytes(codec, width, height, ratio, Some(audio));
    lemma_front_lengths(3, 1);
    lemma_movie(
        b,
        init::movie_header(3),
        video,
        sound,
        init::track_defaults(1),
        init::track_defaults(2),
    );
}

/// How long a movie header and a track's defaults are.
proof fn lemma_front_lengths(next: u32, track: u32)
    ensures
        init::movie_header(next).len() == 108,
        init::track_defaults(track).len() == 32,
{
    law_movie_headers_read_back(next);
    law_track_defaults_read_back(track);
}

/// How long the parts of a video track are.
proof fn lemma_video_parts(width: u32, height: u32, ratio: Option<SampleAspectRatio>)
    ensures
        video_header_of(width, height, ratio).len() == 92,
        init::handler(kind::VIDE@, kind::VIDEO_HANDLER@).len() == 45,
        init::video_header().len() == 20,
        kind::VIDE@ == letters(0x76, 0x69, 0x64, 0x65),
{
    law_track_headers_read_back(
        1,
        0,
        (init::display_width(width, ratio) % 0x1_0000_0000) as u32,
        init::fixed(height as nat),
    );
    assert(kind::VIDE@ =~= letters(0x76, 0x69, 0x64, 0x65));
    assert(kind::VIDEO_HANDLER@.len() == 13);
    law_handlers_read_back(kind::VIDE@, kind::VIDEO_HANDLER@);
    lemma_media_header_lengths();
}

/// How long the parts of a sound track are.
proof fn lemma_sound_parts()
    ensures
        init::track_header(2, 0x0100, 0, 0).len() == 92,
        init::handler(kind::SOUN@, kind::SOUND_HANDLER@).len() == 45,
        init::sound_header().len() == 16,
        kind::SOUN@ == letters(0x73, 0x6f, 0x75, 0x6e),
{
    law_track_headers_read_back(2, 0x0100, 0, 0);
    assert(kind::SOUN@ =~= letters(0x73, 0x6f, 0x75, 0x6e));
    assert(kind::SOUND_HANDLER@.len() == 13);
    law_handlers_read_back(kind::SOUN@, kind::SOUND_HANDLER@);
    lemma_media_header_lengths();
}

/// A video track is found where it stands.
#[verifier::spinoff_prover]
#[verifier::rlimit(60)]
proof fn lemma_video_track(
    b: Seq<u8>,
    at: int,
    codec: CodecView,
    width: u32,
    height: u32,
    ratio: Option<SampleAspectRatio>,
)
    requires
        playback::stands(b, at, init::video_track(codec, width, height, ratio)),
        b.len() <= u32::MAX,
    ensures
        ({
            let (name, config) = init::entry_of(codec);
            let entry = init::video_entry(name, config, width, height, ratio);
            is_track(
                b,
                at,
                at + 341 + entry.len(),
                video_header_of(width, height, ratio),
                90000,
                init::handler(letters(0x76, 0x69, 0x64, 0x65), kind::VIDEO_HANDLER@),
                20,
                entry,
            )
        }),
{
    lemma_video_parts(width, height, ratio);
    lemma_track(
        b,
        at,
        video_header_of(width, height, ratio),
        90000,
        init::handler(kind::VIDE@, kind::VIDEO_HANDLER@),
        init::video_header(),
        init::video_entry(init::entry_of(codec).0, init::entry_of(codec).1, width, height, ratio),
    );
}

/// How long a video track is.
#[verifier::spinoff_prover]
#[verifier::rlimit(60)]
proof fn lemma_video_track_length(
    codec: CodecView,
    width: u32,
    height: u32,
    ratio: Option<SampleAspectRatio>,
)
    ensures
        init::video_track(codec, width, height, ratio).len() == 341 + init::video_entry(
            init::entry_of(codec).0,
            init::entry_of(codec).1,
            width,
            height,
            ratio,
        ).len(),
{
    lemma_video_parts(width, height, ratio);
    lemma_track_length(
        video_header_of(width, height, ratio),
        90000,
        init::handler(kind::VIDE@, kind::VIDEO_HANDLER@),
        init::video_header(),
        init::video_entry(init::entry_of(codec).0, init::entry_of(codec).1, width, height, ratio),
    );
}

/// A sound track is found where it stands.
#[verifier::spinoff_prover]
#[verifier::rlimit(60)]
proof fn lemma_sound_track(b: Seq<u8>, at: int, audio: AacView)
    requires
        playback::stands(b, at, init::sound_track(audio)),
        b.len() <= u32::MAX,
    ensures
        is_track(
            b,
            at,
            at + 337 + init::sound_entry(audio).len(),
            init::track_header(2, 0x0100, 0, 0),
            audio.sample_rate,
            init::handler(letters(0x73, 0x6f, 0x75, 0x6e), kind::SOUND_HANDLER@),
            16,
            init::sound_entry(audio),
        ),
{
    lemma_sound_parts();
    lemma_track(
        b,
        at,
        init::track_header(2, 0x0100, 0, 0),
        audio.sample_rate,
        init::handler(kind::SOUN@, kind::SOUND_HANDLER@),
        init::sound_header(),
        init::sound_entry(audio),
    );
}

/// How long a sound track is.
#[verifier::spinoff_prover]
#[verifier::rlimit(60)]
proof fn lemma_sound_track_length(audio: AacView)
    ensures
        init::sound_track(audio).len() == 337 + init::sound_entry(audio).len(),
{
    lemma_sound_parts();
    lemma_track_length(
        init::track_header(2, 0x0100, 0, 0),
        audio.sample_rate,
        init::handler(kind::SOUN@, kind::SOUND_HANDLER@),
        init::sound_header(),
        init::sound_entry(audio),
    );
}

/// How long the headers of the two kinds of media are.
proof fn lemma_media_header_lengths()
    ensures
        init::video_header().len() == 20,
        init::sound_header().len() == 16,
{
    assert(kind::VMHD@.len() == 4);
    assert(kind::SMHD@.len() == 4);
}

/// How long a track is.
proof fn lemma_track_length(
    header: Seq<u8>,
    timescale: u32,
    handled: Seq<u8>,
    media: Seq<u8>,
    entry: Seq<u8>,
)
    ensures
        init::track(header, timescale, handled, media, entry).len() == 184 + header.len()
            + handled.len() + media.len() + entry.len(),
{
    lemma_data_information_length();
    lemma_clock_length(timescale);
    lemma_table_length(entry);
    lemma_boxes_length(
        header,
        init::media_header(timescale),
        handled,
        media,
        init::data_information(),
        init::sample_table(entry),
    );
}

/// How long the boxes of a track are, whatever stands in them.
proof fn lemma_boxes_length(
    header: Seq<u8>,
    clock: Seq<u8>,
    handled: Seq<u8>,
    media: Seq<u8>,
    info: Seq<u8>,
    table: Seq<u8>,
)
    ensures
        boxes::boxed_bytes(
            kind::TRAK@,
            Seq::<u8>::empty() + header + boxes::boxed_bytes(
                kind::MDIA@,
                Seq::<u8>::empty() + clock + handled + boxes::boxed_bytes(
                    kind::MINF@,
                    Seq::<u8>::empty() + media + info + table,
                ),
            ),
        ).len() == 24 + header.len() + clock.len() + handled.len() + media.len() + info.len()
            + table.len(),
{
    assert(kind::TRAK@.len() == 4);
    assert(kind::MDIA@.len() == 4);
    assert(kind::MINF@.len() == 4);
}

/// How long the table of a track's samples is.
proof fn lemma_table_length(entry: Seq<u8>)
    ensures
        init::sample_table(entry).len() == 92 + entry.len(),
{
    assert(kind::STBL@.len() == 4);
    assert(kind::STSD@.len() == 4);
    assert(kind::STTS@.len() == 4);
    assert(kind::STSC@.len() == 4);
    assert(kind::STSZ@.len() == 4);
    assert(kind::STCO@.len() == 4);
}

/// The parts of an initialization segment, whatever the tracks are.
#[verifier::spinoff_prover]
#[verifier::rlimit(60)]
proof fn lemma_movie(
    b: Seq<u8>,
    movie: Seq<u8>,
    video: Seq<u8>,
    sound: Seq<u8>,
    first: Seq<u8>,
    second: Seq<u8>,
)
    requires
        b == Seq::<u8>::empty() + init::file_type() + boxes::boxed_bytes(
            kind::MOOV@,
            Seq::<u8>::empty() + movie + video + sound + boxes::boxed_bytes(
                kind::MVEX@,
                Seq::<u8>::empty() + first + second,
            ),
        ),
        b.len() <= u32::MAX,
    ensures
        playback::is_box(b, 0, letters(0x66, 0x74, 0x79, 0x70), 32),
        playback::is_box(b, 32, letters(0x6d, 0x6f, 0x6f, 0x76), b.len() as int),
        playback::stands(b, 40, movie),
        playback::stands(b, 40 + movie.len() as int, video),
        playback::stands(b, 40 + movie.len() + video.len() as int, sound),
        ({
            let at = 40 + movie.len() + video.len() + sound.len() as int;
            &&& playback::is_box(b, at, letters(0x6d, 0x76, 0x65, 0x78), b.len() as int)
            &&& playback::stands(b, at + 8, first)
            &&& playback::stands(b, at + 8 + first.len(), second)
        }),
{
    let e = Seq::<u8>::empty();
    let ftyp = init::file_type();
    let brands = e + kind::ISOM@ + boxes::be32(0x200) + kind::BRANDS@;
    assert(kind::FTYP@ =~= letters(0x66, 0x74, 0x79, 0x70));
    assert(kind::MOOV@ =~= letters(0x6d, 0x6f, 0x6f, 0x76));
    assert(kind::MVEX@ =~= letters(0x6d, 0x76, 0x65, 0x78));
    assert(kind::ISOM@.len() == 4);
    assert(kind::BRANDS@.len() == 16);
    let mvex = boxes::boxed_bytes(kind::MVEX@, e + first + second);
    let moov = boxes::boxed_bytes(kind::MOOV@, e + movie + video + sound + mvex);
    playback::lemma_whole(b);
    playback::lemma_parts(b, 0, e + ftyp, moov);
    assert(e + ftyp =~= ftyp);
    playback::lemma_box(b, 0, kind::FTYP@, brands);
    playback::lemma_box(b, 32, kind::MOOV@, e + movie + video + sound + mvex);
    playback::lemma_parts(b, 40, e + movie + video + sound, mvex);
    playback::lemma_parts(b, 40, e + movie + video, sound);
    playback::lemma_parts(b, 40, e + movie, video);
    assert(e + movie =~= movie);
    let at = 40 + movie.len() + video.len() + sound.len() as int;
    playback::lemma_box(b, at, kind::MVEX@, e + first + second);
    playback::lemma_parts(b, at + 8, e + first, second);
    assert(e + first =~= first);
}

} // verus!
