//! The initialization segment: what a presentation holds.
use crate::container::adts;
use crate::container::adts::{AacConfig, AacView};
use crate::container::fmp4::boxes;
use crate::container::fmp4::boxes::Buf;
use crate::container::fmp4::kind;
use crate::container::fmp4::timeline;
use crate::error::Error;
use crate::mpeg2::headers::SampleAspectRatio;
use vstd::prelude::*;
use vstd::string::*;

verus! {

/// `objectTypeIndication` for ISO/IEC 13818-2 Main Profile video, which is what
/// a broadcast MPEG-2 stream is (ISO/IEC 14496-1 table 5).
pub const OTI_MPEG2_VIDEO_MAIN: u8 = 0x61;

/// `objectTypeIndication` for MPEG-4 audio, which is what AAC-LC is.
pub const OTI_MPEG4_AUDIO: u8 = 0x40;

/// `streamType` 4 (visual), upstream off, in the byte that carries them.
pub const STREAM_TYPE_VISUAL: u8 = 0x11;

/// `streamType` 5 (audio), upstream off.
pub const STREAM_TYPE_AUDIO: u8 = 0x15;

/// A number as far as 16 bits hold it.
pub open spec fn low16(n: nat) -> u16 {
    (n % 0x1_0000) as u16
}

/// The decoder configuration of an H.264 track.
pub open spec fn avc_config(sps: Seq<u8>, pps: Seq<u8>) -> Seq<u8> {
    boxes::boxed_bytes(
        kind::AVC_CONFIG@,
        Seq::<u8>::empty() + seq![1u8, sps[1], sps[2], sps[3], 0xff, 0xe1] + boxes::be16(
            low16(sps.len()),
        ) + sps + seq![1u8] + boxes::be16(low16(pps.len())) + pps,
    )
}

/// The low 16 bits of a length.
fn short_len(n: usize) -> (v: u16)
    ensures
        v == low16(n as nat),
{
    (n % 0x1_0000) as u16
}

/// The decoder configuration of an H.264 track, from its parameter sets.
pub fn make_avc_c(sps: &[u8], pps: &[u8]) -> (result: Result<Vec<u8>, Error>)
    ensures
        match result {
            Ok(bytes) => sps@.len() >= 4 && bytes@ == avc_config(sps@, pps@),
            Err(e) => sps@.len() < 4 && e == Error::ShortParameterSet,
        },
{
    if sps.len() < 4 {
        return Err(Error::ShortParameterSet);
    }
    let mut body = Buf::new();
    let head: [u8; 6] = [1, sps[1], sps[2], sps[3], 0xff, 0xe1];
    body.bytes(&head);
    assert(head@ =~= seq![1u8, sps@[1], sps@[2], sps@[3], 0xff, 0xe1]);
    body.u16(short_len(sps.len()));
    body.bytes(sps);
    body.u8(1);
    body.u16(short_len(pps.len()));
    body.bytes(pps);
    Ok(boxes::boxed(&kind::AVC_CONFIG, &body.into_vec()))
}

/// Which codec the video track holds, as a mathematical value.
pub enum CodecView {
    Avc { sps: Seq<u8>, pps: Seq<u8> },
    Mpeg2 { sequence_header: Seq<u8> },
}

/// Which codec the video track holds, and so what its sample entry says.
#[derive(Clone, Copy, Debug)]
pub enum VideoCodec<'a> {
    /// H.264, described by the parameter sets an `avcC` carries out of band.
    Avc { sps: &'a [u8], pps: &'a [u8] },
    /// MPEG-2 video carried through as it stood, described by the sequence
    /// header. The samples keep their start codes and their own copy of that
    /// header, so this is a declaration rather than the only copy.
    Mpeg2 { sequence_header: &'a [u8] },
}

impl<'a> View for VideoCodec<'a> {
    type V = CodecView;

    open spec fn view(&self) -> CodecView {
        match *self {
            VideoCodec::Avc { sps, pps } => CodecView::Avc { sps: sps@, pps: pps@ },
            VideoCodec::Mpeg2 { sequence_header } => CodecView::Mpeg2 {
                sequence_header: sequence_header@,
            },
        }
    }
}

/// The track can be described: its parameter sets are long enough to say what they
/// are.
pub open spec fn describable(codec: CodecView) -> bool {
    match codec {
        CodecView::Avc { sps, .. } => sps.len() >= 4,
        CodecView::Mpeg2 { .. } => true,
    }
}

/// The sample entry type and the configuration box inside it.
pub open spec fn entry_of(codec: CodecView) -> (Seq<u8>, Seq<u8>) {
    match codec {
        CodecView::Avc { sps, pps } => (kind::AVC1@, avc_config(sps, pps)),
        CodecView::Mpeg2 { sequence_header } => (
            kind::MP4V@,
            esds(1, OTI_MPEG2_VIDEO_MAIN, STREAM_TYPE_VISUAL, sequence_header),
        ),
    }
}

/// A hexadecimal digit.
pub open spec fn hex_digit(n: int) -> Seq<char> {
    if n == 0 {
        "0"@
    } else if n == 1 {
        "1"@
    } else if n == 2 {
        "2"@
    } else if n == 3 {
        "3"@
    } else if n == 4 {
        "4"@
    } else if n == 5 {
        "5"@
    } else if n == 6 {
        "6"@
    } else if n == 7 {
        "7"@
    } else if n == 8 {
        "8"@
    } else if n == 9 {
        "9"@
    } else if n == 10 {
        "a"@
    } else if n == 11 {
        "b"@
    } else if n == 12 {
        "c"@
    } else if n == 13 {
        "d"@
    } else if n == 14 {
        "e"@
    } else {
        "f"@
    }
}

/// A byte in two hexadecimal digits.
pub open spec fn hex(b: u8) -> Seq<char> {
    hex_digit(b as int / 16) + hex_digit(b as int % 16)
}

/// A hexadecimal digit.
fn digit_str(n: u8) -> (digit: &'static str)
    requires
        n < 16,
    ensures
        digit@ == hex_digit(n as int),
{
    if n == 0 {
        "0"
    } else if n == 1 {
        "1"
    } else if n == 2 {
        "2"
    } else if n == 3 {
        "3"
    } else if n == 4 {
        "4"
    } else if n == 5 {
        "5"
    } else if n == 6 {
        "6"
    } else if n == 7 {
        "7"
    } else if n == 8 {
        "8"
    } else if n == 9 {
        "9"
    } else if n == 10 {
        "a"
    } else if n == 11 {
        "b"
    } else if n == 12 {
        "c"
    } else if n == 13 {
        "d"
    } else if n == 14 {
        "e"
    } else {
        "f"
    }
}

/// Append a byte in two hexadecimal digits.
fn append_hex(text: &mut String, b: u8)
    ensures
        final(text)@ == old(text)@ + hex(b),
{
    text.append(digit_str(b / 16));
    text.append(digit_str(b % 16));
    assert(text@ =~= old(text)@ + hex(b));
}

/// What the codecs parameter of a MIME type calls a track (RFC 6381).
pub open spec fn codec_name(codec: CodecView) -> Seq<char> {
    match codec {
        CodecView::Avc { sps, .. } => "avc1."@ + hex(sps[1]) + hex(sps[2]) + hex(sps[3]),
        CodecView::Mpeg2 { .. } => "mp4v."@ + hex(OTI_MPEG2_VIDEO_MAIN),
    }
}

impl<'a> VideoCodec<'a> {
    /// The four-character sample entry type and the configuration box inside it.
    pub fn sample_entry(&self) -> (result: Result<([u8; 4], Vec<u8>), Error>)
        ensures
            match result {
                Ok((name, config)) => describable(self@) && (name@, config@) == entry_of(self@),
                Err(e) => !describable(self@) && e == Error::ShortParameterSet,
            },
    {
        match *self {
            VideoCodec::Avc { sps, pps } => match make_avc_c(sps, pps) {
                Ok(config) => Ok((kind::AVC1, config)),
                Err(e) => Err(e),
            },
            VideoCodec::Mpeg2 { sequence_header } => Ok(
                (
                    kind::MP4V,
                    make_esds(1, OTI_MPEG2_VIDEO_MAIN, STREAM_TYPE_VISUAL, sequence_header),
                ),
            ),
        }
    }

    /// What the codecs parameter of a MIME type calls this track (RFC 6381).
    pub fn codecs_parameter(&self) -> (name: String)
        requires
            describable(self@),
        ensures
            name@ == codec_name(self@),
    {
        match *self {
            VideoCodec::Avc { sps, .. } => {
                let mut name = String::from_str("avc1.");
                append_hex(&mut name, sps[1]);
                append_hex(&mut name, sps[2]);
                append_hex(&mut name, sps[3]);
                name
            },
            VideoCodec::Mpeg2 { .. } => {
                let mut name = String::from_str("mp4v.");
                append_hex(&mut name, OTI_MPEG2_VIDEO_MAIN);
                name
            },
        }
    }
}

/// A descriptor: a tag, a length in four bytes of seven bits each, then the
/// payload.
pub open spec fn descriptor_bytes(tag: u8, payload: Seq<u8>) -> Seq<u8> {
    let length = boxes::low32(payload.len());
    Seq::<u8>::empty() + seq![tag] + seq![(128 + (length / 0x20_0000) % 128) as u8] + seq![
        (128 + (length / 0x4000) % 128) as u8,
    ] + seq![(128 + (length / 128) % 128) as u8] + seq![(length % 128) as u8] + payload
}

/// An MPEG-4 descriptor: a tag, a length in the four-byte expanded form every
/// muxer emits, then the payload.
pub fn descriptor(tag: u8, payload: &[u8]) -> (bytes: Vec<u8>)
    ensures
        bytes@ == descriptor_bytes(tag, payload@),
{
    let length: u32 = boxes::truncated(payload.len(), 0);
    let mut out = Buf::new();
    out.u8(tag);
    out.u8((128 + (length / 0x20_0000) % 128) as u8);
    out.u8((128 + (length / 0x4000) % 128) as u8);
    out.u8((128 + (length / 128) % 128) as u8);
    out.u8((length % 128) as u8);
    out.bytes(payload);
    out.into_vec()
}

/// The box that declares a decoder's configuration.
pub open spec fn esds(es_id: u16, object_type: u8, stream_type: u8, info: Seq<u8>) -> Seq<u8> {
    let decoder_config = descriptor_bytes(
        0x04,
        Seq::<u8>::empty() + seq![object_type] + seq![stream_type] + boxes::zeros(3) + boxes::be32(
            0,
        ) + boxes::be32(0) + descriptor_bytes(0x05, info),
    );
    boxes::full_box_bytes(
        kind::ESDS@,
        0,
        0,
        descriptor_bytes(
            0x03,
            Seq::<u8>::empty() + boxes::be16(es_id) + seq![0u8] + decoder_config
                + descriptor_bytes(0x06, seq![0x02u8]),
        ),
    )
}

/// The `esds` box, which is where an MP4 keeps the configuration a transport
/// stream repeats in band: the AudioSpecificConfig that ADTS carries in every
/// frame header, or the sequence header that opens an MPEG-2 video sequence.
pub fn make_esds(
    es_id: u16,
    object_type: u8,
    stream_type: u8,
    decoder_specific_info: &[u8],
) -> (bytes: Vec<u8>)
    ensures
        bytes@ == esds(es_id, object_type, stream_type, decoder_specific_info@),
{
    let decoder_specific = descriptor(0x05, decoder_specific_info);
    let mut config = Buf::new();
    config.u8(object_type);
    config.u8(stream_type);
    // No buffer size, and no maximum or average bitrate.
    config.zeros(3);
    config.u32(0);
    config.u32(0);
    config.bytes(&decoder_specific);
    let decoder_config = descriptor(0x04, &config.into_vec());
    let predefined: [u8; 1] = [0x02];
    assert(predefined@ =~= seq![0x02u8]);
    let sl_config = descriptor(0x06, &predefined);
    let mut body = Buf::new();
    body.u16(es_id);
    body.u8(0);  // no stream priority, no dependency, no URL
    body.bytes(&decoder_config);
    body.bytes(&sl_config);
    let es_descriptor = descriptor(0x03, &body.into_vec());
    boxes::full_box(&kind::ESDS, 0, 0, &es_descriptor)
}

/// 16.16 fixed point, as far as 32 bits hold it.
pub open spec fn fixed(value: nat) -> u32 {
    ((value * 0x1_0000) % 0x1_0000_0000) as u32
}

/// 16.16 fixed point, wrapping at 32 bits. A 96 kHz rate is the only value that
/// reaches the wrap.
pub fn fixed16_16(value: u32) -> (f: u32)
    ensures
        f == fixed(value as nat),
{
    ((value as u64 * 0x1_0000) % 0x1_0000_0000) as u32
}

/// How wide a picture is to be seen, in 16.16 fixed point, rounded.
pub open spec fn display_width(width: u32, ratio: Option<SampleAspectRatio>) -> int {
    match ratio {
        Some(sar) if sar.width > 0 && sar.height > 0 => (width * sar.width * 0x1_0000 + sar.height
            / 2) / sar.height as int,
        _ => width * 0x1_0000,
    }
}

/// The width of the picture on the screen can be computed in 64 bits.
pub open spec fn display_fits(width: u32, ratio: Option<SampleAspectRatio>) -> bool {
    match ratio {
        Some(sar) => width * sar.width * 0x1_0000 + sar.height / 2 <= u64::MAX,
        None => true,
    }
}

/// How wide the track is to be seen, in 16.16 fixed point: the coded width with
/// the sample aspect ratio applied.
///
/// `tkhd` carries a display size, not a coded one, and the two differ for every
/// anamorphic broadcast -- 1440x1080 at 16:9 is 1920 wide on the screen. A
/// reader that takes the sample entry's `pasp` reaches the same number without
/// this; AVFoundation takes the track's. The fraction of a ratio that does not
/// divide the width evenly is kept.
pub fn track_width(width: u32, sample_aspect_ratio: Option<SampleAspectRatio>) -> (w: u32)
    requires
        display_fits(width, sample_aspect_ratio),
    ensures
        w == (display_width(width, sample_aspect_ratio) % 0x1_0000_0000) as u32,
{
    match sample_aspect_ratio {
        Some(sar) if sar.width > 0 && sar.height > 0 => {
            assert(0 <= width * sar.width) by (nonlinear_arith);
            let shown: u64 = width as u64 * sar.width as u64;
            let scaled: u64 = shown * 0x1_0000;
            let denominator: u64 = sar.height as u64;
            (((scaled + denominator / 2) / denominator) % 0x1_0000_0000) as u32
        },
        _ => fixed16_16(width),
    }
}

/// The unity display matrix.
pub open spec fn unity() -> Seq<u8> {
    Seq::<u8>::empty() + boxes::be32(0x0001_0000) + boxes::be32(0) + boxes::be32(0) + boxes::be32(
        0,
    ) + boxes::be32(0x0001_0000) + boxes::be32(0) + boxes::be32(0) + boxes::be32(0) + boxes::be32(
        0x4000_0000,
    )
}

/// The unity 3x3 display matrix every track here uses, in 16.16 fixed point.
pub fn identity_matrix() -> (matrix: Vec<u8>)
    ensures
        matrix@ == unity(),
{
    let mut buf = Buf::new();
    buf.u32(0x0001_0000);
    buf.u32(0);
    buf.u32(0);
    buf.u32(0);
    buf.u32(0x0001_0000);
    buf.u32(0);
    buf.u32(0);
    buf.u32(0);
    buf.u32(0x4000_0000);
    buf.into_vec()
}

/// The file type box.
pub open spec fn file_type() -> Seq<u8> {
    boxes::boxed_bytes(
        kind::FTYP@,
        Seq::<u8>::empty() + kind::ISOM@ + boxes::be32(0x200) + kind::BRANDS@,
    )
}

fn make_ftyp() -> (bytes: Vec<u8>)
    ensures
        bytes@ == file_type(),
{
    let mut body = Buf::new();
    body.bytes(&kind::ISOM);
    body.u32(0x200);
    body.bytes(&kind::BRANDS);
    boxes::boxed(&kind::FTYP, &body.into_vec())
}

/// The movie header: the timescale, and the number of the next track.
pub open spec fn movie_header(next_track: u32) -> Seq<u8> {
    boxes::full_box_bytes(
        kind::MVHD@,
        0,
        0,
        Seq::<u8>::empty() + boxes::be32(0) + boxes::be32(0) + boxes::be32(timeline::TIMESCALE)
            + boxes::be32(0) + boxes::be32(0x0001_0000) + boxes::be16(0x0100) + boxes::be16(0)
            + boxes::zeros(8) + unity() + boxes::zeros(24) + boxes::be32(next_track),
    )
}

fn make_mvhd(next_track: u32) -> (bytes: Vec<u8>)
    ensures
        bytes@ == movie_header(next_track),
{
    let mut body = Buf::new();
    body.u32(0);
    body.u32(0);
    body.u32(timeline::TIMESCALE);
    body.u32(0);
    body.u32(0x0001_0000);
    body.u16(0x0100);
    body.u16(0);
    body.zeros(8);
    body.bytes(&identity_matrix());
    body.zeros(24);
    body.u32(next_track);
    boxes::full_box(&kind::MVHD, 0, 0, &body.into_vec())
}

/// A track header: its number, its volume, and its size on the screen.
pub open spec fn track_header(track: u32, volume: u16, width: u32, height: u32) -> Seq<u8> {
    boxes::full_box_bytes(
        kind::TKHD@,
        0,
        7,
        Seq::<u8>::empty() + boxes::be32(0) + boxes::be32(0) + boxes::be32(track) + boxes::be32(0)
            + boxes::be32(0) + boxes::zeros(8) + boxes::be16(0) + boxes::be16(0) + boxes::be16(
            volume,
        ) + boxes::be16(0) + unity() + boxes::be32(width) + boxes::be32(height),
    )
}

fn make_tkhd(track: u32, volume: u16, width: u32, height: u32) -> (bytes: Vec<u8>)
    ensures
        bytes@ == track_header(track, volume, width, height),
{
    let mut body = Buf::new();
    body.u32(0);
    body.u32(0);
    body.u32(track);
    body.u32(0);
    body.u32(0);
    body.zeros(8);
    body.u16(0);
    body.u16(0);
    body.u16(volume);
    body.u16(0);
    body.bytes(&identity_matrix());
    body.u32(width);
    body.u32(height);
    boxes::full_box(&kind::TKHD, 0, 7, &body.into_vec())
}

/// A media header: the track's own timescale.
pub open spec fn media_header(timescale: u32) -> Seq<u8> {
    boxes::full_box_bytes(
        kind::MDHD@,
        0,
        0,
        Seq::<u8>::empty() + boxes::be32(0) + boxes::be32(0) + boxes::be32(timescale)
            + boxes::be32(0) + boxes::be16(0x55c4) + boxes::be16(0),
    )
}

fn make_mdhd(timescale: u32) -> (bytes: Vec<u8>)
    ensures
        bytes@ == media_header(timescale),
{
    let mut body = Buf::new();
    body.u32(0);
    body.u32(0);
    body.u32(timescale);
    body.u32(0);
    body.u16(0x55c4);
    body.u16(0);
    boxes::full_box(&kind::MDHD, 0, 0, &body.into_vec())
}

/// A handler: what plays the track.
pub open spec fn handler(class: Seq<u8>, name: Seq<u8>) -> Seq<u8> {
    boxes::full_box_bytes(
        kind::HDLR@,
        0,
        0,
        Seq::<u8>::empty() + boxes::be32(0) + class + boxes::zeros(12) + name,
    )
}

fn make_hdlr(class: &[u8; 4], name: &[u8; 13]) -> (bytes: Vec<u8>)
    ensures
        bytes@ == handler(class@, name@),
{
    let mut body = Buf::new();
    body.u32(0);
    body.bytes(class);
    body.zeros(12);
    body.bytes(name);
    boxes::full_box(&kind::HDLR, 0, 0, &body.into_vec())
}

/// The video media header.
pub open spec fn video_header() -> Seq<u8> {
    boxes::full_box_bytes(
        kind::VMHD@,
        0,
        1,
        Seq::<u8>::empty() + boxes::be16(0) + boxes::be16(0) + boxes::be16(0) + boxes::be16(0),
    )
}

fn make_vmhd() -> (bytes: Vec<u8>)
    ensures
        bytes@ == video_header(),
{
    let mut body = Buf::new();
    body.u16(0);
    body.u16(0);
    body.u16(0);
    body.u16(0);
    boxes::full_box(&kind::VMHD, 0, 1, &body.into_vec())
}

/// The sound media header.
pub open spec fn sound_header() -> Seq<u8> {
    boxes::full_box_bytes(
        kind::SMHD@,
        0,
        0,
        Seq::<u8>::empty() + boxes::be16(0) + boxes::be16(0),
    )
}

fn make_smhd() -> (bytes: Vec<u8>)
    ensures
        bytes@ == sound_header(),
{
    let mut body = Buf::new();
    body.u16(0);
    body.u16(0);
    boxes::full_box(&kind::SMHD, 0, 0, &body.into_vec())
}

/// Where the media is: in this file.
pub open spec fn data_information() -> Seq<u8> {
    boxes::boxed_bytes(
        kind::DINF@,
        boxes::full_box_bytes(
            kind::DREF@,
            0,
            0,
            Seq::<u8>::empty() + boxes::be32(1) + boxes::full_box_bytes(
                kind::URL@,
                0,
                1,
                Seq::<u8>::empty(),
            ),
        ),
    )
}

fn make_dinf() -> (bytes: Vec<u8>)
    ensures
        bytes@ == data_information(),
{
    let nothing = Buf::new();
    let url = boxes::full_box(&kind::URL, 0, 1, &nothing.into_vec());
    let mut body = Buf::new();
    body.u32(1);
    body.bytes(&url);
    let dref = boxes::full_box(&kind::DREF, 0, 0, &body.into_vec());
    boxes::boxed(&kind::DINF, &dref)
}

/// The pixel aspect box, where there is a ratio to give.
pub open spec fn pixel_aspect(ratio: Option<SampleAspectRatio>) -> Seq<u8> {
    match ratio {
        Some(sar) => boxes::boxed_bytes(
            kind::PASP@,
            Seq::<u8>::empty() + boxes::be32(sar.width) + boxes::be32(sar.height),
        ),
        None => Seq::<u8>::empty(),
    }
}

fn make_pasp(ratio: Option<SampleAspectRatio>) -> (bytes: Vec<u8>)
    ensures
        bytes@ == pixel_aspect(ratio),
{
    match ratio {
        Some(sar) => {
            let mut body = Buf::new();
            body.u32(sar.width);
            body.u32(sar.height);
            boxes::boxed(&kind::PASP, &body.into_vec())
        },
        None => Vec::new(),
    }
}

/// The sample entry of a video track.
pub open spec fn video_entry(
    name: Seq<u8>,
    config: Seq<u8>,
    width: u32,
    height: u32,
    ratio: Option<SampleAspectRatio>,
) -> Seq<u8> {
    boxes::boxed_bytes(
        name,
        Seq::<u8>::empty() + boxes::zeros(6) + boxes::be16(1) + boxes::zeros(16) + boxes::be16(
            low16(width as nat),
        ) + boxes::be16(low16(height as nat)) + boxes::be32(fixed(72)) + boxes::be32(fixed(72))
            + boxes::be32(0) + boxes::be16(1) + boxes::zeros(32) + boxes::be16(0x18) + boxes::be16(
            0xffff,
        ) + config + pixel_aspect(ratio),
    )
}

fn make_video_entry(
    name: &[u8; 4],
    config: &Vec<u8>,
    width: u32,
    height: u32,
    ratio: Option<SampleAspectRatio>,
) -> (bytes: Vec<u8>)
    ensures
        bytes@ == video_entry(name@, config@, width, height, ratio),
{
    let mut body = Buf::new();
    body.zeros(6);
    body.u16(1);
    body.zeros(16);
    body.u16((width % 0x1_0000) as u16);
    body.u16((height % 0x1_0000) as u16);
    body.u32(fixed16_16(72));
    body.u32(fixed16_16(72));
    body.u32(0);
    body.u16(1);
    body.zeros(32);
    body.u16(0x18);
    body.u16(0xffff);
    body.bytes(config);
    body.bytes(&make_pasp(ratio));
    boxes::boxed(name, &body.into_vec())
}

/// The sample entry of a sound track.
pub open spec fn sound_entry(audio: AacView) -> Seq<u8> {
    boxes::boxed_bytes(
        kind::MP4A@,
        Seq::<u8>::empty() + boxes::zeros(6) + boxes::be16(1) + boxes::zeros(8) + boxes::be16(
            low16(audio.channel_count as nat),
        ) + boxes::be16(16) + boxes::be16(0) + boxes::be16(0) + boxes::be32(
            fixed(audio.sample_rate as nat),
        ) + esds(2, OTI_MPEG4_AUDIO, STREAM_TYPE_AUDIO, audio.audio_specific_config),
    )
}

fn make_sound_entry(audio: &AacConfig) -> (bytes: Vec<u8>)
    ensures
        bytes@ == sound_entry(audio@),
{
    let mut body = Buf::new();
    body.zeros(6);
    body.u16(1);
    body.zeros(8);
    body.u16((audio.channel_count % 0x1_0000) as u16);
    body.u16(16);
    body.u16(0);
    body.u16(0);
    body.u32(fixed16_16(audio.sample_rate));
    body.bytes(&make_esds(2, OTI_MPEG4_AUDIO, STREAM_TYPE_AUDIO, &audio.audio_specific_config));
    boxes::boxed(&kind::MP4A, &body.into_vec())
}

/// A sample table that describes one kind of sample and holds none: the fragments
/// do.
pub open spec fn sample_table(entry: Seq<u8>) -> Seq<u8> {
    let count = Seq::<u8>::empty() + boxes::be32(0);
    let pair = count + boxes::be32(0);
    boxes::boxed_bytes(
        kind::STBL@,
        Seq::<u8>::empty() + boxes::full_box_bytes(
            kind::STSD@,
            0,
            0,
            Seq::<u8>::empty() + boxes::be32(1) + entry,
        ) + boxes::full_box_bytes(kind::STTS@, 0, 0, count) + boxes::full_box_bytes(
            kind::STSC@,
            0,
            0,
            count,
        ) + boxes::full_box_bytes(kind::STSZ@, 0, 0, pair) + boxes::full_box_bytes(
            kind::STCO@,
            0,
            0,
            count,
        ),
    )
}

fn make_stbl(entry: &Vec<u8>) -> (bytes: Vec<u8>)
    ensures
        bytes@ == sample_table(entry@),
{
    let mut described = Buf::new();
    described.u32(1);
    described.bytes(entry);
    let mut empty_count = Buf::new();
    empty_count.u32(0);
    let mut empty_pair = Buf::new();
    empty_pair.u32(0);
    empty_pair.u32(0);
    let count = empty_count.into_vec();
    let pair = empty_pair.into_vec();
    let mut body = Buf::new();
    body.bytes(&boxes::full_box(&kind::STSD, 0, 0, &described.into_vec()));
    body.bytes(&boxes::full_box(&kind::STTS, 0, 0, &count));
    body.bytes(&boxes::full_box(&kind::STSC, 0, 0, &count));
    body.bytes(&boxes::full_box(&kind::STSZ, 0, 0, &pair));
    body.bytes(&boxes::full_box(&kind::STCO, 0, 0, &count));
    boxes::boxed(&kind::STBL, &body.into_vec())
}

/// A track: its header, and the media it is made of.
pub open spec fn track(
    header: Seq<u8>,
    timescale: u32,
    handled: Seq<u8>,
    media: Seq<u8>,
    entry: Seq<u8>,
) -> Seq<u8> {
    let minf = boxes::boxed_bytes(
        kind::MINF@,
        Seq::<u8>::empty() + media + data_information() + sample_table(entry),
    );
    let mdia = boxes::boxed_bytes(
        kind::MDIA@,
        Seq::<u8>::empty() + media_header(timescale) + handled + minf,
    );
    boxes::boxed_bytes(kind::TRAK@, Seq::<u8>::empty() + header + mdia)
}

fn make_trak(
    header: &Vec<u8>,
    timescale: u32,
    handled: &Vec<u8>,
    media: &Vec<u8>,
    entry: &Vec<u8>,
) -> (bytes: Vec<u8>)
    ensures
        bytes@ == track(header@, timescale, handled@, media@, entry@),
{
    let mut minf = Buf::new();
    minf.bytes(media);
    minf.bytes(&make_dinf());
    minf.bytes(&make_stbl(entry));
    let mut mdia = Buf::new();
    mdia.bytes(&make_mdhd(timescale));
    mdia.bytes(handled);
    mdia.bytes(&boxes::boxed(&kind::MINF, &minf.into_vec()));
    let mut body = Buf::new();
    body.bytes(header);
    body.bytes(&boxes::boxed(&kind::MDIA, &mdia.into_vec()));
    boxes::boxed(&kind::TRAK, &body.into_vec())
}

/// The video track.
pub open spec fn video_track(
    codec: CodecView,
    width: u32,
    height: u32,
    ratio: Option<SampleAspectRatio>,
) -> Seq<u8> {
    track(
        track_header(
            1,
            0,
            (display_width(width, ratio) % 0x1_0000_0000) as u32,
            fixed(height as nat),
        ),
        timeline::TIMESCALE,
        handler(kind::VIDE@, kind::VIDEO_HANDLER@),
        video_header(),
        video_entry(entry_of(codec).0, entry_of(codec).1, width, height, ratio),
    )
}

/// The sound track: at full volume, and of no size, for it has no picture.
pub open spec fn sound_track(audio: AacView) -> Seq<u8> {
    track(
        track_header(2, 0x0100, 0, 0),
        audio.sample_rate,
        handler(kind::SOUN@, kind::SOUND_HANDLER@),
        sound_header(),
        sound_entry(audio),
    )
}

fn make_sound_track(audio: &AacConfig) -> (bytes: Vec<u8>)
    ensures
        bytes@ == sound_track(audio@),
{
    make_trak(
        &make_tkhd(2, 0x0100, 0, 0),
        audio.sample_rate,
        &make_hdlr(&kind::SOUN, &kind::SOUND_HANDLER),
        &make_smhd(),
        &make_sound_entry(audio),
    )
}

/// What a track's fragments start from.
pub open spec fn track_defaults(track: u32) -> Seq<u8> {
    boxes::full_box_bytes(
        kind::TREX@,
        0,
        0,
        Seq::<u8>::empty() + boxes::be32(track) + boxes::be32(1) + boxes::be32(0) + boxes::be32(0)
            + boxes::be32(0),
    )
}

fn make_trex(track: u32) -> (bytes: Vec<u8>)
    ensures
        bytes@ == track_defaults(track),
{
    let mut body = Buf::new();
    body.u32(track);
    body.u32(1);
    body.u32(0);
    body.u32(0);
    body.u32(0);
    boxes::full_box(&kind::TREX, 0, 0, &body.into_vec())
}

/// The initialization segment of a presentation.
#[verifier::opaque]
pub open spec fn init_bytes(
    codec: CodecView,
    width: u32,
    height: u32,
    ratio: Option<SampleAspectRatio>,
    audio: Option<AacView>,
) -> Seq<u8> {
    let (next_track, audio_track, audio_defaults) = match audio {
        Some(a) => (3u32, sound_track(a), track_defaults(2)),
        None => (2u32, Seq::<u8>::empty(), Seq::<u8>::empty()),
    };
    let extends = boxes::boxed_bytes(
        kind::MVEX@,
        Seq::<u8>::empty() + track_defaults(1) + audio_defaults,
    );
    Seq::<u8>::empty() + file_type() + boxes::boxed_bytes(
        kind::MOOV@,
        Seq::<u8>::empty() + movie_header(next_track) + video_track(codec, width, height, ratio)
            + audio_track + extends,
    )
}

/// The MIME type of a presentation.
pub open spec fn mime_of(codec: CodecView, audio: bool) -> Seq<char> {
    "video/mp4; codecs=\""@ + codec_name(codec) + (if audio {
        ",mp4a.40.2"@
    } else {
        ""@
    }) + "\""@
}

/// The initialization segment for a presentation, and the MIME type to open a
/// `SourceBuffer` with.
pub fn make_init_segment(
    video: VideoCodec<'_>,
    width: u32,
    height: u32,
    sample_aspect_ratio: Option<SampleAspectRatio>,
    audio: Option<&AacConfig>,
) -> (result: Result<(Vec<u8>, String), Error>)
    requires
        display_fits(width, sample_aspect_ratio),
    ensures
        match result {
            Ok((segment, mime_codec)) => {
                &&& describable(video@)
                &&& segment@ == init_bytes(
                    video@,
                    width,
                    height,
                    sample_aspect_ratio,
                    adts::config_view(audio),
                )
                &&& mime_codec@ == mime_of(video@, audio is Some)
            },
            Err(e) => !describable(video@) && e == Error::ShortParameterSet,
        },
{
    reveal(init_bytes);
    let (name, config) = match video.sample_entry() {
        Ok(entry) => entry,
        Err(e) => {
            return Err(e);
        },
    };
    let video_trak = make_trak(
        &make_tkhd(1, 0, track_width(width, sample_aspect_ratio), fixed16_16(height)),
        timeline::TIMESCALE,
        &make_hdlr(&kind::VIDE, &kind::VIDEO_HANDLER),
        &make_vmhd(),
        &make_video_entry(&name, &config, width, height, sample_aspect_ratio),
    );
    let mut extends = Buf::new();
    extends.bytes(&make_trex(1));
    let mut movie = Buf::new();
    match audio {
        Some(config) => {
            // The next track is past every track this movie declares.
            movie.bytes(&make_mvhd(3));
            movie.bytes(&video_trak);
            movie.bytes(&make_sound_track(config));
            extends.bytes(&make_trex(2));
        },
        None => {
            let nothing: Vec<u8> = Vec::new();
            movie.bytes(&make_mvhd(2));
            movie.bytes(&video_trak);
            movie.bytes(&nothing);
            extends.bytes(&nothing);
        },
    }
    movie.bytes(&boxes::boxed(&kind::MVEX, &extends.into_vec()));
    let mut segment = Buf::new();
    segment.bytes(&make_ftyp());
    segment.bytes(&boxes::boxed(&kind::MOOV, &movie.into_vec()));

    let mut mime_codec = String::from_str("video/mp4; codecs=\"");
    mime_codec.append(video.codecs_parameter().as_str());
    mime_codec.append(
        if audio.is_some() {
            ",mp4a.40.2"
        } else {
            ""
        },
    );
    mime_codec.append("\"");
    Ok((segment.into_vec(), mime_codec))
}

} // verus!
