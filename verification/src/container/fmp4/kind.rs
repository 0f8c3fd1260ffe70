//! The four-character types of the boxes, and the names that go in them.
use vstd::prelude::*;

verus! {

/// `isom`
pub const ISOM: [u8; 4] = [0x69, 0x73, 0x6f, 0x6d];

/// `ftyp`
pub const FTYP: [u8; 4] = [0x66, 0x74, 0x79, 0x70];

/// `mvhd`
pub const MVHD: [u8; 4] = [0x6d, 0x76, 0x68, 0x64];

/// `tkhd`
pub const TKHD: [u8; 4] = [0x74, 0x6b, 0x68, 0x64];

/// `mdhd`
pub const MDHD: [u8; 4] = [0x6d, 0x64, 0x68, 0x64];

/// `hdlr`
pub const HDLR: [u8; 4] = [0x68, 0x64, 0x6c, 0x72];

/// `vide`
pub const VIDE: [u8; 4] = [0x76, 0x69, 0x64, 0x65];

/// `soun`
pub const SOUN: [u8; 4] = [0x73, 0x6f, 0x75, 0x6e];

/// `vmhd`
pub const VMHD: [u8; 4] = [0x76, 0x6d, 0x68, 0x64];

/// `smhd`
pub const SMHD: [u8; 4] = [0x73, 0x6d, 0x68, 0x64];

/// `url `
pub const URL: [u8; 4] = [0x75, 0x72, 0x6c, 0x20];

/// `dref`
pub const DREF: [u8; 4] = [0x64, 0x72, 0x65, 0x66];

/// `dinf`
pub const DINF: [u8; 4] = [0x64, 0x69, 0x6e, 0x66];

/// `avcC`
pub const AVC_CONFIG: [u8; 4] = [0x61, 0x76, 0x63, 0x43];

/// `avc1`
pub const AVC1: [u8; 4] = [0x61, 0x76, 0x63, 0x31];

/// `mp4v`
pub const MP4V: [u8; 4] = [0x6d, 0x70, 0x34, 0x76];

/// `esds`
pub const ESDS: [u8; 4] = [0x65, 0x73, 0x64, 0x73];

/// `pasp`
pub const PASP: [u8; 4] = [0x70, 0x61, 0x73, 0x70];

/// `stsd`
pub const STSD: [u8; 4] = [0x73, 0x74, 0x73, 0x64];

/// `stts`
pub const STTS: [u8; 4] = [0x73, 0x74, 0x74, 0x73];

/// `stsc`
pub const STSC: [u8; 4] = [0x73, 0x74, 0x73, 0x63];

/// `stsz`
pub const STSZ: [u8; 4] = [0x73, 0x74, 0x73, 0x7a];

/// `stco`
pub const STCO: [u8; 4] = [0x73, 0x74, 0x63, 0x6f];

/// `stbl`
pub const STBL: [u8; 4] = [0x73, 0x74, 0x62, 0x6c];

/// `minf`
pub const MINF: [u8; 4] = [0x6d, 0x69, 0x6e, 0x66];

/// `mdia`
pub const MDIA: [u8; 4] = [0x6d, 0x64, 0x69, 0x61];

/// `trak`
pub const TRAK: [u8; 4] = [0x74, 0x72, 0x61, 0x6b];

/// `trex`
pub const TREX: [u8; 4] = [0x74, 0x72, 0x65, 0x78];

/// `mvex`
pub const MVEX: [u8; 4] = [0x6d, 0x76, 0x65, 0x78];

/// `moov`
pub const MOOV: [u8; 4] = [0x6d, 0x6f, 0x6f, 0x76];

/// `mp4a`
pub const MP4A: [u8; 4] = [0x6d, 0x70, 0x34, 0x61];

/// `mfhd`
pub const MFHD: [u8; 4] = [0x6d, 0x66, 0x68, 0x64];

/// `tfhd`
pub const TFHD: [u8; 4] = [0x74, 0x66, 0x68, 0x64];

/// `tfdt`
pub const TFDT: [u8; 4] = [0x74, 0x66, 0x64, 0x74];

/// `trun`
pub const TRUN: [u8; 4] = [0x74, 0x72, 0x75, 0x6e];

/// `traf`
pub const TRAF: [u8; 4] = [0x74, 0x72, 0x61, 0x66];

/// `moof`
pub const MOOF: [u8; 4] = [0x6d, 0x6f, 0x6f, 0x66];

/// `mdat`
pub const MDAT: [u8; 4] = [0x6d, 0x64, 0x61, 0x74];

/// The brands of the file type box: `isom`, `iso6`, `mp41` and `avc1`.
pub const BRANDS: [u8; 16] = [
    0x69, 0x73, 0x6f, 0x6d, 0x69, 0x73, 0x6f, 0x36, 0x6d, 0x70, 0x34, 0x31, 0x61, 0x76, 0x63, 0x31,
];

/// The name of the video handler, `VideoHandler`, with its closing zero.
pub const VIDEO_HANDLER: [u8; 13] = [
    0x56, 0x69, 0x64, 0x65, 0x6f, 0x48, 0x61, 0x6e, 0x64, 0x6c, 0x65, 0x72, 0,
];

/// The name of the sound handler, `SoundHandler`, with its closing zero.
pub const SOUND_HANDLER: [u8; 13] = [
    0x53, 0x6f, 0x75, 0x6e, 0x64, 0x48, 0x61, 0x6e, 0x64, 0x6c, 0x65, 0x72, 0,
];

} // verus!
