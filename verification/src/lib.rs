//! Conversion of MPEG-1 and MPEG-2 video to H.264, and the containers around it.
//!
//! The library works on coded syntax: it reads the headers and macroblocks of an
//! MPEG-1 or MPEG-2 elementary stream, plans the H.264 pictures that carry the
//! same content, writes the H.264 parameter sets and slice headers, takes
//! transport streams apart and packages what comes out as fragmented MP4.

pub mod bitreader;
pub mod bits;
pub mod error;
pub mod mpeg2;
pub mod h264;
pub mod container;
pub mod job;
pub mod transcode;
