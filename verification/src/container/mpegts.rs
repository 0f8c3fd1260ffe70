//! Minimal MPEG-TS demuxing for MPEG-1/2 video and AAC-LC audio.

pub mod advertised;
pub mod carried;
pub mod chosen;
pub mod demux;
pub mod descriptors;
pub mod ending;
pub mod gathered;
pub mod packet;
pub mod pes;
pub mod probe;
pub mod probed;
pub mod program;
pub mod section;
pub mod sound;
pub mod streaming;
pub mod written;

pub use demux::MpegTsAvDemuxer;
pub use descriptors::AudioStream;
pub use packet::is_mpeg_transport_stream;
pub use pes::{ElementaryKind, ElementaryPacket};
pub use probe::{extract_mpeg2_video_es, first_pts, last_pts};
