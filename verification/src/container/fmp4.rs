//! Packaging of video as a fragmented MP4.

pub mod boxes;
pub mod described;
pub mod display;
pub mod framing;
pub mod init;
pub mod kind;
pub mod media;
pub mod package;
pub mod packaged;
pub mod payload;
pub mod playback;
pub mod presented;
pub mod samples;
pub mod timeline;
pub mod timing;

pub use package::{
    h264_gop_to_fmp4, h264_to_fmp4, mpeg2_gop_to_fmp4, mpeg2_to_fmp4, Fmp4AudioSamples,
    Fmp4Fragment, Fmp4Output,
};
pub use timeline::{
    complementary_field, mpeg2_passthrough_unit, mpeg2_video_timeline, picture_end, Mpeg2Sample,
    Mpeg2Unit, Mpeg2VideoTimeline,
};
pub use timing::{mpeg2_fragment_duration, mpeg2_sample_timing, SampleTiming, UnitLeadIn};
