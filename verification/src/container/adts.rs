//! What an AAC track is described by.
use vstd::prelude::*;

verus! {

/// How many samples of sound an AAC access unit holds.
pub const AAC_FRAME_SAMPLES: u32 = 1024;

/// What a decoder has to know of an AAC stream.
#[derive(Clone, Debug)]
pub struct AacConfig {
    pub sample_rate: u32,
    pub channel_count: u32,
    /// The `AudioSpecificConfig` that an MP4 declares out of band.
    pub audio_specific_config: Vec<u8>,
}

/// A configuration as a mathematical value.
#[verifier::ext_equal]
pub struct AacView {
    pub sample_rate: u32,
    pub channel_count: u32,
    pub audio_specific_config: Seq<u8>,
}

impl View for AacConfig {
    type V = AacView;

    open spec fn view(&self) -> AacView {
        AacView {
            sample_rate: self.sample_rate,
            channel_count: self.channel_count,
            audio_specific_config: self.audio_specific_config@,
        }
    }
}

/// The configuration that is there, if one is.
pub open spec fn config_view(config: Option<&AacConfig>) -> Option<AacView> {
    match config {
        Some(c) => Some(c@),
        None => None,
    }
}

} // verus!
