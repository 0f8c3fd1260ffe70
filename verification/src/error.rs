//! The one error type of the library.
use vstd::prelude::*;

verus! {

/// Why a conversion, a parse or a packaging step could not go on.
#[derive(Clone, Copy, Debug, PartialEq, Eq, Structural)]
pub enum Error {
    /// A marker bit that has to be one was zero.
    MissingMarker,
    /// No code of a variable length code table matches the bits in hand.
    InvalidCode,
    /// An MPEG-1 escape carried a level its syntax rules out.
    EscapeLevel { level: i32 },
    /// The address escapes of a macroblock were not followed by an increment.
    UnterminatedAddressEscape,
    /// A run of zeros led past the last coefficient of a block.
    CoefficientIndex { index: usize, bit: usize },
    /// The stream holds no picture that a sequence header describes.
    NoPictures,
    /// The sequence header names a frame rate the syntax does not define.
    FrameRateCode { code: u32 },
    /// A recovery copy has no content sample to borrow time from.
    RecoveryWithoutContent,
    /// The sample in front of the recovery copies is too short to lend them time.
    RecoveryBeforeTooShort,
    /// The sample behind the recovery copies is too short to lend them time.
    RecoveryAfterTooShort,
    /// The recovery copies would be presented before the timeline starts.
    RecoveryUnreachable,
    /// A sequence parameter set too short to describe in an `avcC` box.
    ShortParameterSet,
    /// An H.264 stream without a sequence or picture parameter set.
    MissingParameterSets,
    /// The number of samples and the number the timeline reserves differ.
    SampleCount { samples: usize, timeline: usize },
    /// The input is no transport stream of 188-byte packets.
    NotTransportStream,
    /// The program association table names no program.
    NoProgram,
    /// No packet of the chosen video stream arrived.
    NoVideo,
    /// A picture job whose header cannot be read.
    JobHeader,
    /// A picture job that holds the wrong number of coded pictures.
    JobPictures { found: usize, expected: usize },
    /// Converted pictures were handed back while no unit was being converted.
    NoUnit,
    /// The wrong number of converted pictures was handed back.
    OutputCount { given: usize, planned: usize },
}

} // verus!
