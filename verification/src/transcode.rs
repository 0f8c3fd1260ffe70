//! Conversion of MPEG-1 and MPEG-2 video to H.264.
//!
//! The normal path reconstructs no pixels on the luma path: coefficient levels are
//! requantised straight into H.264 levels, with no inverse transform, no motion
//! compensation and no reference frame buffer.
//!
//! The exception is the picture that opens a random access point. Its slices
//! are I slices, which carry no reference list, so there is nothing to hang the
//! flat prediction's weights on and it has to be coded with H.264's own intra
//! prediction.
//!
//! Every other output picture is a B slice, even those that were I or P in the
//! source, because the half-sample motion mapping needs bi-prediction and that is
//! only available in B slices. See [`crate::h264::mvmap`].

pub mod agreement;
pub mod allotted;
pub mod decoder;
pub mod encoder;
pub mod faithful;
pub mod handover;
pub mod incremental;
pub mod intra;
pub mod macroblocks;
pub mod marks;
pub mod motion;
pub mod numbering;
pub mod options;
pub mod picture;
pub mod plan;
pub mod predict;
pub mod reach;
pub mod residual;
pub mod restarts;
pub mod salvage;
pub mod scans;
pub mod sliced;
pub mod steps;
pub mod syntax;
pub mod vectors;
pub mod walk;

pub use encoder::PictureEncoder;
pub use incremental::{IncrementalTranscoder, Step, TranscodeResult};
pub use options::{OpenGopRecovery, Stats, TranscodeOptions, VideoMode};
pub use plan::{plan_unit, UnitPlan, UnitRequest};
