//! The containers that video comes in and goes out in.

pub mod adts;
pub mod fmp4;
pub mod mpegts;
pub mod spelling;
