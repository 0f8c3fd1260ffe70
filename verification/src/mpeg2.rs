//! MPEG-1 and MPEG-2 video syntax.

pub mod assembly;
pub mod block;
pub mod carried;
pub mod codes;
pub mod coding;
pub mod coefficients;
pub mod constants;
pub mod fields;
pub mod headers;
pub mod layers;
pub mod macroblock;
pub mod moments;
pub mod motion_type;
pub mod pattern;
pub mod reparse;
pub mod standalone;
pub mod syntax;
pub mod vlc;
pub mod vlc_tables;
