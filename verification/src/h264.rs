//! H.264 syntax.

pub mod bitwriter;
pub mod header_reading;
pub mod intra;
pub mod mb;
pub mod mvmap;
pub mod mvpred;
pub mod nal;
pub mod neighbours;
pub mod packing;
pub mod params;
pub mod reading;
pub mod reconstruct;
pub mod set_reading;
pub mod slice;
pub mod surroundings;
pub mod transforms;
