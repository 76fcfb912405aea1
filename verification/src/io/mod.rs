//! Reading splats: SOG units, bundles of them, and scenes of many levels.

pub mod alpha_frame;
pub mod bundle;
pub mod lod;
pub mod sog;
pub mod webp;
