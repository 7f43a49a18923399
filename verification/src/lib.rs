//! Verified integer core of a passive image-forensics engine: region geometry
//! and merging, raster primitives, and the decision logic of the analyzers.

pub mod analysis;
pub mod components;
pub mod detection;
pub mod error;
pub mod grid;
pub mod image_utils;
pub mod merging;
pub mod metadata;
pub mod raster;
pub mod region;
pub mod report;
pub mod score;
pub mod text;

pub use analysis::copy_move::{CopyMoveResult, MatchPair};
pub use analysis::noise::NoiseResult;
pub use region::SRegion;
