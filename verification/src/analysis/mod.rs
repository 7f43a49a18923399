//! The decision logic of the analyzers, and the size an image must have for
//! each of them.

pub mod cfa_analysis;
pub mod copy_move;
pub mod ela;
pub mod jpeg_analysis;
pub mod luminance_gradient;
pub mod noise;
pub mod resampling_detection;
pub mod shadow_analysis;

use vstd::prelude::*;
use crate::error::{check_min_dimension, too_small, ForensicsError};

verus! {

/// The analyzers.
#[derive(Debug, Clone, Copy, PartialEq, Eq, Structural)]
pub enum AnalyzerKind {
    Ela,
    CopyMove,
    Noise,
    Jpeg,
    Dct,
    Cfa,
    ChromaticAberration,
    Prnu,
    Resampling,
    Shadow,
    Benford,
    Pca,
}

/// The smallest side an image may have for the analyzer with blocks of the
/// given side: 16 for the DCT analyzer, one block for the Benford analyzer,
/// nothing for the ELA, noise and JPEG analyzers, and two blocks for the
/// others.
pub open spec fn min_dim(kind: AnalyzerKind, block_size: u32) -> int {
    match kind {
        AnalyzerKind::Ela | AnalyzerKind::Noise | AnalyzerKind::Jpeg => 0,
        AnalyzerKind::Dct => 16,
        AnalyzerKind::Benford => block_size as int,
        _ => 2 * block_size,
    }
}

/// The smallest side an image may have for the analyzer, or `None` when
/// that is more than any image can have.
pub fn min_dimension(kind: AnalyzerKind, block_size: u32) -> (m: Option<u32>)
    ensures
        m is Some <==> min_dim(kind, block_size) <= u32::MAX,
        m matches Some(v) ==> v == min_dim(kind, block_size),
{
    match kind {
        AnalyzerKind::Ela | AnalyzerKind::Noise | AnalyzerKind::Jpeg => Some(0),
        AnalyzerKind::Dct => Some(16),
        AnalyzerKind::Benford => Some(block_size),
        _ => {
            if block_size <= u32::MAX / 2 {
                Some(2 * block_size)
            } else {
                None
            }
        },
    }
}

/// Accepts an image that is large enough for the analyzer. An image with a
/// side below the analyzer's minimum is rejected with `ImageTooSmall` of
/// that minimum; where the minimum is more than any image can have, the
/// block size is rejected as an invalid parameter.
pub fn check_dimensions(kind: AnalyzerKind, block_size: u32, width: u32, height: u32) -> (r:
    Result<(), ForensicsError>)
    ensures
        min_dim(kind, block_size) > u32::MAX ==> (r matches Err(
            ForensicsError::InvalidParameter(msg),
        ) && msg@ == "Block size is too large"@),
        min_dim(kind, block_size) <= u32::MAX && too_small(
            width as int,
            height as int,
            min_dim(kind, block_size),
        ) ==> r == Err::<(), ForensicsError>(
            ForensicsError::ImageTooSmall(min_dim(kind, block_size) as u32),
        ),
        !too_small(width as int, height as int, min_dim(kind, block_size)) ==> r is Ok,
{
    match min_dimension(kind, block_size) {
        Some(m) => check_min_dimension(width, height, m),
        None => Err(ForensicsError::InvalidParameter("Block size is too large".to_owned())),
    }
}

} // verus!
