//! The failures an analysis can report.

use vstd::prelude::*;

verus! {

/// The error of the image codec, carried through unread.
#[verifier::external_type_specification]
#[verifier::external_body]
pub struct ExImageError(image::ImageError);

/// The error of an input or output operation, carried through unread.
#[verifier::external_type_specification]
#[verifier::external_body]
pub struct ExIoError(std::io::Error);

/// Why an analysis could not produce a result.
#[derive(Debug)]
pub enum ForensicsError {
    /// The codec could not encode or decode the image.
    ImageDecode(image::ImageError),
    /// A file could not be read or written.
    Io(std::io::Error),
    /// A configuration value lies outside its documented range.
    InvalidParameter(String),
    /// The analysis ran into a numeric degeneracy.
    AnalysisFailed(String),
    /// The pixel layout is not one the analyzers work on.
    UnsupportedFormat(String),
    /// The metadata could not be read.
    MetadataError(String),
    /// A dimension of the image is below the given minimum.
    ImageTooSmall(u32),
}

/// An image of the given size has a side shorter than `min_dim`.
pub open spec fn too_small(width: int, height: int, min_dim: int) -> bool {
    width < min_dim || height < min_dim
}

/// Accepts an image whose sides are both at least `min_dim` and rejects any
/// other with `ImageTooSmall(min_dim)`.
pub fn check_min_dimension(width: u32, height: u32, min_dim: u32) -> (r: Result<
    (),
    ForensicsError,
>)
    ensures
        too_small(width as int, height as int, min_dim as int) ==> r == Err::<(), ForensicsError>(
            ForensicsError::ImageTooSmall(min_dim),
        ),
        !too_small(width as int, height as int, min_dim as int) ==> r is Ok,
{
    if width < min_dim || height < min_dim {
        Err(ForensicsError::ImageTooSmall(min_dim))
    } else {
        Ok(())
    }
}

} // verus!
