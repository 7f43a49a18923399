//! What the image's metadata says about its history.

pub mod exif;
