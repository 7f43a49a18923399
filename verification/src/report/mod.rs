//! The sections of a report that hold no measured quantity, and overlays.

pub mod visualization;

use vstd::prelude::*;

verus! {

/// What a report says of the metadata.
#[derive(Debug, Clone)]
pub struct MetadataReportSection {
    pub camera_info: Option<String>,
    pub software: Option<String>,
    pub suspicious_indicators: Vec<String>,
}

impl MetadataReportSection {
    /// The section for the given fields: the camera is named by its model
    /// and, where there is none, by its make.
    pub fn new(
        camera_make: Option<String>,
        camera_model: Option<String>,
        software: Option<String>,
        suspicious_indicators: Vec<String>,
    ) -> (section: MetadataReportSection)
        ensures
            section.camera_info == if camera_model is Some {
                camera_model
            } else {
                camera_make
            },
            section.software == software,
            section.suspicious_indicators == suspicious_indicators,
    {
        let camera_info = match camera_model {
            Some(model) => Some(model),
            None => camera_make,
        };
        MetadataReportSection { camera_info, software, suspicious_indicators }
    }
}

} // verus!
