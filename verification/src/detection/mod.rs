//! Detected manipulations and their aggregation into a detection result.

pub mod signals;
pub mod splicing;
pub mod tampering;

use vstd::prelude::*;
use crate::error::ForensicsError;
use crate::raster::RgbRaster;
use crate::region::SRegion;
use crate::score::{mean_ppm, mean_score, Score, SCORE_ONE};

verus! {

/// The bucket a confidence falls into.
#[derive(Debug, Clone, Copy, PartialEq, Eq, Structural)]
pub enum ConfidenceLevel {
    Negligible,
    Low,
    Medium,
    High,
    VeryHigh,
}

/// The bucket of a score given in millionths: below 0.2 `Negligible`, below 0.4
/// `Low`, below 0.6 `Medium`, below 0.8 `High`, else `VeryHigh`.
pub open spec fn level_of(ppm: int) -> ConfidenceLevel {
    if ppm < 200_000 {
        ConfidenceLevel::Negligible
    } else if ppm < 400_000 {
        ConfidenceLevel::Low
    } else if ppm < 600_000 {
        ConfidenceLevel::Medium
    } else if ppm < 800_000 {
        ConfidenceLevel::High
    } else {
        ConfidenceLevel::VeryHigh
    }
}

/// The representative score of a bucket in millionths.
pub open spec fn level_score(level: ConfidenceLevel) -> int {
    match level {
        ConfidenceLevel::Negligible => 0,
        ConfidenceLevel::Low => 300_000,
        ConfidenceLevel::Medium => 500_000,
        ConfidenceLevel::High => 700_000,
        ConfidenceLevel::VeryHigh => 900_000,
    }
}

impl ConfidenceLevel {
    /// The bucket of `score`.
    pub fn from_score(score: Score) -> (level: ConfidenceLevel)
        ensures
            level == level_of(score@),
    {
        let ppm = score.ppm();
        if ppm < 200_000 {
            ConfidenceLevel::Negligible
        } else if ppm < 400_000 {
            ConfidenceLevel::Low
        } else if ppm < 600_000 {
            ConfidenceLevel::Medium
        } else if ppm < 800_000 {
            ConfidenceLevel::High
        } else {
            ConfidenceLevel::VeryHigh
        }
    }

    /// The representative score of the bucket.
    pub fn to_score(&self) -> (score: Score)
        ensures
            score@ == level_score(*self),
    {
        match self {
            ConfidenceLevel::Negligible => Score::saturating(0),
            ConfidenceLevel::Low => Score::saturating(300_000),
            ConfidenceLevel::Medium => Score::saturating(500_000),
            ConfidenceLevel::High => Score::saturating(700_000),
            ConfidenceLevel::VeryHigh => Score::saturating(900_000),
        }
    }
}

/// Every bucket holds its own representative score.
pub proof fn level_score_is_in_level(level: ConfidenceLevel)
    ensures
        level_of(level_score(level)) == level,
        0 <= level_score(level) <= SCORE_ONE,
{
}

/// The kind of a detected manipulation.
#[derive(Debug, Clone, Copy, PartialEq, Eq, Structural)]
pub enum ManipulationType {
    CopyMove,
    Splicing,
    Retouching,
    Removal,
    Resizing,
    Rotation,
    ColorManipulation,
    AIGenerated,
    Unknown,
}

/// One detected manipulation: where it is, how sure the detector is, and the
/// signals that speak for it.
#[derive(Debug, Clone)]
pub struct DetectedManipulation {
    pub manipulation_type: ManipulationType,
    pub region: SRegion,
    pub confidence: Score,
    pub confidence_level: ConfidenceLevel,
    pub description: String,
    pub evidence: Vec<String>,
}

impl DetectedManipulation {
    /// The bucket is the one derived from the confidence.
    pub open spec fn wf(self) -> bool {
        self.confidence_level == level_of(self.confidence@)
    }

    /// A manipulation of the given kind, with the bucket derived from the
    /// confidence.
    pub fn new(
        manipulation_type: ManipulationType,
        region: SRegion,
        confidence: Score,
        description: String,
        evidence: Vec<String>,
    ) -> (m: DetectedManipulation)
        ensures
            m.wf(),
            m.manipulation_type == manipulation_type,
            m.region == region,
            m.confidence == confidence,
            m.description == description,
            m.evidence == evidence,
    {
        DetectedManipulation {
            manipulation_type,
            region,
            confidence,
            confidence_level: ConfidenceLevel::from_score(confidence),
            description,
            evidence,
        }
    }
}

/// The confidences of the given manipulations, in order.
pub open spec fn confidences(ms: Seq<DetectedManipulation>) -> Seq<Score> {
    Seq::new(ms.len(), |i: int| ms[i].confidence)
}

/// What a detector found in one image.
#[derive(Debug)]
pub struct DetectionResult {
    pub manipulations: Vec<DetectedManipulation>,
    pub overall_score: Score,
    pub overall_confidence: ConfidenceLevel,
    pub is_manipulated: bool,
    pub visualization: RgbRaster,
}

impl DetectionResult {
    /// The derived fields agree with the manipulations: the overall score is
    /// the mean of their confidences, rounded down to a millionth, the bucket
    /// is that of the overall score, and the image counts as manipulated when
    /// the overall score is above 0.3.
    pub open spec fn consistent(self) -> bool {
        &&& self.overall_score@ == mean_ppm(confidences(self.manipulations@))
        &&& self.overall_confidence == level_of(self.overall_score@)
        &&& self.is_manipulated == (self.overall_score@ > 300_000)
    }

    /// The result with no manipulation, over a copy of `image`.
    pub fn new(image: &RgbRaster) -> (r: DetectionResult)
        ensures
            r.consistent(),
            r.manipulations@.len() == 0,
            r.overall_score@ == 0,
            r.overall_confidence == ConfidenceLevel::Negligible,
            !r.is_manipulated,
            r.visualization@ == image@,
    {
        let r = DetectionResult {
            manipulations: Vec::new(),
            overall_score: Score::zero(),
            overall_confidence: ConfidenceLevel::Negligible,
            is_manipulated: false,
            visualization: image.duplicate(),
        };
        assert(confidences(r.manipulations@) =~= Seq::<Score>::empty());
        r
    }

    /// Adds a manipulation and brings the derived fields up to date.
    pub fn add_manipulation(&mut self, manipulation: DetectedManipulation)
        ensures
            final(self).consistent(),
            final(self).manipulations@ == old(self).manipulations@.push(manipulation),
            final(self).visualization == old(self).visualization,
    {
        self.manipulations.push(manipulation);
        self.recalculate_overall();
    }

    /// Sets the derived fields from the manipulations.
    pub fn recalculate_overall(&mut self)
        ensures
            final(self).consistent(),
            final(self).manipulations == old(self).manipulations,
            final(self).visualization == old(self).visualization,
    {
        let n = self.manipulations.len();
        let mut scores: Vec<Score> = Vec::new();
        let mut i: usize = 0;
        while i < n
            invariant
                0 <= i <= n,
                n == self.manipulations@.len(),
                scores@.len() == i,
                forall|k: int| 0 <= k < i ==> scores@[k] == self.manipulations@[k].confidence,
            decreases n - i,
        {
            scores.push(self.manipulations[i].confidence);
            i += 1;
        }
        assert(scores@ =~= confidences(self.manipulations@));
        let overall = mean_score(&scores);
        self.overall_score = overall;
        self.overall_confidence = ConfidenceLevel::from_score(overall);
        self.is_manipulated = overall.ppm() > 300_000;
    }
}

/// With no manipulation the overall score is zero and the image does not
/// count as manipulated.
pub proof fn empty_result_is_clean(r: DetectionResult)
    requires
        r.consistent(),
        r.manipulations@.len() == 0,
    ensures
        r.overall_score@ == 0,
        !r.is_manipulated,
        r.overall_confidence == ConfidenceLevel::Negligible,
{
    assert(confidences(r.manipulations@).len() == 0);
}

/// A detector of manipulations.
pub trait Detector {
    /// Looks for manipulations in an image.
    fn detect(&self, image: &RgbRaster) -> Result<DetectionResult, ForensicsError>;

    /// The name of the detector.
    fn name(&self) -> &str;

    /// What the detector does.
    fn description(&self) -> &str;
}

} // verus!
