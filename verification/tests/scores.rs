use image_forensics::detection::{
    ConfidenceLevel, DetectedManipulation, DetectionResult, ManipulationType,
};
use image_forensics::raster::RgbRaster;
use image_forensics::score::{mean_score, Score, SCORE_ONE};
use image_forensics::text::decimal_string;
use image_forensics::SRegion;

fn score(ppm: u32) -> Score {
    Score::from_ppm(ppm).unwrap()
}

fn manipulation(confidence: u32) -> DetectedManipulation {
    DetectedManipulation::new(
        ManipulationType::Splicing,
        SRegion { x: 0, y: 0, width: 4, height: 4 },
        score(confidence),
        String::from("found"),
        vec![String::from("signal")],
    )
}

#[test]
fn a_score_lies_between_zero_and_one() {
    assert_eq!(Score::zero().ppm(), 0);
    assert_eq!(Score::one().ppm(), SCORE_ONE);
    assert!(Score::from_ppm(1_000_001).is_none());
    assert_eq!(Score::from_ppm(1_000_000).unwrap().ppm(), 1_000_000);
    assert_eq!(Score::saturating(u32::MAX).ppm(), 1_000_000);
    assert_eq!(Score::saturating(17).ppm(), 17);
    assert_eq!(score(250_000).complement().ppm(), 750_000);
    assert_eq!(score(250_000).max(score(300_000)).ppm(), 300_000);
}

#[test]
fn a_ratio_is_counted_in_whole_millionths() {
    assert_eq!(Score::from_ratio(1, 3).ppm(), 333_333);
    assert_eq!(Score::from_ratio(2, 3).ppm(), 666_666);
    assert_eq!(Score::from_ratio(0, 5).ppm(), 0);
    assert_eq!(Score::from_ratio(5, 5).ppm(), 1_000_000);
    assert_eq!(Score::from_ratio(7, 5).ppm(), 1_000_000);
    assert_eq!(Score::from_ratio(7, 0).ppm(), 0);
    assert_eq!(Score::from_ratio(u64::MAX - 1, u64::MAX).ppm(), 999_999);
}

#[test]
fn the_mean_of_scores_is_rounded_down() {
    assert_eq!(mean_score(&vec![]).ppm(), 0);
    assert_eq!(mean_score(&vec![score(1), score(2)]).ppm(), 1);
    assert_eq!(mean_score(&vec![score(900_000), score(300_000), score(600_000)]).ppm(), 600_000);
}

#[test]
fn confidence_falls_into_five_buckets() {
    let cases = [
        (0, ConfidenceLevel::Negligible),
        (199_999, ConfidenceLevel::Negligible),
        (200_000, ConfidenceLevel::Low),
        (399_999, ConfidenceLevel::Low),
        (400_000, ConfidenceLevel::Medium),
        (599_999, ConfidenceLevel::Medium),
        (600_000, ConfidenceLevel::High),
        (799_999, ConfidenceLevel::High),
        (800_000, ConfidenceLevel::VeryHigh),
        (1_000_000, ConfidenceLevel::VeryHigh),
    ];
    for (ppm, level) in cases {
        assert_eq!(ConfidenceLevel::from_score(score(ppm)), level);
    }
    assert_eq!(ConfidenceLevel::Negligible.to_score().ppm(), 0);
    assert_eq!(ConfidenceLevel::Low.to_score().ppm(), 300_000);
    assert_eq!(ConfidenceLevel::Medium.to_score().ppm(), 500_000);
    assert_eq!(ConfidenceLevel::High.to_score().ppm(), 700_000);
    assert_eq!(ConfidenceLevel::VeryHigh.to_score().ppm(), 900_000);
}

#[test]
fn a_manipulation_carries_the_bucket_of_its_confidence() {
    let m = manipulation(650_000);
    assert_eq!(m.confidence_level, ConfidenceLevel::High);
    assert_eq!(m.manipulation_type, ManipulationType::Splicing);
    assert_eq!(m.description, "found");
}

#[test]
fn the_overall_score_is_the_mean_confidence() {
    let image = RgbRaster::from_raw(1, 1, vec![1, 2, 3]).unwrap();
    let mut result = DetectionResult::new(&image);
    assert_eq!(result.overall_score.ppm(), 0);
    assert!(!result.is_manipulated);
    assert_eq!(result.overall_confidence, ConfidenceLevel::Negligible);
    assert_eq!(result.visualization.as_raw(), &vec![1, 2, 3]);

    result.add_manipulation(manipulation(300_000));
    assert_eq!(result.overall_score.ppm(), 300_000);
    assert!(!result.is_manipulated);
    assert_eq!(result.overall_confidence, ConfidenceLevel::Low);

    result.add_manipulation(manipulation(300_002));
    assert_eq!(result.overall_score.ppm(), 300_001);
    assert!(result.is_manipulated);

    result.add_manipulation(manipulation(1_000_000));
    assert_eq!(result.manipulations.len(), 3);
    assert_eq!(result.overall_score.ppm(), (300_000 + 300_002 + 1_000_000) / 3);
    assert_eq!(result.overall_confidence, ConfidenceLevel::Medium);
    assert!(result.is_manipulated);

    result.overall_score = Score::zero();
    result.is_manipulated = false;
    result.recalculate_overall();
    assert_eq!(result.overall_score.ppm(), 533_334);
    assert!(result.is_manipulated);
}

#[test]
fn numbers_are_written_in_decimal() {
    assert_eq!(decimal_string(0), "0");
    assert_eq!(decimal_string(7), "7");
    assert_eq!(decimal_string(10), "10");
    assert_eq!(decimal_string(4096), "4096");
    assert_eq!(decimal_string(u64::MAX), "18446744073709551615");
}
