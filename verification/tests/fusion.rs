use image_forensics::analysis::copy_move::MatchPair;
use image_forensics::detection::splicing::{
    combine_analyses, keep_large, merge_overlapping_detections, overlaps_some,
    splicing_manipulation, Detection,
};
use image_forensics::detection::tampering::{
    assemble, compression_report, percent_string, Anomaly, TamperingFindings,
};
use image_forensics::detection::{ConfidenceLevel, ManipulationType};
use image_forensics::raster::RgbRaster;
use image_forensics::score::Score;
use image_forensics::SRegion;

fn score(ppm: u32) -> Score {
    Score::from_ppm(ppm).unwrap()
}

fn region(x: u32, y: u32, width: u32, height: u32) -> SRegion {
    SRegion { x, y, width, height }
}

fn detection(r: SRegion, ppm: u32) -> Detection {
    Detection { region: r, score: score(ppm) }
}

#[test]
fn a_region_overlaps_some_region_of_a_list() {
    let list = vec![region(0, 0, 4, 4), region(10, 10, 4, 4)];
    assert!(overlaps_some(&region(12, 12, 10, 10), &list));
    assert!(!overlaps_some(&region(4, 4, 6, 6), &list));
    assert!(!overlaps_some(&region(0, 0, 4, 4), &Vec::new()));
}

#[test]
fn a_colour_region_counts_when_another_signal_overlaps_it() {
    let color = vec![
        region(0, 0, 16, 16),
        region(16, 0, 16, 16),
        region(100, 0, 16, 16),
        region(200, 0, 16, 16),
        region(300, 0, 0, 16),
    ];
    let edge = vec![region(10, 10, 10, 10), region(204, 4, 2, 2), region(204, 4, 3, 3)];
    let noise = vec![region(20, 0, 4, 4), region(208, 8, 4, 4), region(300, 0, 16, 16)];
    let ela = vec![region(210, 0, 40, 40)];
    let fusion = combine_analyses(&color, &edge, &noise, &ela, 100);
    // All three signals back the block at 200; edge and noise the one at 16;
    // the edge alone the one at 0; nothing the one at 100.
    assert_eq!(
        fusion.candidates,
        vec![
            detection(region(200, 0, 16, 16), 1_000_000),
            detection(region(16, 0, 16, 16), 750_000),
            detection(region(0, 0, 16, 16), 500_000),
        ]
    );
    // The blocks at 0 and 16 touch and do not overlap.
    assert_eq!(fusion.clusters, fusion.candidates);
    assert_eq!(fusion.detections, fusion.candidates);
    let strict = combine_analyses(&color, &edge, &noise, &ela, 257);
    assert!(strict.detections.is_empty());
    assert_eq!(strict.clusters.len(), 3);
}

#[test]
fn overlapping_detections_merge_and_take_the_highest_score() {
    let detections = vec![
        detection(region(0, 0, 16, 16), 500_000),
        detection(region(100, 100, 16, 16), 500_000),
        detection(region(8, 8, 16, 16), 750_000),
        detection(region(20, 20, 16, 16), 1_000_000),
    ];
    let clusters = merge_overlapping_detections(&detections);
    assert_eq!(
        clusters,
        vec![
            detection(region(0, 0, 36, 36), 1_000_000),
            detection(region(100, 100, 16, 16), 500_000),
        ]
    );
    assert_eq!(merge_overlapping_detections(&clusters), clusters);
    assert_eq!(keep_large(&clusters, 257), vec![detection(region(0, 0, 36, 36), 1_000_000)]);
    assert_eq!(keep_large(&clusters, 256), clusters);
    assert!(keep_large(&clusters, 1297).is_empty());
}

#[test]
fn a_splice_names_the_signals_that_overlap_it() {
    let color = vec![region(0, 0, 16, 16)];
    let edge = vec![region(100, 100, 4, 4)];
    let noise = vec![region(8, 8, 4, 4)];
    let ela = vec![region(15, 15, 4, 4)];
    let d = detection(region(0, 0, 16, 16), 750_000);
    let m = splicing_manipulation(&d, &color, &edge, &noise, &ela);
    assert_eq!(m.manipulation_type, ManipulationType::Splicing);
    assert_eq!(m.region, region(0, 0, 16, 16));
    assert_eq!(m.confidence.ppm(), 750_000);
    assert_eq!(m.confidence_level, ConfidenceLevel::High);
    assert_eq!(m.description, "Potential spliced region at (0, 0) with 16x16 size");
    assert_eq!(
        m.evidence,
        vec!["Color histogram inconsistency", "Noise pattern mismatch", "ELA inconsistency"]
    );
    let far = detection(region(100, 100, 20, 30), 500_000);
    let m = splicing_manipulation(&far, &color, &edge, &noise, &ela);
    assert_eq!(m.description, "Potential spliced region at (100, 100) with 20x30 size");
    assert_eq!(m.evidence, vec!["Unnatural edge patterns"]);
}

#[test]
fn shares_are_written_as_percentages() {
    assert_eq!(percent_string(score(0)), "0.0%");
    assert_eq!(percent_string(score(950_000)), "95.0%");
    assert_eq!(percent_string(score(123_456)), "12.3%");
    assert_eq!(percent_string(score(999_500)), "100.0%");
    assert_eq!(percent_string(score(999_499)), "99.9%");
    assert_eq!(percent_string(score(1_000_000)), "100.0%");
}

#[test]
fn the_findings_are_reported_in_order() {
    let image = RgbRaster::new(64, 48).unwrap();
    let pair = MatchPair {
        source: region(0, 0, 16, 16),
        target: region(40, 30, 16, 16),
        similarity: score(950_000),
    };
    let splice = splicing_manipulation(
        &detection(region(8, 8, 16, 16), 500_000),
        &vec![region(8, 8, 16, 16)],
        &vec![],
        &vec![],
        &vec![],
    );
    let findings = TamperingFindings {
        matches: vec![pair],
        splices: vec![splice],
        texture_anomalies: vec![
            Anomaly { region: region(1, 1, 2, 2), score: score(299_999) },
            Anomaly { region: region(3, 3, 2, 2), score: score(300_000) },
        ],
        blur_anomalies: vec![Anomaly { region: region(5, 5, 2, 2), score: score(700_000) }],
        double_compression_likelihood: score(600_001),
        quality_estimate: 85,
    };
    let result = assemble(&image, findings, score(300_000));
    let kinds: Vec<ManipulationType> =
        result.manipulations.iter().map(|m| m.manipulation_type).collect();
    assert_eq!(
        kinds,
        vec![
            ManipulationType::CopyMove,
            ManipulationType::CopyMove,
            ManipulationType::Splicing,
            ManipulationType::Retouching,
            ManipulationType::Retouching,
            ManipulationType::Unknown,
        ]
    );
    let m = &result.manipulations;
    assert_eq!(m[0].region, region(0, 0, 16, 16));
    assert_eq!(m[0].description, "Copy-move detected: region copied from (0, 0) to (40, 30)");
    assert_eq!(m[0].evidence, vec!["Similarity: 95.0%"]);
    assert_eq!(m[1].region, region(40, 30, 16, 16));
    assert_eq!(m[1].description, "Copy-move target region");
    assert!(m[1].evidence.is_empty());
    assert_eq!(m[3].region, region(3, 3, 2, 2));
    assert_eq!(m[3].description, "Texture inconsistency suggesting retouching");
    assert_eq!(m[3].evidence, vec!["Abnormal texture pattern"]);
    assert_eq!(m[4].description, "Blur inconsistency suggesting retouching");
    assert_eq!(m[4].evidence, vec!["Abnormal blur pattern"]);
    assert_eq!(m[5].region, region(0, 0, 64, 48));
    assert_eq!(m[5].description, "Image shows signs of double JPEG compression");
    assert_eq!(
        m[5].evidence,
        vec!["Estimated quality: 85", "Double compression likelihood: 60.0%"]
    );
    let total: u32 = 950_000 + 950_000 + 500_000 + 300_000 + 700_000 + 600_001;
    assert_eq!(result.overall_score.ppm(), total / 6);
    assert_eq!(result.is_manipulated, total / 6 > 300_000);
    assert_eq!(result.visualization.as_raw(), image.as_raw());
}

#[test]
fn nothing_found_means_not_manipulated() {
    let image = RgbRaster::new(8, 8).unwrap();
    let findings = TamperingFindings {
        matches: vec![],
        splices: vec![],
        texture_anomalies: vec![],
        blur_anomalies: vec![],
        double_compression_likelihood: score(600_000),
        quality_estimate: 75,
    };
    let result = assemble(&image, findings, score(300_000));
    assert!(result.manipulations.is_empty());
    assert_eq!(result.overall_score.ppm(), 0);
    assert!(!result.is_manipulated);
    let m = compression_report(score(1_000_000), 0, 3, 4);
    assert_eq!(m.confidence_level, ConfidenceLevel::VeryHigh);
    assert_eq!(m.evidence[0], "Estimated quality: 0");
}
