use image_forensics::analysis::cfa_analysis::{
    calculate_consistency_score, calculate_pattern_stats, determine_dominant_pattern,
    find_inconsistent_regions, CfaBlock, CfaPattern, CfaPatternStats,
};
use image_forensics::analysis::luminance_gradient::LuminanceGradientAnalyzer;
use image_forensics::metadata::exif::ExifExtractor;
use image_forensics::report::MetadataReportSection;
use image_forensics::score::Score;
use image_forensics::SRegion;

fn some(text: &str) -> Option<String> {
    Some(String::from(text))
}

fn block(x: u32, y: u32, pattern: CfaPattern, confidence: u32) -> CfaBlock {
    CfaBlock { x, y, detected_pattern: pattern, confidence: Score::from_ppm(confidence).unwrap() }
}

#[test]
fn editing_software_is_suspicious() {
    for name in ["Adobe Photoshop CC 2019", "GIMP 2.10", "paint.net 4", "MS PAINT"] {
        let found = ExifExtractor::suspicious_indicators(&some(name), &None, &None, &None);
        assert_eq!(found, vec![format!("Edited with: {}", name)]);
    }
    for name in ["Camera firmware 1.0", "", "photo shop", "gim"] {
        let found = ExifExtractor::suspicious_indicators(&some(name), &None, &None, &None);
        assert!(found.is_empty());
    }
}

#[test]
fn a_date_without_the_original_date_is_suspicious() {
    let date = some("2024:01:01 10:00:00");
    let found = ExifExtractor::suspicious_indicators(&None, &date, &None, &None);
    assert_eq!(found, vec!["Original datetime missing (may be stripped)"]);
    assert!(ExifExtractor::suspicious_indicators(&None, &date, &date, &None).is_empty());
    assert!(ExifExtractor::suspicious_indicators(&None, &None, &None, &date).is_empty());
}

#[test]
fn differing_dates_are_suspicious() {
    let taken = some("2024:01:01 10:00:00");
    let scanned = some("2024:02:01 10:00:00");
    let found = ExifExtractor::suspicious_indicators(&None, &None, &taken, &scanned);
    assert_eq!(found, vec!["Inconsistent date time values"]);
    assert!(ExifExtractor::suspicious_indicators(&None, &None, &taken, &taken).is_empty());
}

#[test]
fn indicators_come_in_a_fixed_order() {
    let found = ExifExtractor::suspicious_indicators(
        &some("Photoshop"),
        &some("a"),
        &None,
        &some("b"),
    );
    assert_eq!(
        found,
        vec!["Edited with: Photoshop", "Original datetime missing (may be stripped)"]
    );
    let found =
        ExifExtractor::suspicious_indicators(&some("gimp"), &some("a"), &some("a"), &some("b"));
    assert_eq!(found, vec!["Edited with: gimp", "Inconsistent date time values"]);
}

#[test]
fn the_report_names_the_camera_by_model_before_make() {
    let section = MetadataReportSection::new(some("Acme"), some("X100"), some("fw"), vec![]);
    assert_eq!(section.camera_info, some("X100"));
    assert_eq!(section.software, some("fw"));
    let section = MetadataReportSection::new(some("Acme"), None, None, vec![String::from("x")]);
    assert_eq!(section.camera_info, some("Acme"));
    assert_eq!(section.suspicious_indicators, vec!["x"]);
    assert_eq!(MetadataReportSection::new(None, None, None, vec![]).camera_info, None);
}

#[test]
fn patterns_are_counted() {
    let blocks = vec![
        block(0, 0, CfaPattern::RGGB, 0),
        block(0, 0, CfaPattern::GBRG, 0),
        block(0, 0, CfaPattern::RGGB, 0),
        block(0, 0, CfaPattern::Unknown, 0),
    ];
    let stats = calculate_pattern_stats(&blocks);
    assert_eq!(
        stats,
        CfaPatternStats {
            rggb_count: 2,
            bggr_count: 0,
            grbg_count: 0,
            gbrg_count: 1,
            unknown_count: 1
        }
    );
    assert_eq!(calculate_pattern_stats(&vec![]), CfaPatternStats::default());
    let (pattern, share) = determine_dominant_pattern(&stats);
    assert_eq!(pattern, CfaPattern::RGGB);
    assert_eq!(share.ppm(), 500_000);
    assert_eq!(calculate_consistency_score(&blocks, CfaPattern::RGGB).ppm(), 500_000);
    assert_eq!(calculate_consistency_score(&blocks, CfaPattern::BGGR).ppm(), 0);
    assert_eq!(calculate_consistency_score(&vec![], CfaPattern::BGGR).ppm(), 1_000_000);
}

#[test]
fn of_equally_frequent_patterns_the_last_is_dominant() {
    let stats = |r, b, g, x, u| CfaPatternStats {
        rggb_count: r,
        bggr_count: b,
        grbg_count: g,
        gbrg_count: x,
        unknown_count: u,
    };
    assert_eq!(determine_dominant_pattern(&stats(2, 2, 1, 0, 9)).0, CfaPattern::BGGR);
    assert_eq!(determine_dominant_pattern(&stats(2, 2, 2, 2, 0)).0, CfaPattern::GBRG);
    assert_eq!(determine_dominant_pattern(&stats(3, 1, 3, 0, 0)).0, CfaPattern::GRBG);
    assert_eq!(determine_dominant_pattern(&stats(0, 0, 0, 0, 4)).0, CfaPattern::GBRG);
    assert_eq!(determine_dominant_pattern(&stats(0, 0, 0, 0, 4)).1.ppm(), 0);
    assert_eq!(determine_dominant_pattern(&stats(1, 0, 0, 0, 2)).1.ppm(), 333_333);
    let none = determine_dominant_pattern(&stats(0, 0, 0, 0, 0));
    assert_eq!((none.0, none.1.ppm()), (CfaPattern::Unknown, 0));
}

#[test]
fn departing_blocks_are_merged_with_half_a_block_of_gap() {
    let threshold = Score::from_ppm(300_000).unwrap();
    let blocks = vec![
        block(0, 0, CfaPattern::BGGR, 900_000),
        block(48, 0, CfaPattern::BGGR, 900_000),
        block(200, 200, CfaPattern::GRBG, 300_001),
        block(300, 0, CfaPattern::GRBG, 300_000),
        block(400, 0, CfaPattern::RGGB, 900_000),
    ];
    let found = find_inconsistent_regions(&blocks, CfaPattern::RGGB, threshold, 32);
    assert_eq!(
        found,
        vec![
            SRegion { x: 0, y: 0, width: 80, height: 32 },
            SRegion { x: 200, y: 200, width: 32, height: 32 }
        ]
    );
}

#[test]
fn the_dominant_direction_bin_is_the_last_highest() {
    let analyzer = LuminanceGradientAnalyzer::new(16);
    assert_eq!(analyzer.block_size(), 16);
    assert_eq!(analyzer.find_dominant_bin(&vec![]), 0);
    assert_eq!(analyzer.find_dominant_bin(&vec![3, 9, 2, 9, 1]), 3);
    assert_eq!(analyzer.find_dominant_bin(&vec![0, 0, 0]), 2);
    assert_eq!(analyzer.find_dominant_bin(&vec![5, 1]), 0);
}

#[test]
fn a_block_departs_when_enough_strong_pixels_point_elsewhere() {
    let analyzer = LuminanceGradientAnalyzer::new(16);
    // More than 64 strong pixels are needed.
    assert!(!analyzer.is_inconsistent_block(64, 64 * 200, 100));
    assert!(analyzer.is_inconsistent_block(65, 65 * 200, 100));
    assert!(!analyzer.is_inconsistent_block(65, 65 * 132, 100));
    assert!(analyzer.is_inconsistent_block(65, 65 * 133, 100));
    assert!(analyzer.is_inconsistent_block(65, 65 * 10, 233));
    assert!(!analyzer.is_inconsistent_block(65, 65 * 10, 234));
    assert!(!analyzer.is_inconsistent_block(0, 0, 0));
    assert!(analyzer.is_inconsistent_block(65, 65 * 100, -1));
}
