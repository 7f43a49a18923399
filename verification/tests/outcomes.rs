use image_forensics::analysis::copy_move::MatchPair;
use image_forensics::analysis::ela::{analyze, evidence_from};
use image_forensics::analysis::jpeg_analysis::{
    calculate_image_difference, create_difference_map, ghost_from, measure_trials, pick_quality,
    quality_sweep, recompress, recompressions, sum_of_pixels, JpegAnalyzer,
};
use image_forensics::detection::splicing::SplicingDetector;
use image_forensics::detection::tampering::{fuse, Anomaly, PartOutcome};
use image_forensics::detection::ManipulationType;
use image_forensics::error::ForensicsError;
use image_forensics::raster::RgbRaster;
use image_forensics::score::Score;
use image_forensics::SRegion;

fn scene(width: u32, height: u32) -> RgbRaster {
    let mut data = Vec::new();
    for y in 0..height {
        for x in 0..width {
            data.push(((x * 7 + y * 3) % 256) as u8);
            data.push(((x * 2 + y * 11) % 256) as u8);
            data.push(((x * y + 40) % 256) as u8);
        }
    }
    RgbRaster::from_raw(width, height, data).unwrap()
}

fn shifted(image: &RgbRaster, by: u8) -> RgbRaster {
    let data = image.as_raw().iter().map(|&b| b.saturating_add(by)).collect();
    RgbRaster::from_raw(image.width(), image.height(), data).unwrap()
}

fn score(ppm: u32) -> Score {
    Score::from_ppm(ppm).unwrap()
}

#[test]
fn error_level_evidence_is_taken_from_the_given_recompression() {
    let image = scene(32, 16);
    let other = shifted(&image, 3);
    let found = evidence_from(&image, other.duplicate(), 10_000).unwrap();
    assert_eq!(found.recompressed.as_raw(), other.as_raw());
    assert_eq!(found.total, calculate_image_difference(&image, &other));
    assert!(found.levels.iter().all(|&l| l <= 9));
    assert_eq!(found.max_level, 9);
    assert_eq!(found.difference_map.as_raw()[0], 30);
    let same = evidence_from(&image, image.duplicate(), 10_000).unwrap();
    assert_eq!(same.total, 0);
    assert!(same.suspicious_regions.is_empty());
}

#[test]
fn the_error_level_analysis_is_the_evidence_from_its_recompression() {
    let image = scene(32, 16);
    let found = analyze(&image, 80, 10_000).unwrap();
    let again = evidence_from(&image, recompress(&image, 80).unwrap(), 10_000).unwrap();
    assert_eq!(found.levels, again.levels);
    assert_eq!(found.suspicious_regions, again.suspicious_regions);
}

#[test]
fn no_quality_gives_no_recompression() {
    let image = scene(8, 8);
    assert!(recompressions(&image, &Vec::new()).unwrap().is_empty());
    assert!(matches!(
        recompressions(&image, &vec![50, 0]),
        Err(ForensicsError::InvalidParameter(_))
    ));
    let two = recompressions(&image, &vec![50, 90]).unwrap();
    assert_eq!(two.len(), 2);
    assert_eq!(two[1].as_raw(), recompress(&image, 90).unwrap().as_raw());
}

#[test]
fn trials_measure_the_given_recompressions() {
    let image = scene(8, 4);
    let rasters = vec![shifted(&image, 5), shifted(&image, 1), shifted(&image, 2)];
    let trials = measure_trials(&image, &vec![50, 55, 60], &rasters);
    let totals: Vec<u128> = trials.iter().map(|t| t.total).collect();
    assert_eq!(totals[1], calculate_image_difference(&image, &rasters[1]));
    assert!(totals[1] < totals[2] && totals[2] < totals[0]);
    assert_eq!(trials.iter().map(|t| t.quality).collect::<Vec<u8>>(), vec![50, 55, 60]);
    assert_eq!(pick_quality(&trials, image.as_raw().len()), 55);
}

#[test]
fn the_ghost_is_searched_among_the_given_recompressions() {
    let image = scene(8, 4);
    let rasters =
        vec![shifted(&image, 6), shifted(&image, 3), shifted(&image, 3), shifted(&image, 0)];
    let (trials, best) = ghost_from(&image, &vec![80, 85, 90, 95], &rasters);
    assert_eq!(trials.len(), 4);
    for (k, t) in trials.iter().enumerate() {
        assert_eq!(t.total, sum_of_pixels(&create_difference_map(&image, &rasters[k])));
    }
    let best = best.unwrap();
    assert_eq!(best.quality, 85);
    assert_eq!(best.total, trials[1].total);
    assert_eq!(best.map.as_raw(), create_difference_map(&image, &rasters[1]).as_raw());
    let (_, none) = ghost_from(&image, &vec![95], &vec![shifted(&image, 0)]);
    assert!(none.is_none());
}

#[test]
fn jpeg_evidence_is_taken_from_the_given_recompressions() {
    let image = scene(16, 8);
    let analyzer = JpegAnalyzer::new();
    let quality_rasters: Vec<RgbRaster> =
        (0..10u8).map(|k| shifted(&image, if k == 4 { 1 } else { 2 + k })).collect();
    let ghost_rasters: Vec<RgbRaster> =
        (0..8u8).map(|k| shifted(&image, if k == 2 { 3 } else { 9 })).collect();
    let found = analyzer.evidence_from(&image, &quality_rasters, &ghost_rasters);
    assert_eq!(found.quality_estimate, 70);
    assert_eq!(found.trials[4].total, calculate_image_difference(&image, &quality_rasters[4]));
    assert_eq!(found.ghost_trials.len(), 8);
    assert_eq!(found.ghost_trials[0].quality, 60);
    let best = found.best_ghost.as_ref().unwrap();
    assert_eq!(best.quality, 70);
    assert_eq!(best.map.as_raw(), create_difference_map(&image, &ghost_rasters[2]).as_raw());
    assert!(found.ghost_detected);
    assert_eq!(quality_sweep(50, 100, 5).len(), quality_rasters.len());
}

#[test]
fn the_splicing_report_is_made_from_the_given_recompression() {
    let image = scene(48, 32);
    let detector = SplicingDetector::new();
    let report = detector.report_from(&image, shifted(&image, 2)).unwrap();
    assert_eq!(report.ela.total, calculate_image_difference(&image, &shifted(&image, 2)));
    let direct = detector.analyze(&image).unwrap();
    let again = detector.report_from(&image, recompress(&image, 95).unwrap()).unwrap();
    assert_eq!(direct.ela.levels, again.ela.levels);
    assert_eq!(direct.result.manipulations.len(), again.result.manipulations.len());
}

fn pair() -> MatchPair {
    MatchPair {
        source: SRegion { x: 0, y: 0, width: 16, height: 16 },
        target: SRegion { x: 64, y: 64, width: 16, height: 16 },
        similarity: score(950_000),
    }
}

#[test]
fn a_failed_part_counts_as_one_that_found_nothing() {
    let image = scene(8, 8);
    let result = fuse(
        &image,
        PartOutcome::Found(vec![pair()]),
        PartOutcome::Failed(ForensicsError::AnalysisFailed("splicing".to_string())),
        PartOutcome::Off,
        PartOutcome::Failed(ForensicsError::ImageTooSmall(64)),
        score(300_000),
    )
    .unwrap();
    assert_eq!(result.manipulations.len(), 2);
    assert_eq!(result.manipulations[0].manipulation_type, ManipulationType::CopyMove);
    assert!(result.is_manipulated);
}

#[test]
fn when_every_part_fails_the_first_failure_is_returned() {
    let image = scene(8, 8);
    let result = fuse(
        &image,
        PartOutcome::Off,
        PartOutcome::Failed(ForensicsError::AnalysisFailed("splicing".to_string())),
        PartOutcome::Failed(ForensicsError::ImageTooSmall(64)),
        PartOutcome::Failed(ForensicsError::InvalidParameter("quality".to_string())),
        score(300_000),
    );
    match result {
        Err(ForensicsError::AnalysisFailed(msg)) => assert_eq!(msg, "splicing"),
        _ => panic!("the first failure is owed"),
    }
}

#[test]
fn with_every_part_off_nothing_is_reported() {
    let image = scene(8, 8);
    let result = fuse(
        &image,
        PartOutcome::Off,
        PartOutcome::Off,
        PartOutcome::Off,
        PartOutcome::Off,
        score(300_000),
    )
    .unwrap();
    assert!(result.manipulations.is_empty());
    assert!(!result.is_manipulated);
}

#[test]
fn found_anomalies_and_compression_are_reported_beside_a_failure() {
    let image = scene(8, 8);
    let anomaly = Anomaly { region: SRegion { x: 0, y: 0, width: 4, height: 4 }, score: score(800_000) };
    let result = fuse(
        &image,
        PartOutcome::Failed(ForensicsError::ImageTooSmall(32)),
        PartOutcome::Off,
        PartOutcome::Found((vec![anomaly], vec![])),
        PartOutcome::Found((score(700_000), 85)),
        score(300_000),
    )
    .unwrap();
    assert_eq!(result.manipulations.len(), 2);
    assert_eq!(result.manipulations[0].manipulation_type, ManipulationType::Retouching);
    assert_eq!(result.manipulations[1].manipulation_type, ManipulationType::Unknown);
}
