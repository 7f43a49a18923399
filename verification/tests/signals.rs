use image_forensics::detection::signals::{
    analyze_color_consistency, calculate_color_histogram, calculate_regularity,
    find_unnatural_edges,
};
use image_forensics::detection::splicing::{SplicingConfig, SplicingDetector};
use image_forensics::detection::{Detector, ManipulationType};
use image_forensics::error::ForensicsError;
use image_forensics::raster::{GrayRaster, RgbRaster};
use image_forensics::score::Score;
use image_forensics::SRegion;

fn colour(width: u32, height: u32, f: fn(u32, u32) -> [u8; 3]) -> RgbRaster {
    let mut data = Vec::new();
    for y in 0..height {
        for x in 0..width {
            data.extend_from_slice(&f(x, y));
        }
    }
    RgbRaster::from_raw(width, height, data).unwrap()
}

fn gray(width: u32, height: u32, f: fn(u32, u32) -> u8) -> GrayRaster {
    let mut data = Vec::new();
    for y in 0..height {
        for x in 0..width {
            data.push(f(x, y));
        }
    }
    GrayRaster::from_raw(width, height, data).unwrap()
}

fn score(ppm: u32) -> Score {
    Score::from_ppm(ppm).unwrap()
}

fn float_regularity(values: &[f64]) -> f64 {
    if values.len() < 3 {
        return 0.0;
    }
    let mean = values.iter().sum::<f64>() / values.len() as f64;
    if mean < 10.0 {
        return 0.0;
    }
    let threshold = mean * 1.5;
    let peaks: Vec<usize> =
        values.iter().enumerate().filter(|&(_, v)| *v > threshold).map(|(i, _)| i).collect();
    if peaks.len() < 2 {
        return 0.0;
    }
    let intervals: Vec<usize> = (1..peaks.len()).map(|i| peaks[i] - peaks[i - 1]).collect();
    let mean_interval = intervals.iter().map(|&i| i as f64).sum::<f64>() / intervals.len() as f64;
    let variance = intervals.iter().map(|&i| (i as f64 - mean_interval).powi(2)).sum::<f64>()
        / intervals.len() as f64;
    1.0 / (1.0 + variance.sqrt())
}

#[test]
fn colours_are_counted_in_bins_of_32() {
    let image = colour(2, 2, |x, y| match (x, y) {
        (0, 0) => [0, 0, 0],
        (1, 0) => [31, 31, 31],
        (0, 1) => [255, 0, 32],
        _ => [32, 64, 96],
    });
    let h = calculate_color_histogram(&image, &SRegion { x: 0, y: 0, width: 2, height: 2 });
    assert_eq!(h.len(), 512);
    assert_eq!(h[0], 2);
    assert_eq!(h[7 * 64 + 1], 1);
    assert_eq!(h[64 + 2 * 8 + 3], 1);
    assert_eq!(h.iter().sum::<u64>(), 4);
    let part = calculate_color_histogram(&image, &SRegion { x: 1, y: 0, width: 1, height: 2 });
    assert_eq!(part[0], 1);
    assert_eq!(part.iter().sum::<u64>(), 2);
}

#[test]
fn a_block_departs_when_its_colours_differ_from_the_image() {
    // Red on the left three quarters, blue on the right quarter.
    let image = colour(64, 16, |x, _| if x < 48 { [250, 0, 0] } else { [0, 0, 250] });
    let found = analyze_color_consistency(&image, 16, score(500_000)).unwrap();
    // A red block differs from the image by 0.25, the blue block by 0.75;
    // the threshold is 0.15.
    assert_eq!(found.suspicious_regions.len(), 4);
    assert_eq!(found.inconsistency_map.dimensions(), (64, 16));
    assert_eq!(found.inconsistency_map.get_pixel(0, 0), 31);
    assert_eq!(found.inconsistency_map.get_pixel(47, 15), 31);
    assert_eq!(found.inconsistency_map.get_pixel(48, 0), 95);
    // With a sensitivity of one the threshold is 0.3.
    let strict = analyze_color_consistency(&image, 16, score(1_000_000)).unwrap();
    assert_eq!(strict.suspicious_regions, vec![SRegion { x: 48, y: 0, width: 16, height: 16 }]);
    assert_eq!(strict.inconsistency_map.get_pixel(48, 0), 191);
    // A difference of exactly the threshold does not count.
    let edge = analyze_color_consistency(&image, 16, score(833_334)).unwrap();
    assert_eq!(edge.suspicious_regions.len(), 1);
    let below = analyze_color_consistency(&image, 16, score(833_333)).unwrap();
    assert_eq!(below.suspicious_regions.len(), 4);
    let plain = colour(40, 20, |_, _| [9, 9, 9]);
    let calm = analyze_color_consistency(&plain, 16, score(1)).unwrap();
    assert!(calm.suspicious_regions.is_empty());
    assert_eq!(calm.inconsistency_map.into_raw(), vec![0; 800]);
}

#[test]
fn the_colour_analysis_needs_a_block_size() {
    let image = colour(4, 4, |_, _| [1, 2, 3]);
    match analyze_color_consistency(&image, 0, score(500_000)) {
        Err(ForensicsError::InvalidParameter(msg)) => assert_eq!(msg, "Block size must be positive"),
        _ => panic!("a block size of zero was accepted"),
    }
    let empty = RgbRaster::new(0, 0).unwrap();
    assert!(analyze_color_consistency(&empty, 8, score(500_000)).unwrap().suspicious_regions.is_empty());
}

#[test]
fn peaks_at_equal_intervals_are_regular() {
    assert!(calculate_regularity(&vec![100, 0, 0, 100, 0, 0, 100, 0, 0]));
    assert!(!calculate_regularity(&vec![100, 100, 0, 0, 0, 0, 100, 0, 0]));
    assert!(!calculate_regularity(&vec![9, 0, 0, 9, 0, 0, 9, 0, 0]));
    assert!(calculate_regularity(&vec![30, 0, 0, 30, 0, 0, 30, 0, 0]));
    assert!(!calculate_regularity(&vec![29, 0, 0, 30, 0, 0, 30, 0, 0, 0]));
    assert!(!calculate_regularity(&vec![100, 100]));
    assert!(!calculate_regularity(&vec![100, 0, 0, 0]));
    assert!(!calculate_regularity(&vec![50, 50, 50, 50]));
    assert!(!calculate_regularity(&vec![]));
    // Six intervals of one and one of two have a variance of 6 / 49; four of
    // one and three of two have 12 / 49. The bound is 9 / 49.
    let run = |intervals: &[usize]| {
        let mut values = vec![1000u64];
        for &d in intervals {
            for _ in 1..d {
                values.push(0);
            }
            values.push(1000);
        }
        for _ in 0..12 {
            values.push(0);
        }
        values
    };
    assert!(calculate_regularity(&run(&[1, 1, 1, 2, 1, 1, 1])));
    assert!(!calculate_regularity(&run(&[1, 2, 1, 2, 1, 2, 1])));
}

#[test]
fn regularity_agrees_with_double_precision() {
    let mut state = 12345u32;
    for n in 3..60usize {
        let values: Vec<u64> = (0..n)
            .map(|_| {
                state = state.wrapping_mul(1_103_515_245).wrapping_add(12_345);
                if (state >> 16) % 4 == 0 {
                    ((state >> 8) % 4000) as u64
                } else {
                    ((state >> 8) % 40) as u64
                }
            })
            .collect();
        let floats: Vec<f64> = values.iter().map(|&v| v as f64).collect();
        assert_eq!(calculate_regularity(&values), float_regularity(&floats) > 0.7);
    }
}

#[test]
fn stripes_make_unnatural_edges() {
    let stripes = gray(32, 16, |x, _| if x < 16 && x % 4 == 0 { 255 } else { 0 });
    assert_eq!(
        find_unnatural_edges(&stripes, 16),
        vec![SRegion { x: 0, y: 0, width: 16, height: 16 }]
    );
    let bars = gray(16, 32, |_, y| if y >= 16 && y % 5 == 0 { 200 } else { 0 });
    assert_eq!(
        find_unnatural_edges(&bars, 16),
        vec![SRegion { x: 0, y: 16, width: 16, height: 16 }]
    );
    assert!(find_unnatural_edges(&gray(32, 32, |_, _| 255), 16).is_empty());
    assert!(find_unnatural_edges(&gray(32, 32, |x, y| ((x * y) % 7) as u8), 16).is_empty());
}

fn scene() -> RgbRaster {
    colour(64, 48, |x, y| {
        if x >= 32 && y >= 16 && x < 48 && y < 32 {
            [(x * 4 % 256) as u8, 250, (y * 5 % 256) as u8]
        } else {
            [(40 + x + y) as u8, (200 - x) as u8, (90 + y) as u8]
        }
    })
}

#[test]
fn the_splicing_detector_rejects_a_bad_configuration() {
    let image = scene();
    let mut config = SplicingConfig::default();
    config.block_size = 0;
    assert!(matches!(
        SplicingDetector::with_config(config).analyze(&image),
        Err(ForensicsError::InvalidParameter(_))
    ));
    let mut config = SplicingConfig::default();
    config.ela_quality = 0;
    assert!(matches!(
        SplicingDetector::with_config(config).analyze(&image),
        Err(ForensicsError::InvalidParameter(_))
    ));
    let detector = SplicingDetector::default();
    assert_eq!(detector.name(), "Splicing Detector");
    assert!(detector.description().starts_with("Detects regions that appear to be spliced"));
}

#[test]
fn the_splicing_detector_reports_the_fused_detections() {
    let image = scene();
    let mut config = SplicingConfig::default();
    config.min_region_size = 1;
    let report = SplicingDetector::with_config(config).analyze(&image).unwrap();
    assert_eq!(report.result.manipulations.len(), report.fusion.detections.len());
    assert_eq!(report.result.visualization.dimensions(), (64, 48));
    assert_eq!(report.noise.noise_map.dimensions(), (64, 48));
    assert_eq!(report.ela.recompressed.dimensions(), (64, 48));
    for (m, d) in report.result.manipulations.iter().zip(report.fusion.detections.iter()) {
        assert_eq!(m.manipulation_type, ManipulationType::Splicing);
        assert_eq!(m.region, d.region);
        assert_eq!(m.confidence, d.score);
        assert!(m.confidence.ppm() >= 500_000);
        assert!(m.evidence.len() >= 2);
        assert_eq!(m.evidence[0], "Color histogram inconsistency");
        assert!(m.region.is_within(64, 48));
    }
    for c in &report.fusion.candidates {
        assert!(report.color_regions.contains(&c.region));
    }
    let scores: Vec<u32> = report.result.manipulations.iter().map(|m| m.confidence.ppm()).collect();
    if scores.is_empty() {
        assert_eq!(report.result.overall_score.ppm(), 0);
        assert_eq!(report.result.visualization.as_raw(), image.as_raw());
    } else {
        let mean = scores.iter().map(|&s| s as u64).sum::<u64>() / scores.len() as u64;
        assert_eq!(report.result.overall_score.ppm() as u64, mean);
    }
    assert_eq!(report.result.is_manipulated, report.result.overall_score.ppm() > 300_000);
    let again = SplicingDetector::with_config(config).analyze(&image).unwrap();
    let result = SplicingDetector::with_config(config).detect(&image).unwrap();
    assert_eq!(result.manipulations.len(), report.result.manipulations.len());
    assert_eq!(result.overall_score, report.result.overall_score);
    assert_eq!(again.color_regions, report.color_regions);
    assert_eq!(again.edge_regions, report.edge_regions);
    assert_eq!(again.fusion.detections, report.fusion.detections);
}

fn scene_with_a_splice() -> RgbRaster {
    // A smooth scene with a 32 x 32 patch of busy texture at (48, 32).
    let mut state = 0x9e37_79b9u32;
    let mut data = Vec::new();
    for y in 0..96u32 {
        for x in 0..128u32 {
            if x >= 48 && x < 80 && y >= 32 && y < 64 {
                for _ in 0..3 {
                    state = state.wrapping_mul(1_664_525).wrapping_add(1_013_904_223);
                    data.push((state >> 24) as u8);
                }
            } else {
                data.extend_from_slice(&[(60 + x / 4) as u8, (120 + y / 4) as u8, 200]);
            }
        }
    }
    RgbRaster::from_raw(128, 96, data).unwrap()
}

#[test]
fn a_spliced_patch_is_detected() {
    let image = scene_with_a_splice();
    let report = SplicingDetector::new().analyze(&image).unwrap();
    // The blocks of the patch are reported one by one: blocks that touch do
    // not overlap and are not merged.
    let mut covered = 0u32;
    for m in &report.result.manipulations {
        let inside = m.region.x >= 48
            && m.region.y >= 32
            && m.region.x + m.region.width <= 80
            && m.region.y + m.region.height <= 64;
        if inside {
            assert_eq!(m.manipulation_type, ManipulationType::Splicing);
            assert!(m.evidence.len() >= 2);
            assert!(m.confidence.ppm() >= 500_000);
            covered += m.region.width * m.region.height;
        }
    }
    assert!(2 * covered >= 32 * 32);
    assert!(report.result.is_manipulated);
}
