use image_forensics::analysis::ela::{
    amplified_image, amplified_map, analyze, analyze_error_levels, error_levels,
    find_suspicious_blocks, level_moments, max_level, merge_suspicious_regions, ElaAnalyzer,
};
use image_forensics::analysis::jpeg_analysis::{
    accept_decoded, analyze_blocking_artifacts, byte_distance, calculate_image_difference,
    create_difference_map, energy_histogram, first_lowest, ghost_detected, pick_quality,
    quality_sweep, recompress, sum_of_pixels, update_ghost, GhostCandidate, JpegAnalyzer,
    QualityTrial,
};
use image_forensics::error::ForensicsError;
use image_forensics::raster::{GrayRaster, RgbRaster};
use image_forensics::SRegion;

fn gray(width: u32, height: u32, f: fn(u32, u32) -> u8) -> GrayRaster {
    let mut data = Vec::new();
    for y in 0..height {
        for x in 0..width {
            data.push(f(x, y));
        }
    }
    GrayRaster::from_raw(width, height, data).unwrap()
}

fn photo(width: u32, height: u32) -> RgbRaster {
    let mut data = Vec::new();
    for y in 0..height {
        for x in 0..width {
            data.push((40 + 3 * x + y) as u8);
            data.push((200 - 2 * x + y / 2) as u8);
            data.push((90 + x / 2 + 2 * y) as u8);
        }
    }
    RgbRaster::from_raw(width, height, data).unwrap()
}

#[test]
fn the_distance_of_two_bytes_has_no_sign() {
    assert_eq!(byte_distance(3, 250), 247);
    assert_eq!(byte_distance(250, 3), 247);
    assert_eq!(byte_distance(9, 9), 0);
}

#[test]
fn the_difference_map_holds_the_mean_channel_distance() {
    let a = RgbRaster::from_raw(2, 1, vec![10, 20, 30, 0, 0, 0]).unwrap();
    let b = RgbRaster::from_raw(2, 1, vec![13, 20, 25, 255, 255, 254]).unwrap();
    let map = create_difference_map(&a, &b);
    assert_eq!(map.dimensions(), (2, 1));
    assert_eq!(map.into_raw(), vec![2, 254]);
    assert_eq!(calculate_image_difference(&a, &b), 3 + 5 + 255 + 255 + 254);
    assert_eq!(error_levels(&a, &b), vec![8, 764]);
    assert_eq!(max_level(&vec![8, 764, 3]), 764);
    assert_eq!(max_level(&vec![]), 0);
}

#[test]
fn pixels_sum_up() {
    assert_eq!(sum_of_pixels(&gray(3, 2, |x, y| (x + 10 * y) as u8)), 0 + 1 + 2 + 10 + 11 + 12);
    assert_eq!(sum_of_pixels(&GrayRaster::new(0, 5).unwrap()), 0);
}

#[test]
fn blocking_artifacts_show_on_the_eight_pixel_grid() {
    let g = gray(17, 17, |x, y| ((x * x + 3 * y) % 251) as u8);
    let map = analyze_blocking_artifacts(&g);
    assert_eq!(map.dimensions(), (17, 17));
    let p = |x: u32, y: u32| ((x * x + 3 * y) % 251) as i32;
    for y in 0..17u32 {
        for x in 0..17u32 {
            let column = x > 0 && x % 8 == 0;
            let row = y > 0 && y % 8 == 0;
            let left = (p(x.max(1) - 1, y) - p(x, y)).abs();
            let up = (p(x, y.max(1) - 1) - p(x, y)).abs();
            let expected = match (column, row) {
                (true, true) => (left + up) / 2,
                (true, false) => left,
                (false, true) => up,
                (false, false) => 0,
            };
            assert_eq!(map.get_pixel(x, y) as i32, expected);
        }
    }
    assert_eq!(map.get_pixel(0, 0), 0);
    assert_eq!(map.get_pixel(8, 3), (64 + 9 - (49 + 9)) as u8);
}

#[test]
fn blocking_artifacts_agree_with_double_precision() {
    let g = gray(24, 17, |x, y| ((x * 53 + y * 97 + x * y) % 256) as u8);
    let map = analyze_blocking_artifacts(&g);
    for y in 0..17u32 {
        for x in 0..24u32 {
            let mut diff = 0.0f64;
            let mut count = 0;
            if x > 0 && x % 8 == 0 {
                diff += (g.get_pixel(x - 1, y) as f64 - g.get_pixel(x, y) as f64).abs();
                count += 1;
            }
            if y > 0 && y % 8 == 0 {
                diff += (g.get_pixel(x, y - 1) as f64 - g.get_pixel(x, y) as f64).abs();
                count += 1;
            }
            let expected = if count > 0 { (diff / count as f64).min(255.0) as u8 } else { 0 };
            assert_eq!(map.get_pixel(x, y), expected);
        }
    }
}

#[test]
fn block_energies_are_counted_by_bin() {
    // 24 x 24: corners at 0 and 8 in each axis, four blocks.
    let flat = gray(24, 24, |_, _| 100);
    let h = energy_histogram(&flat);
    assert_eq!(h[0], 4);
    assert_eq!(h.iter().sum::<u64>(), 4);
    let board = gray(24, 24, |x, y| if (x + y) % 2 == 0 { 0 } else { 255 });
    // Diagonal neighbours on a chessboard are equal.
    assert_eq!(energy_histogram(&board)[0], 4);
    let stripes = gray(24, 24, |x, _| if x % 2 == 0 { 0 } else { 255 });
    let h = energy_histogram(&stripes);
    assert_eq!(h[255], 4);
    let ramp = gray(24, 24, |x, _| (10 * x) as u8);
    assert_eq!(energy_histogram(&ramp)[10], 4);
    assert_eq!(energy_histogram(&gray(8, 100, |_, _| 1)).iter().sum::<u64>(), 0);
    assert_eq!(energy_histogram(&gray(9, 9, |_, _| 1)).iter().sum::<u64>(), 1);
    assert_eq!(energy_histogram(&gray(17, 9, |_, _| 1)).iter().sum::<u64>(), 2);
}

#[test]
fn the_first_lowest_total_wins() {
    assert_eq!(first_lowest(&vec![]), None);
    assert_eq!(first_lowest(&vec![5]), Some(0));
    assert_eq!(first_lowest(&vec![9, 4, 7, 4, 8]), Some(1));
    assert_eq!(first_lowest(&vec![3, 3, 3]), Some(0));
    assert_eq!(first_lowest(&vec![9, 8, 7]), Some(2));
}

#[test]
fn the_quality_estimate_is_the_closest_recompression() {
    let trial = |quality: u8, total: u128| QualityTrial { quality, total };
    let trials = vec![trial(50, 900), trial(55, 300), trial(60, 300), trial(65, 301)];
    assert_eq!(pick_quality(&trials, 12), 55);
    assert_eq!(pick_quality(&trials, 0), 75);
    assert_eq!(pick_quality(&vec![], 12), 75);
}

#[test]
fn qualities_are_swept_in_steps() {
    assert_eq!(quality_sweep(50, 100, 5), vec![50, 55, 60, 65, 70, 75, 80, 85, 90, 95]);
    assert_eq!(quality_sweep(60, 100, 5), vec![60, 65, 70, 75, 80, 85, 90, 95]);
    assert_eq!(quality_sweep(60, 61, 5), vec![60]);
    assert_eq!(quality_sweep(60, 60, 5), Vec::<u8>::new());
    assert_eq!(quality_sweep(250, 255, 3), vec![250, 253]);
}

#[test]
fn a_ghost_is_the_lowest_difference_below_quality_95() {
    let dark = || gray(2, 2, |_, _| 3);
    let bright = || gray(2, 2, |_, _| 200);
    let best = update_ghost(None, 60, bright());
    assert_eq!(best.as_ref().unwrap().quality, 60);
    assert_eq!(best.as_ref().unwrap().total, 800);
    assert!(!ghost_detected(&best));
    let best = update_ghost(best, 75, dark());
    assert_eq!(best.as_ref().unwrap().quality, 75);
    assert_eq!(best.as_ref().unwrap().total, 12);
    // An equal difference does not replace the earlier quality.
    let best = update_ghost(best, 80, dark());
    assert_eq!(best.as_ref().unwrap().quality, 75);
    // Quality 95 is never a candidate.
    let best = update_ghost(best, 95, gray(2, 2, |_, _| 0));
    assert_eq!(best.as_ref().unwrap().quality, 75);
    assert!(ghost_detected(&best));
    assert_eq!(best.unwrap().map.into_raw(), vec![3; 4]);
    assert!(update_ghost(None, 60, GrayRaster::new(0, 0).unwrap()).is_none());
    assert!(!ghost_detected(&None));
}

#[test]
fn a_ghost_needs_a_mean_difference_below_5() {
    let candidate = |quality: u8, total: u128| {
        Some(GhostCandidate { quality, total, map: GrayRaster::new(2, 2).unwrap() })
    };
    assert!(ghost_detected(&candidate(85, 19)));
    assert!(!ghost_detected(&candidate(85, 20)));
    assert!(ghost_detected(&candidate(90, 0)));
    assert!(!ghost_detected(&candidate(60, 1000)));
}

#[test]
fn recompression_rejects_a_quality_outside_1_to_100() {
    let image = photo(16, 16);
    for bad in [0u8, 101, 255] {
        match recompress(&image, bad) {
            Err(ForensicsError::InvalidParameter(msg)) => {
                assert_eq!(msg, "JPEG quality must be between 1 and 100")
            }
            _ => panic!("quality {} was accepted", bad),
        }
        assert!(matches!(
            analyze_error_levels(&image, bad),
            Err(ForensicsError::InvalidParameter(_))
        ));
    }
}

#[test]
fn recompression_keeps_the_size_and_stays_close_at_high_quality() {
    let image = photo(32, 24);
    let high = recompress(&image, 100).unwrap();
    assert_eq!(high.dimensions(), (32, 24));
    let low = recompress(&image, 10).unwrap();
    assert_eq!(low.dimensions(), (32, 24));
    let near = calculate_image_difference(&image, &high);
    let far = calculate_image_difference(&image, &low);
    // At quality 100 the mean channel distance stays below 2.
    assert!(near < 2 * 32 * 24 * 3);
    assert!(near < far);
    let (recompressed, levels) = analyze_error_levels(&image, 100).unwrap();
    assert_eq!(recompressed.as_raw(), high.as_raw());
    assert_eq!(levels.len(), 32 * 24);
    assert_eq!(levels.iter().map(|&v| v as u128).sum::<u128>(), near);
}

#[test]
fn recompression_fails_on_an_image_without_pixels() {
    let empty = RgbRaster::new(0, 0).unwrap();
    assert!(matches!(recompress(&empty, 90), Err(ForensicsError::ImageDecode(_))));
}

#[test]
fn the_jpeg_analysis_gives_maps_of_the_size_of_the_image() {
    let image = photo(40, 24);
    let analyzer = JpegAnalyzer::new();
    let found = analyzer.analyze(&image).unwrap();
    assert!(found.quality_estimate >= 50 && found.quality_estimate <= 95);
    assert_eq!(found.quality_estimate % 5, 0);
    assert_eq!(found.blocking_artifact_map.dimensions(), (40, 24));
    let qualities: Vec<u8> = found.trials.iter().map(|t| t.quality).collect();
    assert_eq!(qualities, vec![50, 55, 60, 65, 70, 75, 80, 85, 90, 95]);
    let lowest = found.trials.iter().map(|t| t.total).min().unwrap();
    let first = found.trials.iter().find(|t| t.total == lowest).unwrap();
    assert_eq!(found.quality_estimate, first.quality);
    assert_eq!(found.quality_estimate, pick_quality(&found.trials, image.as_raw().len()));
    assert_eq!(found.ghost_detected, ghost_detected(&found.best_ghost));
    let best = found.best_ghost.as_ref().unwrap();
    assert!(best.quality < 95);
    assert_eq!(best.map.dimensions(), (40, 24));
    assert_eq!(best.total, best.map.as_raw().iter().map(|&b| b as u128).sum::<u128>());
    assert_eq!(found.ghost_detected, best.total < 5 * 40 * 24);
    let swept = analyzer.sweep_ghost(&image).unwrap().unwrap();
    assert_eq!(swept.quality, best.quality);
    assert_eq!(swept.map.as_raw(), best.map.as_raw());
    let trials = analyzer.sweep_qualities(&image).unwrap();
    assert_eq!(trials.len(), 10);
    assert_eq!(trials[3].total, found.trials[3].total);
    assert_eq!(found.energy_histogram.iter().sum::<u64>(), 4 * 2);
    let again = JpegAnalyzer::default().analyze(&image).unwrap();
    assert_eq!(again.quality_estimate, found.quality_estimate);
    assert_eq!(again.blocking_artifact_map.as_raw(), found.blocking_artifact_map.as_raw());
    let (_, map) = analyzer.detect_ghost(&image).unwrap();
    assert_eq!(map.dimensions(), (40, 24));
    let q = analyzer.estimate_quality(&image).unwrap();
    assert_eq!(q, found.quality_estimate);
}

fn levels_with_one_loud_block(blocks: u32) -> Vec<u16> {
    let width = 16 * blocks;
    let mut levels = Vec::new();
    for _ in 0..16 {
        for x in 0..width {
            levels.push(if x < 16 { 300 } else { 0 });
        }
    }
    levels
}

#[test]
fn levels_are_summed_with_their_squares() {
    assert_eq!(level_moments(&vec![]), (0, 0));
    assert_eq!(level_moments(&vec![3, 4, 765]), (772, 9 + 16 + 585_225));
}

#[test]
fn a_block_is_suspicious_two_deviations_above_the_mean() {
    // One loud block among six lies more than two deviations above the
    // mean, one among five lies exactly two deviations above it.
    let six = levels_with_one_loud_block(6);
    assert_eq!(
        find_suspicious_blocks(&six, 96, 16),
        vec![SRegion { x: 0, y: 0, width: 16, height: 16 }]
    );
    let five = levels_with_one_loud_block(5);
    assert!(find_suspicious_blocks(&five, 80, 16).is_empty());
    assert!(find_suspicious_blocks(&vec![7; 40 * 20], 40, 20).is_empty());
    assert!(find_suspicious_blocks(&vec![], 0, 0).is_empty());
}

#[test]
fn suspicious_blocks_merge_across_a_gap_of_eight() {
    let blocks = vec![
        SRegion { x: 0, y: 0, width: 16, height: 16 },
        SRegion { x: 24, y: 0, width: 16, height: 16 },
        SRegion { x: 49, y: 0, width: 16, height: 16 },
    ];
    assert_eq!(
        merge_suspicious_regions(&blocks),
        vec![
            SRegion { x: 0, y: 0, width: 40, height: 16 },
            SRegion { x: 49, y: 0, width: 16, height: 16 }
        ]
    );
}

#[test]
fn the_error_level_analysis_measures_the_recompression() {
    let image = photo(48, 32);
    let found = analyze(&image, 90, 10_000).unwrap();
    assert_eq!(found.recompressed.dimensions(), (48, 32));
    assert_eq!(found.image.as_raw(), amplified_image(&image, &found.recompressed, 10_000).as_raw());
    assert_eq!(
        found.difference_map.as_raw(),
        amplified_map(&found.levels, 48, 32, 10_000).as_raw()
    );
    assert_eq!(found.levels, error_levels(&image, &found.recompressed));
    assert_eq!(found.max_level, max_level(&found.levels));
    assert_eq!((found.total, found.squares), level_moments(&found.levels));
    assert_eq!(found.total, calculate_image_difference(&image, &found.recompressed));
    let blocks = find_suspicious_blocks(&found.levels, 48, 32);
    assert_eq!(found.suspicious_regions, merge_suspicious_regions(&blocks));
    for r in &found.suspicious_regions {
        assert!(r.is_within(48, 32));
    }
    assert!(matches!(analyze(&image, 0, 10_000), Err(ForensicsError::InvalidParameter(_))));
    let by_analyzer = ElaAnalyzer::new(90).analyze(&image).unwrap();
    assert_eq!(by_analyzer.levels, found.levels);
    assert_eq!(by_analyzer.difference_map.as_raw(), found.difference_map.as_raw());
}

#[test]
fn test_ela_analyzer_creation() {
    let analyzer = ElaAnalyzer::new(95);
    assert_eq!(analyzer.quality, 95);
}

#[test]
fn a_new_error_level_analyzer_amplifies_ten_times() {
    let analyzer = ElaAnalyzer::new(95);
    assert_eq!(analyzer.amplification, 10_000);
    let other = analyzer.with_amplification(2_500);
    assert_eq!(other, ElaAnalyzer { quality: 95, amplification: 2_500 });
}

#[test]
fn channel_distances_are_amplified_and_kept_to_a_byte() {
    let first = RgbRaster::from_raw(2, 1, vec![10, 20, 30, 200, 0, 7]).unwrap();
    let second = RgbRaster::from_raw(2, 1, vec![13, 20, 5, 100, 26, 7]).unwrap();
    let shown = amplified_image(&first, &second, 10_000);
    assert_eq!(shown.dimensions(), (2, 1));
    assert_eq!(shown.as_raw(), &vec![30, 0, 250, 255, 255, 0]);
    let halved = amplified_image(&first, &second, 500);
    assert_eq!(halved.as_raw(), &vec![1, 0, 12, 50, 13, 0]);
}

#[test]
fn the_difference_map_holds_the_amplified_channel_mean() {
    let levels: Vec<u16> = vec![0, 1, 3, 28, 76, 77, 765];
    let map = amplified_map(&levels, 7, 1, 10_000);
    assert_eq!(map.dimensions(), (7, 1));
    assert_eq!(map.as_raw(), &vec![0, 3, 10, 93, 253, 255, 255]);
    let plain = amplified_map(&levels, 7, 1, 1_000);
    assert_eq!(plain.as_raw(), &vec![0, 0, 1, 9, 25, 25, 255]);
}

#[test]
fn decoded_bytes_of_the_right_size_are_accepted() {
    let out = accept_decoded(2, 1, 2, 1, vec![1, 2, 3, 4, 5, 6]).unwrap();
    assert_eq!(out.dimensions(), (2, 1));
    assert_eq!(out.as_raw(), &vec![1, 2, 3, 4, 5, 6]);
}

#[test]
fn decoded_bytes_of_another_size_are_refused() {
    for (w, h, data) in [(1u32, 2u32, vec![0u8; 6]), (2, 2, vec![0u8; 12]), (2, 1, vec![0u8; 5])] {
        match accept_decoded(2, 1, w, h, data) {
            Err(ForensicsError::AnalysisFailed(msg)) => {
                assert_eq!(msg, "Recompressed image has another size")
            }
            other => panic!("unexpected {:?}", other.map(|r| r.dimensions())),
        }
    }
}

#[test]
fn the_ghost_sweep_keeps_the_first_lowest_trial_below_95() {
    let image = photo(40, 24);
    let analyzer = JpegAnalyzer::new();
    let (trials, best) = analyzer.sweep_ghost_trials(&image).unwrap();
    let qualities: Vec<u8> = trials.iter().map(|t| t.quality).collect();
    assert_eq!(qualities, vec![60, 65, 70, 75, 80, 85, 90, 95]);
    let lowest = trials.iter().filter(|t| t.quality < 95).map(|t| t.total).min().unwrap();
    let first = trials.iter().find(|t| t.quality < 95 && t.total == lowest).unwrap();
    let best = best.unwrap();
    assert_eq!((best.quality, best.total), (first.quality, first.total));
    assert_eq!(best.total, sum_of_pixels(&best.map));
    let again = analyzer.sweep_ghost(&image).unwrap().unwrap();
    assert_eq!((again.quality, again.total), (best.quality, best.total));
    assert!(again.quality >= 60 && again.quality < 95 && again.quality % 5 == 0);
}
