use image_forensics::analysis::noise::{
    calculate_local_variance, extract_noise, find_anomalies, mad_quadrupled, NoiseAnalyzer,
};
use image_forensics::error::ForensicsError;
use image_forensics::image_utils::{gaussian_blur_3x3, rgb_to_gray};
use image_forensics::raster::{GrayRaster, RgbRaster};
use image_forensics::SRegion;

fn gray(width: u32, height: u32, f: fn(u32, u32) -> u8) -> GrayRaster {
    let mut data = Vec::new();
    for y in 0..height {
        for x in 0..width {
            data.push(f(x, y));
        }
    }
    GrayRaster::from_raw(width, height, data).unwrap()
}

fn raw(values: Vec<u8>) -> GrayRaster {
    GrayRaster::from_raw(values.len() as u32, 1, values).unwrap()
}

fn float_mad(values: &[u8]) -> f64 {
    let mut values: Vec<f64> = values.iter().map(|&v| v as f64).collect();
    values.sort_by(|a, b| a.partial_cmp(b).unwrap());
    let median = if values.len() % 2 == 0 {
        (values[values.len() / 2 - 1] + values[values.len() / 2]) / 2.0
    } else {
        values[values.len() / 2]
    };
    let mut deviations: Vec<f64> = values.iter().map(|&v| (v - median).abs()).collect();
    deviations.sort_by(|a, b| a.partial_cmp(b).unwrap());
    if deviations.len() % 2 == 0 {
        (deviations[deviations.len() / 2 - 1] + deviations[deviations.len() / 2]) / 2.0
    } else {
        deviations[deviations.len() / 2]
    }
}

#[test]
fn noise_is_what_the_blur_takes_away() {
    let g = gray(5, 5, |x, y| if x == 2 && y == 2 { 160 } else { 0 });
    let noise = extract_noise(&g);
    assert_eq!(noise.dimensions(), (5, 5));
    let blurred = gaussian_blur_3x3(&g);
    assert_eq!(blurred.get_pixel(2, 2), 40);
    assert_eq!(noise.get_pixel(2, 2), 120);
    assert_eq!(noise.get_pixel(1, 1), 10);
    assert_eq!(noise.get_pixel(2, 1), 20);
    assert_eq!(noise.get_pixel(0, 0), 0);
    // On the border the blur is zero and the noise is the pixel itself.
    let flat = gray(4, 4, |_, _| 50);
    assert_eq!(extract_noise(&flat).get_pixel(0, 2), 50);
    assert_eq!(extract_noise(&flat).get_pixel(1, 2), 0);
}

#[test]
fn the_median_absolute_deviation_is_exact() {
    // Median 3, deviations 2 1 0 1 2 -> 1.
    assert_eq!(mad_quadrupled(&raw(vec![1, 2, 3, 4, 5])), 4);
    // Median 2.5, deviations 1.5 0.5 0.5 1.5 -> 1.
    assert_eq!(mad_quadrupled(&raw(vec![4, 1, 3, 2])), 4);
    // Median 1.5, deviations 1.5 0.5 0.5 98.5 -> 1.
    assert_eq!(mad_quadrupled(&raw(vec![0, 1, 2, 100])), 4);
    // Median 0.5, deviations all 0.5.
    assert_eq!(mad_quadrupled(&raw(vec![0, 1])), 2);
    assert_eq!(mad_quadrupled(&raw(vec![7])), 0);
    assert_eq!(mad_quadrupled(&raw(vec![0, 255])), 510);
    assert_eq!(mad_quadrupled(&raw(vec![0, 0, 255, 255])), 510);
    assert_eq!(mad_quadrupled(&raw(vec![0, 1, 4])), 4);
    assert_eq!(mad_quadrupled(&GrayRaster::new(0, 0).unwrap()), 0);
}

#[test]
fn the_median_absolute_deviation_agrees_with_double_precision() {
    for n in 1..40usize {
        let values: Vec<u8> = (0..n).map(|i| ((i * i * 37 + i * 11 + n * 5) % 256) as u8).collect();
        let expected = float_mad(&values);
        assert_eq!(mad_quadrupled(&raw(values)) as f64 / 4.0, expected);
    }
}

#[test]
fn the_local_deviation_is_the_root_of_the_variance_rounded_down() {
    let flat = gray(6, 6, |_, _| 90);
    assert_eq!(calculate_local_variance(&flat, 4).into_raw(), vec![0; 36]);
    // Window of one pixel.
    let g = gray(4, 1, |x, _| (50 * x) as u8);
    assert_eq!(calculate_local_variance(&g, 1).into_raw(), vec![0; 4]);
    // Window of two: starts one before the pixel.
    // Pairs (0, 50), (0, 50), (50, 100), (100, 150): deviation 25.
    assert_eq!(calculate_local_variance(&g, 2).into_raw(), vec![25, 25, 25, 25]);
    // Values 0 and 255 in equal number: deviation 127.5.
    let halves = gray(2, 1, |x, _| if x == 0 { 0 } else { 255 });
    assert_eq!(calculate_local_variance(&halves, 4).into_raw(), vec![127, 127]);
    // Values 0 0 0 3: mean 0.75, variance 1.6875, deviation 1.29.
    let one = gray(4, 1, |x, _| if x == 3 { 3 } else { 0 });
    assert_eq!(calculate_local_variance(&one, 8).get_pixel(0, 0), 1);
    // Values 0 and 4 in equal number: deviation exactly 2.
    let even = gray(2, 2, |x, _| if x == 0 { 0 } else { 4 });
    assert_eq!(calculate_local_variance(&even, 2).into_raw(), vec![2, 2, 2, 2]);
}

#[test]
fn blocks_depart_above_twice_and_below_half_the_noise_level() {
    // The level for mad4 = 40 is 10 * 1.4826 = 14.826: a block departs when
    // its mean is above 29.652 or below 7.413.
    let map = gray(48, 16, |x, _| if x < 16 { 30 } else if x < 32 { 7 } else { 8 });
    let (regions, score) = find_anomalies(&map, 40, 16);
    assert_eq!(
        regions,
        vec![
            SRegion { x: 0, y: 0, width: 16, height: 16 },
            SRegion { x: 16, y: 0, width: 16, height: 16 }
        ]
    );
    assert_eq!(score.ppm(), 666_666);
    let calm = gray(48, 16, |x, _| if x < 16 { 29 } else { 8 });
    let (regions, score) = find_anomalies(&calm, 40, 16);
    assert!(regions.is_empty());
    assert_eq!(score.ppm(), 0);
    // With a level of zero every block above zero departs.
    let (regions, score) = find_anomalies(&calm, 0, 32);
    assert_eq!(
        regions,
        vec![
            SRegion { x: 0, y: 0, width: 32, height: 16 },
            SRegion { x: 32, y: 0, width: 16, height: 16 }
        ]
    );
    assert_eq!(score.ppm(), 1_000_000);
    let (regions, score) = find_anomalies(&GrayRaster::new(0, 0).unwrap(), 4, 16);
    assert!(regions.is_empty());
    assert_eq!(score.ppm(), 0);
}

#[test]
fn the_noise_analysis_rejects_a_block_size_outside_its_range() {
    let image = RgbRaster::new(8, 8).unwrap();
    for bad in [0u32, 65_536, u32::MAX] {
        match NoiseAnalyzer::new().with_block_size(bad).analyze(&image) {
            Err(ForensicsError::InvalidParameter(msg)) => {
                assert_eq!(msg, "Block size must be between 1 and 65535")
            }
            _ => panic!("block size {} was accepted", bad),
        }
    }
    assert_eq!(NoiseAnalyzer::new().block_size(), 16);
    assert_eq!(NoiseAnalyzer::default().block_size(), 16);
    assert_eq!(NoiseAnalyzer::new().with_block_size(8).block_size(), 8);
}

#[test]
fn the_noise_analysis_gives_maps_of_the_size_of_the_image() {
    let mut data = Vec::new();
    for y in 0..20u32 {
        for x in 0..36u32 {
            let v = ((x * 7 + y * 13 + (x * y) % 5 * 20) % 256) as u8;
            data.extend_from_slice(&[v, v / 2, 255 - v]);
        }
    }
    let image = RgbRaster::from_raw(36, 20, data).unwrap();
    let result = NoiseAnalyzer::new().analyze(&image).unwrap();
    assert_eq!(result.noise_map.dimensions(), (36, 20));
    assert_eq!(result.local_variance_map.dimensions(), (36, 20));
    let gray = rgb_to_gray(&image);
    assert_eq!(result.noise_map.as_raw(), extract_noise(&gray).as_raw());
    assert_eq!(result.local_variance_map.as_raw(), calculate_local_variance(&gray, 16).as_raw());
    let mad4 = mad_quadrupled(&result.noise_map);
    assert_eq!(result.estimated_noise_level, mad4 as u64 * 370_650);
    let (regions, score) = find_anomalies(&result.local_variance_map, mad4, 16);
    assert_eq!(result.anomalous_regions, regions);
    assert_eq!(result.inconsistency_score, score);
    assert!(result.inconsistency_score.ppm() <= 1_000_000);
    for r in &result.anomalous_regions {
        assert!(r.is_within(36, 20));
    }
    let again = NoiseAnalyzer::new().analyze(&image).unwrap();
    assert_eq!(again.noise_map.as_raw(), result.noise_map.as_raw());
    assert_eq!(again.anomalous_regions, result.anomalous_regions);
}
