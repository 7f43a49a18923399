use image_forensics::grid::block_regions;
use image_forensics::image_utils::{
    calculate_histogram, extract_block, gaussian_blur_3x3, pixel_luminance, rgb_to_gray,
    window_sums,
};
use image_forensics::raster::{GrayRaster, Rgb, RgbRaster};
use image_forensics::SRegion;

fn gray(width: u32, height: u32, f: fn(u32, u32) -> u8) -> GrayRaster {
    let mut data = Vec::new();
    for y in 0..height {
        for x in 0..width {
            data.push(f(x, y));
        }
    }
    GrayRaster::from_raw(width, height, data).unwrap()
}

#[test]
fn a_new_raster_is_zero_and_has_its_size() {
    let g = GrayRaster::new(7, 3).unwrap();
    assert_eq!(g.dimensions(), (7, 3));
    assert_eq!(g.as_raw().len(), 21);
    assert!(g.as_raw().iter().all(|&v| v == 0));
    let c = RgbRaster::new(2, 2).unwrap();
    assert_eq!(c.as_raw().len(), 12);
}

#[test]
fn from_raw_checks_the_length() {
    assert!(GrayRaster::from_raw(2, 2, vec![0; 3]).is_none());
    assert!(GrayRaster::from_raw(2, 2, vec![0; 4]).is_some());
    assert!(RgbRaster::from_raw(2, 2, vec![0; 4]).is_none());
    assert!(RgbRaster::from_raw(2, 2, vec![0; 12]).is_some());
}

#[test]
fn pixels_are_stored_row_by_row() {
    let g = gray(4, 3, |x, y| (10 * y + x) as u8);
    assert_eq!(g.get_pixel(3, 0), 3);
    assert_eq!(g.get_pixel(0, 2), 20);
    let g = g.with_pixel(1, 1, 99);
    assert_eq!(g.get_pixel(1, 1), 99);
    assert_eq!(g.as_raw()[5], 99);
    let c = RgbRaster::from_raw(2, 1, vec![1, 2, 3, 4, 5, 6]).unwrap();
    assert_eq!(c.get_pixel(1, 0), Rgb { r: 4, g: 5, b: 6 });
    let c = c.with_pixel(0, 0, Rgb { r: 7, g: 8, b: 9 });
    assert_eq!(c.into_raw(), vec![7, 8, 9, 4, 5, 6]);
    assert_eq!(g.clone().into_raw(), g.duplicate().into_raw());
}

#[test]
fn luminance_uses_the_three_weights() {
    assert_eq!(pixel_luminance(Rgb { r: 255, g: 255, b: 255 }), 255);
    assert_eq!(pixel_luminance(Rgb { r: 255, g: 0, b: 0 }), 76);
    assert_eq!(pixel_luminance(Rgb { r: 0, g: 255, b: 0 }), 150);
    assert_eq!(pixel_luminance(Rgb { r: 0, g: 0, b: 255 }), 29);
    assert_eq!(pixel_luminance(Rgb { r: 0, g: 72, b: 24 }), 45);
    assert_eq!(pixel_luminance(Rgb { r: 10, g: 20, b: 30 }), 18);
}

#[test]
fn luminance_is_the_weighted_sum_rounded_to_the_nearest() {
    for r in (0..256u32).step_by(3) {
        for g in 0..256u32 {
            for b in 0..256u32 {
                let exact = 299 * r + 587 * g + 114 * b;
                let ours = pixel_luminance(Rgb { r: r as u8, g: g as u8, b: b as u8 }) as u32;
                assert_eq!(ours, (exact + 500) / 1000);
                let real = 0.299 * r as f64 + 0.587 * g as f64 + 0.114 * b as f64;
                assert!((ours as f64 - real).abs() <= 0.5 + 1e-9);
            }
        }
    }
}

#[test]
fn a_luminance_above_one_half_rounds_up() {
    assert_eq!(pixel_luminance(Rgb { r: 0, g: 1, b: 0 }), 1);
    assert_eq!(pixel_luminance(Rgb { r: 1, g: 0, b: 0 }), 0);
    assert_eq!(pixel_luminance(Rgb { r: 0, g: 0, b: 5 }), 1);
    let one = RgbRaster::from_raw(1, 1, vec![0, 1, 0]).unwrap();
    assert_eq!(rgb_to_gray(&one).into_raw(), vec![1]);
}

#[test]
fn grayscale_keeps_the_size() {
    let c = RgbRaster::from_raw(2, 2, vec![255, 0, 0, 0, 255, 0, 0, 0, 255, 10, 20, 30]).unwrap();
    let g = rgb_to_gray(&c);
    assert_eq!(g.dimensions(), (2, 2));
    assert_eq!(g.into_raw(), vec![76, 150, 29, 18]);
}

#[test]
fn block_extraction_clips_at_the_boundary() {
    let g = gray(5, 4, |x, y| (10 * y + x) as u8);
    assert_eq!(extract_block(&g, 1, 1, 2), vec![11, 12, 21, 22]);
    assert_eq!(extract_block(&g, 3, 2, 3), vec![23, 24, 33, 34]);
    assert_eq!(extract_block(&g, 5, 0, 3), Vec::<u8>::new());
    assert_eq!(extract_block(&g, 0, 0, 0), Vec::<u8>::new());
    assert_eq!(extract_block(&g, 4, 3, u32::MAX), vec![34]);
}

#[test]
fn histogram_counts_every_pixel() {
    let g = gray(4, 4, |x, _| if x < 3 { 7 } else { 200 });
    let h = calculate_histogram(&g);
    assert_eq!(h[7], 12);
    assert_eq!(h[200], 4);
    assert_eq!(h.iter().sum::<u64>(), 16);
}

#[test]
fn blur_weighs_the_neighbourhood_and_leaves_the_border_zero() {
    let g = gray(4, 4, |x, y| (16 * (y * 4 + x)) as u8);
    let b = gaussian_blur_3x3(&g);
    assert_eq!(b.dimensions(), (4, 4));
    // Interior (1, 1): neighbours 0 16 32 / 64 80 96 / 128 144 160.
    let sum = 0 + 2 * 16 + 32 + 2 * 64 + 4 * 80 + 2 * 96 + 128 + 2 * 144 + 160;
    assert_eq!(b.get_pixel(1, 1) as u32, sum / 16);
    assert_eq!(b.get_pixel(1, 1), 80);
    for i in 0..4 {
        assert_eq!(b.get_pixel(i, 0), 0);
        assert_eq!(b.get_pixel(0, i), 0);
        assert_eq!(b.get_pixel(3, i), 0);
        assert_eq!(b.get_pixel(i, 3), 0);
    }
    let flat = gaussian_blur_3x3(&gray(3, 3, |_, _| 255));
    assert_eq!(flat.get_pixel(1, 1), 255);
    assert_eq!(gaussian_blur_3x3(&gray(2, 5, |_, _| 9)).into_raw(), vec![0; 10]);
}

#[test]
fn blur_agrees_with_the_kernel_in_double_precision() {
    let g = gray(9, 7, |x, y| ((x * 37 + y * 101 + x * y * 13) % 256) as u8);
    let b = gaussian_blur_3x3(&g);
    let kernel = [[1.0, 2.0, 1.0], [2.0, 4.0, 2.0], [1.0, 2.0, 1.0]];
    for y in 1..6u32 {
        for x in 1..8u32 {
            let mut sum = 0.0f64;
            for ky in 0..3u32 {
                for kx in 0..3u32 {
                    let k: f64 = kernel[ky as usize][kx as usize];
                    sum += g.get_pixel(x + kx - 1, y + ky - 1) as f64 * (k / 16.0);
                }
            }
            assert_eq!(b.get_pixel(x, y), sum.clamp(0.0, 255.0) as u8);
        }
    }
}

#[test]
fn window_sums_add_values_and_squares() {
    let g = gray(4, 4, |x, y| (y * 4 + x) as u8);
    assert_eq!(window_sums(&g, 1, 1, 2, 2), (5 + 6 + 9 + 10, 25 + 36 + 81 + 100));
    assert_eq!(window_sums(&g, 0, 0, 4, 4), (120, 1240));
    assert_eq!(window_sums(&g, 2, 2, 0, 2), (0, 0));
}

#[test]
fn blocks_tile_the_image_and_stay_inside() {
    let blocks = block_regions(40, 20, 16);
    assert_eq!(
        blocks,
        vec![
            SRegion { x: 0, y: 0, width: 16, height: 16 },
            SRegion { x: 16, y: 0, width: 16, height: 16 },
            SRegion { x: 32, y: 0, width: 8, height: 16 },
            SRegion { x: 0, y: 16, width: 16, height: 4 },
            SRegion { x: 16, y: 16, width: 16, height: 4 },
            SRegion { x: 32, y: 16, width: 8, height: 4 },
        ]
    );
    for b in &blocks {
        assert!(b.is_within(40, 20));
    }
    assert!(block_regions(0, 20, 16).is_empty());
    assert_eq!(block_regions(16, 16, 16).len(), 1);
    assert_eq!(block_regions(17, 16, 16).len(), 2);
}
