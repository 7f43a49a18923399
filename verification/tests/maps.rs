use image_forensics::analysis::cfa_analysis::{create_artifact_map, detect_zipper_artifact};
use image_forensics::analysis::jpeg_analysis::create_block_artifact_map;
use image_forensics::analysis::resampling_detection::{compute_p_map, find_resampled_regions};
use image_forensics::detection::ManipulationType;
use image_forensics::image_utils::{
    gradient_magnitude, gradient_magnitude_map, sobel_x, sobel_y, split_channels,
};
use image_forensics::raster::{GrayRaster, Rgb, RgbRaster};
use image_forensics::report::visualization::{
    draw_region_border, fill_region_in_gray, manipulation_type_color,
};
use image_forensics::SRegion;

fn gray(width: u32, height: u32, f: fn(u32, u32) -> u8) -> GrayRaster {
    let mut data = Vec::new();
    for y in 0..height {
        for x in 0..width {
            data.push(f(x, y));
        }
    }
    GrayRaster::from_raw(width, height, data).unwrap()
}

fn colour(width: u32, height: u32, f: fn(u32, u32) -> [u8; 3]) -> RgbRaster {
    let mut data = Vec::new();
    for y in 0..height {
        for x in 0..width {
            data.extend_from_slice(&f(x, y));
        }
    }
    RgbRaster::from_raw(width, height, data).unwrap()
}

#[test]
fn sobel_gradients_follow_the_kernels() {
    let ramp = gray(5, 5, |x, _| (10 * x) as u8);
    assert_eq!(sobel_x(&ramp, 2, 2), 80);
    assert_eq!(sobel_y(&ramp, 2, 2), 0);
    let rows = gray(5, 5, |_, y| (7 * y) as u8);
    assert_eq!(sobel_x(&rows, 2, 2), 0);
    assert_eq!(sobel_y(&rows, 2, 2), 56);
    // At the edge the nearest pixel stands in for the missing neighbour.
    assert_eq!(sobel_x(&ramp, 0, 0), 40);
    assert_eq!(sobel_x(&ramp, 4, 4), 40);
    assert_eq!(sobel_y(&rows, 3, 4), 28);
    let spot = gray(3, 3, |x, y| if x == 2 && y == 0 { 255 } else { 0 });
    assert_eq!(sobel_x(&spot, 1, 1), 255);
    assert_eq!(sobel_y(&spot, 1, 1), -255);
    assert_eq!(sobel_x(&gray(1, 1, |_, _| 9), 0, 0), 0);
}

#[test]
fn the_gradient_magnitude_is_the_length_rounded_down() {
    assert_eq!(gradient_magnitude(3, 4), 5);
    assert_eq!(gradient_magnitude(-3, -4), 5);
    assert_eq!(gradient_magnitude(1, 1), 1);
    assert_eq!(gradient_magnitude(0, 0), 0);
    assert_eq!(gradient_magnitude(180, 180), 254);
    assert_eq!(gradient_magnitude(181, 180), 255);
    assert_eq!(gradient_magnitude(1020, -1020), 255);
    assert_eq!(gradient_magnitude(i32::MIN, i32::MAX), 255);
    for gx in (-1020..=1020).step_by(17) {
        for gy in (-1020..=1020).step_by(13) {
            let expected = ((gx * gx + gy * gy) as f64).sqrt().min(255.0) as u8;
            assert_eq!(gradient_magnitude(gx, gy), expected);
        }
    }
}

#[test]
fn the_gradient_map_is_zero_on_the_border() {
    let g = gray(5, 4, |x, y| (x * x * 9 + y * 20) as u8);
    let map = gradient_magnitude_map(&g);
    assert_eq!(map.dimensions(), (5, 4));
    for y in 0..4 {
        for x in 0..5 {
            let expected = if x >= 1 && x < 4 && y >= 1 && y < 3 {
                gradient_magnitude(sobel_x(&g, x, y), sobel_y(&g, x, y))
            } else {
                0
            };
            assert_eq!(map.get_pixel(x, y), expected);
        }
    }
    // Horizontal 4 * 36 = 144, vertical 4 * 40 = 160.
    assert_eq!(map.get_pixel(1, 1), 215);
}

#[test]
fn the_p_map_holds_the_mean_second_difference() {
    let g = gray(7, 7, |x, y| ((x * x * 5 + y * y * y) % 256) as u8);
    let map = compute_p_map(&g);
    assert_eq!(map.dimensions(), (7, 7));
    let p = |x: u32, y: u32| ((x * x * 5 + y * y * y) % 256) as f64;
    for y in 0..7u32 {
        for x in 0..7u32 {
            let expected = if x >= 2 && x < 5 && y >= 2 && y < 5 {
                let d2x = p(x - 1, y) - 2.0 * p(x, y) + p(x + 1, y);
                let d2y = p(x, y - 1) - 2.0 * p(x, y) + p(x, y + 1);
                ((d2x.abs() + d2y.abs()) / 2.0).min(255.0) as u8
            } else {
                0
            };
            assert_eq!(map.get_pixel(x, y), expected);
        }
    }
    // x: 20 - 90 + 80 = 10; y: 8 - 54 + 64 = 18.
    assert_eq!(map.get_pixel(3, 3), 14);
    assert_eq!(compute_p_map(&gray(4, 9, |_, _| 200)).into_raw(), vec![0; 36]);
    let spike = gray(5, 5, |x, y| if x == 2 && y == 2 { 255 } else { 0 });
    assert_eq!(compute_p_map(&spike).get_pixel(2, 2), 255);
}

#[test]
fn blocks_stand_out_when_their_mean_is_above_the_threshold() {
    let map = gray(40, 16, |x, _| if x < 16 { 100 } else if x < 32 { 101 } else { 200 });
    assert_eq!(
        find_resampled_regions(&map, 16, 100),
        vec![
            SRegion { x: 16, y: 0, width: 16, height: 16 },
            SRegion { x: 32, y: 0, width: 8, height: 16 }
        ]
    );
    assert!(find_resampled_regions(&map, 16, 200).is_empty());
    // The mean is rounded down: 100.9 does not stand out above 100.
    let mixed = gray(10, 1, |x, _| if x == 0 { 100 } else { 101 });
    assert!(find_resampled_regions(&mixed, 16, 100).is_empty());
    assert_eq!(find_resampled_regions(&mixed, 16, 99).len(), 1);
}

#[test]
fn zipper_artifacts_sum_the_second_differences_of_the_channels() {
    let image = colour(3, 3, |x, y| {
        if x == 1 && y == 1 {
            [100, 50, 0]
        } else {
            [10 * x as u8, 0, 255]
        }
    });
    // Red: |0 - 200 + 20| + |10 - 200 + 10|; green: 100 + 100; blue: 510 + 510.
    assert_eq!(detect_zipper_artifact(&image, 1, 1), 180 + 180 + 200 + 1020);
    let map = create_artifact_map(&image);
    assert_eq!(map.dimensions(), (3, 3));
    assert_eq!(map.get_pixel(1, 1), 255);
    assert_eq!(map.get_pixel(0, 1), 0);
    let calm = colour(4, 4, |x, y| [(x + y) as u8, 7, (3 * x) as u8]);
    assert_eq!(create_artifact_map(&calm).into_raw(), vec![0; 16]);
    let bump = colour(3, 3, |x, y| if x == 1 && y == 1 { [12, 0, 0] } else { [0, 0, 0] });
    assert_eq!(detect_zipper_artifact(&bump, 1, 1), 48);
    assert_eq!(create_artifact_map(&bump).get_pixel(1, 1), 8);
}

#[test]
fn block_boundaries_add_both_distances() {
    let g = gray(17, 9, |x, y| ((x * 31 + y * 57) % 256) as u8);
    let map = create_block_artifact_map(&g);
    let p = |x: u32, y: u32| ((x * 31 + y * 57) % 256) as i32;
    for y in 0..9u32 {
        for x in 0..17u32 {
            let mut expected = 0;
            if x > 0 && x % 8 == 0 {
                expected += (p(x - 1, y) - p(x, y)).abs();
            }
            if y > 0 && y % 8 == 0 {
                expected += (p(x, y - 1) - p(x, y)).abs();
            }
            assert_eq!(map.get_pixel(x, y) as i32, expected.min(255));
        }
    }
    assert_eq!(map.get_pixel(8, 8), 31 + 57);
    let harsh = gray(9, 9, |x, y| if x < 8 && y < 8 { 0 } else { 255 });
    assert_eq!(create_block_artifact_map(&harsh).get_pixel(8, 8), 0);
    assert_eq!(create_block_artifact_map(&harsh).get_pixel(8, 3), 255);
}

#[test]
fn channels_are_split_in_the_order_red_green_blue() {
    let image = colour(2, 2, |x, y| [x as u8, y as u8, 9]);
    let (red, green, blue) = split_channels(&image);
    assert_eq!(red.into_raw(), vec![0, 1, 0, 1]);
    assert_eq!(green.into_raw(), vec![0, 0, 1, 1]);
    assert_eq!(blue.dimensions(), (2, 2));
    assert_eq!(blue.into_raw(), vec![9, 9, 9, 9]);
}

#[test]
fn each_kind_of_manipulation_has_its_colour() {
    assert_eq!(manipulation_type_color(ManipulationType::CopyMove), Rgb { r: 255, g: 0, b: 0 });
    assert_eq!(manipulation_type_color(ManipulationType::Splicing), Rgb { r: 255, g: 165, b: 0 });
    assert_eq!(
        manipulation_type_color(ManipulationType::Retouching),
        Rgb { r: 255, g: 255, b: 0 }
    );
    assert_eq!(manipulation_type_color(ManipulationType::Removal), Rgb { r: 255, g: 0, b: 255 });
    assert_eq!(manipulation_type_color(ManipulationType::Resizing), Rgb { r: 0, g: 255, b: 255 });
    assert_eq!(manipulation_type_color(ManipulationType::Rotation), Rgb { r: 0, g: 255, b: 0 });
    assert_eq!(
        manipulation_type_color(ManipulationType::ColorManipulation),
        Rgb { r: 128, g: 0, b: 255 }
    );
    assert_eq!(
        manipulation_type_color(ManipulationType::AIGenerated),
        Rgb { r: 255, g: 128, b: 128 }
    );
    assert_eq!(
        manipulation_type_color(ManipulationType::Unknown),
        Rgb { r: 128, g: 128, b: 128 }
    );
}

fn marks(image: &RgbRaster) -> Vec<String> {
    let (width, height) = image.dimensions();
    (0..height)
        .map(|y| (0..width).map(|x| if image.get_pixel(x, y).r == 255 { '#' } else { '.' }).collect())
        .collect()
}

#[test]
fn a_frame_is_drawn_around_a_region() {
    let image = RgbRaster::new(8, 7).unwrap();
    let red = Rgb { r: 255, g: 0, b: 0 };
    let region = SRegion { x: 2, y: 2, width: 3, height: 2 };
    // The first row and column of the region, and the row and column after
    // its end; a run ends before the position that lies as far beyond the
    // region as the ring.
    assert_eq!(
        marks(&draw_region_border(&image, &region, red, 1)),
        vec![
            "........", "........", "..####..", "..#..#..", "..###...", "........", "........"
        ]
    );
    assert_eq!(
        marks(&draw_region_border(&image, &region, red, 2)),
        vec![
            "........", ".######.", ".######.", ".##..##.", ".####.#.", ".#####..", "........"
        ]
    );
    assert_eq!(marks(&draw_region_border(&image, &region, red, 0)), marks(&image));
    let corner = SRegion { x: 0, y: 0, width: 20, height: 3 };
    assert_eq!(
        marks(&draw_region_border(&image, &corner, red, 2)),
        vec![
            "########", "#.......", "#.......", "########", "########", "........", "........"
        ]
    );
    let out = draw_region_border(&image, &region, Rgb { r: 1, g: 2, b: 3 }, 1);
    assert_eq!(out.get_pixel(2, 2), Rgb { r: 1, g: 2, b: 3 });
    assert_eq!(out.get_pixel(3, 3), Rgb { r: 0, g: 0, b: 0 });
    assert_eq!(out.dimensions(), (8, 7));
}

#[test]
fn a_region_is_filled_inside_the_image_only() {
    let g = gray(4, 3, |x, y| (x + 10 * y) as u8);
    let filled = fill_region_in_gray(&g, &SRegion { x: 2, y: 1, width: 5, height: 1 }, 200);
    assert_eq!(filled.into_raw(), vec![0, 1, 2, 3, 10, 11, 200, 200, 20, 21, 22, 23]);
    let same = fill_region_in_gray(&g, &SRegion { x: 4, y: 0, width: 5, height: 5 }, 200);
    assert_eq!(same.as_raw(), g.as_raw());
}
