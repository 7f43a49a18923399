use image_forensics::analysis::shadow_analysis::{
    describe_component, detect_shadows, dilate, erode, is_shadow_edge, is_shadow_pixel,
    morphological_cleanup, raw_shadow_mask, remove_small_regions,
};
use image_forensics::components::{trace_component, ComponentScan};
use image_forensics::raster::{GrayRaster, Rgb, RgbRaster};
use image_forensics::SRegion;

fn mask(rows: &[&str]) -> GrayRaster {
    let height = rows.len() as u32;
    let width = rows[0].len() as u32;
    let mut data = Vec::new();
    for row in rows {
        for c in row.chars() {
            data.push(if c == '#' { 255 } else { 0 });
        }
    }
    GrayRaster::from_raw(width, height, data).unwrap()
}

fn picture(m: &GrayRaster) -> Vec<String> {
    let (width, height) = m.dimensions();
    (0..height)
        .map(|y| (0..width).map(|x| if m.get_pixel(x, y) > 0 { '#' } else { '.' }).collect())
        .collect()
}

fn float_shadow(intensity: u8, pixel: Rgb, threshold: u8) -> bool {
    if intensity > threshold {
        return false;
    }
    let r = pixel.r as f64;
    let g = pixel.g as f64;
    let b = pixel.b as f64;
    let max_c = r.max(g).max(b);
    let min_c = r.min(g).min(b);
    let saturation = if max_c > 0.0 { (max_c - min_c) / max_c } else { 0.0 };
    if saturation > 0.5 {
        return false;
    }
    let total = r + g + b;
    if total > 0.0 {
        let blue_ratio = b / total;
        let red_ratio = r / total;
        if blue_ratio > 0.4 && red_ratio < 0.35 {
            return true;
        }
    }
    intensity < threshold && saturation < 0.3
}

#[test]
fn a_dark_grey_pixel_is_shadow() {
    let grey = Rgb { r: 40, g: 40, b: 40 };
    assert!(is_shadow_pixel(40, grey, 80));
    assert!(!is_shadow_pixel(81, grey, 80));
    assert!(!is_shadow_pixel(80, grey, 80));
    assert!(is_shadow_pixel(0, Rgb { r: 0, g: 0, b: 0 }, 1));
    // Saturation of exactly 0.3 and 0.5.
    assert!(!is_shadow_pixel(10, Rgb { r: 10, g: 7, b: 7 }, 80));
    assert!(is_shadow_pixel(10, Rgb { r: 100, g: 71, b: 71 }, 80));
    assert!(!is_shadow_pixel(10, Rgb { r: 100, g: 49, b: 49 }, 80));
    // A bluish pixel is shadow even at the threshold.
    assert!(is_shadow_pixel(80, Rgb { r: 60, g: 70, b: 100 }, 80));
    assert!(!is_shadow_pixel(80, Rgb { r: 70, g: 50, b: 80 }, 80));
}

#[test]
fn the_shadow_test_agrees_with_double_precision_below_the_threshold() {
    for r in (0..256u32).step_by(3) {
        for g in (0..256u32).step_by(2) {
            for b in 0..256u32 {
                let p = Rgb { r: r as u8, g: g as u8, b: b as u8 };
                assert_eq!(is_shadow_pixel(10, p, 80), float_shadow(10, p, 80));
            }
        }
    }
}

#[test]
fn the_shadow_test_agrees_with_double_precision_at_the_threshold() {
    for r in (1..256u32).step_by(2) {
        for g in (0..256u32).step_by(3) {
            for b in 0..256u32 {
                let p = Rgb { r: r as u8, g: g as u8, b: b as u8 };
                assert_eq!(is_shadow_pixel(80, p, 80), float_shadow(80, p, 80));
                assert_eq!(is_shadow_pixel(81, p, 80), float_shadow(81, p, 80));
            }
        }
    }
}

#[test]
fn the_raw_mask_marks_the_pixels_that_look_like_shadow() {
    // Ten dark grey pixels and ten bright ones; the reference pixel is dark.
    let mut data = Vec::new();
    for i in 0..20u32 {
        let v = if i < 10 { 30 } else { 220 };
        data.extend_from_slice(&[v, v, v]);
    }
    let image = RgbRaster::from_raw(5, 4, data).unwrap();
    let mask = raw_shadow_mask(&image, 80);
    assert_eq!(mask.dimensions(), (5, 4));
    // The threshold is min(80, 30 + 20) = 50.
    assert_eq!(picture(&mask), vec!["#####", "#####", ".....", "....."]);
    let cleaned = detect_shadows(&image, 80, 1);
    assert_eq!(cleaned.dimensions(), (5, 4));
}

#[test]
fn erosion_takes_the_smallest_and_dilation_the_largest_neighbour() {
    let m = mask(&[".......", ".#####.", ".#####.", ".#####.", "......."]);
    assert_eq!(
        picture(&erode(&m, 1)),
        vec![".......", ".......", "..###..", ".......", "......."]
    );
    assert_eq!(
        picture(&dilate(&m, 1)),
        vec!["#######", "#######", "#######", "#######", "#######"]
    );
    assert_eq!(picture(&erode(&m, 0)), picture(&m));
    assert_eq!(picture(&dilate(&m, 0)), picture(&m));
    let speck = mask(&["....", ".#..", "....", "...."]);
    assert_eq!(picture(&dilate(&speck, 2)), vec!["####", "####", "####", "####"]);
    assert_eq!(picture(&dilate(&speck, 1)), vec!["###.", "###.", "###.", "...."]);
    let full = mask(&["###", "###"]);
    assert_eq!(picture(&erode(&full, 5)), vec!["###", "###"]);
    let graded = GrayRaster::from_raw(3, 1, vec![5, 9, 2]).unwrap();
    assert_eq!(erode(&graded, 1).into_raw(), vec![5, 2, 2]);
    assert_eq!(dilate(&graded, 1).into_raw(), vec![9, 9, 9]);
}

#[test]
fn an_edge_pixel_has_a_neighbour_outside_the_shadow() {
    let m = mask(&["#####", "#####", "#####", "####."]);
    assert!(!is_shadow_edge(&m, 0, 0));
    assert!(!is_shadow_edge(&m, 2, 1));
    assert!(is_shadow_edge(&m, 3, 2));
    assert!(is_shadow_edge(&m, 3, 3));
    assert!(!is_shadow_edge(&m, 4, 3));
    assert!(is_shadow_edge(&m, 4, 2));
    assert!(!is_shadow_edge(&mask(&["#"]), 0, 0));
}

#[test]
fn a_component_is_walked_through_its_neighbours_only() {
    let m = mask(&["##..#", ".#..#", "..#.#", "###.."]);
    let mut marks = vec![false; 20];
    let mut first = trace_component(&m, 0, 0, &mut marks);
    assert_eq!(first[0], (0, 0));
    first.sort();
    assert_eq!(first, vec![(0, 0), (1, 0), (1, 1)]);
    assert_eq!(marks.iter().filter(|&&b| b).count(), 3);
    let mut second = trace_component(&m, 2, 3, &mut marks);
    second.sort();
    assert_eq!(second, vec![(0, 3), (1, 3), (2, 2), (2, 3)]);
    let third = trace_component(&m, 4, 1, &mut marks);
    assert_eq!(third.len(), 3);
    assert_eq!(marks.iter().filter(|&&b| b).count(), 10);
}

#[test]
fn a_scan_walks_each_component_once() {
    let m = mask(&["##..#", ".#..#", "..#.#", "###.."]);
    let scan = ComponentScan::new(m);
    assert_eq!(scan.mask().dimensions(), (5, 4));
    let (scan, found) = scan.trace(1, 1);
    assert_eq!(found.unwrap().len(), 3);
    let (scan, again) = scan.trace(0, 0);
    assert!(again.is_none());
    let (scan, background) = scan.trace(2, 0);
    assert!(background.is_none());
    let (scan, outside) = scan.trace(5, 0);
    assert!(outside.is_none());
    let (_, other) = scan.trace(4, 2);
    assert_eq!(other.unwrap().len(), 3);
}

#[test]
fn small_components_are_removed() {
    let m = mask(&["##..#", ".#..#", "..#.#", "###.."]);
    assert_eq!(picture(&remove_small_regions(&m, 4)), vec![".....", ".....", "..#..", "###.."]);
    assert_eq!(picture(&remove_small_regions(&m, 3)), picture(&m));
    assert_eq!(picture(&remove_small_regions(&m, 5)), vec![".....", ".....", ".....", "....."]);
    assert_eq!(picture(&remove_small_regions(&m, 0)), picture(&m));
    let graded = GrayRaster::from_raw(3, 1, vec![7, 0, 9]).unwrap();
    assert_eq!(remove_small_regions(&graded, 1).into_raw(), vec![7, 0, 9]);
    assert_eq!(remove_small_regions(&graded, 2).into_raw(), vec![0, 0, 0]);
    assert_eq!(remove_small_regions(&GrayRaster::new(0, 0).unwrap(), 2).dimensions(), (0, 0));
}

#[test]
fn cleaning_opens_the_mask_and_drops_small_shadows() {
    let m = mask(&[
        "..........",
        ".#####....",
        ".#####..#.",
        ".#####....",
        ".#####....",
        ".#####....",
        "..........",
    ]);
    let cleaned = morphological_cleanup(&m, 10);
    assert_eq!(cleaned.dimensions(), (10, 7));
    assert_eq!(
        picture(&cleaned),
        vec![
            "..........",
            ".#####....",
            ".#####....",
            ".#####....",
            ".#####....",
            ".#####....",
            "..........",
        ]
    );
    assert_eq!(picture(&morphological_cleanup(&m, 26))[3], "..........");
}

#[test]
fn a_shadow_is_measured_by_its_pixels() {
    let m = mask(&[".....", ".###.", ".###.", ".##..", "....."]);
    let magnitude = GrayRaster::from_raw(5, 5, (0..25).map(|i| 100 + i as u8).collect()).unwrap();
    let direction = GrayRaster::from_raw(5, 5, (0..25).map(|i| 2 * i as u8).collect()).unwrap();
    let mut marks = vec![false; 25];
    let pixels = trace_component(&m, 2, 2, &mut marks);
    assert_eq!(pixels.len(), 8);
    let trace = describe_component(&m, &magnitude, &direction, &pixels);
    assert_eq!(trace.region, SRegion { x: 1, y: 1, width: 3, height: 3 });
    assert_eq!(trace.pixel_count, 8);
    assert_eq!(trace.intensity_total, 8 * 255);
    // Only the centre has no neighbour outside the shadow... and (3, 3) is
    // outside, so the centre is an edge pixel too.
    assert_eq!(trace.edge_samples.len(), 8);
    let mut samples = trace.edge_samples.clone();
    samples.sort();
    assert_eq!(samples[0], (12, 106));
    let block = mask(&["###", "###", "###"]);
    let plain = GrayRaster::new(3, 3).unwrap();
    let mut marks = vec![false; 9];
    let pixels = trace_component(&block, 0, 0, &mut marks);
    let trace = describe_component(&block, &plain, &plain, &pixels);
    assert_eq!(trace.region, SRegion { x: 0, y: 0, width: 3, height: 3 });
    assert!(trace.edge_samples.is_empty());
}
