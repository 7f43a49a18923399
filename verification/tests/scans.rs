use image_forensics::analysis::copy_move::{
    BlockFeature, CopyMoveDetector, MatchPair, ScoredPair,
};
use image_forensics::analysis::shadow_analysis::{analyze_shadow_regions, scan_seeds};
use image_forensics::error::ForensicsError;
use image_forensics::grid::grid_positions;
use image_forensics::raster::{GrayRaster, Rgb, RgbRaster};
use image_forensics::report::visualization::draw_line;
use image_forensics::score::Score;
use image_forensics::SRegion;

fn shape(rows: &[&str]) -> GrayRaster {
    let height = rows.len() as u32;
    let width = rows[0].len() as u32;
    let mut data = Vec::new();
    for row in rows {
        for c in row.chars() {
            data.push(if c == '#' { 255 } else { 0 });
        }
    }
    GrayRaster::from_raw(width, height, data).unwrap()
}

fn drawn(width: u32, height: u32, x0: u32, y0: u32, x1: u32, y1: u32) -> Vec<String> {
    let blank = RgbRaster::new(width, height).unwrap();
    let out = draw_line(&blank, x0, y0, x1, y1, Rgb { r: 9, g: 8, b: 7 });
    assert_eq!(out.dimensions(), (width, height));
    (0..height)
        .map(|y| {
            (0..width)
                .map(|x| {
                    let p = out.get_pixel(x, y);
                    if p == (Rgb { r: 9, g: 8, b: 7 }) {
                        '#'
                    } else {
                        assert_eq!(p, Rgb { r: 0, g: 0, b: 0 });
                        '.'
                    }
                })
                .collect()
        })
        .collect()
}

#[test]
fn the_seeds_of_a_grid_come_row_by_row() {
    assert_eq!(grid_positions(5, 3, 2), vec![(0, 0), (2, 0), (4, 0), (0, 2), (2, 2), (4, 2)]);
    assert!(grid_positions(0, 3, 2).is_empty());
    assert_eq!(grid_positions(1, 1, 7), vec![(0, 0)]);
}

#[test]
fn a_line_runs_straight_along_an_axis() {
    assert_eq!(drawn(5, 3, 1, 1, 3, 1), vec![".....", ".###.", "....."]);
    assert_eq!(drawn(3, 4, 2, 3, 2, 0), vec!["..#", "..#", "..#", "..#"]);
    assert_eq!(drawn(3, 3, 1, 1, 1, 1), vec!["...", ".#.", "..."]);
}

#[test]
fn a_line_runs_along_the_diagonal() {
    assert_eq!(drawn(4, 4, 0, 0, 3, 3), vec!["#...", ".#..", "..#.", "...#"]);
    assert_eq!(drawn(4, 4, 3, 0, 0, 3), vec!["...#", "..#.", ".#..", "#..."]);
}

#[test]
fn a_shallow_line_steps_once_on_its_way() {
    assert_eq!(drawn(6, 2, 0, 0, 5, 1), vec!["###...", "...###"]);
    assert_eq!(drawn(6, 2, 5, 1, 0, 0), vec!["###...", "...###"]);
    assert_eq!(drawn(2, 6, 0, 0, 1, 5), vec!["#.", "#.", "#.", ".#", ".#", ".#"]);
}

#[test]
fn a_line_is_clipped_at_the_border_of_the_image() {
    assert_eq!(drawn(3, 3, 0, 1, 7, 1), vec!["...", "###", "..."]);
    assert_eq!(drawn(3, 3, 5, 5, 9, 9), vec!["...", "...", "..."]);
    let lines = drawn(4, 4, 0, 0, 7, 7);
    assert_eq!(lines, vec!["#...", ".#..", "..#.", "...#"]);
}

#[test]
fn a_line_keeps_the_other_pixels() {
    let image = RgbRaster::from_raw(2, 2, (1..=12).collect()).unwrap();
    let out = draw_line(&image, 0, 0, 1, 0, Rgb { r: 200, g: 201, b: 202 });
    assert_eq!(out.as_raw(), &vec![200, 201, 202, 200, 201, 202, 7, 8, 9, 10, 11, 12]);
}

#[test]
fn each_shadow_is_traced_from_its_first_seed() {
    let mask = shape(&[
        "####....",
        "####....",
        "####..##",
        "......##",
    ]);
    let plain = GrayRaster::new(8, 4).unwrap();
    let (seeds, traces) = analyze_shadow_regions(&mask, &plain, &plain, 2, 4);
    assert_eq!(seeds, vec![(0, 0), (2, 0), (4, 0), (6, 0), (0, 2), (2, 2), (4, 2), (6, 2)]);
    assert_eq!(traces.len(), 2);
    assert_eq!(traces[0].0, 0);
    assert_eq!(traces[0].1.region, SRegion { x: 0, y: 0, width: 4, height: 3 });
    assert_eq!(traces[0].1.pixel_count, 12);
    assert_eq!(traces[0].1.intensity_total, 12 * 255);
    assert_eq!(traces[1].0, 7);
    assert_eq!(traces[1].1.region, SRegion { x: 6, y: 2, width: 2, height: 2 });
    assert_eq!(traces[1].1.pixel_count, 4);
}

#[test]
fn small_and_thin_shadows_are_left_out_of_the_scan() {
    let mask = shape(&[
        "####....",
        "####....",
        "####..##",
        "......##",
    ]);
    let plain = GrayRaster::new(8, 4).unwrap();
    let (_, traces) = analyze_shadow_regions(&mask, &plain, &plain, 2, 5);
    assert_eq!(traces.iter().map(|t| t.0).collect::<Vec<usize>>(), vec![0]);
    let (_, none) = analyze_shadow_regions(&mask, &plain, &plain, 2, 13);
    assert!(none.is_empty());
    let line = shape(&["#", "#", "#", "#", "#", "#", "#", "#"]);
    let plain = GrayRaster::new(1, 8).unwrap();
    let (_, kept) = analyze_shadow_regions(&line, &plain, &plain, 1, 8);
    assert_eq!(kept.len(), 1);
    assert_eq!(kept[0].1.region, SRegion { x: 0, y: 0, width: 1, height: 8 });
}

#[test]
fn a_seed_outside_every_shadow_finds_nothing() {
    let mask = shape(&[".#.", "###", ".#."]);
    let plain = GrayRaster::new(3, 3).unwrap();
    let traces = scan_seeds(&mask, &plain, &plain, &vec![(0, 0), (2, 2), (9, 9)], 1);
    assert!(traces.is_empty());
    let traces = scan_seeds(&mask, &plain, &plain, &vec![(0, 0), (1, 2), (1, 0), (1, 1)], 1);
    assert_eq!(traces.len(), 1);
    assert_eq!(traces[0].0, 1);
    assert_eq!(traces[0].1.pixel_count, 5);
}

fn score(ppm: u32) -> Score {
    Score::from_ppm(ppm).unwrap()
}

fn four_blocks() -> (Vec<BlockFeature>, Vec<ScoredPair>) {
    let features = vec![
        BlockFeature { x: 0, y: 0, hash: 8 },
        BlockFeature { x: 100, y: 0, hash: 8 },
        BlockFeature { x: 0, y: 200, hash: 10 },
        BlockFeature { x: 100, y: 200, hash: 11 },
    ];
    let pairs = vec![
        ScoredPair { first: 0, second: 1, similarity: score(950_000) },
        ScoredPair { first: 2, second: 3, similarity: score(990_000) },
    ];
    (features, pairs)
}

#[test]
fn detection_rejects_an_image_below_two_blocks() {
    let d = CopyMoveDetector::new(16, score(900_000), 50).unwrap();
    let (features, pairs) = four_blocks();
    assert!(matches!(
        d.detect(31, 400, &features, &pairs),
        Err(ForensicsError::ImageTooSmall(32))
    ));
    assert!(matches!(
        d.detect(400, 20, &features, &pairs),
        Err(ForensicsError::ImageTooSmall(32))
    ));
}

#[test]
fn detection_reports_the_greedy_choice_with_the_mean_similarity() {
    let d = CopyMoveDetector::new(16, score(900_000), 50).unwrap();
    let (features, pairs) = four_blocks();
    let result = d.detect(400, 400, &features, &pairs).unwrap();
    let block = |x, y| SRegion { x, y, width: 16, height: 16 };
    assert_eq!(
        result.matches,
        vec![
            MatchPair { source: block(0, 200), target: block(100, 200), similarity: score(990_000) },
            MatchPair { source: block(0, 0), target: block(100, 0), similarity: score(950_000) },
        ]
    );
    assert_eq!(result.confidence.ppm(), 970_000);
    for m in &result.matches {
        assert!(m.source.is_within(400, 400) && m.target.is_within(400, 400));
        assert!(m.similarity.ppm() >= 900_000);
    }
}

#[test]
fn the_order_of_the_scored_pairs_does_not_matter() {
    let d = CopyMoveDetector::new(16, score(900_000), 50).unwrap();
    let (features, mut pairs) = four_blocks();
    let one = d.detect(400, 400, &features, &pairs).unwrap();
    pairs.reverse();
    let other = d.detect(400, 400, &features, &pairs).unwrap();
    assert_eq!(one.matches, other.matches);
    assert_eq!(one.confidence.ppm(), other.confidence.ppm());
}
