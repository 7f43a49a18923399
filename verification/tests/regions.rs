use image_forensics::merging::{merge_adjacent_regions, merge_overlapping_regions};
use image_forensics::SRegion;

fn region(x: u32, y: u32, width: u32, height: u32) -> SRegion {
    SRegion { x, y, width, height }
}

#[test]
fn overlap_needs_a_shared_pixel() {
    let a = region(0, 0, 10, 10);
    assert!(a.regions_overlap(&region(9, 9, 5, 5)));
    assert!(!a.regions_overlap(&region(10, 0, 5, 5)));
    assert!(!a.regions_overlap(&region(0, 10, 5, 5)));
    assert!(a.regions_overlap(&a));
}

#[test]
fn adjacency_allows_a_gap() {
    let a = region(0, 0, 16, 16);
    assert!(a.regions_adjacent(&region(24, 0, 16, 16), 8));
    assert!(!a.regions_adjacent(&region(25, 0, 16, 16), 8));
    assert!(a.regions_adjacent(&region(16, 16, 4, 4), 0));
    assert!(!a.regions_adjacent(&region(17, 0, 4, 4), 0));
    assert!(region(25, 0, 16, 16).regions_adjacent(&a, 9));
}

#[test]
fn merge_of_two_is_the_bounding_box() {
    let merged = region(10, 20, 5, 5).merge_two_regions(&region(0, 22, 4, 30));
    assert_eq!(merged, region(0, 20, 15, 32));
}

#[test]
fn clip_cuts_at_the_image_edge() {
    assert_eq!(region(90, 95, 16, 16).clip(100, 100), Some(region(90, 95, 10, 5)));
    assert_eq!(region(10, 10, 16, 16).clip(100, 100), Some(region(10, 10, 16, 16)));
    assert_eq!(region(100, 10, 16, 16).clip(100, 100), None);
    assert_eq!(region(10, 10, 0, 16).clip(100, 100), None);
}

#[test]
fn within_asks_for_a_pixel_inside_the_image() {
    assert!(region(0, 0, 100, 50).is_within(100, 50));
    assert!(!region(1, 0, 100, 50).is_within(100, 50));
    assert!(!region(0, 0, 0, 50).is_within(100, 50));
    assert!(region(u32::MAX - 1, 0, 1, 1).is_wf());
    assert!(!region(u32::MAX, 0, 1, 1).is_wf());
}

#[test]
fn merging_nothing_gives_nothing() {
    let merged = merge_adjacent_regions(&Vec::new(), 8);
    assert!(merged.is_empty());
}

#[test]
fn merging_joins_neighbours_into_their_bounding_box() {
    let regions = vec![region(0, 0, 16, 16), region(16, 0, 16, 16), region(100, 100, 16, 16)];
    let merged = merge_adjacent_regions(&regions, 8);
    assert_eq!(merged, vec![region(0, 0, 32, 16), region(100, 100, 16, 16)]);
}

#[test]
fn merging_goes_on_until_no_two_boxes_are_adjacent() {
    // The second cluster grows until it reaches the first one.
    let regions = vec![
        region(0, 40, 10, 10),
        region(30, 0, 10, 10),
        region(30, 80, 10, 10),
        region(30, 40, 10, 10),
    ];
    let merged = merge_adjacent_regions(&regions, 30);
    assert_eq!(merged, vec![region(0, 0, 40, 90)]);
    for a in 0..merged.len() {
        for b in 0..merged.len() {
            if a != b {
                assert!(!merged[a].regions_adjacent(&merged[b], 30));
            }
        }
    }
}

#[test]
fn merging_a_late_bridge_joins_earlier_boxes() {
    let regions = vec![region(0, 0, 10, 10), region(40, 0, 10, 10), region(20, 0, 10, 10)];
    assert_eq!(merge_adjacent_regions(&regions, 5), regions);
    assert_eq!(merge_adjacent_regions(&regions, 10), vec![region(0, 0, 50, 10)]);
}

#[test]
fn merging_twice_is_merging_once() {
    let regions = vec![
        region(0, 0, 16, 16),
        region(200, 0, 16, 16),
        region(20, 4, 16, 16),
        region(300, 300, 16, 16),
        region(210, 10, 16, 16),
        region(0, 0, 16, 16),
    ];
    let once = merge_adjacent_regions(&regions, 8);
    let twice = merge_adjacent_regions(&once, 8);
    assert_eq!(once, twice);
    assert_eq!(once, vec![region(0, 0, 36, 20), region(200, 0, 26, 26), region(300, 300, 16, 16)]);
}

#[test]
fn merged_boxes_do_not_depend_on_the_order() {
    let regions = vec![
        region(0, 0, 16, 16),
        region(200, 0, 16, 16),
        region(20, 4, 16, 16),
        region(210, 10, 16, 16),
    ];
    let mut reversed = regions.clone();
    reversed.reverse();
    let forward = merge_adjacent_regions(&regions, 8);
    let backward = merge_adjacent_regions(&reversed, 8);
    assert_eq!(forward.len(), backward.len());
    for r in &forward {
        assert!(backward.contains(r));
    }
    // The order follows the list: the box reached first comes first.
    assert_eq!(forward[0], region(0, 0, 36, 20));
    assert_eq!(backward[0], region(200, 0, 26, 26));
}

#[test]
fn merged_boxes_stay_inside_the_image() {
    let regions = vec![region(80, 80, 20, 20), region(60, 90, 20, 10), region(0, 0, 10, 10)];
    let merged = merge_adjacent_regions(&regions, 4);
    for r in &merged {
        assert!(r.is_within(100, 100));
    }
}

#[test]
fn overlap_merging_leaves_touching_boxes_apart() {
    let regions = vec![region(0, 0, 16, 16), region(16, 0, 16, 16), region(8, 8, 16, 16)];
    assert_eq!(
        merge_overlapping_regions(&regions[..2].to_vec()),
        vec![region(0, 0, 16, 16), region(16, 0, 16, 16)]
    );
    assert_eq!(merge_overlapping_regions(&regions), vec![region(0, 0, 32, 24)]);
}
