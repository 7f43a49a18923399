//! Resampling detection: the map of second differences and the blocks whose
//! probability stands out.

use vstd::prelude::*;
use crate::grid::{block_regions, tiling};
use crate::image_utils::{cells_sum, window_sums};
use crate::raster::{
    lemma_offset_in_range,
    lemma_offset_of_position,
    lemma_position_of_offset,
    GrayRaster,
    GrayView,
};
use crate::region::SRegion;

verus! {

/// The size of the second difference of `centre` against its two
/// neighbours.
pub open spec fn second_difference(before: u8, centre: u8, after: u8) -> int {
    let d = before - 2 * centre + after;
    if d >= 0 {
        d
    } else {
        -d
    }
}

/// The position `(x, y)` has two neighbours inside the raster on each side.
pub open spec fn deep_interior(g: GrayView, x: int, y: int) -> bool {
    2 <= x && x + 2 < g.width && 2 <= y && y + 2 < g.height
}

/// The value of the p-map at `(x, y)`: the mean of the horizontal and the
/// vertical second difference, rounded down and capped at 255, two pixels or
/// more from the border; zero nearer to it.
pub open spec fn p_value(g: GrayView, x: int, y: int) -> int {
    if deep_interior(g, x, y) {
        let m = (second_difference(g.at(x - 1, y), g.at(x, y), g.at(x + 1, y)) + second_difference(
            g.at(x, y - 1),
            g.at(x, y),
            g.at(x, y + 1),
        )) / 2;
        if m > 255 {
            255
        } else {
            m
        }
    } else {
        0
    }
}

fn second_difference_of(before: u8, centre: u8, after: u8) -> (d: u32)
    ensures
        d == second_difference(before, centre, after),
        d <= 510,
{
    let sum: i32 = before as i32 - 2 * (centre as i32) + after as i32;
    if sum >= 0 {
        sum as u32
    } else {
        (-sum) as u32
    }
}

/// The p-map of a grayscale image.
pub fn compute_p_map(gray: &GrayRaster) -> (out: GrayRaster)
    ensures
        out@.wf(),
        out@.same_size(gray@),
        forall|x: int, y: int| gray@.inside(x, y) ==> #[trigger] out@.at(x, y) == p_value(gray@, x, y),
{
    let (width, height) = gray.dimensions();
    let raw = gray.as_raw();
    let n = raw.len();
    let mut data: Vec<u8> = Vec::new();
    let mut i: usize = 0;
    while i < n
        invariant
            0 <= i <= n,
            n == width * height,
            gray@.wf(),
            gray@.width == width,
            gray@.height == height,
            data@.len() == i,
            forall|k: int|
                0 <= k < i ==> data@[k] == p_value(gray@, k % (width as int), k / (width as int)),
        decreases n - i,
    {
        proof {
            lemma_position_of_offset(i as int, width as int, height as int);
        }
        let x: u32 = (i % (width as usize)) as u32;
        let y: u32 = (i / (width as usize)) as u32;
        let value: u8 = if 2 <= x && x < width - 2 && 2 <= y && y < height - 2 {
            let here = gray.get_pixel(x, y);
            let dx = second_difference_of(gray.get_pixel(x - 1, y), here, gray.get_pixel(x + 1, y));
            let dy = second_difference_of(gray.get_pixel(x, y - 1), here, gray.get_pixel(x, y + 1));
            let m: u32 = (dx + dy) / 2;
            if m > 255 {
                255
            } else {
                m as u8
            }
        } else {
            0
        };
        data.push(value);
        i += 1;
    }
    let out = GrayRaster::from_raw(width, height, data).unwrap();
    proof {
        assert forall|x: int, y: int| gray@.inside(x, y) implies #[trigger] out@.at(x, y) == p_value(
            gray@,
            x,
            y,
        ) by {
            lemma_offset_in_range(x, y, width as int, height as int);
            lemma_offset_of_position(x, y, width as int);
        }
    }
    out
}

/// The mean of the pixels of `map` in the block `r`, rounded down, is above
/// `threshold`.
pub open spec fn block_stands_out(map: GrayView, r: SRegion, threshold: u8) -> bool {
    r.area() > 0 && cells_sum(map, r.x as int, r.y as int, r.width as int, r.width * r.height)
        / r.area() > threshold
}

/// The blocks of `blocks` whose mean is above the threshold, in order.
pub open spec fn outstanding_of(map: GrayView, blocks: Seq<SRegion>, threshold: u8) -> Seq<SRegion>
    decreases blocks.len(),
{
    if blocks.len() == 0 {
        Seq::empty()
    } else {
        let rest = outstanding_of(map, blocks.drop_last(), threshold);
        if block_stands_out(map, blocks.last(), threshold) {
            rest.push(blocks.last())
        } else {
            rest
        }
    }
}

/// The blocks of side `block_size` of a map whose mean, rounded down, is
/// above the threshold.
pub fn find_resampled_regions(map: &GrayRaster, block_size: u32, threshold: u8) -> (out: Vec<
    SRegion,
>)
    requires
        block_size >= 1,
    ensures
        out@ == outstanding_of(
            map@,
            tiling(map@.width as int, map@.height as int, block_size as int),
            threshold,
        ),
        forall|k: int|
            0 <= k < out@.len() ==> (#[trigger] out@[k]).within(
                map@.width as int,
                map@.height as int,
            ),
{
    let (width, height) = map.dimensions();
    let blocks = block_regions(width, height, block_size);
    let n = blocks.len();
    let mut out: Vec<SRegion> = Vec::new();
    let mut i: usize = 0;
    assert(blocks@.take(0) =~= Seq::<SRegion>::empty());
    while i < n
        invariant
            0 <= i <= n,
            n == blocks@.len(),
            map@.width == width,
            map@.height == height,
            forall|k: int|
                0 <= k < blocks@.len() ==> (#[trigger] blocks@[k]).within(
                    width as int,
                    height as int,
                ),
            out@ == outstanding_of(map@, blocks@.take(i as int), threshold),
            forall|k: int|
                0 <= k < out@.len() ==> (#[trigger] out@[k]).within(width as int, height as int),
        decreases n - i,
    {
        proof {
            assert(blocks@.take(i + 1).drop_last() =~= blocks@.take(i as int));
            assert(blocks@.take(i + 1).last() == blocks@[i as int]);
        }
        let r = blocks[i];
        assert(r.within(width as int, height as int));
        let (sum, squares) = window_sums(map, r.x, r.y, r.width, r.height);
        assert(1 <= r.width * r.height <= 0xFFFF_FFFF * 0xFFFF_FFFF) by (nonlinear_arith)
            requires
                1 <= r.width <= 0xFFFF_FFFF,
                1 <= r.height <= 0xFFFF_FFFF,
        ;
        let count: u128 = (r.width as u128) * (r.height as u128);
        if sum / count > threshold as u128 {
            let ghost before = out@;
            out.push(r);
            proof {
                assert forall|k: int| 0 <= k < out@.len() implies (#[trigger] out@[k]).within(
                    width as int,
                    height as int,
                ) by {
                    if k < before.len() {
                        assert(out@[k] == before[k]);
                    }
                }
            }
        }
        i += 1;
    }
    assert(blocks@.take(n as int) =~= blocks@);
    out
}

} // verus!
