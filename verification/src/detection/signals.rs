//! The signals of the splicing detector that are read off the pixels: blocks
//! whose colours depart from those of the image, and blocks whose edges come
//! at regular intervals.

use vstd::prelude::*;
use vstd::arithmetic::div_mod::lemma_div_is_ordered;
use crate::error::ForensicsError;
use crate::grid::{block_regions, count_steps, grid_block, is_tiling, steps_below, tiling};
use crate::image_utils::{cells_sum, lemma_cells_bounds, window_sums};
use crate::raster::{
    lemma_offset_in_range,
    lemma_offset_of_position,
    lemma_position_of_offset,
    GrayRaster,
    GrayView,
    Rgb,
    RgbRaster,
    RgbView,
};
use crate::region::SRegion;
use crate::score::Score;

verus! {

/// The bin of a colour in the histogram of 8 x 8 x 8 bins.
pub open spec fn bin_of(p: Rgb) -> int {
    (p.r / 32) * 64 + (p.g / 32) * 8 + p.b / 32
}

/// How many of the first `t` pixels, row by row, of the window of width `ww`
/// whose corner is `(x0, y0)` fall into `bin`.
pub open spec fn bin_count(v: RgbView, x0: int, y0: int, ww: int, t: int, bin: int) -> int
    decreases t,
{
    if t <= 0 {
        0
    } else {
        bin_count(v, x0, y0, ww, t - 1, bin) + if bin_of(
            v.at(x0 + (t - 1) % ww, y0 + (t - 1) / ww),
        ) == bin {
            1int
        } else {
            0int
        }
    }
}

/// `h` is the colour histogram of the region `r` of the image.
pub open spec fn is_histogram(h: Seq<u64>, v: RgbView, r: SRegion) -> bool {
    &&& h.len() == 512
    &&& forall|bin: int|
        0 <= bin < 512 ==> #[trigger] h[bin] == bin_count(
            v,
            r.x as int,
            r.y as int,
            r.width as int,
            r.width * r.height,
            bin,
        )
}

proof fn lemma_bin_count_bound(v: RgbView, x0: int, y0: int, ww: int, t: int, bin: int)
    requires
        0 <= t,
    ensures
        0 <= bin_count(v, x0, y0, ww, t, bin) <= t,
    decreases t,
{
    if t > 0 {
        lemma_bin_count_bound(v, x0, y0, ww, t - 1, bin);
    }
}

/// The colour histogram of a region that lies inside the image.
pub fn calculate_color_histogram(image: &RgbRaster, r: &SRegion) -> (h: Vec<u64>)
    requires
        r.right() <= image@.width,
        r.bottom() <= image@.height,
    ensures
        is_histogram(h@, image@, *r),
{
    let (width, height) = image.dimensions();
    assert(r.width * r.height <= 0xFFFF_FFFF * 0xFFFF_FFFF) by (nonlinear_arith)
        requires
            0 <= r.width <= 0xFFFF_FFFF,
            0 <= r.height <= 0xFFFF_FFFF,
    ;
    let n: u64 = (r.width as u64) * (r.height as u64);
    let mut h: Vec<u64> = vec![0u64; 512];
    let mut t: u64 = 0;
    while t < n
        invariant
            0 <= t <= n,
            n == r.width * r.height,
            image@.width == width,
            image@.height == height,
            r.right() <= width,
            r.bottom() <= height,
            h@.len() == 512,
            forall|bin: int|
                0 <= bin < 512 ==> #[trigger] h@[bin] == bin_count(
                    image@,
                    r.x as int,
                    r.y as int,
                    r.width as int,
                    t as int,
                    bin,
                ),
        decreases n - t,
    {
        proof {
            lemma_position_of_offset(t as int, r.width as int, r.height as int);
        }
        let cx: u32 = (t % (r.width as u64)) as u32;
        let cy: u32 = (t / (r.width as u64)) as u32;
        let p = image.get_pixel(r.x + cx, r.y + cy);
        let bin: usize = (p.r / 32) as usize * 64 + (p.g / 32) as usize * 8 + (p.b / 32) as usize;
        proof {
            lemma_bin_count_bound(
                image@,
                r.x as int,
                r.y as int,
                r.width as int,
                t as int,
                bin as int,
            );
        }
        let ghost before = h@;
        let c = h[bin];
        h.set(bin, c + 1);
        proof {
            assert forall|b: int| 0 <= b < 512 implies #[trigger] h@[b] == bin_count(
                image@,
                r.x as int,
                r.y as int,
                r.width as int,
                t + 1,
                b,
            ) by {
                assert(before[b] == bin_count(
                    image@,
                    r.x as int,
                    r.y as int,
                    r.width as int,
                    t as int,
                    b,
                ));
            }
        }
        t += 1;
    }
    h
}

/// The number of pixels of an image.
pub open spec fn pixel_total(v: RgbView) -> int {
    (v.width * v.height) as int
}

/// The whole image as a region.
pub open spec fn whole_of(v: RgbView) -> SRegion {
    SRegion { x: 0, y: 0, width: v.width as u32, height: v.height as u32 }
}

/// The number of pixels of the region `r` that fall into `bin`.
pub open spec fn region_bin_count(v: RgbView, r: SRegion, bin: int) -> int {
    bin_count(v, r.x as int, r.y as int, r.width as int, r.width * r.height, bin)
}

/// The sum over the first `k` bins of the distances between the share of a
/// bin in the image and its share in the block `r`, each share scaled by
/// the size of both: for a bin with `a` of the `n1` pixels of the image and
/// `b` of the `n2` pixels of the block, the distance `|a n2 - b n1|`.
pub open spec fn colour_gap(v: RgbView, r: SRegion, k: int) -> int
    decreases k,
{
    if k <= 0 {
        0
    } else {
        let d = region_bin_count(v, whole_of(v), k - 1) * r.area() - region_bin_count(v, r, k - 1)
            * pixel_total(v);
        colour_gap(v, r, k - 1) + if d >= 0 {
            d
        } else {
            -d
        }
    }
}

/// The colours of a block depart from those of the image: half the sum of
/// the distances between the shares of the bins is above 0.3 times the
/// sensitivity. With the gap `g` between an image of `n1` and a block of
/// `n2` pixels that is `g / (2 n1 n2) > 0.3 s`.
pub open spec fn colours_depart(gap: int, n1: int, n2: int, sensitivity: int) -> bool {
    n1 > 0 && n2 > 0 && 10_000_000 * gap > 6 * sensitivity * (n1 * n2)
}

/// The value of the inconsistency map for a block: half the sum of the
/// distances, times the sensitivity and 255, rounded down and at most 255.
pub open spec fn colour_value(gap: int, n1: int, n2: int, sensitivity: int) -> int {
    if n1 <= 0 || n2 <= 0 {
        0
    } else {
        let v = (gap * 255 * sensitivity) / (2_000_000 * (n1 * n2));
        if v > 255 {
            255
        } else {
            v
        }
    }
}

/// The block `r` is suspicious by its colours.
pub open spec fn block_departs(v: RgbView, r: SRegion, sensitivity: int) -> bool {
    colours_depart(colour_gap(v, r, 512), pixel_total(v), r.area(), sensitivity)
}

/// The value of the inconsistency map in the block `r`.
pub open spec fn block_value(v: RgbView, r: SRegion, sensitivity: int) -> int {
    colour_value(colour_gap(v, r, 512), pixel_total(v), r.area(), sensitivity)
}

/// The blocks of `blocks` that are suspicious by their colours, in order.
pub open spec fn departing_of(v: RgbView, blocks: Seq<SRegion>, sensitivity: int) -> Seq<SRegion>
    decreases blocks.len(),
{
    if blocks.len() == 0 {
        Seq::empty()
    } else {
        let rest = departing_of(v, blocks.drop_last(), sensitivity);
        if block_departs(v, blocks.last(), sensitivity) {
            rest.push(blocks.last())
        } else {
            rest
        }
    }
}

/// The gap between the histogram of the image and that of a block, for an
/// image of at most 2^32 pixels.
fn gap_of(
    whole: &Vec<u64>,
    part: &Vec<u64>,
    Ghost(v): Ghost<RgbView>,
    r: &SRegion,
    n1: u64,
    n2: u64,
) -> (gap: u128)
    requires
        is_histogram(whole@, v, whole_of(v)),
        is_histogram(part@, v, *r),
        v.width <= u32::MAX,
        v.height <= u32::MAX,
        n1 == pixel_total(v),
        n2 == r.area(),
        n1 <= 0x1_0000_0000,
        n2 <= 0x1_0000_0000,
    ensures
        gap == colour_gap(v, *r, 512),
        gap <= 512 * 0x1_0000_0000_0000_0000,
{
    let mut gap: u128 = 0;
    let mut k: usize = 0;
    while k < 512
        invariant
            0 <= k <= 512,
            is_histogram(whole@, v, whole_of(v)),
            is_histogram(part@, v, *r),
            v.width <= u32::MAX,
            v.height <= u32::MAX,
            n1 == pixel_total(v),
            n2 == r.area(),
            n1 <= 0x1_0000_0000,
            n2 <= 0x1_0000_0000,
            gap == colour_gap(v, *r, k as int),
            gap <= k * 0x1_0000_0000_0000_0000,
        decreases 512 - k,
    {
        let a: u128 = whole[k] as u128;
        let b: u128 = part[k] as u128;
        proof {
            let w = whole_of(v);
            assert(w.width * w.height == v.width * v.height);
            assert(0 <= w.width * w.height) by (nonlinear_arith)
                requires
                    0 <= w.width,
                    0 <= w.height,
            ;
            assert(0 <= r.width * r.height) by (nonlinear_arith)
                requires
                    0 <= r.width,
                    0 <= r.height,
            ;
            lemma_bin_count_bound(v, 0, 0, w.width as int, w.width * w.height, k as int);
            lemma_bin_count_bound(
                v,
                r.x as int,
                r.y as int,
                r.width as int,
                r.width * r.height,
                k as int,
            );
            assert(whole@[k as int] == region_bin_count(v, w, k as int));
            assert(part@[k as int] == region_bin_count(v, *r, k as int));
        }
        assert(a * n2 <= 0x1_0000_0000_0000_0000 && b * n1 <= 0x1_0000_0000_0000_0000)
            by (nonlinear_arith)
            requires
                0 <= a <= 0x1_0000_0000,
                0 <= b <= 0x1_0000_0000,
                0 <= n1 <= 0x1_0000_0000,
                0 <= n2 <= 0x1_0000_0000,
        ;
        let left: u128 = a * (n2 as u128);
        let right: u128 = b * (n1 as u128);
        let d: u128 = if left >= right { left - right } else { right - left };
        gap = gap + d;
        k += 1;
    }
    gap
}

/// Whether a gap departs, and the value it gives in the map.
fn judge_gap(gap: u128, n1: u64, n2: u64, sensitivity: Score) -> (r: (bool, u8))
    requires
        gap <= 512 * 0x1_0000_0000_0000_0000,
        n1 <= 0x1_0000_0000,
        n2 <= 0x1_0000_0000,
    ensures
        r.0 == colours_depart(gap as int, n1 as int, n2 as int, sensitivity@),
        r.1 == colour_value(gap as int, n1 as int, n2 as int, sensitivity@),
{
    if n1 == 0 || n2 == 0 {
        return (false, 0);
    }
    let s: u128 = sensitivity.ppm() as u128;
    assert(1 <= n1 * n2 <= 0x1_0000_0000_0000_0000) by (nonlinear_arith)
        requires
            1 <= n1 <= 0x1_0000_0000,
            1 <= n2 <= 0x1_0000_0000,
    ;
    let size: u128 = (n1 as u128) * (n2 as u128);
    assert(6 * s * size <= 6 * 1_000_000 * 0x1_0000_0000_0000_0000) by (nonlinear_arith)
        requires
            0 <= s <= 1_000_000,
            0 <= size <= 0x1_0000_0000_0000_0000,
    ;
    let departs = 10_000_000 * gap > 6 * s * size;
    assert(gap * 255 * s <= 512 * 0x1_0000_0000_0000_0000 * 255 * 1_000_000) by (nonlinear_arith)
        requires
            0 <= gap <= 512 * 0x1_0000_0000_0000_0000,
            0 <= s <= 1_000_000,
    ;
    let v: u128 = (gap * 255 * s) / (2_000_000 * size);
    let value: u8 = if v > 255 { 255 } else { v as u8 };
    (departs, value)
}

/// What the colour analysis finds: the inconsistency map and the blocks
/// whose colours depart from those of the image.
#[derive(Debug)]
pub struct ColourSignal {
    pub inconsistency_map: GrayRaster,
    pub suspicious_regions: Vec<SRegion>,
}

/// `s` is the colour signal of the image for blocks of the given side: the
/// blocks that depart, in order, and a map that holds at each pixel the
/// value of its block.
pub open spec fn is_colour_analysis(
    s: ColourSignal,
    v: RgbView,
    block_size: int,
    sensitivity: int,
) -> bool {
    &&& s.inconsistency_map@.wf() && s.inconsistency_map@.width == v.width
        && s.inconsistency_map@.height == v.height
    &&& s.suspicious_regions@ == departing_of(
        v,
        tiling(v.width as int, v.height as int, block_size),
        sensitivity,
    )
    &&& forall|x: int, y: int|
        v.inside(x, y) ==> #[trigger] s.inconsistency_map@.at(x, y) == block_value(
            v,
            crate::grid::grid_block(
                x / block_size,
                y / block_size,
                v.width as int,
                v.height as int,
                block_size,
            ),
            sensitivity,
        )
}

/// The image has at most 2^32 pixels and the blocks have a side.
pub open spec fn colour_input_ok(v: RgbView, block_size: u32) -> bool {
    block_size >= 1 && pixel_total(v) <= 0x1_0000_0000
}

/// Compares the colours of each block of the given side with those of the
/// whole image. A block size of zero and an image of more than 2^32 pixels
/// are rejected.
pub fn analyze_color_consistency(image: &RgbRaster, block_size: u32, sensitivity: Score) -> (r:
    Result<ColourSignal, ForensicsError>)
    ensures
        block_size == 0 ==> (r matches Err(ForensicsError::InvalidParameter(msg)) && msg@
            == "Block size must be positive"@),
        block_size >= 1 && pixel_total(image@) > 0x1_0000_0000 ==> (r matches Err(
            ForensicsError::AnalysisFailed(msg),
        ) && msg@ == "Image is too large"@),
        colour_input_ok(image@, block_size) ==> (r matches Ok(s) && is_colour_analysis(
            s,
            image@,
            block_size as int,
            sensitivity@,
        )),
{
    if block_size == 0 {
        return Err(ForensicsError::InvalidParameter("Block size must be positive".to_owned()));
    }
    let (width, height) = image.dimensions();
    assert(width * height <= 0xFFFF_FFFF * 0xFFFF_FFFF) by (nonlinear_arith)
        requires
            0 <= width <= 0xFFFF_FFFF,
            0 <= height <= 0xFFFF_FFFF,
    ;
    let n1: u64 = (width as u64) * (height as u64);
    if n1 > 0x1_0000_0000 {
        return Err(ForensicsError::AnalysisFailed("Image is too large".to_owned()));
    }
    let everything = SRegion { x: 0, y: 0, width, height };
    assert(everything == whole_of(image@));
    let whole = calculate_color_histogram(image, &everything);
    let blocks = block_regions(width, height, block_size);
    let m = blocks.len();
    let mut values: Vec<u8> = Vec::new();
    let mut regions: Vec<SRegion> = Vec::new();
    let mut b: usize = 0;
    assert(blocks@.take(0) =~= Seq::<SRegion>::empty());
    while b < m
        invariant
            0 <= b <= m,
            m == blocks@.len(),
            image@.wf(),
            image@.width == width,
            image@.height == height,
            n1 == pixel_total(image@),
            n1 <= 0x1_0000_0000,
            is_histogram(whole@, image@, whole_of(image@)),
            forall|k: int|
                0 <= k < blocks@.len() ==> (#[trigger] blocks@[k]).within(
                    width as int,
                    height as int,
                ),
            values@.len() == b,
            forall|k: int|
                0 <= k < b ==> #[trigger] values@[k] == block_value(
                    image@,
                    blocks@[k],
                    sensitivity@,
                ),
            regions@ == departing_of(image@, blocks@.take(b as int), sensitivity@),
        decreases m - b,
    {
        proof {
            assert(blocks@.take(b + 1).drop_last() =~= blocks@.take(b as int));
            assert(blocks@.take(b + 1).last() == blocks@[b as int]);
        }
        let r = blocks[b];
        assert(r.within(width as int, height as int));
        assert(r.width * r.height <= width * height) by (nonlinear_arith)
            requires
                0 <= r.width <= width,
                0 <= r.height <= height,
        ;
        let n2: u64 = (r.width as u64) * (r.height as u64);
        let part = calculate_color_histogram(image, &r);
        let gap = gap_of(&whole, &part, Ghost(image@), &r, n1, n2);
        let (departs, value) = judge_gap(gap, n1, n2, sensitivity);
        values.push(value);
        if departs {
            regions.push(r);
        }
        b += 1;
    }
    assert(blocks@.take(m as int) =~= blocks@);
    let nx: u32 = count_steps(width, block_size);
    let ny: u32 = count_steps(height, block_size);
    let n: usize = image.as_raw().len() / 3;
    let mut data: Vec<u8> = Vec::new();
    let mut i: usize = 0;
    while i < n
        invariant
            0 <= i <= n,
            n == width * height,
            block_size >= 1,
            image@.wf(),
            image@.width == width,
            image@.height == height,
            nx == steps_below(width as int, block_size as int),
            ny == steps_below(height as int, block_size as int),
            m == blocks@.len(),
            is_tiling(blocks@, width as int, height as int, block_size as int),
            values@.len() == m,
            forall|k: int|
                0 <= k < m ==> #[trigger] values@[k] == block_value(
                    image@,
                    blocks@[k],
                    sensitivity@,
                ),
            data@.len() == i,
            forall|k: int|
                0 <= k < i ==> #[trigger] data@[k] == block_value(
                    image@,
                    grid_block(
                        (k % (width as int)) / (block_size as int),
                        (k / (width as int)) / (block_size as int),
                        width as int,
                        height as int,
                        block_size as int,
                    ),
                    sensitivity@,
                ),
        decreases n - i,
    {
        proof {
            lemma_position_of_offset(i as int, width as int, height as int);
        }
        let x: u32 = (i % (width as usize)) as u32;
        let y: u32 = (i / (width as usize)) as u32;
        let bi: u32 = x / block_size;
        let bj: u32 = y / block_size;
        proof {
            lemma_div_is_ordered(x as int, width - 1, block_size as int);
            lemma_div_is_ordered(y as int, height - 1, block_size as int);
            assert(0 <= bi < nx && 0 <= bj < ny);
            lemma_offset_in_range(bi as int, bj as int, nx as int, ny as int);
            assert(blocks@[bj * nx + bi] == grid_block(
                bi as int,
                bj as int,
                width as int,
                height as int,
                block_size as int,
            ));
        }
        let k: usize = (bj as usize) * (nx as usize) + (bi as usize);
        data.push(values[k]);
        i += 1;
    }
    let inconsistency_map = GrayRaster::from_raw(width, height, data).unwrap();
    proof {
        assert forall|x: int, y: int| image@.inside(x, y) implies #[trigger] inconsistency_map@.at(
            x,
            y,
        ) == block_value(
            image@,
            grid_block(
                x / (block_size as int),
                y / (block_size as int),
                image@.width as int,
                image@.height as int,
                block_size as int,
            ),
            sensitivity@,
        ) by {
            lemma_offset_in_range(x, y, width as int, height as int);
            lemma_offset_of_position(x, y, width as int);
        }
    }
    Ok(ColourSignal { inconsistency_map, suspicious_regions: regions })
}

/// The sum of the given values.
pub open spec fn sum_values(values: Seq<u64>) -> int
    decreases values.len(),
{
    if values.len() == 0 {
        0
    } else {
        sum_values(values.drop_last()) + values.last()
    }
}

/// The value at position `i` is a peak: it lies above one and a half times
/// the mean of all values, whose sum is `total`.
pub open spec fn is_peak(values: Seq<u64>, total: int, i: int) -> bool {
    2 * values.len() * values[i] > 3 * total
}

/// What is known of the peaks among the first values: their number, the
/// position of the last one, and the sum and the sum of the squares of the
/// intervals between them.
pub struct PeakStats {
    pub count: int,
    pub last: int,
    pub span: int,
    pub squares: int,
}

/// The peaks among the first `i` values.
pub open spec fn peak_stats(values: Seq<u64>, total: int, i: int) -> PeakStats
    decreases i,
{
    if i <= 0 {
        PeakStats { count: 0, last: 0, span: 0, squares: 0 }
    } else {
        let s = peak_stats(values, total, i - 1);
        if is_peak(values, total, i - 1) {
            if s.count == 0 {
                PeakStats { count: 1, last: i - 1, span: 0, squares: 0 }
            } else {
                let d = i - 1 - s.last;
                PeakStats {
                    count: s.count + 1,
                    last: i - 1,
                    span: s.span + d,
                    squares: s.squares + d * d,
                }
            }
        } else {
            s
        }
    }
}

/// The peaks of the values come at regular intervals: there are at least
/// three values with a mean of at least 10, at least two peaks, and the
/// regularity `1 / (1 + deviation)` of the intervals between the peaks is
/// above 0.7. With `k` intervals whose sum is `span` and whose squares sum
/// to `squares`, their variance is below `9 / 49`:
/// `49 (k squares - span^2) < 9 k^2`.
pub open spec fn is_regular(values: Seq<u64>) -> bool {
    let total = sum_values(values);
    let s = peak_stats(values, total, values.len() as int);
    let k = s.count - 1;
    &&& values.len() >= 3
    &&& total >= 10 * values.len()
    &&& s.count >= 2
    &&& 49 * (k * s.squares - s.span * s.span) < 9 * (k * k)
}

proof fn lemma_peak_stats_bounds(values: Seq<u64>, total: int, i: int)
    requires
        0 <= i,
    ensures
        0 <= peak_stats(values, total, i).count <= i,
        peak_stats(values, total, i).count > 0 ==> 0 <= peak_stats(values, total, i).last < i,
        0 <= peak_stats(values, total, i).span <= i,
        peak_stats(values, total, i).count > 0 ==> peak_stats(values, total, i).span
            <= peak_stats(values, total, i).last,
        0 <= peak_stats(values, total, i).squares <= peak_stats(values, total, i).span
            * peak_stats(values, total, i).span,
    decreases i,
{
    if i > 0 {
        lemma_peak_stats_bounds(values, total, i - 1);
        let s = peak_stats(values, total, i - 1);
        if is_peak(values, total, i - 1) && s.count > 0 {
            let d = i - 1 - s.last;
            assert(s.squares + d * d <= (s.span + d) * (s.span + d)) by (nonlinear_arith)
                requires
                    0 <= s.squares <= s.span * s.span,
                    0 <= s.span,
                    0 <= d,
            ;
            assert(0 <= d * d) by (nonlinear_arith);
        } else {
            assert(0 * 0 == 0) by (nonlinear_arith);
        }
    }
}

/// Whether the peaks of the values come at regular intervals, for at most
/// 2^32 values of at most 2^40 each.
pub fn calculate_regularity(values: &Vec<u64>) -> (r: bool)
    requires
        values@.len() <= 0x1_0000_0000,
        forall|i: int| 0 <= i < values@.len() ==> #[trigger] values@[i] <= 0x100_0000_0000,
    ensures
        r == is_regular(values@),
{
    let n = values.len();
    let mut total: u128 = 0;
    let mut i: usize = 0;
    assert(values@.take(0) =~= Seq::<u64>::empty());
    while i < n
        invariant
            0 <= i <= n,
            n == values@.len(),
            n <= 0x1_0000_0000,
            forall|k: int| 0 <= k < values@.len() ==> #[trigger] values@[k] <= 0x100_0000_0000,
            total == sum_values(values@.take(i as int)),
            total <= i * 0x100_0000_0000,
        decreases n - i,
    {
        proof {
            assert(values@.take(i + 1).drop_last() =~= values@.take(i as int));
            assert(values@.take(i + 1).last() == values@[i as int]);
            assert((i + 1) * 0x100_0000_0000 == i * 0x100_0000_0000 + 0x100_0000_0000)
                by (nonlinear_arith);
            assert(i * 0x100_0000_0000 <= 0x1_0000_0000 * 0x100_0000_0000) by (nonlinear_arith)
                requires
                    0 <= i <= 0x1_0000_0000,
            ;
        }
        total = total + values[i] as u128;
        i += 1;
    }
    assert(values@.take(n as int) =~= values@);
    assert(n * 0x100_0000_0000 <= 0x1_0000_0000 * 0x100_0000_0000) by (nonlinear_arith)
        requires
            0 <= n <= 0x1_0000_0000,
    ;
    if n < 3 || total < 10 * (n as u128) {
        return false;
    }
    let len: u128 = n as u128;
    let mut count: u128 = 0;
    let mut last: u128 = 0;
    let mut span: u128 = 0;
    let mut squares: u128 = 0;
    let mut j: usize = 0;
    while j < n
        invariant
            0 <= j <= n,
            n == values@.len(),
            len == n,
            n <= 0x1_0000_0000,
            total == sum_values(values@),
            total <= 0x1_0000_0000 * 0x100_0000_0000,
            forall|k: int| 0 <= k < values@.len() ==> #[trigger] values@[k] <= 0x100_0000_0000,
            count == peak_stats(values@, total as int, j as int).count,
            last == peak_stats(values@, total as int, j as int).last,
            span == peak_stats(values@, total as int, j as int).span,
            squares == peak_stats(values@, total as int, j as int).squares,
        decreases n - j,
    {
        proof {
            lemma_peak_stats_bounds(values@, total as int, j as int);
            lemma_peak_stats_bounds(values@, total as int, j + 1);
        }
        let v: u128 = values[j] as u128;
        assert(2 * len * v <= 2 * 0x1_0000_0000 * 0x100_0000_0000) by (nonlinear_arith)
            requires
                0 <= len <= 0x1_0000_0000,
                0 <= v <= 0x100_0000_0000,
        ;
        if 2 * len * v > 3 * total {
            if count == 0 {
                count = 1;
                last = j as u128;
                span = 0;
                squares = 0;
            } else {
                let d: u128 = j as u128 - last;
                assert(d * d <= 0x1_0000_0000 * 0x1_0000_0000) by (nonlinear_arith)
                    requires
                        0 <= d <= 0x1_0000_0000,
                ;
                assert(span * span <= 0x1_0000_0000 * 0x1_0000_0000) by (nonlinear_arith)
                    requires
                        0 <= span <= 0x1_0000_0000,
                ;
                count = count + 1;
                last = j as u128;
                span = span + d;
                squares = squares + d * d;
            }
        }
        j += 1;
    }
    proof {
        lemma_peak_stats_bounds(values@, total as int, n as int);
    }
    if count < 2 {
        return false;
    }
    let k: u128 = count - 1;
    assert(span * span <= 0x1_0000_0000 * 0x1_0000_0000) by (nonlinear_arith)
        requires
            0 <= span <= 0x1_0000_0000,
    ;
    assert(k * squares <= 0x1_0000_0000 * (0x1_0000_0000 * 0x1_0000_0000)) by (nonlinear_arith)
        requires
            0 <= k <= 0x1_0000_0000,
            0 <= squares <= 0x1_0000_0000 * 0x1_0000_0000,
    ;
    assert(k * k <= 0x1_0000_0000 * 0x1_0000_0000) by (nonlinear_arith)
        requires
            0 <= k <= 0x1_0000_0000,
    ;
    let spread: i128 = (k * squares) as i128 - (span * span) as i128;
    49 * spread < 9 * ((k * k) as i128)
}

/// The sums of the rows of the block `r` of the map, from the top.
pub open spec fn row_sums(g: GrayView, r: SRegion) -> Seq<u64> {
    Seq::new(
        r.height as nat,
        |dy: int| cells_sum(g, r.x as int, r.y + dy, r.width as int, r.width as int) as u64,
    )
}

/// The sums of the columns of the block `r` of the map, from the left.
pub open spec fn column_sums(g: GrayView, r: SRegion) -> Seq<u64> {
    Seq::new(
        r.width as nat,
        |dx: int| cells_sum(g, r.x + dx, r.y as int, 1, r.height as int) as u64,
    )
}

/// The edges of the block `r` come at regular intervals, along its rows or
/// along its columns.
pub open spec fn edges_regular(g: GrayView, r: SRegion) -> bool {
    is_regular(row_sums(g, r)) || is_regular(column_sums(g, r))
}

/// The blocks of `blocks` whose edges come at regular intervals, in order.
pub open spec fn regular_of(g: GrayView, blocks: Seq<SRegion>) -> Seq<SRegion>
    decreases blocks.len(),
{
    if blocks.len() == 0 {
        Seq::empty()
    } else {
        let rest = regular_of(g, blocks.drop_last());
        if edges_regular(g, blocks.last()) {
            rest.push(blocks.last())
        } else {
            rest
        }
    }
}

/// The sums of the rows (`across` false) or of the columns (`across` true)
/// of a block that lies inside the map.
fn line_sums(edge_map: &GrayRaster, r: &SRegion, across: bool) -> (sums: Vec<u64>)
    requires
        r.right() <= edge_map@.width,
        r.bottom() <= edge_map@.height,
    ensures
        sums@ == if across {
            column_sums(edge_map@, *r)
        } else {
            row_sums(edge_map@, *r)
        },
        sums@.len() <= 0x1_0000_0000,
        forall|i: int| 0 <= i < sums@.len() ==> #[trigger] sums@[i] <= 0x100_0000_0000,
{
    let (width, height) = edge_map.dimensions();
    let n: u32 = if across { r.width } else { r.height };
    let mut sums: Vec<u64> = Vec::new();
    let mut d: u32 = 0;
    while d < n
        invariant
            0 <= d <= n,
            n == if across { r.width } else { r.height },
            edge_map@.width == width,
            edge_map@.height == height,
            r.right() <= edge_map@.width,
            r.bottom() <= edge_map@.height,
            sums@.len() == d,
            forall|i: int|
                0 <= i < d ==> #[trigger] sums@[i] == if across {
                    column_sums(edge_map@, *r)[i]
                } else {
                    row_sums(edge_map@, *r)[i]
                },
            forall|i: int| 0 <= i < d ==> #[trigger] sums@[i] <= 0x100_0000_0000,
        decreases n - d,
    {
        let sum: u128 = if across {
            proof {
                lemma_cells_bounds(edge_map@, r.x + d, r.y as int, 1, r.height as int);
                assert(1 * r.height == r.height);
            }
            window_sums(edge_map, r.x + d, r.y, 1, r.height).0
        } else {
            proof {
                lemma_cells_bounds(edge_map@, r.x as int, r.y + d, r.width as int, r.width as int);
                assert(r.width * 1 == r.width);
            }
            window_sums(edge_map, r.x, r.y + d, r.width, 1).0
        };
        sums.push(sum as u64);
        d += 1;
    }
    proof {
        if across {
            assert(sums@ =~= column_sums(edge_map@, *r));
        } else {
            assert(sums@ =~= row_sums(edge_map@, *r));
        }
    }
    sums
}

/// The blocks of the given side whose edges come at regular intervals.
pub fn find_unnatural_edges(edge_map: &GrayRaster, block_size: u32) -> (out: Vec<SRegion>)
    requires
        block_size >= 1,
    ensures
        out@ == regular_of(
            edge_map@,
            tiling(edge_map@.width as int, edge_map@.height as int, block_size as int),
        ),
{
    let (width, height) = edge_map.dimensions();
    let blocks = block_regions(width, height, block_size);
    let m = blocks.len();
    let mut out: Vec<SRegion> = Vec::new();
    let mut b: usize = 0;
    assert(blocks@.take(0) =~= Seq::<SRegion>::empty());
    while b < m
        invariant
            0 <= b <= m,
            m == blocks@.len(),
            edge_map@.width == width,
            edge_map@.height == height,
            forall|k: int|
                0 <= k < blocks@.len() ==> (#[trigger] blocks@[k]).within(
                    width as int,
                    height as int,
                ),
            out@ == regular_of(edge_map@, blocks@.take(b as int)),
        decreases m - b,
    {
        proof {
            assert(blocks@.take(b + 1).drop_last() =~= blocks@.take(b as int));
            assert(blocks@.take(b + 1).last() == blocks@[b as int]);
        }
        let r = blocks[b];
        assert(r.within(width as int, height as int));
        let rows = line_sums(edge_map, &r, false);
        let regular = if calculate_regularity(&rows) {
            true
        } else {
            let columns = line_sums(edge_map, &r, true);
            calculate_regularity(&columns)
        };
        if regular {
            out.push(r);
        }
        b += 1;
    }
    assert(blocks@.take(m as int) =~= blocks@);
    out
}

/// A block that departs by its colours is one of the given blocks.
pub proof fn departing_are_blocks(v: RgbView, blocks: Seq<SRegion>, sensitivity: int, k: int)
    requires
        0 <= k < departing_of(v, blocks, sensitivity).len(),
    ensures
        blocks.contains(departing_of(v, blocks, sensitivity)[k]),
    decreases blocks.len(),
{
    if blocks.len() > 0 {
        let rest = departing_of(v, blocks.drop_last(), sensitivity);
        if k < rest.len() {
            departing_are_blocks(v, blocks.drop_last(), sensitivity, k);
            let j = choose|j: int| 0 <= j < blocks.drop_last().len() && blocks.drop_last()[j] == rest[k];
            assert(blocks[j] == rest[k]);
        } else {
            assert(blocks[blocks.len() - 1] == blocks.last());
        }
    }
}

} // verus!
