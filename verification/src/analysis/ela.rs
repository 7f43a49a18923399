//! Error level analysis: the channel distances between an image and its
//! recompression.

use vstd::prelude::*;
use crate::analysis::jpeg_analysis::{abs_diff, byte_distance, recompress, valid_quality};
use crate::error::ForensicsError;
use crate::grid::{block_regions, tiling};
use crate::merging::{all_wf, is_merge_of, merge_adjacent_regions};
use crate::raster::{
    lemma_offset_in_range,
    lemma_position_of_offset,
    GrayRaster,
    Rgb,
    RgbRaster,
    RgbView,
};
use crate::region::SRegion;

verus! {

/// The sum of the three channel distances of two pixels.
pub open spec fn channel_total(a: Rgb, b: Rgb) -> int {
    abs_diff(a.r, b.r) + abs_diff(a.g, b.g) + abs_diff(a.b, b.b)
}

/// The channel distances between an image and its recompression: for each
/// pixel, row by row, the sum of the distances of the three channels.
pub open spec fn is_error_levels(levels: Seq<u16>, first: RgbView, second: RgbView) -> bool {
    &&& levels.len() == first.width * first.height
    &&& forall|i: int|
        0 <= i < levels.len() ==> #[trigger] levels[i] == channel_total(first.nth(i), second.nth(i))
}

/// The channel distances between two images of one size.
pub fn error_levels(first: &RgbRaster, second: &RgbRaster) -> (levels: Vec<u16>)
    requires
        first@.width == second@.width,
        first@.height == second@.height,
    ensures
        is_error_levels(levels@, first@, second@),
{
    let a = first.as_raw();
    let b = second.as_raw();
    let (width, height) = first.dimensions();
    let (other_width, other_height) = second.dimensions();
    let total = a.len();
    let n: usize = total / 3;
    let mut levels: Vec<u16> = Vec::new();
    let mut i: usize = 0;
    while i < n
        invariant
            0 <= i <= n,
            n == width * height,
            a@.len() == 3 * n,
            b@.len() == 3 * n,
            total == a@.len(),
            a@ == first@.bytes,
            b@ == second@.bytes,
            levels@.len() == i,
            forall|k: int|
                0 <= k < i ==> #[trigger] levels@[k] == channel_total(first@.nth(k), second@.nth(k)),
        decreases n - i,
    {
        let dr: u16 = byte_distance(a[3 * i], b[3 * i]) as u16;
        let dg: u16 = byte_distance(a[3 * i + 1], b[3 * i + 1]) as u16;
        let db: u16 = byte_distance(a[3 * i + 2], b[3 * i + 2]) as u16;
        levels.push(dr + dg + db);
        i += 1;
    }
    levels
}

/// `m` is the largest of `levels`, zero if there is none.
pub open spec fn is_max_level(levels: Seq<u16>, m: u16) -> bool {
    &&& forall|i: int| 0 <= i < levels.len() ==> #[trigger] levels[i] <= m
    &&& m == 0 || exists|i: int| 0 <= i < levels.len() && #[trigger] levels[i] == m
}

/// The largest channel distance.
pub fn max_level(levels: &Vec<u16>) -> (m: u16)
    ensures
        is_max_level(levels@, m),
{
    let mut m: u16 = 0;
    let mut i: usize = 0;
    while i < levels.len()
        invariant
            0 <= i <= levels@.len(),
            forall|k: int| 0 <= k < i ==> #[trigger] levels@[k] <= m,
            m == 0 || exists|k: int| 0 <= k < i && #[trigger] levels@[k] == m,
        decreases levels@.len() - i,
    {
        if levels[i] > m {
            m = levels[i];
        }
        i += 1;
    }
    m
}

/// The error levels of an image at the given JPEG quality: the channel
/// distances between the image and its recompression.
pub fn analyze_error_levels(image: &RgbRaster, quality: u8) -> (r: Result<
    (RgbRaster, Vec<u16>),
    ForensicsError,
>)
    ensures
        !valid_quality(quality) ==> r matches Err(ForensicsError::InvalidParameter(_)),
        valid_quality(quality) ==> !(r matches Err(ForensicsError::InvalidParameter(_))),
        r matches Ok(found) ==> found.0@.wf() && found.0@.width == image@.width
            && found.0@.height == image@.height && is_error_levels(found.1@, image@, found.0@),
{
    let recompressed = match recompress(image, quality) {
        Ok(out) => out,
        Err(e) => {
            return Err(e);
        },
    };
    let levels = error_levels(image, &recompressed);
    Ok((recompressed, levels))
}

/// The sum of the levels of `s`.
pub open spec fn levels_total(s: Seq<u16>) -> int
    decreases s.len(),
{
    if s.len() == 0 {
        0
    } else {
        levels_total(s.drop_last()) + s.last()
    }
}

/// The sum of the squares of the levels of `s`.
pub open spec fn levels_squares(s: Seq<u16>) -> int
    decreases s.len(),
{
    if s.len() == 0 {
        0
    } else {
        levels_squares(s.drop_last()) + s.last() * s.last()
    }
}

/// Every level is a sum of three channel distances.
pub open spec fn levels_in_range(s: Seq<u16>) -> bool {
    forall|i: int| 0 <= i < s.len() ==> #[trigger] s[i] <= 765
}

proof fn lemma_levels_bounds(s: Seq<u16>)
    requires
        levels_in_range(s),
    ensures
        0 <= levels_total(s) <= 765 * s.len(),
        0 <= levels_squares(s) <= 585_225 * s.len(),
    decreases s.len(),
{
    if s.len() > 0 {
        assert(levels_in_range(s.drop_last())) by {
            assert forall|i: int| 0 <= i < s.drop_last().len() implies #[trigger] s.drop_last()[i]
                <= 765 by {
                assert(s.drop_last()[i] == s[i]);
            }
        }
        lemma_levels_bounds(s.drop_last());
        let v = s.last() as int;
        assert(v == s[s.len() - 1]);
        assert(0 <= v * v <= 585_225) by (nonlinear_arith)
            requires
                0 <= v <= 765,
        ;
    }
}

/// The sum and the sum of the squares of the levels.
pub fn level_moments(levels: &Vec<u16>) -> (m: (u128, u128))
    ensures
        m.0 == levels_total(levels@),
        m.1 == levels_squares(levels@),
{
    let n = levels.len();
    let mut total: u128 = 0;
    let mut squares: u128 = 0;
    let mut i: usize = 0;
    assert(levels@.take(0) =~= Seq::<u16>::empty());
    while i < n
        invariant
            0 <= i <= n,
            n == levels@.len(),
            total == levels_total(levels@.take(i as int)),
            squares == levels_squares(levels@.take(i as int)),
            total <= 0x1_0000 * i,
            squares <= 0x1_0000_0000 * i,
        decreases n - i,
    {
        proof {
            assert(levels@.take(i + 1).drop_last() =~= levels@.take(i as int));
            assert(levels@.take(i + 1).last() == levels@[i as int]);
        }
        let v: u128 = levels[i] as u128;
        assert(v * v <= 0x1_0000_0000) by (nonlinear_arith)
            requires
                0 <= v <= 0xFFFF,
        ;
        total = total + v;
        squares = squares + v * v;
        i += 1;
    }
    assert(levels@.take(n as int) =~= levels@);
    (total, squares)
}

/// The sum of the first `t` levels, row by row, of the window of width `ww`
/// whose corner is `(x0, y0)`, in a grid of the given width.
pub open spec fn window_total(levels: Seq<u16>, width: int, x0: int, y0: int, ww: int, t: int) -> int
    decreases t,
{
    if t <= 0 {
        0
    } else {
        window_total(levels, width, x0, y0, ww, t - 1) + levels[(y0 + (t - 1) / ww) * width + x0 + (t
            - 1) % ww]
    }
}

/// The sum of the levels in the block `r`.
pub open spec fn block_total(levels: Seq<u16>, width: int, r: SRegion) -> int {
    window_total(levels, width, r.x as int, r.y as int, r.width as int, r.width * r.height)
}

/// The block with `count` pixels whose levels sum to `block` stands out
/// among `n` pixels whose levels sum to `total` and whose squares sum to
/// `squares`: its mean lies more than two standard deviations above the mean
/// of all. With `d = block * n - count * total` that is `d > 0` and
/// `d^2 > 4 count^2 (n squares - total^2)`.
pub open spec fn stands_above(block: int, count: int, n: int, total: int, squares: int) -> bool {
    let d = block * n - count * total;
    d > 0 && d * d > 4 * (count * count) * (n * squares - total * total)
}

/// The blocks of `blocks` that stand out, in order.
pub open spec fn suspicious_of(
    levels: Seq<u16>,
    width: int,
    blocks: Seq<SRegion>,
    total: int,
    squares: int,
) -> Seq<SRegion>
    decreases blocks.len(),
{
    if blocks.len() == 0 {
        Seq::empty()
    } else {
        let rest = suspicious_of(levels, width, blocks.drop_last(), total, squares);
        if stands_above(
            block_total(levels, width, blocks.last()),
            blocks.last().area(),
            levels.len() as int,
            total,
            squares,
        ) {
            rest.push(blocks.last())
        } else {
            rest
        }
    }
}

/// The sum of the levels in a block that lies inside the grid.
fn sum_block(levels: &Vec<u16>, width: u32, height: u32, r: &SRegion) -> (sum: u128)
    requires
        levels@.len() == width * height,
        levels_in_range(levels@),
        r.right() <= width,
        r.bottom() <= height,
    ensures
        sum == block_total(levels@, width as int, *r),
        sum <= 765 * (r.width * r.height),
{
    assert(r.width * r.height <= 0xFFFF_FFFF * 0xFFFF_FFFF) by (nonlinear_arith)
        requires
            0 <= r.width <= 0xFFFF_FFFF,
            0 <= r.height <= 0xFFFF_FFFF,
    ;
    let total_len = levels.len();
    let n: u64 = (r.width as u64) * (r.height as u64);
    let mut sum: u128 = 0;
    let mut t: u64 = 0;
    while t < n
        invariant
            0 <= t <= n,
            n == r.width * r.height,
            levels@.len() == width * height,
            total_len == levels@.len(),
            levels_in_range(levels@),
            r.right() <= width,
            r.bottom() <= height,
            sum == window_total(
                levels@,
                width as int,
                r.x as int,
                r.y as int,
                r.width as int,
                t as int,
            ),
            sum <= 765 * t,
        decreases n - t,
    {
        proof {
            lemma_position_of_offset(t as int, r.width as int, r.height as int);
        }
        let cx: u32 = (t % (r.width as u64)) as u32;
        let cy: u32 = (t / (r.width as u64)) as u32;
        proof {
            lemma_offset_in_range(r.x + cx, r.y + cy, width as int, height as int);
        }
        let i: usize = crate::raster::offset(r.x + cx, r.y + cy, width, height);
        sum = sum + levels[i] as u128;
        t += 1;
    }
    sum
}

/// The blocks of side 16 whose mean level lies more than two standard
/// deviations above the mean level of the image. The image has at most
/// 65535 pixels a side, as every image that was recompressed has.
pub fn find_suspicious_blocks(levels: &Vec<u16>, width: u32, height: u32) -> (out: Vec<SRegion>)
    requires
        levels@.len() == width * height,
        levels_in_range(levels@),
        width <= 65535,
        height <= 65535,
    ensures
        out@ == suspicious_of(
            levels@,
            width as int,
            tiling(width as int, height as int, 16),
            levels_total(levels@),
            levels_squares(levels@),
        ),
        forall|k: int| 0 <= k < out@.len() ==> (#[trigger] out@[k]).within(width as int, height as int),
{
    let (total, squares) = level_moments(levels);
    let count_all = levels.len();
    proof {
        lemma_levels_bounds(levels@);
        assert(width * height <= 0x1_0000_0000) by (nonlinear_arith)
            requires
                0 <= width <= 65535,
                0 <= height <= 65535,
        ;
    }
    let n: i128 = count_all as i128;
    let t: i128 = total as i128;
    let q: i128 = squares as i128;
    // With at most 2^32 pixels and levels below 2^10, every product below
    // stays under 2^104.
    assert(0 <= n * q <= 0x10_0000_0000_0000_0000_0000) by (nonlinear_arith)
        requires
            0 <= n <= 0x1_0000_0000,
            0 <= q <= 0x10_0000 * n,
    ;
    assert(0 <= t * t <= 0x10_0000_0000_0000_0000_0000) by (nonlinear_arith)
        requires
            0 <= t <= 0x400 * n,
            0 <= n <= 0x1_0000_0000,
    ;
    let spread: i128 = n * q - t * t;
    let blocks = block_regions(width, height, 16);
    let m = blocks.len();
    let mut out: Vec<SRegion> = Vec::new();
    let mut i: usize = 0;
    assert(blocks@.take(0) =~= Seq::<SRegion>::empty());
    while i < m
        invariant
            0 <= i <= m,
            m == blocks@.len(),
            levels@.len() == width * height,
            levels_in_range(levels@),
            n == levels@.len(),
            0 <= n <= 0x1_0000_0000,
            t == levels_total(levels@),
            q == levels_squares(levels@),
            0 <= t <= 765 * n,
            spread == n * q - t * t,
            -0x10_0000_0000_0000_0000_0000 <= spread <= 0x10_0000_0000_0000_0000_0000,
            blocks@ == tiling(width as int, height as int, 16),
            forall|k: int|
                0 <= k < blocks@.len() ==> (#[trigger] blocks@[k]).within(
                    width as int,
                    height as int,
                ) && blocks@[k].width <= 16 && blocks@[k].height <= 16,
            out@ == suspicious_of(levels@, width as int, blocks@.take(i as int), t as int, q as int),
            forall|k: int|
                0 <= k < out@.len() ==> (#[trigger] out@[k]).within(width as int, height as int),
        decreases m - i,
    {
        proof {
            assert(blocks@.take(i + 1).drop_last() =~= blocks@.take(i as int));
            assert(blocks@.take(i + 1).last() == blocks@[i as int]);
        }
        let r = blocks[i];
        assert(r.within(width as int, height as int) && r.width <= 16 && r.height <= 16);
        assert(1 <= r.width * r.height <= 256) by (nonlinear_arith)
            requires
                1 <= r.width <= 16,
                1 <= r.height <= 16,
        ;
        let block: u128 = sum_block(levels, width, height, &r);
        let b: i128 = block as i128;
        let c: i128 = (r.width as i128) * (r.height as i128);
        assert(0 <= b * n <= 0x4_0000_0000_0000) by (nonlinear_arith)
            requires
                0 <= b <= 0x4_0000,
                0 <= n <= 0x1_0000_0000,
        ;
        assert(0 <= c * t <= 0x4_0000_0000_0000) by (nonlinear_arith)
            requires
                0 <= c <= 0x100,
                0 <= t <= 0x400_0000_0000,
        ;
        let d: i128 = b * n - c * t;
        assert(d * d <= 0x10_0000_0000_0000_0000_0000_0000) by (nonlinear_arith)
            requires
                -0x4_0000_0000_0000 <= d <= 0x4_0000_0000_0000,
        ;
        assert(1 <= c * c <= 65536) by (nonlinear_arith)
            requires
                1 <= c <= 256,
        ;
        let weight: i128 = 4 * (c * c);
        assert(-0x40_0000_0000_0000_0000_0000_0000 <= weight * spread
            <= 0x40_0000_0000_0000_0000_0000_0000) by (nonlinear_arith)
            requires
                4 <= weight <= 0x4_0000,
                -0x10_0000_0000_0000_0000_0000 <= spread <= 0x10_0000_0000_0000_0000_0000,
        ;
        if d > 0 && d * d > weight * spread {
            let ghost before = out@;
            out.push(r);
            proof {
                assert forall|k: int| 0 <= k < out@.len() implies (#[trigger] out@[k]).within(
                    width as int,
                    height as int,
                ) by {
                    if k < before.len() {
                        assert(out@[k] == before[k]);
                    }
                }
            }
        }
        i += 1;
    }
    assert(blocks@.take(m as int) =~= blocks@);
    out
}

/// A distance scaled for display: `value` times the amplification, which
/// counts thousandths, shared among `parts` channels, rounded down and kept
/// to a byte.
pub open spec fn amplified(value: int, parts: int, amplification: int) -> int {
    let scaled = (value * amplification) / (1000 * parts);
    if scaled > 255 {
        255
    } else {
        scaled
    }
}

fn amplify(value: u16, parts: u64, amplification: u32) -> (out: u8)
    requires
        parts == 1 || parts == 3,
    ensures
        out == amplified(value as int, parts as int, amplification as int),
{
    assert(value * amplification <= 0xffff * 0xffff_ffff) by (nonlinear_arith)
        requires
            0 <= value <= 0xffff,
            0 <= amplification <= 0xffff_ffff,
    ;
    let product: u64 = (value as u64) * (amplification as u64);
    let scaled: u64 = product / (1000 * parts);
    if scaled > 255 {
        255
    } else {
        scaled as u8
    }
}

/// The amplified channel distances of two images of one size, as an image:
/// each byte is the distance of the two bytes at its place, amplified.
pub fn amplified_image(first: &RgbRaster, second: &RgbRaster, amplification: u32) -> (out:
    RgbRaster)
    requires
        first@.width == second@.width,
        first@.height == second@.height,
    ensures
        out@.wf(),
        out@.width == first@.width,
        out@.height == first@.height,
        forall|i: int|
            0 <= i < first@.bytes.len() ==> #[trigger] out@.bytes[i] == amplified(
                abs_diff(first@.bytes[i], second@.bytes[i]),
                1,
                amplification as int,
            ),
{
    let (width, height) = first.dimensions();
    let a = first.as_raw();
    let b = second.as_raw();
    let total = a.len();
    let other = b.len();
    let mut data: Vec<u8> = Vec::new();
    let mut i: usize = 0;
    while i < total
        invariant
            0 <= i <= total,
            total == a@.len(),
            other == b@.len(),
            other == total,
            a@ == first@.bytes,
            b@ == second@.bytes,
            data@.len() == i,
            forall|k: int|
                0 <= k < i ==> #[trigger] data@[k] == amplified(
                    abs_diff(a@[k], b@[k]),
                    1,
                    amplification as int,
                ),
        decreases total - i,
    {
        let d: u16 = byte_distance(a[i], b[i]) as u16;
        data.push(amplify(d, 1, amplification));
        i += 1;
    }
    RgbRaster::from_raw(width, height, data).unwrap()
}

/// The amplified map of the channel distances: each pixel is the mean of
/// the three distances at its place, amplified.
pub fn amplified_map(levels: &Vec<u16>, width: u32, height: u32, amplification: u32) -> (out:
    GrayRaster)
    requires
        levels@.len() == width * height,
    ensures
        out@.wf(),
        out@.width == width,
        out@.height == height,
        forall|i: int|
            0 <= i < levels@.len() ==> #[trigger] out@.pixels[i] == amplified(
                levels@[i] as int,
                3,
                amplification as int,
            ),
{
    let n = levels.len();
    let mut data: Vec<u8> = Vec::new();
    let mut i: usize = 0;
    while i < n
        invariant
            0 <= i <= n,
            n == levels@.len(),
            data@.len() == i,
            forall|k: int|
                0 <= k < i ==> #[trigger] data@[k] == amplified(
                    levels@[k] as int,
                    3,
                    amplification as int,
                ),
        decreases n - i,
    {
        data.push(amplify(levels[i], 3, amplification));
        i += 1;
    }
    GrayRaster::from_raw(width, height, data).unwrap()
}

/// What the error level analysis finds: the recompressed image, the channel
/// distances, their largest value, their sum and the sum of their squares,
/// the amplified image and map of the distances, and the suspicious
/// regions.
#[derive(Debug)]
pub struct ElaEvidence {
    pub recompressed: RgbRaster,
    pub levels: Vec<u16>,
    pub max_level: u16,
    pub total: u128,
    pub squares: u128,
    pub image: RgbRaster,
    pub difference_map: GrayRaster,
    pub suspicious_regions: Vec<SRegion>,
}

/// `e` is what the analysis with the given amplification finds in `image`
/// once it was recompressed to `e.recompressed`.
pub open spec fn is_ela_evidence(e: ElaEvidence, image: RgbView, amplification: int) -> bool {
    &&& e.recompressed@.wf() && e.recompressed@.width == image.width && e.recompressed@.height
        == image.height
    &&& is_error_levels(e.levels@, image, e.recompressed@)
    &&& is_max_level(e.levels@, e.max_level)
    &&& e.total == levels_total(e.levels@)
    &&& e.squares == levels_squares(e.levels@)
    &&& e.image@.wf() && e.image@.width == image.width && e.image@.height == image.height
    &&& forall|i: int|
        0 <= i < image.bytes.len() ==> #[trigger] e.image@.bytes[i] == amplified(
            abs_diff(image.bytes[i], e.recompressed@.bytes[i]),
            1,
            amplification,
        )
    &&& e.difference_map@.wf() && e.difference_map@.width == image.width
        && e.difference_map@.height == image.height
    &&& forall|i: int|
        0 <= i < e.levels@.len() ==> #[trigger] e.difference_map@.pixels[i] == amplified(
            e.levels@[i] as int,
            3,
            amplification,
        )
    &&& is_merge_of(
        e.suspicious_regions@,
        suspicious_of(
            e.levels@,
            image.width as int,
            tiling(image.width as int, image.height as int, 16),
            levels_total(e.levels@),
            levels_squares(e.levels@),
        ),
        8,
    )
}

/// A side of the image is longer than the analysis can take.
pub open spec fn too_large(v: RgbView) -> bool {
    v.width > 65535 || v.height > 65535
}

/// What the error level analysis finds in an image, given its
/// recompression: the channel distances, their statistics, the amplified
/// image and map, and the merged blocks of side 16 whose mean level stands
/// out. An image with a side above 65535 is rejected.
pub fn evidence_from(image: &RgbRaster, recompressed: RgbRaster, amplification: u32) -> (r: Result<
    ElaEvidence,
    ForensicsError,
>)
    requires
        recompressed@.width == image@.width,
        recompressed@.height == image@.height,
    ensures
        too_large(image@) ==> (r matches Err(ForensicsError::AnalysisFailed(msg)) && msg@
            == "Image is too large"@),
        !too_large(image@) ==> (r matches Ok(e) && e.recompressed@ == recompressed@
            && is_ela_evidence(e, image@, amplification as int)),
{
    let (width, height) = image.dimensions();
    let (other_width, other_height) = recompressed.dimensions();
    if width > 65535 || height > 65535 {
        return Err(ForensicsError::AnalysisFailed("Image is too large".to_owned()));
    }
    let levels = error_levels(image, &recompressed);
    proof {
        assert forall|i: int| 0 <= i < levels@.len() implies #[trigger] levels@[i] <= 765 by {
            assert(levels@[i] == channel_total(image@.nth(i), recompressed@.nth(i)));
        }
    }
    let highest = max_level(&levels);
    let (total, squares) = level_moments(&levels);
    let amplified_image = amplified_image(image, &recompressed, amplification);
    let difference_map = amplified_map(&levels, width, height, amplification);
    let blocks = find_suspicious_blocks(&levels, width, height);
    let suspicious_regions = merge_suspicious_regions(&blocks);
    Ok(
        ElaEvidence {
            recompressed,
            levels,
            max_level: highest,
            total,
            squares,
            image: amplified_image,
            difference_map,
            suspicious_regions,
        },
    )
}

/// Runs the error level analysis at the given JPEG quality, with the
/// amplification in thousandths: the image is recompressed and the
/// evidence is taken from the recompression. A quality outside `1..=100`
/// is rejected before the codec is called, an image with a side above
/// 65535 in any case.
pub fn analyze(image: &RgbRaster, quality: u8, amplification: u32) -> (r: Result<
    ElaEvidence,
    ForensicsError,
>)
    ensures
        !valid_quality(quality) ==> (r matches Err(ForensicsError::InvalidParameter(msg)) && msg@
            == "JPEG quality must be between 1 and 100"@),
        valid_quality(quality) ==> !(r matches Err(ForensicsError::InvalidParameter(_))),
        too_large(image@) ==> r is Err,
        valid_quality(quality) && !too_large(image@) ==> (r is Ok || r matches Err(
            ForensicsError::ImageDecode(_),
        ) || (r matches Err(ForensicsError::AnalysisFailed(msg)) && msg@
            == "Recompressed image has another size"@)),
        r matches Ok(e) ==> is_ela_evidence(e, image@, amplification as int),
{
    match recompress(image, quality) {
        Ok(recompressed) => evidence_from(image, recompressed, amplification),
        Err(e) => Err(e),
    }
}

/// The error level analyzer: the JPEG quality of the recompression and the
/// amplification of the maps, in thousandths.
#[derive(Debug, Clone, Copy, PartialEq, Eq, Structural)]
pub struct ElaAnalyzer {
    pub quality: u8,
    pub amplification: u32,
}

impl ElaAnalyzer {
    /// An analyzer at the given quality that amplifies ten times.
    pub fn new(quality: u8) -> (r: ElaAnalyzer)
        ensures
            r == (ElaAnalyzer { quality, amplification: 10_000 }),
    {
        ElaAnalyzer { quality, amplification: 10_000 }
    }

    /// The analyzer with another amplification, in thousandths.
    pub fn with_amplification(self, amplification: u32) -> (r: ElaAnalyzer)
        ensures
            r == (ElaAnalyzer { quality: self.quality, amplification }),
    {
        ElaAnalyzer { quality: self.quality, amplification }
    }

    /// Runs the error level analysis on an image.
    pub fn analyze(&self, image: &RgbRaster) -> (r: Result<ElaEvidence, ForensicsError>)
        ensures
            !valid_quality(self.quality) ==> (r matches Err(ForensicsError::InvalidParameter(msg))
                && msg@ == "JPEG quality must be between 1 and 100"@),
            valid_quality(self.quality) ==> !(r matches Err(ForensicsError::InvalidParameter(_))),
            too_large(image@) ==> r is Err,
            valid_quality(self.quality) && !too_large(image@) ==> (r is Ok || r matches Err(
                ForensicsError::ImageDecode(_),
            ) || (r matches Err(ForensicsError::AnalysisFailed(msg)) && msg@
                == "Recompressed image has another size"@)),
            r matches Ok(e) ==> is_ela_evidence(e, image@, self.amplification as int),
    {
        analyze(image, self.quality, self.amplification)
    }
}

/// The suspicious regions of the error level analysis: the suspicious
/// blocks merged with a gap of eight pixels.
pub fn merge_suspicious_regions(blocks: &Vec<SRegion>) -> (out: Vec<SRegion>)
    requires
        all_wf(blocks@),
    ensures
        is_merge_of(out@, blocks@, 8),
        all_wf(out@),
{
    merge_adjacent_regions(blocks, 8)
}

} // verus!
