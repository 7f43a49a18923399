//! Noise analysis: the noise map, the local deviation map, the robust noise
//! level and the blocks whose deviation departs from it.

use vstd::prelude::*;
use crate::analysis::jpeg_analysis::{abs_diff, byte_distance};
use crate::error::ForensicsError;
use crate::grid::{block_regions, tiling};
use crate::image_utils::{
    blur_value,
    cells_square_sum,
    cells_sum,
    gaussian_blur_3x3,
    gray_of,
    lemma_cells_bounds,
    rgb_to_gray,
    window_sums,
};
use crate::raster::{
    lemma_offset_in_range,
    lemma_offset_of_position,
    lemma_position_of_offset,
    GrayRaster,
    GrayView,
    RgbRaster,
};
use crate::region::SRegion;
use crate::score::{ratio_ppm, Score};

verus! {

/// The noise at `(x, y)`: the distance between the pixel and its blurred
/// value.
pub open spec fn noise_value(g: GrayView, x: int, y: int) -> int {
    let blurred = blur_value(g, x, y);
    if g.at(x, y) >= blurred {
        g.at(x, y) - blurred
    } else {
        blurred - g.at(x, y)
    }
}

/// The noise map of a grayscale image: what the 3x3 Gaussian blur takes
/// away.
pub fn extract_noise(gray: &GrayRaster) -> (noise: GrayRaster)
    ensures
        noise@.wf(),
        noise@.same_size(gray@),
        forall|x: int, y: int|
            gray@.inside(x, y) ==> #[trigger] noise@.at(x, y) == noise_value(gray@, x, y),
{
    let blurred = gaussian_blur_3x3(gray);
    let (width, height) = gray.dimensions();
    let a = gray.as_raw();
    let b = blurred.as_raw();
    let n = a.len();
    let mut data: Vec<u8> = Vec::new();
    let mut i: usize = 0;
    while i < n
        invariant
            0 <= i <= n,
            n == a@.len(),
            n == b@.len(),
            data@.len() == i,
            forall|k: int| 0 <= k < i ==> data@[k] == abs_diff(a@[k], b@[k]),
        decreases n - i,
    {
        data.push(byte_distance(a[i], b[i]));
        i += 1;
    }
    let noise = GrayRaster::from_raw(width, height, data).unwrap();
    proof {
        assert forall|x: int, y: int| gray@.inside(x, y) implies #[trigger] noise@.at(x, y)
            == noise_value(gray@, x, y) by {
            lemma_offset_in_range(x, y, width as int, height as int);
            assert(blurred@.at(x, y) == blur_value(gray@, x, y));
        }
    }
    noise
}

/// How many of the values of `s` are below `m`.
pub open spec fn count_below(s: Seq<int>, m: int) -> nat
    decreases s.len(),
{
    if s.len() == 0 {
        0
    } else {
        count_below(s.drop_last(), m) + if s.last() < m {
            1nat
        } else {
            0nat
        }
    }
}

/// `m` is the value at position `k` of `s` put in rising order.
pub open spec fn is_kth(s: Seq<int>, k: int, m: int) -> bool {
    count_below(s, m) <= k < count_below(s, m + 1)
}

/// `m2` is twice the median of `s`: twice the middle value, or the sum of the
/// two middle values.
pub open spec fn is_median_doubled(s: Seq<int>, m2: int) -> bool {
    let n = s.len() as int;
    if n == 0 {
        m2 == 0
    } else if n % 2 == 0 {
        exists|a: int, b: int| #[trigger]
            is_kth(s, n / 2 - 1, a) && #[trigger] is_kth(s, n / 2, b) && m2 == a + b
    } else {
        exists|a: int| #[trigger] is_kth(s, n / 2, a) && m2 == 2 * a
    }
}

/// The values of a byte sequence as integers.
pub open spec fn values_of(s: Seq<u8>) -> Seq<int> {
    Seq::new(s.len(), |i: int| s[i] as int)
}

/// The distances of the doubled values of `s` from `m2`.
pub open spec fn deviations_doubled(s: Seq<int>, m2: int) -> Seq<int> {
    Seq::new(
        s.len(),
        |i: int|
            if 2 * s[i] >= m2 {
                2 * s[i] - m2
            } else {
                m2 - 2 * s[i]
            },
    )
}

/// `mad4` is four times the median absolute deviation of `s`.
pub open spec fn is_mad_quadrupled(s: Seq<int>, mad4: int) -> bool {
    exists|m2: int| #[trigger]
        is_median_doubled(s, m2) && is_median_doubled(deviations_doubled(s, m2), mad4)
}

/// A count of the values of a sequence by size: `counts[v]` of them equal
/// `v`, for `v` below the length of `counts`.
spec fn is_tally(counts: Seq<u64>, s: Seq<int>) -> bool {
    forall|v: int| 0 <= v <= counts.len() ==> #[trigger] tally_below(counts, v) == count_below(s, v)
}

/// The sum of the first `v` counts.
spec fn tally_below(counts: Seq<u64>, v: int) -> int
    decreases v,
{
    if v <= 0 {
        0
    } else {
        tally_below(counts, v - 1) + counts[v - 1]
    }
}

proof fn lemma_count_below_bound(s: Seq<int>, m: int)
    ensures
        count_below(s, m) <= s.len(),
    decreases s.len(),
{
    if s.len() > 0 {
        lemma_count_below_bound(s.drop_last(), m);
    }
}

proof fn lemma_count_below_all(s: Seq<int>, m: int)
    requires
        forall|i: int| 0 <= i < s.len() ==> #[trigger] s[i] < m,
    ensures
        count_below(s, m) == s.len(),
    decreases s.len(),
{
    if s.len() > 0 {
        lemma_count_below_all(s.drop_last(), m);
    }
}

proof fn lemma_tally_add(counts: Seq<u64>, value: int, v: int)
    requires
        0 <= value < counts.len(),
        0 <= v <= counts.len(),
        counts[value] < u64::MAX,
    ensures
        tally_below(counts.update(value, (counts[value] + 1) as u64), v) == tally_below(counts, v)
            + if value < v {
            1int
        } else {
            0int
        },
    decreases v,
{
    if v > 0 {
        lemma_tally_add(counts, value, v - 1);
    }
}

/// Counts the values of `values`, each below `bins`, by size.
fn tally(values: &Vec<u16>, bins: usize) -> (counts: Vec<u64>)
    requires
        forall|i: int| 0 <= i < values@.len() ==> (#[trigger] values@[i]) < bins,
    ensures
        counts@.len() == bins,
        is_tally(counts@, Seq::new(values@.len(), |i: int| values@[i] as int)),
{
    let ghost s = Seq::new(values@.len(), |i: int| values@[i] as int);
    let mut counts: Vec<u64> = vec![0u64; bins];
    let n = values.len();
    let mut i: usize = 0;
    proof {
        assert forall|v: int| 0 <= v <= counts@.len() implies #[trigger] tally_below(counts@, v)
            == count_below(s.take(0), v) by {
            assert(s.take(0) =~= Seq::<int>::empty());
            lemma_tally_zero(counts@, v);
        }
    }
    while i < n
        invariant
            0 <= i <= n,
            n == values@.len(),
            counts@.len() == bins,
            s == Seq::new(values@.len(), |k: int| values@[k] as int),
            forall|k: int| 0 <= k < values@.len() ==> (#[trigger] values@[k]) < bins,
            is_tally(counts@, s.take(i as int)),
        decreases n - i,
    {
        let value = values[i] as usize;
        let ghost before = counts@;
        proof {
            assert(tally_below(before, value as int + 1) == count_below(
                s.take(i as int),
                value as int + 1,
            ));
            lemma_count_below_bound(s.take(i as int), value as int + 1);
            lemma_tally_nonneg(before, value as int);
        }
        let c = counts[value];
        counts.set(value, c + 1);
        proof {
            assert(s.take(i + 1).drop_last() =~= s.take(i as int));
            assert(s.take(i + 1).last() == value);
            assert forall|v: int| 0 <= v <= counts@.len() implies #[trigger] tally_below(counts@, v)
                == count_below(s.take(i + 1), v) by {
                lemma_tally_add(before, value as int, v);
                assert(tally_below(before, v) == count_below(s.take(i as int), v));
            }
        }
        i += 1;
    }
    assert(s.take(n as int) =~= s);
    counts
}

proof fn lemma_tally_zero(counts: Seq<u64>, v: int)
    requires
        0 <= v <= counts.len(),
        forall|i: int| 0 <= i < counts.len() ==> counts[i] == 0,
    ensures
        tally_below(counts, v) == 0,
    decreases v,
{
    if v > 0 {
        lemma_tally_zero(counts, v - 1);
    }
}

proof fn lemma_tally_nonneg(counts: Seq<u64>, v: int)
    requires
        0 <= v <= counts.len(),
    ensures
        0 <= tally_below(counts, v),
        v < counts.len() ==> tally_below(counts, v) + counts[v] == tally_below(counts, v + 1),
    decreases v,
{
    if v > 0 {
        lemma_tally_nonneg(counts, v - 1);
    }
}

/// The value at position `k` of the tallied values in rising order.
fn kth_of_tally(counts: &Vec<u64>, k: u64, Ghost(s): Ghost<Seq<int>>) -> (m: usize)
    requires
        is_tally(counts@, s),
        forall|i: int| 0 <= i < s.len() ==> 0 <= #[trigger] s[i] < counts@.len(),
        k < s.len(),
        s.len() <= u64::MAX,
    ensures
        is_kth(s, k as int, m as int),
        m < counts@.len(),
{
    let mut m: usize = 0;
    let mut below: u64 = 0;
    let bins: usize = counts.len();
    proof {
        lemma_count_below_all(s, counts@.len() as int);
        assert(tally_below(counts@, counts@.len() as int) == s.len());
    }
    loop
        invariant
            is_tally(counts@, s),
            0 <= m < counts@.len(),
            bins == counts@.len(),
            below == tally_below(counts@, m as int),
            below <= k,
            k < s.len(),
            s.len() <= u64::MAX,
            tally_below(counts@, counts@.len() as int) == s.len(),
        decreases counts@.len() - m,
    {
        proof {
            lemma_tally_nonneg(counts@, m as int);
            lemma_count_below_bound(s, m as int + 1);
            assert(tally_below(counts@, m as int + 1) == count_below(s, m as int + 1));
        }
        let next: u64 = below + counts[m];
        if k < next {
            assert(tally_below(counts@, m as int) == count_below(s, m as int));
            return m;
        }
        below = next;
        assert(m + 1 < counts@.len());
        m += 1;
    }
}

/// Twice the median of the tallied values.
fn median_doubled_of_tally(counts: &Vec<u64>, n: u64, Ghost(s): Ghost<Seq<int>>) -> (m2: u32)
    requires
        is_tally(counts@, s),
        forall|i: int| 0 <= i < s.len() ==> 0 <= #[trigger] s[i] < counts@.len(),
        n == s.len(),
        counts@.len() <= 0x1_0000,
    ensures
        is_median_doubled(s, m2 as int),
        m2 <= 2 * counts@.len(),
{
    if n == 0 {
        return 0;
    }
    if n % 2 == 0 {
        let a = kth_of_tally(counts, n / 2 - 1, Ghost(s));
        let b = kth_of_tally(counts, n / 2, Ghost(s));
        (a + b) as u32
    } else {
        let a = kth_of_tally(counts, n / 2, Ghost(s));
        (2 * a) as u32
    }
}

/// Four times the median absolute deviation of the pixels of a map, zero for
/// a map without pixels.
pub fn mad_quadrupled(map: &GrayRaster) -> (mad4: u32)
    ensures
        is_mad_quadrupled(values_of(map@.pixels), mad4 as int),
        mad4 <= 2048,
{
    let raw = map.as_raw();
    let n = raw.len();
    let ghost s = values_of(raw@);
    let mut values: Vec<u16> = Vec::new();
    let mut i: usize = 0;
    while i < n
        invariant
            0 <= i <= n,
            n == raw@.len(),
            values@.len() == i,
            forall|k: int| 0 <= k < i ==> #[trigger] values@[k] == raw@[k],
        decreases n - i,
    {
        values.push(raw[i] as u16);
        i += 1;
    }
    assert(Seq::new(values@.len(), |k: int| values@[k] as int) =~= s);
    let counts = tally(&values, 256);
    let m2 = median_doubled_of_tally(&counts, n as u64, Ghost(s));
    let ghost d = deviations_doubled(s, m2 as int);
    let mut deviations: Vec<u16> = Vec::new();
    let mut j: usize = 0;
    while j < n
        invariant
            0 <= j <= n,
            n == raw@.len(),
            m2 <= 512,
            s == values_of(raw@),
            d == deviations_doubled(s, m2 as int),
            deviations@.len() == j,
            forall|k: int| 0 <= k < j ==> #[trigger] deviations@[k] == d[k] && deviations@[k] < 1024,
        decreases n - j,
    {
        let doubled: u32 = 2 * (raw[j] as u32);
        let dev: u32 = if doubled >= m2 { doubled - m2 } else { m2 - doubled };
        deviations.push(dev as u16);
        j += 1;
    }
    assert(Seq::new(deviations@.len(), |k: int| deviations@[k] as int) =~= d);
    let dev_counts = tally(&deviations, 1024);
    let mad4 = median_doubled_of_tally(&dev_counts, n as u64, Ghost(d));
    mad4
}

/// The first position of the window of `block_size` positions around `c`:
/// half a block before `c`, or zero.
pub open spec fn window_start(c: int, block_size: int) -> int {
    if c >= block_size / 2 {
        c - block_size / 2
    } else {
        0
    }
}

/// The number of positions of the window around `c` that lie below `limit`.
pub open spec fn window_len(c: int, block_size: int, limit: int) -> int {
    let start = window_start(c, block_size);
    if start + block_size <= limit {
        block_size
    } else {
        limit - start
    }
}

/// `v` is the standard deviation, rounded down and capped at 255, of values
/// whose number is `count`, whose sum is `sum` and whose squares sum to
/// `squares`: the largest `v` up to 255 whose square is at most the variance
/// `squares / count - (sum / count)^2`.
pub open spec fn is_deviation(count: int, sum: int, squares: int, v: int) -> bool {
    &&& 0 <= v <= 255
    &&& v * v * (count * count) <= count * squares - sum * sum
    &&& v == 255 || (v + 1) * (v + 1) * (count * count) > count * squares - sum * sum
}

/// `v` is the local deviation at `(x, y)`: the standard deviation over the
/// window of side `block_size` around it, or zero if the window is empty.
pub open spec fn is_local_deviation(g: GrayView, x: int, y: int, block_size: int, v: int) -> bool {
    let x0 = window_start(x, block_size);
    let y0 = window_start(y, block_size);
    let ww = window_len(x, block_size, g.width as int);
    let wh = window_len(y, block_size, g.height as int);
    if ww * wh == 0 {
        v == 0
    } else {
        is_deviation(
            ww * wh,
            cells_sum(g, x0, y0, ww, ww * wh),
            cells_square_sum(g, x0, y0, ww, ww * wh),
            v,
        )
    }
}

/// The standard deviation of the given moments, rounded down and capped at
/// 255.
fn deviation(count: u128, sum: u128, squares: u128) -> (v: u8)
    requires
        0 < count <= 0x1_0000_0000,
        sum <= 255 * count,
        squares <= 65025 * count,
        sum * sum <= count * squares,
    ensures
        is_deviation(count as int, sum as int, squares as int, v as int),
{
    assert(count * squares <= 0x1_0000_0000 * (65025 * 0x1_0000_0000)) by (nonlinear_arith)
        requires
            0 < count <= 0x1_0000_0000,
            squares <= 65025 * count,
    ;
    assert(sum * sum <= count * squares);
    assert(count * count <= 0x1_0000_0000 * 0x1_0000_0000) by (nonlinear_arith)
        requires
            0 < count <= 0x1_0000_0000,
    ;
    let spread: u128 = count * squares - sum * sum;
    let scale: u128 = count * count;
    let mut v: u128 = 0;
    assert(0 * 0 * scale == 0) by (nonlinear_arith);
    while v < 255
        invariant
            0 <= v <= 255,
            scale == count * count,
            scale <= 0x1_0000_0000 * 0x1_0000_0000,
            spread == count * squares - sum * sum,
            v * v * scale <= spread,
        decreases 255 - v,
    {
        assert((v + 1) * (v + 1) <= 65536) by (nonlinear_arith)
            requires
                0 <= v < 255,
        ;
        assert((v + 1) * (v + 1) * scale <= 65536 * (0x1_0000_0000 * 0x1_0000_0000))
            by (nonlinear_arith)
            requires
                (v + 1) * (v + 1) <= 65536,
                0 <= scale <= 0x1_0000_0000 * 0x1_0000_0000,
        ;
        if (v + 1) * (v + 1) * scale > spread {
            return v as u8;
        }
        v += 1;
    }
    v as u8
}

/// The sum of squares of values is at least the square of their sum over
/// their number.
proof fn lemma_spread_nonneg(g: GrayView, x0: int, y0: int, ww: int, t: int)
    requires
        0 <= t,
    ensures
        cells_sum(g, x0, y0, ww, t) * cells_sum(g, x0, y0, ww, t) <= t * cells_square_sum(
            g,
            x0,
            y0,
            ww,
            t,
        ),
    decreases t,
{
    if t > 0 {
        lemma_spread_nonneg(g, x0, y0, ww, t - 1);
        lemma_cells_bounds(g, x0, y0, ww, t - 1);
        let s = cells_sum(g, x0, y0, ww, t - 1);
        let q = cells_square_sum(g, x0, y0, ww, t - 1);
        let v = g.at(x0 + (t - 1) % ww, y0 + (t - 1) / ww) as int;
        let n = t - 1;
        // (s + v)^2 <= (n + 1) (q + v^2), from s^2 <= n q and 2 s v <= q + n v^2.
        assert(2 * s * v <= q + n * v * v) by {
            lemma_twice_product(g, x0, y0, ww, n, v);
        }
        assert((s + v) * (s + v) <= (n + 1) * (q + v * v)) by (nonlinear_arith)
            requires
                s * s <= n * q,
                2 * s * v <= q + n * v * v,
        ;
    }
}

/// Twice the sum of values times `v` is at most the sum of their squares
/// plus their number times the square of `v`.
proof fn lemma_twice_product(g: GrayView, x0: int, y0: int, ww: int, n: int, v: int)
    requires
        0 <= n,
    ensures
        2 * cells_sum(g, x0, y0, ww, n) * v <= cells_square_sum(g, x0, y0, ww, n) + n * v * v,
    decreases n,
{
    if n > 0 {
        lemma_twice_product(g, x0, y0, ww, n - 1, v);
        let s = cells_sum(g, x0, y0, ww, n - 1);
        let q = cells_square_sum(g, x0, y0, ww, n - 1);
        let a = g.at(x0 + (n - 1) % ww, y0 + (n - 1) / ww) as int;
        assert(0 <= (a - v) * (a - v)) by (nonlinear_arith);
        assert(2 * (s + a) * v <= (q + a * a) + n * v * v) by (nonlinear_arith)
            requires
                2 * s * v <= q + (n - 1) * v * v,
                0 <= (a - v) * (a - v),
        ;
    } else {
        assert(2 * 0 * v == 0) by (nonlinear_arith);
        assert(0 * v * v == 0) by (nonlinear_arith);
    }
}

fn window_run(c: u32, block_size: u32, limit: u32) -> (r: (u32, u32))
    requires
        c < limit,
        block_size >= 1,
    ensures
        r.0 == window_start(c as int, block_size as int),
        r.1 == window_len(c as int, block_size as int, limit as int),
        r.0 + r.1 <= limit,
        1 <= r.1 <= block_size,
{
    let half = block_size / 2;
    let start: u32 = if c >= half { c - half } else { 0 };
    let len: u32 = if block_size <= limit - start { block_size } else { limit - start };
    (start, len)
}

/// The map of the local deviations of a grayscale image for windows of side
/// `block_size`, which lies in `1..=65535`.
pub fn calculate_local_variance(gray: &GrayRaster, block_size: u32) -> (out: GrayRaster)
    requires
        1 <= block_size <= 65535,
    ensures
        out@.wf(),
        out@.same_size(gray@),
        forall|x: int, y: int|
            gray@.inside(x, y) ==> is_local_deviation(
                gray@,
                x,
                y,
                block_size as int,
                #[trigger] out@.at(x, y) as int,
            ),
{
    let (width, height) = gray.dimensions();
    let raw = gray.as_raw();
    let n = raw.len();
    let mut data: Vec<u8> = Vec::new();
    let mut i: usize = 0;
    while i < n
        invariant
            0 <= i <= n,
            n == width * height,
            1 <= block_size <= 65535,
            gray@.wf(),
            gray@.width == width,
            gray@.height == height,
            data@.len() == i,
            forall|k: int|
                0 <= k < i ==> is_local_deviation(
                    gray@,
                    k % (width as int),
                    k / (width as int),
                    block_size as int,
                    #[trigger] data@[k] as int,
                ),
        decreases n - i,
    {
        proof {
            lemma_position_of_offset(i as int, width as int, height as int);
        }
        let x: u32 = (i % (width as usize)) as u32;
        let y: u32 = (i / (width as usize)) as u32;
        let (x0, ww) = window_run(x, block_size, width);
        let (y0, wh) = window_run(y, block_size, height);
        let (sum, squares) = window_sums(gray, x0, y0, ww, wh);
        assert(1 <= ww * wh <= 65535 * 65535) by (nonlinear_arith)
            requires
                1 <= ww <= 65535,
                1 <= wh <= 65535,
        ;
        let count: u128 = (ww as u128) * (wh as u128);
        proof {
            lemma_cells_bounds(gray@, x0 as int, y0 as int, ww as int, ww * wh);
            lemma_spread_nonneg(gray@, x0 as int, y0 as int, ww as int, ww * wh);
        }
        let v = deviation(count, sum, squares);
        data.push(v);
        i += 1;
    }
    let out = GrayRaster::from_raw(width, height, data).unwrap();
    proof {
        assert forall|x: int, y: int| gray@.inside(x, y) implies is_local_deviation(
            gray@,
            x,
            y,
            block_size as int,
            #[trigger] out@.at(x, y) as int,
        ) by {
            lemma_offset_in_range(x, y, width as int, height as int);
            lemma_offset_of_position(x, y, width as int);
        }
    }
    out
}

/// The pixels of the block `r` sum to `sum`, which departs from the noise
/// level given by `mad4`: the mean of the block lies above twice the level
/// or below half of it. The level is 1.4826 times the median absolute
/// deviation, of which `mad4` is four times.
pub open spec fn departs_from_level(sum: int, count: int, mad4: int) -> bool {
    10_000 * sum > 7_413 * mad4 * count || 1_000_000 * sum < 185_325 * mad4 * count
}

/// The sum of the pixels of `map` in the block `r`.
pub open spec fn block_sum(map: GrayView, r: SRegion) -> int {
    cells_sum(map, r.x as int, r.y as int, r.width as int, r.width * r.height)
}

/// The blocks of `blocks` whose mean departs from the noise level, in order.
pub open spec fn anomalous_of(map: GrayView, blocks: Seq<SRegion>, mad4: int) -> Seq<SRegion>
    decreases blocks.len(),
{
    if blocks.len() == 0 {
        Seq::empty()
    } else {
        let rest = anomalous_of(map, blocks.drop_last(), mad4);
        if departs_from_level(block_sum(map, blocks.last()), blocks.last().area(), mad4) {
            rest.push(blocks.last())
        } else {
            rest
        }
    }
}

proof fn lemma_anomalous_bound(map: GrayView, blocks: Seq<SRegion>, mad4: int)
    ensures
        anomalous_of(map, blocks, mad4).len() <= blocks.len(),
    decreases blocks.len(),
{
    if blocks.len() > 0 {
        lemma_anomalous_bound(map, blocks.drop_last(), mad4);
    }
}

/// The blocks of side `block_size` whose mean local deviation departs from
/// the noise level, and their share of all blocks.
pub fn find_anomalies(variance_map: &GrayRaster, mad4: u32, block_size: u32) -> (r: (
    Vec<SRegion>,
    Score,
))
    requires
        block_size >= 1,
    ensures
        r.0@ == anomalous_of(
            variance_map@,
            tiling(variance_map@.width as int, variance_map@.height as int, block_size as int),
            mad4 as int,
        ),
        r.1@ == ratio_ppm(
            r.0@.len() as int,
            tiling(
                variance_map@.width as int,
                variance_map@.height as int,
                block_size as int,
            ).len() as int,
        ),
        forall|k: int|
            0 <= k < r.0@.len() ==> (#[trigger] r.0@[k]).within(
                variance_map@.width as int,
                variance_map@.height as int,
            ),
{
    let (width, height) = variance_map.dimensions();
    let blocks = block_regions(width, height, block_size);
    let n = blocks.len();
    let mut regions: Vec<SRegion> = Vec::new();
    let mut i: usize = 0;
    assert(blocks@.take(0) =~= Seq::<SRegion>::empty());
    while i < n
        invariant
            0 <= i <= n,
            n == blocks@.len(),
            variance_map@.width == width,
            variance_map@.height == height,
            forall|k: int|
                0 <= k < blocks@.len() ==> (#[trigger] blocks@[k]).within(
                    width as int,
                    height as int,
                ),
            regions@ == anomalous_of(variance_map@, blocks@.take(i as int), mad4 as int),
            forall|k: int|
                0 <= k < regions@.len() ==> (#[trigger] regions@[k]).within(
                    width as int,
                    height as int,
                ),
        decreases n - i,
    {
        proof {
            assert(blocks@.take(i + 1).drop_last() =~= blocks@.take(i as int));
            assert(blocks@.take(i + 1).last() == blocks@[i as int]);
        }
        let r = blocks[i];
        assert(r.within(width as int, height as int));
        let (sum, squares) = window_sums(variance_map, r.x, r.y, r.width, r.height);
        assert(r.width * r.height <= 0xFFFF_FFFF * 0xFFFF_FFFF) by (nonlinear_arith)
            requires
                r.width <= 0xFFFF_FFFF,
                r.height <= 0xFFFF_FFFF,
        ;
        let count: u128 = (r.width as u128) * (r.height as u128);
        proof {
            lemma_cells_bounds(
                variance_map@,
                r.x as int,
                r.y as int,
                r.width as int,
                r.width * r.height,
            );
            assert(7_413 * mad4 * count <= 7_413 * 0xFFFF_FFFF * (0xFFFF_FFFF * 0xFFFF_FFFF))
                by (nonlinear_arith)
                requires
                    0 <= mad4 <= 0xFFFF_FFFF,
                    0 <= count <= 0xFFFF_FFFF * 0xFFFF_FFFF,
            ;
            assert(185_325 * mad4 * count <= 185_325 * 0xFFFF_FFFF * (0xFFFF_FFFF * 0xFFFF_FFFF))
                by (nonlinear_arith)
                requires
                    0 <= mad4 <= 0xFFFF_FFFF,
                    0 <= count <= 0xFFFF_FFFF * 0xFFFF_FFFF,
            ;
        }
        let level: u128 = mad4 as u128;
        if 10_000 * sum > 7_413 * level * count || 1_000_000 * sum < 185_325 * level * count {
            let ghost before = regions@;
            regions.push(r);
            proof {
                assert forall|k: int| 0 <= k < regions@.len() implies (#[trigger] regions@[k]).within(
                    width as int,
                    height as int,
                ) by {
                    if k < before.len() {
                        assert(regions@[k] == before[k]);
                    }
                }
            }
        }
        i += 1;
    }
    assert(blocks@.take(n as int) =~= blocks@);
    proof {
        lemma_anomalous_bound(variance_map@, blocks@, mad4 as int);
    }
    let score = Score::from_ratio(regions.len() as u64, n as u64);
    (regions, score)
}

/// What the noise analysis found.
#[derive(Debug)]
pub struct NoiseResult {
    pub noise_map: GrayRaster,
    pub local_variance_map: GrayRaster,
    pub inconsistency_score: Score,
    /// The estimated noise level in millionths of an intensity step.
    pub estimated_noise_level: u64,
    pub anomalous_regions: Vec<SRegion>,
}

/// The noise analyzer: the side of the blocks it compares. A block is
/// anomalous when its mean local deviation lies above twice or below half
/// the noise level.
#[derive(Debug, Clone, Copy)]
pub struct NoiseAnalyzer {
    block_size: u32,
}

impl Default for NoiseAnalyzer {
    fn default() -> (r: NoiseAnalyzer)
        ensures
            r.spec_block_size() == 16,
    {
        NoiseAnalyzer::new()
    }
}

/// The block size is one the noise analyzer works with.
pub open spec fn valid_block_size(block_size: u32) -> bool {
    1 <= block_size <= 65535
}

/// `result` is what the noise analysis finds in the grayscale image `g` with
/// blocks of side `block_size`.
pub open spec fn is_noise_result(result: NoiseResult, g: GrayView, block_size: u32) -> bool {
    &&& result.noise_map@.wf() && result.noise_map@.same_size(g)
    &&& result.local_variance_map@.wf() && result.local_variance_map@.same_size(g)
    &&& forall|x: int, y: int|
        g.inside(x, y) ==> #[trigger] result.noise_map@.at(x, y) == noise_value(g, x, y)
    &&& forall|x: int, y: int|
        g.inside(x, y) ==> is_local_deviation(
            g,
            x,
            y,
            block_size as int,
            #[trigger] result.local_variance_map@.at(x, y) as int,
        )
    &&& exists|mad4: int| #[trigger]
        is_mad_quadrupled(values_of(result.noise_map@.pixels), mad4)
            && result.estimated_noise_level == mad4 * 370_650 && result.anomalous_regions@
            == anomalous_of(
            result.local_variance_map@,
            tiling(g.width as int, g.height as int, block_size as int),
            mad4,
        )
    &&& result.inconsistency_score@ == ratio_ppm(
        result.anomalous_regions@.len() as int,
        tiling(g.width as int, g.height as int, block_size as int).len() as int,
    )
    &&& forall|k: int|
        0 <= k < result.anomalous_regions@.len() ==> (#[trigger] result.anomalous_regions@[k]).within(
            g.width as int,
            g.height as int,
        )
}

impl NoiseAnalyzer {
    /// The side of the blocks.
    pub closed spec fn spec_block_size(&self) -> u32 {
        self.block_size
    }

    /// The analyzer for blocks of side 16.
    pub fn new() -> (r: NoiseAnalyzer)
        ensures
            r.spec_block_size() == 16,
    {
        NoiseAnalyzer { block_size: 16 }
    }

    /// The analyzer for blocks of the given side.
    pub fn with_block_size(self, size: u32) -> (r: NoiseAnalyzer)
        ensures
            r.spec_block_size() == size,
    {
        NoiseAnalyzer { block_size: size }
    }

    /// The side of the blocks.
    #[verifier::when_used_as_spec(spec_block_size)]
    pub fn block_size(&self) -> (b: u32)
        ensures
            b == self.spec_block_size(),
    {
        self.block_size
    }

    /// Runs the noise analysis on an image. A block size outside `1..=65535`
    /// is rejected.
    pub fn analyze(&self, image: &RgbRaster) -> (r: Result<NoiseResult, ForensicsError>)
        ensures
            !valid_block_size(self.block_size()) ==> (r matches Err(
                ForensicsError::InvalidParameter(msg),
            ) && msg@ == "Block size must be between 1 and 65535"@),
            valid_block_size(self.block_size()) ==> (r matches Ok(result) && is_noise_result(
                result,
                gray_of(image@),
                self.block_size(),
            )),
    {
        if self.block_size < 1 || self.block_size > 65535 {
            return Err(
                ForensicsError::InvalidParameter(
                    "Block size must be between 1 and 65535".to_owned(),
                ),
            );
        }
        let gray = rgb_to_gray(image);
        let noise_map = extract_noise(&gray);
        let local_variance_map = calculate_local_variance(&gray, self.block_size);
        let mad4 = mad_quadrupled(&noise_map);
        let (anomalous_regions, inconsistency_score) = find_anomalies(
            &local_variance_map,
            mad4,
            self.block_size,
        );
        let estimated_noise_level: u64 = (mad4 as u64) * 370_650;
        let result = NoiseResult {
            noise_map,
            local_variance_map,
            inconsistency_score,
            estimated_noise_level,
            anomalous_regions,
        };
        Ok(result)
    }
}

/// Values with given moments have one standard deviation.
pub proof fn deviation_is_determined(count: int, sum: int, squares: int, a: int, b: int)
    requires
        count > 0,
        is_deviation(count, sum, squares, a),
        is_deviation(count, sum, squares, b),
    ensures
        a == b,
{
    let scale = count * count;
    assert(scale > 0) by (nonlinear_arith)
        requires
            count > 0,
            scale == count * count,
    ;
    if a < b {
        assert((a + 1) * (a + 1) * scale <= b * b * scale) by (nonlinear_arith)
            requires
                0 <= a,
                a + 1 <= b,
                scale > 0,
        ;
    }
    if b < a {
        assert((b + 1) * (b + 1) * scale <= a * a * scale) by (nonlinear_arith)
            requires
                0 <= b,
                b + 1 <= a,
                scale > 0,
        ;
    }
}

/// The number of values below a bound grows with the bound.
pub proof fn lemma_count_below_grows(s: Seq<int>, a: int, b: int)
    requires
        a <= b,
    ensures
        count_below(s, a) <= count_below(s, b),
    decreases s.len(),
{
    if s.len() > 0 {
        lemma_count_below_grows(s.drop_last(), a, b);
    }
}

/// There is one value at each position of a sequence put in rising order.
pub proof fn kth_is_determined(s: Seq<int>, k: int, a: int, b: int)
    requires
        is_kth(s, k, a),
        is_kth(s, k, b),
    ensures
        a == b,
{
    if a < b {
        lemma_count_below_grows(s, a + 1, b);
    }
    if b < a {
        lemma_count_below_grows(s, b + 1, a);
    }
}

/// A sequence has one median.
pub proof fn median_is_determined(s: Seq<int>, a: int, b: int)
    requires
        is_median_doubled(s, a),
        is_median_doubled(s, b),
    ensures
        a == b,
{
    let n = s.len() as int;
    if n == 0 {
    } else if n % 2 == 0 {
        let (a1, a2) = choose|a1: int, a2: int| #[trigger]
            is_kth(s, n / 2 - 1, a1) && #[trigger] is_kth(s, n / 2, a2) && a == a1 + a2;
        let (b1, b2) = choose|b1: int, b2: int| #[trigger]
            is_kth(s, n / 2 - 1, b1) && #[trigger] is_kth(s, n / 2, b2) && b == b1 + b2;
        kth_is_determined(s, n / 2 - 1, a1, b1);
        kth_is_determined(s, n / 2, a2, b2);
    } else {
        let a1 = choose|a1: int| #[trigger] is_kth(s, n / 2, a1) && a == 2 * a1;
        let b1 = choose|b1: int| #[trigger] is_kth(s, n / 2, b1) && b == 2 * b1;
        kth_is_determined(s, n / 2, a1, b1);
    }
}

/// A sequence has one median absolute deviation.
pub proof fn mad_is_determined(s: Seq<int>, a: int, b: int)
    requires
        is_mad_quadrupled(s, a),
        is_mad_quadrupled(s, b),
    ensures
        a == b,
{
    let ma = choose|m2: int| #[trigger]
        is_median_doubled(s, m2) && is_median_doubled(deviations_doubled(s, m2), a);
    let mb = choose|m2: int| #[trigger]
        is_median_doubled(s, m2) && is_median_doubled(deviations_doubled(s, m2), b);
    median_is_determined(s, ma, mb);
    median_is_determined(deviations_doubled(s, ma), a, b);
}

} // verus!
