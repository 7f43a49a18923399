//! Pixel primitives on single-channel rasters: block extraction, histogram
//! and the 3x3 Gaussian blur.

use vstd::prelude::*;
use crate::raster::{
    lemma_offset_in_range,
    lemma_offset_of_position,
    lemma_position_of_offset,
    GrayRaster,
    GrayView,
    Rgb,
    RgbRaster,
    RgbView,
};

verus! {

/// How much of a run of `size` positions starting at `start` lies below
/// `limit`.
pub open spec fn clipped_len(limit: int, start: int, size: int) -> int {
    if start >= limit {
        0
    } else if start + size <= limit {
        size
    } else {
        limit - start
    }
}

/// The pixels of the `size` by `size` neighbourhood at `(x, y)`, clipped at
/// the raster's boundary, row by row.
pub open spec fn block_pixels(g: GrayView, x: int, y: int, size: int) -> Seq<u8> {
    let bw = clipped_len(g.width as int, x, size);
    let bh = clipped_len(g.height as int, y, size);
    Seq::new((bw * bh) as nat, |i: int| g.at(x + i % bw, y + i / bw))
}

fn clip_run(limit: u32, start: u32, size: u32) -> (n: u32)
    ensures
        n == clipped_len(limit as int, start as int, size as int),
        n <= size,
        start < limit ==> start + n <= limit,
        start >= limit ==> n == 0,
{
    if start >= limit {
        0
    } else if size <= limit - start {
        size
    } else {
        limit - start
    }
}

/// Copies the `size` by `size` neighbourhood that starts at `(x, y)`,
/// clipped at the raster's boundary.
pub fn extract_block(image: &GrayRaster, x: u32, y: u32, size: u32) -> (block: Vec<u8>)
    ensures
        block@ == block_pixels(image@, x as int, y as int, size as int),
{
    let (width, height) = image.dimensions();
    let bw: u32 = clip_run(width, x, size);
    let bh: u32 = clip_run(height, y, size);
    let raw = image.as_raw();
    assert(bw * bh <= width * height) by (nonlinear_arith)
        requires
            0 <= bw <= width,
            0 <= bh <= height,
    ;
    let total: usize = raw.len();
    assert(total == width * height);
    let block_width: usize = bw as usize;
    let block_height: usize = bh as usize;
    assert(block_width * block_height == bw * bh);
    let n: usize = block_width * block_height;
    let mut block: Vec<u8> = Vec::new();
    let mut i: usize = 0;
    while i < n
        invariant
            0 <= i <= n,
            n == bw * bh,
            image@.wf(),
            image@.width == width,
            image@.height == height,
            bw == clipped_len(width as int, x as int, size as int),
            bh == clipped_len(height as int, y as int, size as int),
            block@.len() == i,
            forall|k: int|
                0 <= k < i ==> block@[k] == image@.at(x + k % (bw as int), y + k / (bw as int)),
        decreases n - i,
    {
        proof {
            lemma_position_of_offset(i as int, bw as int, bh as int);
        }
        let cx: u32 = (i % (bw as usize)) as u32;
        let cy: u32 = (i / (bw as usize)) as u32;
        let p = image.get_pixel(x + cx, y + cy);
        block.push(p);
        i += 1;
    }
    assert(block@ =~= block_pixels(image@, x as int, y as int, size as int));
    block
}

/// How many of the bytes of `s` equal `v`.
pub open spec fn count_of(s: Seq<u8>, v: u8) -> nat
    decreases s.len(),
{
    if s.len() == 0 {
        0
    } else {
        count_of(s.drop_last(), v) + if s.last() == v {
            1nat
        } else {
            0nat
        }
    }
}

proof fn lemma_count_bound(s: Seq<u8>, v: u8)
    ensures
        count_of(s, v) <= s.len(),
    decreases s.len(),
{
    if s.len() > 0 {
        lemma_count_bound(s.drop_last(), v);
    }
}

/// The number of pixels of each of the 256 intensities.
pub fn calculate_histogram(image: &GrayRaster) -> (histogram: [u64; 256])
    ensures
        forall|v: u8| histogram@[v as int] == count_of(image@.pixels, v),
{
    let raw = image.as_raw();
    let mut histogram: [u64; 256] = [0u64; 256];
    let n = raw.len();
    let mut i: usize = 0;
    assert(raw@.take(0) =~= Seq::<u8>::empty());
    while i < n
        invariant
            0 <= i <= n,
            n == raw@.len(),
            forall|v: u8| histogram@[v as int] == count_of(raw@.take(i as int), v),
        decreases n - i,
    {
        let p = raw[i];
        proof {
            assert(raw@.take(i + 1).drop_last() =~= raw@.take(i as int));
            assert(raw@.take(i + 1).last() == p);
            lemma_count_bound(raw@.take(i as int), p);
        }
        let c: u64 = histogram[p as usize];
        histogram[p as usize] = c + 1;
        i += 1;
    }
    assert(raw@.take(n as int) =~= raw@);
    histogram
}

/// The weighted sum of the 3x3 neighbourhood of `(x, y)` under the kernel
/// `[1 2 1; 2 4 2; 1 2 1]`.
pub open spec fn gaussian_sum(g: GrayView, x: int, y: int) -> int {
    g.at(x - 1, y - 1) + 2 * g.at(x, y - 1) + g.at(x + 1, y - 1) + 2 * g.at(x - 1, y) + 4 * g.at(
        x,
        y,
    ) + 2 * g.at(x + 1, y) + g.at(x - 1, y + 1) + 2 * g.at(x, y + 1) + g.at(x + 1, y + 1)
}

/// The position `(x, y)` has all eight neighbours inside the raster.
pub open spec fn interior(g: GrayView, x: int, y: int) -> bool {
    1 <= x && x + 1 < g.width && 1 <= y && y + 1 < g.height
}

/// The blurred value at `(x, y)`: a sixteenth of the weighted sum, rounded
/// down, in the interior; zero on the border, which is not written.
pub open spec fn blur_value(g: GrayView, x: int, y: int) -> int {
    if interior(g, x, y) {
        gaussian_sum(g, x, y) / 16
    } else {
        0
    }
}

/// The 3x3 Gaussian blur with kernel `[1 2 1; 2 4 2; 1 2 1] / 16`. Border
/// pixels are left at zero.
pub fn gaussian_blur_3x3(image: &GrayRaster) -> (out: GrayRaster)
    ensures
        out@.wf(),
        out@.same_size(image@),
        forall|x: int, y: int|
            image@.inside(x, y) ==> #[trigger] out@.at(x, y) == blur_value(image@, x, y),
{
    let (width, height) = image.dimensions();
    let raw = image.as_raw();
    let n = raw.len();
    let mut data: Vec<u8> = Vec::new();
    let mut i: usize = 0;
    while i < n
        invariant
            0 <= i <= n,
            n == width * height,
            image@.wf(),
            image@.width == width,
            image@.height == height,
            data@.len() == i,
            forall|k: int|
                0 <= k < i ==> data@[k] == blur_value(
                    image@,
                    k % (width as int),
                    k / (width as int),
                ),
        decreases n - i,
    {
        proof {
            lemma_position_of_offset(i as int, width as int, height as int);
        }
        let x: u32 = (i % (width as usize)) as u32;
        let y: u32 = (i / (width as usize)) as u32;
        let value: u8 = if 1 <= x && x < width - 1 && 1 <= y && y < height - 1 {
            let a: u32 = image.get_pixel(x - 1, y - 1) as u32;
            let b: u32 = image.get_pixel(x, y - 1) as u32;
            let c: u32 = image.get_pixel(x + 1, y - 1) as u32;
            let d: u32 = image.get_pixel(x - 1, y) as u32;
            let e: u32 = image.get_pixel(x, y) as u32;
            let f: u32 = image.get_pixel(x + 1, y) as u32;
            let g: u32 = image.get_pixel(x - 1, y + 1) as u32;
            let h: u32 = image.get_pixel(x, y + 1) as u32;
            let k: u32 = image.get_pixel(x + 1, y + 1) as u32;
            let sum: u32 = a + 2 * b + c + 2 * d + 4 * e + 2 * f + g + 2 * h + k;
            (sum / 16) as u8
        } else {
            0
        };
        data.push(value);
        i += 1;
    }
    let out = GrayRaster::from_raw(width, height, data).unwrap();
    proof {
        assert forall|x: int, y: int| image@.inside(x, y) implies #[trigger] out@.at(x, y)
            == blur_value(image@, x, y) by {
            lemma_offset_in_range(x, y, width as int, height as int);
            lemma_offset_of_position(x, y, width as int);
        }
    }
    out
}

/// The luminance of a pixel: `0.299 R + 0.587 G + 0.114 B`, rounded to the
/// nearest whole number.
pub open spec fn luminance(p: Rgb) -> int {
    (299 * p.r + 587 * p.g + 114 * p.b + 500) / 1000
}

/// The luminance of one pixel.
pub fn pixel_luminance(p: Rgb) -> (y: u8)
    ensures
        y == luminance(p),
{
    let sum: u32 = 299 * (p.r as u32) + 587 * (p.g as u32) + 114 * (p.b as u32) + 500;
    (sum / 1000) as u8
}

/// The grayscale version of what an RGB raster holds.
pub open spec fn gray_of(v: RgbView) -> GrayView {
    GrayView {
        width: v.width,
        height: v.height,
        pixels: Seq::new(v.width * v.height, |i: int| luminance(v.nth(i)) as u8),
    }
}

/// The grayscale version of an RGB raster: the luminance of each pixel.
pub fn rgb_to_gray(image: &RgbRaster) -> (gray: GrayRaster)
    ensures
        gray@ == gray_of(image@),
        gray@.wf(),
        gray@.width == image@.width,
        gray@.height == image@.height,
        forall|x: int, y: int|
            image@.inside(x, y) ==> #[trigger] gray@.at(x, y) == luminance(image@.at(x, y)),
{
    let (width, height) = image.dimensions();
    let raw = image.as_raw();
    let total = raw.len();
    let n: usize = total / 3;
    let mut data: Vec<u8> = Vec::new();
    let mut i: usize = 0;
    while i < n
        invariant
            0 <= i <= n,
            n == width * height,
            raw@.len() == 3 * n,
            total == raw@.len(),
            raw@ == image@.bytes,
            data@.len() == i,
            forall|k: int| 0 <= k < i ==> data@[k] == luminance(image@.nth(k)),
        decreases n - i,
    {
        let p = Rgb { r: raw[3 * i], g: raw[3 * i + 1], b: raw[3 * i + 2] };
        data.push(pixel_luminance(p));
        i += 1;
    }
    let gray = GrayRaster::from_raw(width, height, data).unwrap();
    proof {
        assert(gray@.pixels =~= gray_of(image@).pixels);
        assert forall|x: int, y: int| image@.inside(x, y) implies #[trigger] gray@.at(x, y)
            == luminance(image@.at(x, y)) by {
            lemma_offset_in_range(x, y, width as int, height as int);
            assert(image@.at(x, y) == image@.nth(y * width + x));
        }
    }
    gray
}

/// The sum of the first `t` pixels, row by row, of the window of width `ww`
/// whose corner is `(x0, y0)`.
pub open spec fn cells_sum(g: GrayView, x0: int, y0: int, ww: int, t: int) -> int
    decreases t,
{
    if t <= 0 {
        0
    } else {
        cells_sum(g, x0, y0, ww, t - 1) + g.at(x0 + (t - 1) % ww, y0 + (t - 1) / ww)
    }
}

/// The sum of the squares of the first `t` pixels, row by row, of the window
/// of width `ww` whose corner is `(x0, y0)`.
pub open spec fn cells_square_sum(g: GrayView, x0: int, y0: int, ww: int, t: int) -> int
    decreases t,
{
    if t <= 0 {
        0
    } else {
        cells_square_sum(g, x0, y0, ww, t - 1) + g.at(x0 + (t - 1) % ww, y0 + (t - 1) / ww) * g.at(
            x0 + (t - 1) % ww,
            y0 + (t - 1) / ww,
        )
    }
}

/// The sum of a window is at most 255 for each of its pixels, and the sum of
/// the squares at most 255 squared.
pub proof fn lemma_cells_bounds(g: GrayView, x0: int, y0: int, ww: int, t: int)
    requires
        0 <= t,
    ensures
        0 <= cells_sum(g, x0, y0, ww, t) <= 255 * t,
        0 <= cells_square_sum(g, x0, y0, ww, t) <= 65025 * t,
    decreases t,
{
    if t > 0 {
        lemma_cells_bounds(g, x0, y0, ww, t - 1);
        let v = g.at(x0 + (t - 1) % ww, y0 + (t - 1) / ww);
        assert(0 <= v * v <= 65025) by (nonlinear_arith)
            requires
                0 <= v <= 255,
        ;
    }
}

/// The sum and the sum of the squares of the pixels of the `ww` by `wh`
/// window whose corner is `(x0, y0)`.
pub fn window_sums(image: &GrayRaster, x0: u32, y0: u32, ww: u32, wh: u32) -> (sums: (u128, u128))
    requires
        x0 + ww <= image@.width,
        y0 + wh <= image@.height,
    ensures
        sums.0 == cells_sum(image@, x0 as int, y0 as int, ww as int, ww * wh),
        sums.1 == cells_square_sum(image@, x0 as int, y0 as int, ww as int, ww * wh),
{
    let (width, height) = image.dimensions();
    assert(ww * wh <= 0xFFFF_FFFF * 0xFFFF_FFFF) by (nonlinear_arith)
        requires
            0 <= ww <= 0xFFFF_FFFF,
            0 <= wh <= 0xFFFF_FFFF,
    ;
    let n: u64 = (ww as u64) * (wh as u64);
    let mut sum: u128 = 0;
    let mut squares: u128 = 0;
    let mut t: u64 = 0;
    while t < n
        invariant
            0 <= t <= n,
            n == ww * wh,
            image@.width == width,
            image@.height == height,
            x0 + ww <= width,
            y0 + wh <= height,
            sum == cells_sum(image@, x0 as int, y0 as int, ww as int, t as int),
            squares == cells_square_sum(image@, x0 as int, y0 as int, ww as int, t as int),
            sum <= 255 * t,
            squares <= 65025 * t,
        decreases n - t,
    {
        proof {
            lemma_position_of_offset(t as int, ww as int, wh as int);
        }
        let cx: u32 = (t % (ww as u64)) as u32;
        let cy: u32 = (t / (ww as u64)) as u32;
        let v: u128 = image.get_pixel(x0 + cx, y0 + cy) as u128;
        assert(v * v <= 65025) by (nonlinear_arith)
            requires
                0 <= v <= 255,
        ;
        sum = sum + v;
        squares = squares + v * v;
        t += 1;
    }
    (sum, squares)
}

/// The coordinate `c` brought into `0..limit`.
pub open spec fn clamp_coordinate(c: int, limit: int) -> int {
    if c < 0 {
        0
    } else if c >= limit {
        limit - 1
    } else {
        c
    }
}

/// The pixel at `(x, y)`, or, outside the raster, the nearest pixel of its
/// edge.
pub open spec fn replicated_at(g: GrayView, x: int, y: int) -> int {
    g.at(clamp_coordinate(x, g.width as int), clamp_coordinate(y, g.height as int)) as int
}

/// The horizontal Sobel gradient at `(x, y)`.
pub open spec fn sobel_x_value(g: GrayView, x: int, y: int) -> int {
    -replicated_at(g, x - 1, y - 1) - 2 * replicated_at(g, x - 1, y) - replicated_at(
        g,
        x - 1,
        y + 1,
    ) + replicated_at(g, x + 1, y - 1) + 2 * replicated_at(g, x + 1, y) + replicated_at(
        g,
        x + 1,
        y + 1,
    )
}

/// The vertical Sobel gradient at `(x, y)`.
pub open spec fn sobel_y_value(g: GrayView, x: int, y: int) -> int {
    -replicated_at(g, x - 1, y - 1) - 2 * replicated_at(g, x, y - 1) - replicated_at(
        g,
        x + 1,
        y - 1,
    ) + replicated_at(g, x - 1, y + 1) + 2 * replicated_at(g, x, y + 1) + replicated_at(
        g,
        x + 1,
        y + 1,
    )
}

/// The pixel at `(x + dx, y + dy)` with the edge replicated, for `dx` and
/// `dy` from -1 to 1 given as 0 to 2.
fn neighbour(image: &GrayRaster, x: u32, y: u32, dx: u32, dy: u32) -> (v: i32)
    requires
        image@.inside(x as int, y as int),
        dx <= 2,
        dy <= 2,
    ensures
        v == replicated_at(image@, x + dx - 1, y + dy - 1),
        0 <= v <= 255,
{
    let (width, height) = image.dimensions();
    let px: u32 = if dx == 0 {
        if x == 0 {
            0
        } else {
            x - 1
        }
    } else if dx == 1 {
        x
    } else if x + 1 < width {
        x + 1
    } else {
        width - 1
    };
    let py: u32 = if dy == 0 {
        if y == 0 {
            0
        } else {
            y - 1
        }
    } else if dy == 1 {
        y
    } else if y + 1 < height {
        y + 1
    } else {
        height - 1
    };
    image.get_pixel(px, py) as i32
}

/// The horizontal Sobel gradient at a pixel: the kernel
/// `[-1 0 1; -2 0 2; -1 0 1]`, with the edge replicated.
pub fn sobel_x(image: &GrayRaster, x: u32, y: u32) -> (g: i32)
    requires
        image@.inside(x as int, y as int),
    ensures
        g == sobel_x_value(image@, x as int, y as int),
        -1020 <= g <= 1020,
{
    -neighbour(image, x, y, 0, 0) - 2 * neighbour(image, x, y, 0, 1) - neighbour(image, x, y, 0, 2)
        + neighbour(image, x, y, 2, 0) + 2 * neighbour(image, x, y, 2, 1) + neighbour(
        image,
        x,
        y,
        2,
        2,
    )
}

/// The vertical Sobel gradient at a pixel: the kernel
/// `[-1 -2 -1; 0 0 0; 1 2 1]`, with the edge replicated.
pub fn sobel_y(image: &GrayRaster, x: u32, y: u32) -> (g: i32)
    requires
        image@.inside(x as int, y as int),
    ensures
        g == sobel_y_value(image@, x as int, y as int),
        -1020 <= g <= 1020,
{
    -neighbour(image, x, y, 0, 0) - 2 * neighbour(image, x, y, 1, 0) - neighbour(image, x, y, 2, 0)
        + neighbour(image, x, y, 0, 2) + 2 * neighbour(image, x, y, 1, 2) + neighbour(
        image,
        x,
        y,
        2,
        2,
    )
}

/// `m` is the length of the gradient `(gx, gy)`, rounded down and capped at
/// 255.
pub open spec fn is_magnitude(gx: int, gy: int, m: int) -> bool {
    &&& 0 <= m <= 255
    &&& m * m <= gx * gx + gy * gy
    &&& m == 255 || (m + 1) * (m + 1) > gx * gx + gy * gy
}

/// The largest number from `m` to 255 whose square is at most `n`, given
/// that the square of `m` is.
pub open spec fn root_from(n: int, m: int) -> int
    decreases 255 - m,
{
    if m >= 255 || (m + 1) * (m + 1) > n {
        m
    } else {
        root_from(n, m + 1)
    }
}

/// The length of the gradient `(gx, gy)`, rounded down and capped at 255.
pub open spec fn magnitude_of(gx: int, gy: int) -> int {
    root_from(gx * gx + gy * gy, 0)
}

proof fn lemma_root_from(n: int, m: int)
    requires
        0 <= m <= 255,
        m * m <= n,
    ensures
        m <= root_from(n, m) <= 255,
        root_from(n, m) * root_from(n, m) <= n,
        root_from(n, m) == 255 || (root_from(n, m) + 1) * (root_from(n, m) + 1) > n,
    decreases 255 - m,
{
    if m < 255 && (m + 1) * (m + 1) <= n {
        lemma_root_from(n, m + 1);
    }
}

/// The magnitude of a gradient is its length, rounded down and capped at
/// 255.
pub proof fn magnitude_is_the_length(gx: int, gy: int)
    ensures
        is_magnitude(gx, gy, magnitude_of(gx, gy)),
{
    assert(0 <= gx * gx + gy * gy) by (nonlinear_arith);
    assert(0 * 0 == 0) by (nonlinear_arith);
    lemma_root_from(gx * gx + gy * gy, 0);
}

/// The length of a gradient, rounded down and capped at 255.
pub fn gradient_magnitude(gx: i32, gy: i32) -> (m: u8)
    ensures
        m == magnitude_of(gx as int, gy as int),
        is_magnitude(gx as int, gy as int, m as int),
{
    let a: i128 = gx as i128;
    let b: i128 = gy as i128;
    assert(0 <= a * a <= 0x8000_0000 * 0x8000_0000 && 0 <= b * b <= 0x8000_0000 * 0x8000_0000)
        by (nonlinear_arith)
        requires
            -0x8000_0000 <= a <= 0x8000_0000,
            -0x8000_0000 <= b <= 0x8000_0000,
    ;
    let n: i128 = a * a + b * b;
    let mut m: i128 = 0;
    assert(0 * 0 == 0) by (nonlinear_arith);
    proof {
        magnitude_is_the_length(gx as int, gy as int);
    }
    while m < 255
        invariant
            0 <= m <= 255,
            a == gx,
            b == gy,
            n == a * a + b * b,
            m * m <= n,
            root_from(n as int, m as int) == magnitude_of(gx as int, gy as int),
        decreases 255 - m,
    {
        assert((m + 1) * (m + 1) <= 65536) by (nonlinear_arith)
            requires
                0 <= m < 255,
        ;
        if (m + 1) * (m + 1) > n {
            return m as u8;
        }
        m += 1;
    }
    m as u8
}

/// The gradient magnitude at `(x, y)`: the length of the Sobel gradient in
/// the interior, zero on the border.
pub open spec fn edge_value(g: GrayView, x: int, y: int) -> int {
    if interior(g, x, y) {
        magnitude_of(sobel_x_value(g, x, y), sobel_y_value(g, x, y))
    } else {
        0
    }
}

/// The map of the gradient magnitudes of what a raster holds.
pub open spec fn edge_map_of(g: GrayView) -> GrayView {
    GrayView {
        width: g.width,
        height: g.height,
        pixels: Seq::new(
            g.width * g.height,
            |i: int| edge_value(g, i % (g.width as int), i / (g.width as int)) as u8,
        ),
    }
}

/// The map of the gradient magnitudes of a grayscale image.
pub fn gradient_magnitude_map(image: &GrayRaster) -> (out: GrayRaster)
    ensures
        out@.wf(),
        out@ == edge_map_of(image@),
        forall|x: int, y: int|
            image@.inside(x, y) ==> #[trigger] out@.at(x, y) == edge_value(image@, x, y),
{
    let (width, height) = image.dimensions();
    let raw = image.as_raw();
    let n = raw.len();
    let mut data: Vec<u8> = Vec::new();
    let mut i: usize = 0;
    while i < n
        invariant
            0 <= i <= n,
            n == width * height,
            image@.wf(),
            image@.width == width,
            image@.height == height,
            data@.len() == i,
            forall|k: int|
                0 <= k < i ==> #[trigger] data@[k] == edge_value(
                    image@,
                    k % (width as int),
                    k / (width as int),
                ),
        decreases n - i,
    {
        proof {
            lemma_position_of_offset(i as int, width as int, height as int);
        }
        let x: u32 = (i % (width as usize)) as u32;
        let y: u32 = (i / (width as usize)) as u32;
        let value: u8 = if 1 <= x && x < width - 1 && 1 <= y && y < height - 1 {
            gradient_magnitude(sobel_x(image, x, y), sobel_y(image, x, y))
        } else {
            0
        };
        data.push(value);
        i += 1;
    }
    let out = GrayRaster::from_raw(width, height, data).unwrap();
    proof {
        assert(out@.pixels =~= edge_map_of(image@).pixels);
        assert forall|x: int, y: int| image@.inside(x, y) implies #[trigger] out@.at(x, y)
            == edge_value(image@, x, y) by {
            lemma_offset_in_range(x, y, width as int, height as int);
            lemma_offset_of_position(x, y, width as int);
        }
    }
    out
}

/// The three channels of an RGB raster as single-channel rasters: red, green
/// and blue.
pub fn split_channels(image: &RgbRaster) -> (channels: (GrayRaster, GrayRaster, GrayRaster))
    ensures
        channels.0@.wf() && channels.0@.width == image@.width && channels.0@.height
            == image@.height,
        channels.1@.wf() && channels.1@.width == image@.width && channels.1@.height
            == image@.height,
        channels.2@.wf() && channels.2@.width == image@.width && channels.2@.height
            == image@.height,
        forall|i: int|
            0 <= i < image@.width * image@.height ==> (Rgb {
                r: #[trigger] channels.0@.pixels[i],
                g: channels.1@.pixels[i],
                b: channels.2@.pixels[i],
            }) == image@.nth(i),
{
    let (width, height) = image.dimensions();
    let raw = image.as_raw();
    let total = raw.len();
    let n: usize = total / 3;
    let mut red: Vec<u8> = Vec::new();
    let mut green: Vec<u8> = Vec::new();
    let mut blue: Vec<u8> = Vec::new();
    let mut i: usize = 0;
    while i < n
        invariant
            0 <= i <= n,
            n == width * height,
            raw@.len() == 3 * n,
            total == raw@.len(),
            raw@ == image@.bytes,
            red@.len() == i,
            green@.len() == i,
            blue@.len() == i,
            forall|k: int|
                0 <= k < i ==> (Rgb { r: #[trigger] red@[k], g: green@[k], b: blue@[k] })
                    == image@.nth(k),
        decreases n - i,
    {
        red.push(raw[3 * i]);
        green.push(raw[3 * i + 1]);
        blue.push(raw[3 * i + 2]);
        i += 1;
    }
    (
        GrayRaster::from_raw(width, height, red).unwrap(),
        GrayRaster::from_raw(width, height, green).unwrap(),
        GrayRaster::from_raw(width, height, blue).unwrap(),
    )
}

/// A gradient has one magnitude.
pub proof fn magnitude_is_determined(gx: int, gy: int, a: int, b: int)
    requires
        is_magnitude(gx, gy, a),
        is_magnitude(gx, gy, b),
    ensures
        a == b,
{
    let n = gx * gx + gy * gy;
    if a < b {
        assert((a + 1) * (a + 1) <= b * b) by (nonlinear_arith)
            requires
                0 <= a,
                a + 1 <= b,
        ;
    }
    if b < a {
        assert((b + 1) * (b + 1) <= a * a) by (nonlinear_arith)
            requires
                0 <= b,
                b + 1 <= a,
        ;
    }
}

} // verus!
