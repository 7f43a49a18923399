//! Shadow analysis: the shadow mask and its morphological cleaning.

use vstd::prelude::*;
use crate::image_utils::{gray_of, rgb_to_gray};
use crate::region::SRegion;
use crate::components::{
    component_size,
    connected,
    foreground,
    holds,
    is_component,
    lemma_component_size,
    lemma_connected_here,
    lemma_connected_on,
    lemma_same_component,
    marked,
    pt,
    settled,
    trace_component,
    ComponentScan,
};
use crate::grid::{grid_positions, is_grid};
use crate::raster::{
    offset,
    lemma_offset_in_range,
    lemma_offset_of_position,
    lemma_position_of_offset,
    GrayRaster,
    GrayView,
    Rgb,
    RgbRaster,
    RgbView,
};

verus! {

/// The largest channel of a pixel.
pub open spec fn max_channel(p: Rgb) -> int {
    if p.r >= p.g && p.r >= p.b {
        p.r as int
    } else if p.g >= p.b {
        p.g as int
    } else {
        p.b as int
    }
}

/// The smallest channel of a pixel.
pub open spec fn min_channel(p: Rgb) -> int {
    if p.r <= p.g && p.r <= p.b {
        p.r as int
    } else if p.g <= p.b {
        p.g as int
    } else {
        p.b as int
    }
}

/// A pixel of the given intensity looks like shadow under the threshold. A
/// pixel brighter than the threshold, or with a saturation above 0.5, does
/// not. Of the others, one whose blue share is above 0.4 and whose red share
/// is below 0.35 does, and so does one darker than the threshold with a
/// saturation below 0.3. The saturation is `(max - min) / max` over the
/// channels, zero for black; the comparisons are exact.
pub open spec fn shadow_like(intensity: u8, p: Rgb, threshold: u8) -> bool {
    let hi = max_channel(p);
    let lo = min_channel(p);
    let total = p.r + p.g + p.b;
    if intensity > threshold {
        false
    } else if hi > 0 && 2 * (hi - lo) > hi {
        false
    } else if total > 0 && 5 * p.b > 2 * total && 20 * p.r < 7 * total {
        true
    } else {
        intensity < threshold && (hi == 0 || 10 * (hi - lo) < 3 * hi)
    }
}

/// Whether a pixel of the given intensity looks like shadow.
pub fn is_shadow_pixel(intensity: u8, pixel: Rgb, threshold: u8) -> (r: bool)
    ensures
        r == shadow_like(intensity, pixel, threshold),
{
    if intensity > threshold {
        return false;
    }
    let r: u32 = pixel.r as u32;
    let g: u32 = pixel.g as u32;
    let b: u32 = pixel.b as u32;
    let hi: u32 = if r >= g && r >= b { r } else if g >= b { g } else { b };
    let lo: u32 = if r <= g && r <= b { r } else if g <= b { g } else { b };
    if hi > 0 && 2 * (hi - lo) > hi {
        return false;
    }
    let total: u32 = r + g + b;
    if total > 0 && 5 * b > 2 * total && 20 * r < 7 * total {
        return true;
    }
    intensity < threshold && (hi == 0 || 10 * (hi - lo) < 3 * hi)
}

/// The threshold below which a pixel may be shadow: the configured one, or,
/// if that is lower, twenty above the pixel a tenth of the way through the
/// image.
pub open spec fn adaptive_threshold(g: GrayView, shadow_threshold: u8) -> int {
    if g.pixels.len() == 0 {
        shadow_threshold as int
    } else {
        let reference = g.pixels[(g.pixels.len() / 10) as int] + 20;
        if reference < shadow_threshold {
            reference
        } else {
            shadow_threshold as int
        }
    }
}

/// The raw shadow mask at pixel `i`: 255 where the pixel looks like shadow,
/// else zero.
pub open spec fn raw_mask_value(rgb: RgbView, g: GrayView, shadow_threshold: u8, i: int) -> u8 {
    if shadow_like(g.pixels[i], rgb.nth(i), adaptive_threshold(g, shadow_threshold) as u8) {
        255
    } else {
        0
    }
}

/// The shadow mask of an image before cleaning.
pub open spec fn raw_mask_of(rgb: RgbView, shadow_threshold: u8) -> GrayView {
    GrayView {
        width: rgb.width,
        height: rgb.height,
        pixels: Seq::new(
            rgb.width * rgb.height,
            |i: int| raw_mask_value(rgb, gray_of(rgb), shadow_threshold, i),
        ),
    }
}

/// The shadow mask before cleaning.
pub fn raw_shadow_mask(rgb: &RgbRaster, shadow_threshold: u8) -> (mask: GrayRaster)
    ensures
        mask@.wf(),
        mask@ == raw_mask_of(rgb@, shadow_threshold),
{
    let grayscale = rgb_to_gray(rgb);
    let gray = &grayscale;
    let (width, height) = gray.dimensions();
    let intensities = gray.as_raw();
    let colours = rgb.as_raw();
    let n = intensities.len();
    let bytes = colours.len();
    let threshold: u8 = if n == 0 {
        shadow_threshold
    } else {
        let reference: u16 = intensities[n / 10] as u16 + 20;
        if reference < shadow_threshold as u16 {
            reference as u8
        } else {
            shadow_threshold
        }
    };
    let mut data: Vec<u8> = Vec::new();
    let mut i: usize = 0;
    while i < n
        invariant
            0 <= i <= n,
            n == width * height,
            intensities@ == gray@.pixels,
            colours@ == rgb@.bytes,
            intensities@.len() == n,
            colours@.len() == 3 * n,
            bytes == colours@.len(),
            threshold == adaptive_threshold(gray@, shadow_threshold),
            gray@ == gray_of(rgb@),
            data@.len() == i,
            forall|k: int|
                0 <= k < i ==> #[trigger] data@[k] == raw_mask_value(
                    rgb@,
                    gray_of(rgb@),
                    shadow_threshold,
                    k,
                ),
        decreases n - i,
    {
        let p = Rgb { r: colours[3 * i], g: colours[3 * i + 1], b: colours[3 * i + 2] };
        let value: u8 = if is_shadow_pixel(intensities[i], p, threshold) { 255 } else { 0 };
        data.push(value);
        i += 1;
    }
    let mask = GrayRaster::from_raw(width, height, data).unwrap();
    assert(mask@.pixels =~= raw_mask_of(rgb@, shadow_threshold).pixels);
    mask
}

/// The position `(nx, ny)` lies in the window of the given radius around
/// `(x, y)` and inside the raster.
pub open spec fn in_window(g: GrayView, x: int, y: int, radius: int, nx: int, ny: int) -> bool {
    g.inside(nx, ny) && x - radius <= nx <= x + radius && y - radius <= ny <= y + radius
}

/// `v` is the smallest value in the window around `(x, y)`, and 255 if the
/// window holds no pixel.
pub open spec fn is_window_min(g: GrayView, x: int, y: int, radius: int, v: u8) -> bool {
    &&& forall|nx: int, ny: int| in_window(g, x, y, radius, nx, ny) ==> v <= #[trigger] g.at(nx, ny)
    &&& v == 255 || exists|nx: int, ny: int|
        in_window(g, x, y, radius, nx, ny) && #[trigger] g.at(nx, ny) == v
}

/// `v` is the largest value in the window around `(x, y)`, and zero if the
/// window holds no pixel.
pub open spec fn is_window_max(g: GrayView, x: int, y: int, radius: int, v: u8) -> bool {
    &&& forall|nx: int, ny: int| in_window(g, x, y, radius, nx, ny) ==> v >= #[trigger] g.at(nx, ny)
    &&& v == 0 || exists|nx: int, ny: int|
        in_window(g, x, y, radius, nx, ny) && #[trigger] g.at(nx, ny) == v
}

/// The first and the last position of the window around `c` that lie below
/// `limit`; the window is empty when the first lies after the last.
fn window_bounds(c: u32, radius: u32, limit: u32) -> (b: (u32, u32))
    requires
        c < limit,
    ensures
        b.0 == if c >= radius { c - radius } else { 0 },
        b.1 == if c + radius < limit { c + radius } else { limit - 1 },
        b.0 <= c <= b.1 < limit,
{
    let lo: u32 = if c >= radius { c - radius } else { 0 };
    let hi: u32 = if radius < limit - c { c + radius } else { limit - 1 };
    (lo, hi)
}

/// The smallest (`want_max` false) or largest (`want_max` true) value in the
/// window of the given radius around `(x, y)`.
fn window_extreme(image: &GrayRaster, x: u32, y: u32, radius: u32, want_max: bool) -> (v: u8)
    requires
        image@.inside(x as int, y as int),
    ensures
        want_max ==> is_window_max(image@, x as int, y as int, radius as int, v),
        !want_max ==> is_window_min(image@, x as int, y as int, radius as int, v),
{
    let (width, height) = image.dimensions();
    let (x0, x1) = window_bounds(x, radius, width);
    let (y0, y1) = window_bounds(y, radius, height);
    let mut v: u8 = image.get_pixel(x, y);
    let mut ny: u32 = y0;
    while ny <= y1
        invariant
            y0 <= ny <= y1 + 1,
            y1 < height,
            x0 <= x <= x1 < width,
            y0 <= y <= y1,
            image@.width == width,
            image@.height == height,
            x0 == if x >= radius { x - radius } else { 0 },
            x1 == if x + radius < width { x + radius } else { width - 1 },
            y0 == if y >= radius { y - radius } else { 0 },
            y1 == if y + radius < height { y + radius } else { height - 1 },
            exists|ax: int, ay: int|
                in_window(image@, x as int, y as int, radius as int, ax, ay)
                    && #[trigger] image@.at(ax, ay) == v,
            forall|ax: int, ay: int|
                in_window(image@, x as int, y as int, radius as int, ax, ay) && ay < ny ==> (
                if want_max {
                    v >= #[trigger] image@.at(ax, ay)
                } else {
                    v <= image@.at(ax, ay)
                }),
        decreases y1 + 1 - ny,
    {
        let mut nx: u32 = x0;
        while nx <= x1
            invariant
                x0 <= nx <= x1 + 1,
                y0 <= ny <= y1,
                y1 < height,
                x0 <= x <= x1 < width,
                y0 <= y <= y1,
                image@.width == width,
                image@.height == height,
                x0 == if x >= radius { x - radius } else { 0 },
                x1 == if x + radius < width { x + radius } else { width - 1 },
                y0 == if y >= radius { y - radius } else { 0 },
                y1 == if y + radius < height { y + radius } else { height - 1 },
                exists|ax: int, ay: int|
                    in_window(image@, x as int, y as int, radius as int, ax, ay)
                        && #[trigger] image@.at(ax, ay) == v,
                forall|ax: int, ay: int|
                    in_window(image@, x as int, y as int, radius as int, ax, ay) && (ay < ny || (ay
                        == ny && ax < nx)) ==> (if want_max {
                        v >= #[trigger] image@.at(ax, ay)
                    } else {
                        v <= image@.at(ax, ay)
                    }),
            decreases x1 + 1 - nx,
        {
            let p = image.get_pixel(nx, ny);
            assert(in_window(image@, x as int, y as int, radius as int, nx as int, ny as int));
            if want_max {
                if p > v {
                    v = p;
                }
            } else {
                if p < v {
                    v = p;
                }
            }
            nx += 1;
        }
        ny += 1;
    }
    v
}

/// Erosion: each pixel becomes the smallest value in the window of the
/// given radius around it.
pub fn erode(image: &GrayRaster, radius: u32) -> (out: GrayRaster)
    ensures
        out@.wf(),
        out@.same_size(image@),
        forall|x: int, y: int|
            image@.inside(x, y) ==> is_window_min(image@, x, y, radius as int, #[trigger] out@.at(x, y)),
{
    morph(image, radius, false)
}

/// Dilation: each pixel becomes the largest value in the window of the given
/// radius around it.
pub fn dilate(image: &GrayRaster, radius: u32) -> (out: GrayRaster)
    ensures
        out@.wf(),
        out@.same_size(image@),
        forall|x: int, y: int|
            image@.inside(x, y) ==> is_window_max(image@, x, y, radius as int, #[trigger] out@.at(x, y)),
{
    morph(image, radius, true)
}

fn morph(image: &GrayRaster, radius: u32, want_max: bool) -> (out: GrayRaster)
    ensures
        out@.wf(),
        out@.same_size(image@),
        want_max ==> forall|x: int, y: int|
            image@.inside(x, y) ==> is_window_max(image@, x, y, radius as int, #[trigger] out@.at(x, y)),
        !want_max ==> forall|x: int, y: int|
            image@.inside(x, y) ==> is_window_min(image@, x, y, radius as int, #[trigger] out@.at(x, y)),
{
    let (width, height) = image.dimensions();
    let raw = image.as_raw();
    let n = raw.len();
    let mut data: Vec<u8> = Vec::new();
    let mut i: usize = 0;
    while i < n
        invariant
            0 <= i <= n,
            n == width * height,
            image@.wf(),
            image@.width == width,
            image@.height == height,
            data@.len() == i,
            want_max ==> forall|k: int|
                0 <= k < i ==> is_window_max(
                    image@,
                    k % (width as int),
                    k / (width as int),
                    radius as int,
                    #[trigger] data@[k],
                ),
            !want_max ==> forall|k: int|
                0 <= k < i ==> is_window_min(
                    image@,
                    k % (width as int),
                    k / (width as int),
                    radius as int,
                    #[trigger] data@[k],
                ),
        decreases n - i,
    {
        proof {
            lemma_position_of_offset(i as int, width as int, height as int);
        }
        let x: u32 = (i % (width as usize)) as u32;
        let y: u32 = (i / (width as usize)) as u32;
        let v = window_extreme(image, x, y, radius, want_max);
        data.push(v);
        i += 1;
    }
    let out = GrayRaster::from_raw(width, height, data).unwrap();
    proof {
        if want_max {
            assert forall|x: int, y: int| image@.inside(x, y) implies is_window_max(
                image@,
                x,
                y,
                radius as int,
                #[trigger] out@.at(x, y),
            ) by {
                lemma_offset_in_range(x, y, width as int, height as int);
                lemma_offset_of_position(x, y, width as int);
            }
        } else {
            assert forall|x: int, y: int| image@.inside(x, y) implies is_window_min(
                image@,
                x,
                y,
                radius as int,
                #[trigger] out@.at(x, y),
            ) by {
                lemma_offset_in_range(x, y, width as int, height as int);
                lemma_offset_of_position(x, y, width as int);
            }
        }
    }
    out
}

/// The shadow pixel at `(x, y)` lies on the edge of the shadow: one of its
/// eight neighbours inside the raster is not shadow.
pub open spec fn on_shadow_edge(mask: GrayView, x: int, y: int) -> bool {
    exists|nx: int, ny: int|
        in_window(mask, x, y, 1, nx, ny) && #[trigger] mask.at(nx, ny) == 0 && !(nx == x && ny == y)
}

/// Whether the pixel at `(x, y)` lies on the edge of the shadow.
pub fn is_shadow_edge(mask: &GrayRaster, x: u32, y: u32) -> (r: bool)
    requires
        mask@.inside(x as int, y as int),
    ensures
        r == on_shadow_edge(mask@, x as int, y as int),
{
    let (width, height) = mask.dimensions();
    let (x0, x1) = window_bounds(x, 1, width);
    let (y0, y1) = window_bounds(y, 1, height);
    let mut ny: u32 = y0;
    while ny <= y1
        invariant
            y0 <= ny <= y1 + 1,
            y1 < height,
            x0 <= x <= x1 < width,
            y0 <= y <= y1,
            mask@.width == width,
            mask@.height == height,
            x0 == if x >= 1 { x - 1 } else { 0 },
            x1 == if x + 1 < width { x + 1 } else { width - 1 },
            y0 == if y >= 1 { y - 1 } else { 0 },
            y1 == if y + 1 < height { y + 1 } else { height - 1 },
            forall|ax: int, ay: int|
                in_window(mask@, x as int, y as int, 1, ax, ay) && ay < ny && !(ax == x && ay
                    == y) ==> #[trigger] mask@.at(ax, ay) != 0,
        decreases y1 + 1 - ny,
    {
        let mut nx: u32 = x0;
        while nx <= x1
            invariant
                x0 <= nx <= x1 + 1,
                y0 <= ny <= y1,
                y1 < height,
                x0 <= x <= x1 < width,
                y0 <= y <= y1,
                mask@.width == width,
                mask@.height == height,
                x0 == if x >= 1 { x - 1 } else { 0 },
                x1 == if x + 1 < width { x + 1 } else { width - 1 },
                y0 == if y >= 1 { y - 1 } else { 0 },
                y1 == if y + 1 < height { y + 1 } else { height - 1 },
                forall|ax: int, ay: int|
                    in_window(mask@, x as int, y as int, 1, ax, ay) && (ay < ny || (ay == ny && ax
                        < nx)) && !(ax == x && ay == y) ==> #[trigger] mask@.at(ax, ay) != 0,
            decreases x1 + 1 - nx,
        {
            if !(nx == x && ny == y) && mask.get_pixel(nx, ny) == 0 {
                assert(in_window(mask@, x as int, y as int, 1, nx as int, ny as int));
                return true;
            }
            nx += 1;
        }
        ny += 1;
    }
    false
}

/// The mask value at `(x, y)` after the small components are removed: zero
/// where the pixel belongs to a component of fewer than `min_size` pixels.
pub open spec fn cleaned_value(mask: GrayView, x: int, y: int, min_size: int) -> u8 {
    if foreground(mask, (x, y)) && component_size(mask, (x, y)) < min_size {
        0
    } else {
        mask.at(x, y)
    }
}

/// Clears the pixels of `pixels` in `data`.
fn clear_pixels(data: &mut Vec<u8>, pixels: &Vec<(u32, u32)>, width: u32, height: u32)
    requires
        old(data)@.len() == width * height,
        forall|k: int|
            0 <= k < pixels@.len() ==> (#[trigger] pixels@[k]).0 < width && pixels@[k].1 < height,
    ensures
        final(data)@.len() == old(data)@.len(),
        forall|u: int, v: int|
            0 <= u < width && 0 <= v < height ==> #[trigger] final(data)@[v * width + u] == if holds(
                pixels@,
                (u, v),
            ) {
                0u8
            } else {
                old(data)@[v * width + u]
            },
{
    let total = data.len();
    let mut k: usize = 0;
    assert forall|u: int, v: int| !holds(pixels@.take(0), (u, v)) by {}
    while k < pixels.len()
        invariant
            0 <= k <= pixels@.len(),
            data@.len() == width * height,
            total == width * height,
            forall|t: int|
                0 <= t < pixels@.len() ==> (#[trigger] pixels@[t]).0 < width && pixels@[t].1
                    < height,
            forall|u: int, v: int|
                0 <= u < width && 0 <= v < height ==> #[trigger] data@[v * width + u] == if holds(
                    pixels@.take(k as int),
                    (u, v),
                ) {
                    0u8
                } else {
                    old(data)@[v * width + u]
                },
        decreases pixels@.len() - k,
    {
        let (px, py) = pixels[k];
        let i = offset(px, py, width, height);
        let ghost before = data@;
        data.set(i, 0);
        proof {
            let shorter = pixels@.take(k as int);
            let longer = pixels@.take(k + 1);
            assert(longer[k as int] == pixels@[k as int]);
            assert forall|u: int, v: int| 0 <= u < width && 0 <= v < height implies #[trigger] data@[v
                * width + u] == if holds(longer, (u, v)) {
                0u8
            } else {
                old(data)@[v * width + u]
            } by {
                lemma_offset_in_range(u, v, width as int, height as int);
                lemma_offset_of_position(u, v, width as int);
                lemma_offset_of_position(px as int, py as int, width as int);
                if holds(shorter, (u, v)) {
                    let t = choose|t: int| 0 <= t < shorter.len() && pt(#[trigger] shorter[t]) == (u, v);
                    assert(longer[t] == shorter[t]);
                    assert(holds(longer, (u, v)));
                }
                if (u, v) == (px as int, py as int) {
                    assert(pt(longer[k as int]) == (u, v));
                    assert(holds(longer, (u, v)));
                } else {
                    assert(v * width + u != i);
                    if holds(longer, (u, v)) {
                        let t = choose|t: int|
                            0 <= t < longer.len() && pt(#[trigger] longer[t]) == (u, v);
                        assert(t < k);
                        assert(shorter[t] == longer[t]);
                        assert(holds(shorter, (u, v)));
                    }
                }
            }
        }
        k += 1;
    }
    assert(pixels@.take(pixels@.len() as int) =~= pixels@);
}

/// What the cleaning loop knows after the first `i` pixels: every set pixel
/// among them is marked, and the data holds the cleaned value where a pixel
/// is marked and the mask's value elsewhere.
spec fn cleaning(
    mask: GrayView,
    marks: Seq<bool>,
    data: Seq<u8>,
    i: int,
    min_size: int,
) -> bool {
    let w = mask.width as int;
    &&& settled(mask, marks)
    &&& data.len() == mask.pixels.len()
    &&& forall|x: int, y: int|
        mask.inside(x, y) && y * w + x < i && foreground(mask, (x, y)) ==> #[trigger] marked(
            marks,
            w,
            (x, y),
        )
    &&& forall|x: int, y: int|
        mask.inside(x, y) ==> #[trigger] data[y * w + x] == if marked(marks, w, (x, y)) {
            cleaned_value(mask, x, y, min_size)
        } else {
            mask.at(x, y)
        }
}

/// Removes the 4-connected components of the mask that have fewer than
/// `min_size` pixels.
pub fn remove_small_regions(mask: &GrayRaster, min_size: u32) -> (out: GrayRaster)
    ensures
        out@.wf(),
        out@.same_size(mask@),
        forall|x: int, y: int|
            mask@.inside(x, y) ==> #[trigger] out@.at(x, y) == cleaned_value(
                mask@,
                x,
                y,
                min_size as int,
            ),
{
    let (width, height) = mask.dimensions();
    let raw = mask.as_raw();
    let n = raw.len();
    let mut data: Vec<u8> = raw.clone();
    let mut marks: Vec<bool> = vec![false; n];
    assert(data@ =~= raw@);
    proof {
        assert forall|x: int, y: int| mask@.inside(x, y) implies !marked(
            marks@,
            width as int,
            (x, y),
        ) by {
            lemma_offset_in_range(x, y, width as int, height as int);
        }
        assert forall|p: (int, int), q: (int, int)|
            mask@.inside(p.0, p.1) && marked(marks@, width as int, p) && foreground(mask@, q)
                && #[trigger] crate::components::neighbours(p, q) implies marked(
            marks@,
            width as int,
            q,
        ) by {
            lemma_offset_in_range(p.0, p.1, width as int, height as int);
        }
        assert(cleaning(mask@, marks@, data@, 0, min_size as int)) by {
            assert forall|x: int, y: int| mask@.inside(x, y) implies #[trigger] data@[y * width + x]
                == mask@.at(x, y) by {
                lemma_offset_in_range(x, y, width as int, height as int);
            }
            assert forall|x: int, y: int| mask@.inside(x, y) implies 0 <= y * width + x by {
                lemma_offset_in_range(x, y, width as int, height as int);
            }
        }
    }
    let mut i: usize = 0;
    while i < n
        invariant
            0 <= i <= n,
            n == width * height,
            mask@.wf(),
            mask@.width == width,
            mask@.height == height,
            raw@ == mask@.pixels,
            marks@.len() == n,
            data@.len() == n,
            cleaning(mask@, marks@, data@, i as int, min_size as int),
        decreases n - i,
    {
        proof {
            lemma_position_of_offset(i as int, width as int, height as int);
        }
        let x: u32 = (i % (width as usize)) as u32;
        let y: u32 = (i / (width as usize)) as u32;
        let ghost seed = (x as int, y as int);
        assert(y * width + x == i);
        if raw[i] > 0 && !marks[i] {
            let ghost old_marks = marks@;
            let ghost old_data = data@;
            let pixels = trace_component(mask, x, y, &mut marks);
            proof {
                lemma_component_size(mask@, pixels@, seed);
            }
            let small = pixels.len() < min_size as usize;
            if small {
                clear_pixels(&mut data, &pixels, width, height);
            }
            proof {
                assert forall|u: int, v: int| mask@.inside(u, v) implies #[trigger] data@[v * width
                    + u] == if marked(marks@, width as int, (u, v)) {
                    cleaned_value(mask@, u, v, min_size as int)
                } else {
                    mask@.at(u, v)
                } by {
                    assert(marked(marks@, width as int, (u, v)) <==> marked(
                        old_marks,
                        width as int,
                        (u, v),
                    ) || connected(mask@, seed, (u, v)));
                    assert(old_data[v * width + u] == if marked(old_marks, width as int, (u, v)) {
                        cleaned_value(mask@, u, v, min_size as int)
                    } else {
                        mask@.at(u, v)
                    });
                    if connected(mask@, seed, (u, v)) {
                        assert(holds(pixels@, (u, v)));
                        let k = choose|k: int|
                            0 <= k < pixels@.len() && pt(#[trigger] pixels@[k]) == (u, v);
                        assert(!marked(old_marks, width as int, pt(pixels@[k])));
                        lemma_same_component(mask@, seed, (u, v));
                        assert(foreground(mask@, pt(pixels@[k])));
                    } else {
                        if holds(pixels@, (u, v)) {
                            let k = choose|k: int|
                                0 <= k < pixels@.len() && pt(#[trigger] pixels@[k]) == (u, v);
                            assert(connected(mask@, seed, pt(pixels@[k])));
                        }
                    }
                }
                assert forall|u: int, v: int|
                    mask@.inside(u, v) && v * width + u < i + 1 && foreground(
                        mask@,
                        (u, v),
                    ) implies #[trigger] marked(marks@, width as int, (u, v)) by {
                    assert(marked(marks@, width as int, (u, v)) <==> marked(
                        old_marks,
                        width as int,
                        (u, v),
                    ) || connected(mask@, seed, (u, v)));
                    if v * width + u == i {
                        lemma_offset_of_position(u, v, width as int);
                        lemma_offset_of_position(x as int, y as int, width as int);
                        assert((u, v) == seed);
                        crate::components::lemma_connected_here(mask@, seed);
                    }
                }
            }
        } else {
            proof {
                assert forall|u: int, v: int|
                    mask@.inside(u, v) && v * width + u < i + 1 && foreground(
                        mask@,
                        (u, v),
                    ) implies #[trigger] marked(marks@, width as int, (u, v)) by {
                    if v * width + u == i {
                        lemma_offset_of_position(u, v, width as int);
                        lemma_offset_of_position(x as int, y as int, width as int);
                        assert((u, v) == seed);
                    }
                }
            }
        }
        i += 1;
    }
    let out = GrayRaster::from_raw(width, height, data).unwrap();
    proof {
        assert forall|x: int, y: int| mask@.inside(x, y) implies #[trigger] out@.at(x, y)
            == cleaned_value(mask@, x, y, min_size as int) by {
            lemma_offset_in_range(x, y, width as int, height as int);
            assert(data@[y * width + x] == if marked(marks@, width as int, (x, y)) {
                cleaned_value(mask@, x, y, min_size as int)
            } else {
                mask@.at(x, y)
            });
            if !marked(marks@, width as int, (x, y)) {
                assert(!foreground(mask@, (x, y)));
            }
        }
    }
    out
}

/// `out` is `mask` after it was eroded to `eroded`, that dilated to `opened`,
/// both with radius 2, and `opened` freed of the components of fewer than
/// `min_shadow_size` pixels.
pub open spec fn is_cleanup_via(
    out: GrayView,
    mask: GrayView,
    eroded: GrayView,
    opened: GrayView,
    min_shadow_size: int,
) -> bool {
    &&& out.wf() && out.same_size(mask)
    &&& eroded.wf() && eroded.same_size(mask)
    &&& opened.wf() && opened.same_size(mask)
    &&& forall|x: int, y: int|
        mask.inside(x, y) ==> is_window_min(mask, x, y, 2, #[trigger] eroded.at(x, y))
    &&& forall|x: int, y: int|
        mask.inside(x, y) ==> is_window_max(eroded, x, y, 2, #[trigger] opened.at(x, y))
    &&& forall|x: int, y: int|
        mask.inside(x, y) ==> #[trigger] out.at(x, y) == cleaned_value(
            opened,
            x,
            y,
            min_shadow_size,
        )
}

/// `out` is `mask` after opening and cleaning.
pub open spec fn is_cleanup(out: GrayView, mask: GrayView, min_shadow_size: int) -> bool {
    exists|eroded: GrayView, opened: GrayView| #[trigger]
        is_cleanup_via(out, mask, eroded, opened, min_shadow_size)
}

/// The mask after opening and cleaning: eroded and dilated with radius 2,
/// and freed of the components of fewer than `min_shadow_size` pixels.
pub fn morphological_cleanup(mask: &GrayRaster, min_shadow_size: u32) -> (out: GrayRaster)
    ensures
        out@.wf(),
        out@.same_size(mask@),
        is_cleanup(out@, mask@, min_shadow_size as int),
{
    let eroded = erode(mask, 2);
    let opened = dilate(&eroded, 2);
    let out = remove_small_regions(&opened, min_shadow_size);
    assert(is_cleanup_via(out@, mask@, eroded@, opened@, min_shadow_size as int));
    out
}

/// The shadow mask of an image: the pixels that look like shadow, opened and
/// freed of small components.
pub fn detect_shadows(rgb: &RgbRaster, shadow_threshold: u8, min_shadow_size: u32) -> (mask:
    GrayRaster)
    ensures
        mask@.wf(),
        mask@.width == rgb@.width,
        mask@.height == rgb@.height,
        is_cleanup(mask@, raw_mask_of(rgb@, shadow_threshold), min_shadow_size as int),
{
    let raw = raw_shadow_mask(rgb, shadow_threshold);
    morphological_cleanup(&raw, min_shadow_size)
}

/// `region` is the bounding box of the given pixels.
pub open spec fn is_bounding_box(region: SRegion, pixels: Seq<(u32, u32)>) -> bool {
    &&& region.width > 0 && region.height > 0 && region.wf()
    &&& forall|k: int|
        0 <= k < pixels.len() ==> region.x <= (#[trigger] pixels[k]).0 < region.right() && region.y
            <= pixels[k].1 < region.bottom()
    &&& exists|k: int| 0 <= k < pixels.len() && (#[trigger] pixels[k]).0 == region.x
    &&& exists|k: int| 0 <= k < pixels.len() && (#[trigger] pixels[k]).0 == region.right() - 1
    &&& exists|k: int| 0 <= k < pixels.len() && (#[trigger] pixels[k]).1 == region.y
    &&& exists|k: int| 0 <= k < pixels.len() && (#[trigger] pixels[k]).1 == region.bottom() - 1
}

/// The sum of the values of `map` at the given pixels.
pub open spec fn sum_at(map: GrayView, pixels: Seq<(u32, u32)>) -> int
    decreases pixels.len(),
{
    if pixels.len() == 0 {
        0
    } else {
        sum_at(map, pixels.drop_last()) + map.at(pixels.last().0 as int, pixels.last().1 as int)
    }
}

/// The direction and magnitude of the gradient at those of the given pixels
/// that lie on the edge of the shadow, in order.
pub open spec fn edge_samples_of(
    mask: GrayView,
    magnitude: GrayView,
    direction: GrayView,
    pixels: Seq<(u32, u32)>,
) -> Seq<(u8, u8)>
    decreases pixels.len(),
{
    if pixels.len() == 0 {
        Seq::empty()
    } else {
        let rest = edge_samples_of(mask, magnitude, direction, pixels.drop_last());
        let x = pixels.last().0 as int;
        let y = pixels.last().1 as int;
        if on_shadow_edge(mask, x, y) {
            rest.push((direction.at(x, y), magnitude.at(x, y)))
        } else {
            rest
        }
    }
}

/// What is measured of one shadow: its bounding box, the number of its
/// pixels, the sum of its mask values, and the gradient at its edge pixels.
#[derive(Debug, Clone)]
pub struct ShadowTrace {
    pub region: SRegion,
    pub pixel_count: usize,
    pub intensity_total: u128,
    pub edge_samples: Vec<(u8, u8)>,
}

/// Measures the shadow whose pixels are given.
pub fn describe_component(
    mask: &GrayRaster,
    magnitude: &GrayRaster,
    direction: &GrayRaster,
    pixels: &Vec<(u32, u32)>,
) -> (trace: ShadowTrace)
    requires
        pixels@.len() > 0,
        forall|k: int|
            0 <= k < pixels@.len() ==> mask@.inside(
                (#[trigger] pixels@[k]).0 as int,
                pixels@[k].1 as int,
            ),
        magnitude@.same_size(mask@),
        direction@.same_size(mask@),
    ensures
        is_bounding_box(trace.region, pixels@),
        trace.pixel_count == pixels@.len(),
        trace.intensity_total == sum_at(mask@, pixels@),
        trace.edge_samples@ == edge_samples_of(mask@, magnitude@, direction@, pixels@),
{
    let (width, height) = mask.dimensions();
    let first = pixels[0];
    let mut min_x: u32 = first.0;
    let mut max_x: u32 = first.0;
    let mut min_y: u32 = first.1;
    let mut max_y: u32 = first.1;
    let mut total: u128 = 0;
    let mut samples: Vec<(u8, u8)> = Vec::new();
    let n = pixels.len();
    let mut k: usize = 0;
    assert(pixels@.take(0) =~= Seq::<(u32, u32)>::empty());
    while k < n
        invariant
            0 <= k <= n,
            n == pixels@.len(),
            n > 0,
            mask@.width == width,
            mask@.height == height,
            magnitude@.same_size(mask@),
            direction@.same_size(mask@),
            forall|t: int|
                0 <= t < pixels@.len() ==> mask@.inside(
                    (#[trigger] pixels@[t]).0 as int,
                    pixels@[t].1 as int,
                ),
            total == sum_at(mask@, pixels@.take(k as int)),
            total <= 255 * k,
            samples@ == edge_samples_of(mask@, magnitude@, direction@, pixels@.take(k as int)),
            min_x <= max_x < width,
            min_y <= max_y < height,
            forall|t: int|
                0 <= t < k ==> min_x <= (#[trigger] pixels@[t]).0 <= max_x && min_y <= pixels@[t].1
                    <= max_y,
            exists|t: int| 0 <= t < n && (#[trigger] pixels@[t]).0 == min_x,
            exists|t: int| 0 <= t < n && (#[trigger] pixels@[t]).0 == max_x,
            exists|t: int| 0 <= t < n && (#[trigger] pixels@[t]).1 == min_y,
            exists|t: int| 0 <= t < n && (#[trigger] pixels@[t]).1 == max_y,
        decreases n - k,
    {
        proof {
            assert(pixels@.take(k + 1).drop_last() =~= pixels@.take(k as int));
            assert(pixels@.take(k + 1).last() == pixels@[k as int]);
        }
        let (x, y) = pixels[k];
        if x < min_x {
            min_x = x;
        }
        if x > max_x {
            max_x = x;
        }
        if y < min_y {
            min_y = y;
        }
        if y > max_y {
            max_y = y;
        }
        total = total + mask.get_pixel(x, y) as u128;
        if is_shadow_edge(mask, x, y) {
            samples.push((direction.get_pixel(x, y), magnitude.get_pixel(x, y)));
        }
        k += 1;
    }
    assert(pixels@.take(n as int) =~= pixels@);
    let region = SRegion {
        x: min_x,
        y: min_y,
        width: max_x - min_x + 1,
        height: max_y - min_y + 1,
    };
    ShadowTrace { region, pixel_count: n, intensity_total: total, edge_samples: samples }
}

/// A window has one smallest value.
pub proof fn window_min_is_determined(g: GrayView, x: int, y: int, radius: int, a: u8, b: u8)
    requires
        is_window_min(g, x, y, radius, a),
        is_window_min(g, x, y, radius, b),
    ensures
        a == b,
{
    if a != 255 {
        let (ax, ay) = choose|nx: int, ny: int|
            in_window(g, x, y, radius, nx, ny) && #[trigger] g.at(nx, ny) == a;
        assert(b <= g.at(ax, ay));
    }
    if b != 255 {
        let (bx, by) = choose|nx: int, ny: int|
            in_window(g, x, y, radius, nx, ny) && #[trigger] g.at(nx, ny) == b;
        assert(a <= g.at(bx, by));
    }
}

/// A window has one largest value.
pub proof fn window_max_is_determined(g: GrayView, x: int, y: int, radius: int, a: u8, b: u8)
    requires
        is_window_max(g, x, y, radius, a),
        is_window_max(g, x, y, radius, b),
    ensures
        a == b,
{
    if a != 0 {
        let (ax, ay) = choose|nx: int, ny: int|
            in_window(g, x, y, radius, nx, ny) && #[trigger] g.at(nx, ny) == a;
        assert(b >= g.at(ax, ay));
    }
    if b != 0 {
        let (bx, by) = choose|nx: int, ny: int|
            in_window(g, x, y, radius, nx, ny) && #[trigger] g.at(nx, ny) == b;
        assert(a >= g.at(bx, by));
    }
}

/// The seed at `i` is the first of the seeds that lies in its shadow.
pub open spec fn is_first_seed(mask: GrayView, seeds: Seq<(u32, u32)>, i: int) -> bool {
    &&& 0 <= i < seeds.len()
    &&& foreground(mask, pt(seeds[i]))
    &&& forall|j: int| 0 <= j < i ==> !connected(mask, pt(#[trigger] seeds[j]), pt(seeds[i]))
}

/// The trace measures the shadow whose pixels are given.
pub open spec fn describes(
    t: ShadowTrace,
    mask: GrayView,
    magnitude: GrayView,
    direction: GrayView,
    pixels: Seq<(u32, u32)>,
) -> bool {
    &&& is_bounding_box(t.region, pixels)
    &&& t.pixel_count == pixels.len()
    &&& t.intensity_total == sum_at(mask, pixels)
    &&& t.edge_samples@ == edge_samples_of(mask, magnitude, direction, pixels)
}

/// The trace measures the shadow of the seed, its pixels taken in some
/// order.
pub open spec fn is_trace_of(
    t: ShadowTrace,
    mask: GrayView,
    magnitude: GrayView,
    direction: GrayView,
    seed: (int, int),
) -> bool {
    exists|pixels: Seq<(u32, u32)>| #[trigger]
        is_component(mask, pixels, seed) && describes(t, mask, magnitude, direction, pixels)
}

/// The shadow is large enough to be kept: it has at least `min_shadow_size`
/// pixels and is at least half as wide or half as high.
pub open spec fn large_enough(t: ShadowTrace, min_shadow_size: u32) -> bool {
    t.pixel_count >= min_shadow_size && (t.region.width >= min_shadow_size / 2 || t.region.height
        >= min_shadow_size / 2)
}

/// The seed at `i` has an entry in the list.
pub open spec fn listed(out: Seq<(usize, ShadowTrace)>, i: int) -> bool {
    exists|k: int| 0 <= k < out.len() && (#[trigger] out[k]).0 == i
}

/// `out` lists, in the order of the seeds, each seed that is the first in
/// its shadow with the trace of that shadow, for the shadows that are large
/// enough.
pub open spec fn is_scan_of(
    out: Seq<(usize, ShadowTrace)>,
    mask: GrayView,
    magnitude: GrayView,
    direction: GrayView,
    seeds: Seq<(u32, u32)>,
    min_shadow_size: u32,
) -> bool {
    &&& forall|k: int|
        0 <= k < out.len() ==> is_first_seed(mask, seeds, (#[trigger] out[k]).0 as int)
            && is_trace_of(out[k].1, mask, magnitude, direction, pt(seeds[out[k].0 as int]))
            && large_enough(out[k].1, min_shadow_size)
    &&& forall|a: int, b: int|
        0 <= a < b < out.len() ==> (#[trigger] out[a]).0 < (#[trigger] out[b]).0
    &&& forall|i: int, t: ShadowTrace|
        is_first_seed(mask, seeds, i) && #[trigger] is_trace_of(
            t,
            mask,
            magnitude,
            direction,
            pt(seeds[i]),
        ) && large_enough(t, min_shadow_size) ==> listed(out, i)
}

/// One of the first `i` seeds lies in the shadow of `u`.
pub open spec fn reached(mask: GrayView, seeds: Seq<(u32, u32)>, i: int, u: (int, int)) -> bool {
    exists|j: int| 0 <= j < i && connected(mask, pt(#[trigger] seeds[j]), u)
}

/// The bounding box of one listing of a shadow lies within that of any
/// other listing of it.
proof fn lemma_box_within(
    mask: GrayView,
    seed: (int, int),
    first: Seq<(u32, u32)>,
    second: Seq<(u32, u32)>,
    a: SRegion,
    b: SRegion,
)
    requires
        is_component(mask, first, seed),
        is_component(mask, second, seed),
        is_bounding_box(a, first),
        is_bounding_box(b, second),
    ensures
        b.x <= a.x,
        b.y <= a.y,
        a.right() <= b.right(),
        a.bottom() <= b.bottom(),
{
    assert forall|k: int| 0 <= k < first.len() implies b.x <= (#[trigger] first[k]).0 < b.right()
        && b.y <= first[k].1 < b.bottom() by {
        assert(connected(mask, seed, pt(first[k])));
        assert(holds(second, pt(first[k])));
        let j = choose|j: int| 0 <= j < second.len() && pt(#[trigger] second[j]) == pt(first[k]);
        assert(b.x <= second[j].0 < b.right());
    }
    let k0 = choose|k: int| 0 <= k < first.len() && (#[trigger] first[k]).0 == a.x;
    assert(b.x <= first[k0].0);
    let k1 = choose|k: int| 0 <= k < first.len() && (#[trigger] first[k]).0 == a.right() - 1;
    assert(first[k1].0 < b.right());
    let k2 = choose|k: int| 0 <= k < first.len() && (#[trigger] first[k]).1 == a.y;
    assert(b.y <= first[k2].1);
    let k3 = choose|k: int| 0 <= k < first.len() && (#[trigger] first[k]).1 == a.bottom() - 1;
    assert(first[k3].1 < b.bottom());
}

/// Two traces of one shadow agree on whether it is large enough.
proof fn lemma_size_is_determined(
    a: ShadowTrace,
    b: ShadowTrace,
    mask: GrayView,
    magnitude: GrayView,
    direction: GrayView,
    seed: (int, int),
    min_shadow_size: u32,
)
    requires
        is_trace_of(a, mask, magnitude, direction, seed),
        is_trace_of(b, mask, magnitude, direction, seed),
    ensures
        large_enough(a, min_shadow_size) == large_enough(b, min_shadow_size),
{
    let first = choose|pixels: Seq<(u32, u32)>| #[trigger]
        is_component(mask, pixels, seed) && describes(a, mask, magnitude, direction, pixels);
    let second = choose|pixels: Seq<(u32, u32)>| #[trigger]
        is_component(mask, pixels, seed) && describes(b, mask, magnitude, direction, pixels);
    lemma_component_size(mask, first, seed);
    lemma_component_size(mask, second, seed);
    lemma_box_within(mask, seed, first, second, a.region, b.region);
    lemma_box_within(mask, seed, second, first, b.region, a.region);
    assert(a.region == b.region);
}

/// Walks the shadows of a cleaned mask from the given seeds, in order: a
/// seed that lies in a shadow not walked before has that shadow traced and
/// measured, and the trace is kept with the number of the seed when the
/// shadow is large enough.
pub fn scan_seeds(
    mask: &GrayRaster,
    magnitude: &GrayRaster,
    direction: &GrayRaster,
    seeds: &Vec<(u32, u32)>,
    min_shadow_size: u32,
) -> (out: Vec<(usize, ShadowTrace)>)
    requires
        magnitude@.same_size(mask@),
        direction@.same_size(mask@),
    ensures
        is_scan_of(out@, mask@, magnitude@, direction@, seeds@, min_shadow_size),
{
    let mut scan = ComponentScan::new(mask.duplicate());
    let mut out: Vec<(usize, ShadowTrace)> = Vec::new();
    let mut i: usize = 0;
    while i < seeds.len()
        invariant
            0 <= i <= seeds@.len(),
            magnitude@.same_size(mask@),
            direction@.same_size(mask@),
            scan.mask_view() == mask@,
            forall|x: int, y: int|
                mask@.inside(x, y) ==> (#[trigger] scan.seen((x, y)) <==> reached(
                    mask@,
                    seeds@,
                    i as int,
                    (x, y),
                )),
            forall|k: int|
                0 <= k < out@.len() ==> (#[trigger] out@[k]).0 < i && is_first_seed(
                    mask@,
                    seeds@,
                    out@[k].0 as int,
                ) && is_trace_of(
                    out@[k].1,
                    mask@,
                    magnitude@,
                    direction@,
                    pt(seeds@[out@[k].0 as int]),
                ) && large_enough(out@[k].1, min_shadow_size),
            forall|a: int, b: int|
                0 <= a < b < out@.len() ==> (#[trigger] out@[a]).0 < (#[trigger] out@[b]).0,
            forall|j: int, t: ShadowTrace|
                0 <= j < i && is_first_seed(mask@, seeds@, j) && #[trigger] is_trace_of(
                    t,
                    mask@,
                    magnitude@,
                    direction@,
                    pt(seeds@[j]),
                ) && large_enough(t, min_shadow_size) ==> listed(out@, j),
        decreases seeds@.len() - i,
    {
        let (x, y) = seeds[i];
        let ghost seed = (x as int, y as int);
        let ghost before = scan;
        let ghost earlier = out@;
        let (next, pixels) = scan.trace(x, y);
        scan = next;
        let mut kept = false;
        let ghost mut walked: Option<ShadowTrace> = None;
        match pixels {
            Some(pixels) => {
                proof {
                    lemma_connected_here(mask@, seed);
                    assert(holds(pixels@, seed));
                }
                let trace = describe_component(mask, magnitude, direction, &pixels);
                proof {
                    walked = Some(trace);
                    assert(is_component(mask@, pixels@, seed) && describes(
                        trace,
                        mask@,
                        magnitude@,
                        direction@,
                        pixels@,
                    ));
                    assert(is_trace_of(trace, mask@, magnitude@, direction@, seed));
                }
                let keep = trace.pixel_count >= min_shadow_size as usize && (trace.region.width
                    >= min_shadow_size / 2 || trace.region.height >= min_shadow_size / 2);
                if keep {
                    out.push((i, trace));
                    kept = true;
                }
            },
            None => {},
        }
        proof {
            assert(pt(seeds@[i as int]) == seed);
            // What the marks say after this seed.
            assert forall|u: int, v: int| mask@.inside(u, v) implies (#[trigger] scan.seen((u, v))
                <==> reached(mask@, seeds@, i + 1, (u, v))) by {
                let p = (u, v);
                if reached(mask@, seeds@, i + 1, p) {
                    let j = choose|j: int|
                        0 <= j < i + 1 && connected(mask@, pt(#[trigger] seeds@[j]), p);
                    if j < i {
                        assert(reached(mask@, seeds@, i as int, p));
                    }
                }
                if reached(mask@, seeds@, i as int, p) {
                    let j = choose|j: int| 0 <= j < i && connected(mask@, pt(#[trigger] seeds@[j]), p);
                    assert(0 <= j < i + 1);
                }
                if connected(mask@, seed, p) {
                    assert(connected(mask@, pt(seeds@[i as int]), p));
                    if walked is None {
                        lemma_seed_is_foreground(mask@, seed, p);
                        assert(before.seen(seed));
                        assert(reached(mask@, seeds@, i as int, seed));
                        let j = choose|j: int|
                            0 <= j < i && connected(mask@, pt(#[trigger] seeds@[j]), seed);
                        lemma_connected_on(mask@, pt(seeds@[j]), seed, p);
                    }
                }
                assert(before.seen(p) <==> reached(mask@, seeds@, i as int, p));
            }
            // Whether this seed is the first in its shadow.
            if walked is Some {
                assert(!reached(mask@, seeds@, i as int, seed));
                assert forall|j: int| 0 <= j < i implies !connected(
                    mask@,
                    pt(#[trigger] seeds@[j]),
                    pt(seeds@[i as int]),
                ) by {
                    if connected(mask@, pt(seeds@[j]), seed) {
                        assert(reached(mask@, seeds@, i as int, seed));
                    }
                }
                assert(is_first_seed(mask@, seeds@, i as int));
            } else if is_first_seed(mask@, seeds@, i as int) {
                assert(!before.seen(seed)) by {
                    if reached(mask@, seeds@, i as int, seed) {
                        let j = choose|j: int|
                            0 <= j < i && connected(mask@, pt(#[trigger] seeds@[j]), seed);
                        assert(false);
                    }
                }
                assert(false);
            }
            assert forall|k: int| 0 <= k < out@.len() implies (#[trigger] out@[k]).0 < i + 1
                && is_first_seed(mask@, seeds@, out@[k].0 as int) && is_trace_of(
                out@[k].1,
                mask@,
                magnitude@,
                direction@,
                pt(seeds@[out@[k].0 as int]),
            ) && large_enough(out@[k].1, min_shadow_size) by {
                if k < earlier.len() {
                    assert(out@[k] == earlier[k]);
                }
            }
            assert forall|a: int, b: int| 0 <= a < b < out@.len() implies (#[trigger] out@[a]).0 < (
            #[trigger] out@[b]).0 by {
                if b < earlier.len() {
                    assert(out@[a] == earlier[a] && out@[b] == earlier[b]);
                } else {
                    assert(out@[a] == earlier[a]);
                }
            }
            assert forall|j: int, t: ShadowTrace|
                0 <= j < i + 1 && is_first_seed(mask@, seeds@, j) && #[trigger] is_trace_of(
                    t,
                    mask@,
                    magnitude@,
                    direction@,
                    pt(seeds@[j]),
                ) && large_enough(t, min_shadow_size) implies listed(out@, j) by {
                if j < i {
                    assert(listed(earlier, j));
                    let k = choose|k: int| 0 <= k < earlier.len() && (#[trigger] earlier[k]).0 == j;
                    assert(out@[k] == earlier[k]);
                } else {
                    lemma_size_is_determined(
                        t,
                        walked->Some_0,
                        mask@,
                        magnitude@,
                        direction@,
                        seed,
                        min_shadow_size,
                    );
                    assert(kept);
                    assert(out@[out@.len() - 1].0 == i);
                }
            }
        }
        i += 1;
    }
    out
}

/// A place from which another can be reached belongs to the shadow itself.
proof fn lemma_seed_is_foreground(mask: GrayView, a: (int, int), b: (int, int))
    requires
        connected(mask, a, b),
    ensures
        foreground(mask, a),
{
    let path = choose|path: Seq<(int, int)>| #[trigger]
        crate::components::is_path(mask, path) && path[0] == a && path.last() == b;
    assert(foreground(mask, path[0]));
}

/// Walks the shadows of a cleaned mask from the seeds `(i * step, j *
/// step)` inside it, row by row, and keeps the traces of those that are
/// large enough, each with the number of its seed.
pub fn analyze_shadow_regions(
    mask: &GrayRaster,
    magnitude: &GrayRaster,
    direction: &GrayRaster,
    step: u32,
    min_shadow_size: u32,
) -> (found: (Vec<(u32, u32)>, Vec<(usize, ShadowTrace)>))
    requires
        step > 0,
        magnitude@.same_size(mask@),
        direction@.same_size(mask@),
    ensures
        is_grid(found.0@, mask@.width as int, mask@.height as int, step as int),
        is_scan_of(found.1@, mask@, magnitude@, direction@, found.0@, min_shadow_size),
{
    let (width, height) = mask.dimensions();
    let seeds = grid_positions(width, height, step);
    let traces = scan_seeds(mask, magnitude, direction, &seeds, min_shadow_size);
    (seeds, traces)
}

} // verus!
