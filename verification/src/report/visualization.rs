//! Overlays: the colour of each kind of manipulation, frames around regions
//! and filled regions.

use vstd::prelude::*;
use crate::detection::ManipulationType;
use crate::raster::{
    lemma_offset_in_range,
    lemma_offset_of_position,
    lemma_position_of_offset,
    GrayRaster,
    Rgb,
    RgbRaster,
    RgbView,
};
use crate::region::SRegion;

verus! {

/// The colour in which a kind of manipulation is drawn.
pub open spec fn kind_color(kind: ManipulationType) -> Rgb {
    match kind {
        ManipulationType::CopyMove => Rgb { r: 255, g: 0, b: 0 },
        ManipulationType::Splicing => Rgb { r: 255, g: 165, b: 0 },
        ManipulationType::Retouching => Rgb { r: 255, g: 255, b: 0 },
        ManipulationType::Removal => Rgb { r: 255, g: 0, b: 255 },
        ManipulationType::Resizing => Rgb { r: 0, g: 255, b: 255 },
        ManipulationType::Rotation => Rgb { r: 0, g: 255, b: 0 },
        ManipulationType::ColorManipulation => Rgb { r: 128, g: 0, b: 255 },
        ManipulationType::AIGenerated => Rgb { r: 255, g: 128, b: 128 },
        ManipulationType::Unknown => Rgb { r: 128, g: 128, b: 128 },
    }
}

/// The colour in which a kind of manipulation is drawn.
pub fn manipulation_type_color(kind: ManipulationType) -> (c: Rgb)
    ensures
        c == kind_color(kind),
{
    match kind {
        ManipulationType::CopyMove => Rgb { r: 255, g: 0, b: 0 },
        ManipulationType::Splicing => Rgb { r: 255, g: 165, b: 0 },
        ManipulationType::Retouching => Rgb { r: 255, g: 255, b: 0 },
        ManipulationType::Removal => Rgb { r: 255, g: 0, b: 255 },
        ManipulationType::Resizing => Rgb { r: 0, g: 255, b: 255 },
        ManipulationType::Rotation => Rgb { r: 0, g: 255, b: 0 },
        ManipulationType::ColorManipulation => Rgb { r: 128, g: 0, b: 255 },
        ManipulationType::AIGenerated => Rgb { r: 255, g: 128, b: 128 },
        ManipulationType::Unknown => Rgb { r: 128, g: 128, b: 128 },
    }
}

/// The position `c` lies in the run that starts `t` before `start`, or at
/// zero, and ends `t` after `end`.
pub open spec fn in_run(c: int, start: int, end: int, t: int) -> bool {
    (if start >= t {
        start - t
    } else {
        0
    }) <= c < end + t
}

/// The pixel `(x, y)` lies on the frame of the given thickness around the
/// region. Ring `t` of the frame, for each `t` below the thickness, is made
/// of the row `t` above the region's first row, the row `t` below its end,
/// the column `t` left of its first column and the column `t` right of its
/// end, each reaching `t` pixels beyond the region at both ends.
pub open spec fn on_frame(region: SRegion, thickness: int, x: int, y: int) -> bool {
    ||| (0 <= region.y - y < thickness && in_run(x, region.x as int, region.right(), region.y - y))
    ||| (0 <= y - region.bottom() < thickness && in_run(
        x,
        region.x as int,
        region.right(),
        y - region.bottom(),
    ))
    ||| (0 <= region.x - x < thickness && in_run(y, region.y as int, region.bottom(), region.x - x))
    ||| (0 <= x - region.right() < thickness && in_run(
        y,
        region.y as int,
        region.bottom(),
        x - region.right(),
    ))
}

fn lies_in_run(c: u32, start: u32, end: u64, t: u64) -> (r: bool)
    requires
        end <= 0x2_0000_0000,
        t <= 0x1_0000_0000,
    ensures
        r == in_run(c as int, start as int, end as int, t as int),
{
    let first: u64 = if start as u64 >= t { start as u64 - t } else { 0 };
    first <= c as u64 && (c as u64) < end + t
}

fn lies_on_frame(region: &SRegion, thickness: u32, x: u32, y: u32) -> (r: bool)
    ensures
        r == on_frame(*region, thickness as int, x as int, y as int),
{
    let right: u64 = region.x as u64 + region.width as u64;
    let bottom: u64 = region.y as u64 + region.height as u64;
    let t: u64 = thickness as u64;
    let xx: u64 = x as u64;
    let yy: u64 = y as u64;
    let top = y <= region.y && ((region.y - y) as u64) < t && lies_in_run(
        x,
        region.x,
        right,
        (region.y - y) as u64,
    );
    let below = yy >= bottom && yy - bottom < t && lies_in_run(x, region.x, right, yy - bottom);
    let left = x <= region.x && ((region.x - x) as u64) < t && lies_in_run(
        y,
        region.y,
        bottom,
        (region.x - x) as u64,
    );
    let beside = xx >= right && xx - right < t && lies_in_run(y, region.y, bottom, xx - right);
    top || below || left || beside
}

/// The channel `c` of a colour: 0 for red, 1 for green, else blue.
pub open spec fn channel_of(color: Rgb, c: int) -> u8 {
    if c == 0 {
        color.r
    } else if c == 1 {
        color.g
    } else {
        color.b
    }
}

/// The image with the frame of the given thickness drawn around the region.
pub open spec fn framed(v: RgbView, region: SRegion, color: Rgb, thickness: int) -> RgbView {
    RgbView {
        width: v.width,
        height: v.height,
        bytes: Seq::new(
            v.bytes.len(),
            |i: int|
                if on_frame(
                    region,
                    thickness,
                    (i / 3) % (v.width as int),
                    (i / 3) / (v.width as int),
                ) {
                    channel_of(color, i % 3)
                } else {
                    v.bytes[i]
                },
        ),
    }
}

/// Draws the frame of the given thickness around the region.
pub fn draw_region_border(image: &RgbRaster, region: &SRegion, color: Rgb, thickness: u32) -> (out:
    RgbRaster)
    ensures
        out@.wf(),
        out@ == framed(image@, *region, color, thickness as int),
        out@.width == image@.width,
        out@.height == image@.height,
        forall|x: int, y: int|
            image@.inside(x, y) ==> #[trigger] out@.at(x, y) == if on_frame(
                *region,
                thickness as int,
                x,
                y,
            ) {
                color
            } else {
                image@.at(x, y)
            },
{
    let (width, height) = image.dimensions();
    let raw = image.as_raw();
    let total = raw.len();
    let n: usize = total / 3;
    let mut data: Vec<u8> = Vec::new();
    let mut i: usize = 0;
    while i < n
        invariant
            0 <= i <= n,
            n == width * height,
            raw@.len() == 3 * n,
            total == raw@.len(),
            raw@ == image@.bytes,
            image@.width == width,
            image@.height == height,
            data@.len() == 3 * i,
            forall|k: int|
                0 <= k < i ==> (Rgb {
                    r: #[trigger] data@[3 * k],
                    g: data@[3 * k + 1],
                    b: data@[3 * k + 2],
                }) == if on_frame(
                    *region,
                    thickness as int,
                    k % (width as int),
                    k / (width as int),
                ) {
                    color
                } else {
                    image@.nth(k)
                },
        decreases n - i,
    {
        proof {
            lemma_position_of_offset(i as int, width as int, height as int);
        }
        let x: u32 = (i % (width as usize)) as u32;
        let y: u32 = (i / (width as usize)) as u32;
        let p = if lies_on_frame(region, thickness, x, y) {
            color
        } else {
            Rgb { r: raw[3 * i], g: raw[3 * i + 1], b: raw[3 * i + 2] }
        };
        let ghost before = data@;
        data.push(p.r);
        data.push(p.g);
        data.push(p.b);
        proof {
            assert forall|k: int| 0 <= k < i + 1 implies (Rgb {
                r: #[trigger] data@[3 * k],
                g: data@[3 * k + 1],
                b: data@[3 * k + 2],
            }) == if on_frame(*region, thickness as int, k % (width as int), k / (width as int)) {
                color
            } else {
                image@.nth(k)
            } by {
                if k < i {
                    assert(data@[3 * k] == before[3 * k]);
                    assert(data@[3 * k + 1] == before[3 * k + 1]);
                    assert(data@[3 * k + 2] == before[3 * k + 2]);
                }
            }
        }
        i += 1;
    }
    let out = RgbRaster::from_raw(width, height, data).unwrap();
    proof {
        let target = framed(image@, *region, color, thickness as int);
        assert forall|j: int| 0 <= j < out@.bytes.len() implies out@.bytes[j] == target.bytes[j] by {
            let k = j / 3;
            let c = j % 3;
            assert(0 <= k < n && j == 3 * k + c);
            let p = Rgb { r: data@[3 * k], g: data@[3 * k + 1], b: data@[3 * k + 2] };
            assert(p == if on_frame(*region, thickness as int, k % (width as int), k / (width as int)) {
                color
            } else {
                image@.nth(k)
            });
        }
        assert(out@.bytes =~= target.bytes);
        assert forall|x: int, y: int| image@.inside(x, y) implies #[trigger] out@.at(x, y)
            == if on_frame(*region, thickness as int, x, y) {
            color
        } else {
            image@.at(x, y)
        } by {
            lemma_offset_in_range(x, y, width as int, height as int);
            lemma_offset_of_position(x, y, width as int);
            let k = y * width + x;
            assert(out@.at(x, y) == Rgb {
                r: out@.bytes[3 * k],
                g: out@.bytes[3 * k + 1],
                b: out@.bytes[3 * k + 2],
            });
            assert(image@.at(x, y) == image@.nth(k));
        }
    }
    out
}

/// The pixel `(x, y)` lies in the region.
pub open spec fn in_region(region: SRegion, x: int, y: int) -> bool {
    region.x <= x < region.right() && region.y <= y < region.bottom()
}

/// Sets the pixels of the region to `value`.
pub fn fill_region_in_gray(image: &GrayRaster, region: &SRegion, value: u8) -> (out: GrayRaster)
    ensures
        out@.wf(),
        out@.same_size(image@),
        forall|x: int, y: int|
            image@.inside(x, y) ==> #[trigger] out@.at(x, y) == if in_region(*region, x, y) {
                value
            } else {
                image@.at(x, y)
            },
{
    let (width, height) = image.dimensions();
    let raw = image.as_raw();
    let n = raw.len();
    let right: u64 = region.x as u64 + region.width as u64;
    let bottom: u64 = region.y as u64 + region.height as u64;
    let mut data: Vec<u8> = Vec::new();
    let mut i: usize = 0;
    while i < n
        invariant
            0 <= i <= n,
            n == width * height,
            raw@ == image@.pixels,
            image@.wf(),
            image@.width == width,
            image@.height == height,
            right == region.right(),
            bottom == region.bottom(),
            data@.len() == i,
            forall|k: int|
                0 <= k < i ==> #[trigger] data@[k] == if in_region(
                    *region,
                    k % (width as int),
                    k / (width as int),
                ) {
                    value
                } else {
                    raw@[k]
                },
        decreases n - i,
    {
        proof {
            lemma_position_of_offset(i as int, width as int, height as int);
        }
        let x: u32 = (i % (width as usize)) as u32;
        let y: u32 = (i / (width as usize)) as u32;
        let inside = region.x <= x && (x as u64) < right && region.y <= y && (y as u64) < bottom;
        data.push(if inside { value } else { raw[i] });
        i += 1;
    }
    let out = GrayRaster::from_raw(width, height, data).unwrap();
    proof {
        assert forall|x: int, y: int| image@.inside(x, y) implies #[trigger] out@.at(x, y)
            == if in_region(*region, x, y) {
            value
        } else {
            image@.at(x, y)
        } by {
            lemma_offset_in_range(x, y, width as int, height as int);
            lemma_offset_of_position(x, y, width as int);
        }
    }
    out
}

/// How far `at` lies from `from` in the direction of `to`.
pub open spec fn toward(from: int, to: int, at: int) -> int {
    if from < to {
        at - from
    } else {
        from - at
    }
}

/// How far the place `(a, b)` lies off the ideal line that runs `dx` along
/// one axis and `dy` along the other.
pub open spec fn line_error(a: int, b: int, dx: int, dy: int) -> int {
    dx * (b + 1) - dy * (a + 1)
}

/// The places of a line that runs `dx` along one axis and `dy` along the
/// other, both at least zero, from the place `(a, b)` on: the place itself
/// and, unless it is the end, the rest of the line from the next place. With
/// `e` the error at the place, the next place lies one further along the
/// first axis when `2 e >= -dy`, and one further along the second when
/// `2 e <= dx`.
pub open spec fn line_walk(a: int, b: int, dx: int, dy: int) -> Seq<(int, int)>
    decreases
            if dx - a + dy - b > 0 {
                dx - a + dy - b
            } else {
                0
            },
{
    if dx < 0 || dy < 0 || a > dx || b > dy || (a == dx && b == dy) {
        seq![(a, b)]
    } else {
        let twice = 2 * line_error(a, b, dx, dy);
        let a2 = if twice >= -dy {
            a + 1
        } else {
            a
        };
        let b2 = if twice <= dx {
            b + 1
        } else {
            b
        };
        seq![(a, b)] + line_walk(a2, b2, dx, dy)
    }
}

/// The pixel `(x, y)` lies on the line from `(x0, y0)` to `(x1, y1)`.
pub open spec fn on_line(x0: int, y0: int, x1: int, y1: int, x: int, y: int) -> bool {
    line_walk(0, 0, toward(x0, x1, x1), toward(y0, y1, y1)).contains(
        (toward(x0, x1, x), toward(y0, y1, y)),
    )
}

/// The image with one pixel replaced, if the pixel lies inside.
fn paint(image: RgbRaster, x: u32, y: u32, color: Rgb) -> (out: RgbRaster)
    ensures
        out@.wf(),
        out@.width == image@.width,
        out@.height == image@.height,
        forall|u: int, v: int|
            image@.inside(u, v) ==> #[trigger] out@.at(u, v) == if u == x && v == y {
                color
            } else {
                image@.at(u, v)
            },
{
    let (width, height) = image.dimensions();
    if x >= width || y >= height {
        return image;
    }
    let ghost before = image@;
    let out = image.with_pixel(x, y, color);
    proof {
        let w = width as int;
        let i = 3 * (y * w + x);
        lemma_offset_in_range(x as int, y as int, w, height as int);
        assert forall|u: int, v: int| before.inside(u, v) implies #[trigger] out@.at(u, v) == if u
            == x && v == y {
            color
        } else {
            before.at(u, v)
        } by {
            lemma_offset_in_range(u, v, w, height as int);
            lemma_offset_of_position(u, v, w);
            lemma_offset_of_position(x as int, y as int, w);
            if !(u == x && v == y) {
                assert(v * w + u != y * w + x);
            }
        }
    }
    out
}

/// Draws the line between two pixels: the pixels on the line that lie
/// inside the image take the colour, all others stay.
pub fn draw_line(image: &RgbRaster, x0: u32, y0: u32, x1: u32, y1: u32, color: Rgb) -> (out:
    RgbRaster)
    ensures
        out@.wf(),
        out@.width == image@.width,
        out@.height == image@.height,
        forall|x: int, y: int|
            image@.inside(x, y) ==> #[trigger] out@.at(x, y) == if on_line(
                x0 as int,
                y0 as int,
                x1 as int,
                y1 as int,
                x,
                y,
            ) {
                color
            } else {
                image@.at(x, y)
            },
{
    let dx: u32 = if x0 < x1 {
        x1 - x0
    } else {
        x0 - x1
    };
    let dy: u32 = if y0 < y1 {
        y1 - y0
    } else {
        y0 - y1
    };
    let mut out = image.duplicate();
    let mut a: u32 = 0;
    let mut b: u32 = 0;
    let mut err: i128 = dx as i128 - dy as i128;
    let ghost mut done: Seq<(int, int)> = Seq::empty();
    assert(done + line_walk(0, 0, dx as int, dy as int) =~= line_walk(0, 0, dx as int, dy as int));
    while a != dx || b != dy
        invariant
            dx == toward(x0 as int, x1 as int, x1 as int),
            dy == toward(y0 as int, y1 as int, y1 as int),
            a <= dx,
            b <= dy,
            err == dx * (b + 1) - dy * (a + 1),
            out@.wf(),
            out@.width == image@.width,
            out@.height == image@.height,
            line_walk(0, 0, dx as int, dy as int) == done + line_walk(
                a as int,
                b as int,
                dx as int,
                dy as int,
            ),
            forall|x: int, y: int|
                image@.inside(x, y) ==> #[trigger] out@.at(x, y) == if done.contains(
                    (toward(x0 as int, x1 as int, x), toward(y0 as int, y1 as int, y)),
                ) {
                    color
                } else {
                    image@.at(x, y)
                },
        decreases dx - a + dy - b,
    {
        let x: u32 = if x0 < x1 {
            x0 + a
        } else {
            x0 - a
        };
        let y: u32 = if y0 < y1 {
            y0 + b
        } else {
            y0 - b
        };
        let ghost shown = out@;
        let ghost earlier = done;
        out = paint(out, x, y, color);
        proof {
            done = earlier.push((a as int, b as int));
            lemma_one_more_place(
                image@,
                shown,
                out@,
                earlier,
                done,
                x0 as int,
                y0 as int,
                x1 as int,
                y1 as int,
                a as int,
                b as int,
                color,
            );
            lemma_line_step(a as int, b as int, dx as int, dy as int);
        }
        let twice: i128 = 2 * err;
        let step_a = twice >= -(dy as i128);
        let step_b = twice <= dx as i128;
        proof {
            assert(dx * (b + 2) == dx * (b + 1) + dx) by (nonlinear_arith);
            assert(dy * (a + 2) == dy * (a + 1) + dy) by (nonlinear_arith);
        }
        if step_a {
            err = err - dy as i128;
            a = a + 1;
        }
        if step_b {
            err = err + dx as i128;
            b = b + 1;
        }
    }
    let x: u32 = x1;
    let y: u32 = y1;
    let ghost shown = out@;
    let ghost earlier = done;
    out = paint(out, x, y, color);
    proof {
        done = earlier.push((a as int, b as int));
        lemma_one_more_place(
            image@,
            shown,
            out@,
            earlier,
            done,
            x0 as int,
            y0 as int,
            x1 as int,
            y1 as int,
            a as int,
            b as int,
            color,
        );
        assert(line_walk(a as int, b as int, dx as int, dy as int) =~= seq![(a as int, b as int)]);
        assert(line_walk(0, 0, dx as int, dy as int) =~= done);
    }
    out
}

/// Unless a place is the end of the line, a step along the first axis
/// stays within `dx` and one along the second within `dy`.
proof fn lemma_line_step(a: int, b: int, dx: int, dy: int)
    requires
        0 <= a <= dx,
        0 <= b <= dy,
        a != dx || b != dy,
    ensures
        a == dx ==> 2 * (dx * (b + 1) - dy * (a + 1)) < -dy,
        b == dy ==> 2 * (dx * (b + 1) - dy * (a + 1)) > dx,
        -0x2_0000_0000_0000_0000 <= dx * (b + 1) - dy * (a + 1) <= 0x2_0000_0000_0000_0000 || dx
            > 0xFFFF_FFFF || dy > 0xFFFF_FFFF,
{
    if a == dx {
        assert(dx * (b + 1) <= dx * dy) by (nonlinear_arith)
            requires
                0 <= dx,
                b + 1 <= dy,
        ;
        assert(dy * (dx + 1) == dx * dy + dy) by (nonlinear_arith);
    }
    if b == dy {
        assert(dy * (a + 1) <= dy * dx) by (nonlinear_arith)
            requires
                0 <= dy,
                a + 1 <= dx,
        ;
        assert(dx * (dy + 1) == dy * dx + dx) by (nonlinear_arith);
    }
    if dx <= 0xFFFF_FFFF && dy <= 0xFFFF_FFFF {
        assert(0 <= dx * (b + 1) <= 0xFFFF_FFFF * 0x1_0000_0000) by (nonlinear_arith)
            requires
                0 <= dx <= 0xFFFF_FFFF,
                0 <= b + 1 <= 0x1_0000_0000,
        ;
        assert(0 <= dy * (a + 1) <= 0xFFFF_FFFF * 0x1_0000_0000) by (nonlinear_arith)
            requires
                0 <= dy <= 0xFFFF_FFFF,
                0 <= a + 1 <= 0x1_0000_0000,
        ;
    }
}

/// Painting the pixel of one more place of the line keeps the picture that
/// of the places drawn so far.
proof fn lemma_one_more_place(
    image: RgbView,
    shown: RgbView,
    out: RgbView,
    earlier: Seq<(int, int)>,
    done: Seq<(int, int)>,
    x0: int,
    y0: int,
    x1: int,
    y1: int,
    a: int,
    b: int,
    color: Rgb,
)
    requires
        shown.width == image.width,
        shown.height == image.height,
        done == earlier.push((a, b)),
        forall|x: int, y: int|
            image.inside(x, y) ==> #[trigger] shown.at(x, y) == if earlier.contains(
                (toward(x0, x1, x), toward(y0, y1, y)),
            ) {
                color
            } else {
                image.at(x, y)
            },
        forall|x: int, y: int|
            image.inside(x, y) ==> #[trigger] out.at(x, y) == if toward(x0, x1, x) == a && toward(
                y0,
                y1,
                y,
            ) == b {
                color
            } else {
                shown.at(x, y)
            },
    ensures
        forall|x: int, y: int|
            image.inside(x, y) ==> #[trigger] out.at(x, y) == if done.contains(
                (toward(x0, x1, x), toward(y0, y1, y)),
            ) {
                color
            } else {
                image.at(x, y)
            },
{
    assert forall|x: int, y: int| image.inside(x, y) implies #[trigger] out.at(x, y)
        == if done.contains((toward(x0, x1, x), toward(y0, y1, y))) {
        color
    } else {
        image.at(x, y)
    } by {
        let p = (toward(x0, x1, x), toward(y0, y1, y));
        if p == (a, b) {
            assert(done[earlier.len() as int] == p);
        } else if earlier.contains(p) {
            let i = choose|i: int| 0 <= i < earlier.len() && earlier[i] == p;
            assert(done[i] == p);
        } else if done.contains(p) {
            let i = choose|i: int| 0 <= i < done.len() && done[i] == p;
            assert(earlier[i] == p);
        }
    }
}

} // verus!
