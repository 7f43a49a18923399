//! Pixel-addressable rasters: 8-bit single-channel maps and RGB images.

use vstd::prelude::*;
use vstd::arithmetic::div_mod::{
    lemma_fundamental_div_mod,
    lemma_fundamental_div_mod_converse,
    lemma_multiply_divide_lt,
};

verus! {

/// The offset of pixel `(x, y)` in a row-major raster lies inside it.
pub proof fn lemma_offset_in_range(x: int, y: int, width: int, height: int)
    requires
        0 <= x < width,
        0 <= y < height,
    ensures
        0 <= y * width + x < width * height,
        y * width + x + 1 <= width * height,
{
    assert(y * width + x < (y + 1) * width) by (nonlinear_arith)
        requires
            0 <= x < width,
            0 <= y,
    ;
    assert((y + 1) * width <= height * width) by (nonlinear_arith)
        requires
            y + 1 <= height,
            width > 0,
    ;
    assert(height * width == width * height) by (nonlinear_arith);
    assert(0 <= y * width) by (nonlinear_arith)
        requires
            0 <= y,
            0 <= width,
    ;
}

/// The column and row of offset `i` in a row-major raster lie inside it.
pub proof fn lemma_position_of_offset(i: int, width: int, height: int)
    requires
        0 <= i < width * height,
        0 <= height,
    ensures
        0 < width,
        0 <= i % width < width,
        0 <= i / width < height,
        (i / width) * width + i % width == i,
{
    assert(0 < width) by (nonlinear_arith)
        requires
            0 <= i < width * height,
            0 <= height,
    ;
    lemma_fundamental_div_mod(i, width);
    lemma_multiply_divide_lt(i, width, height);
    assert(0 <= i / width) by (nonlinear_arith)
        requires
            0 <= i,
            0 < width,
    ;
    assert(width * (i / width) == (i / width) * width) by (nonlinear_arith);
}

/// Offset `y * width + x` is at column `x` of row `y`.
pub proof fn lemma_offset_of_position(x: int, y: int, width: int)
    requires
        0 <= x < width,
    ensures
        (y * width + x) / width == y,
        (y * width + x) % width == x,
{
    lemma_fundamental_div_mod_converse(y * width + x, width, y, x);
}

/// What a single-channel raster holds: its size and its pixels, row by row.
pub struct GrayView {
    pub width: nat,
    pub height: nat,
    pub pixels: Seq<u8>,
}

impl GrayView {
    /// There is one pixel for each position.
    pub open spec fn wf(self) -> bool {
        self.pixels.len() == self.width * self.height
    }

    /// The position `(x, y)` lies inside the raster.
    pub open spec fn inside(self, x: int, y: int) -> bool {
        0 <= x < self.width && 0 <= y < self.height
    }

    /// The pixel at column `x` of row `y`.
    pub open spec fn at(self, x: int, y: int) -> u8
        recommends
            self.inside(x, y),
    {
        self.pixels[y * self.width + x]
    }

    /// The two rasters have the same width and height.
    pub open spec fn same_size(self, other: GrayView) -> bool {
        self.width == other.width && self.height == other.height
    }
}

/// An 8-bit single-channel raster.
#[derive(Debug)]
pub struct GrayRaster {
    width: u32,
    height: u32,
    data: Vec<u8>,
}

impl View for GrayRaster {
    type V = GrayView;

    closed spec fn view(&self) -> GrayView {
        GrayView { width: self.width as nat, height: self.height as nat, pixels: self.data@ }
    }
}

/// The number of pixels of a `width` by `height` raster, when a buffer of
/// that many bytes can be addressed.
pub fn pixel_count(width: u32, height: u32) -> (n: Option<usize>)
    ensures
        n matches Some(k) ==> k == width * height,
        n is None <==> width * height > usize::MAX,
{
    assert(width * height <= 0xFFFF_FFFF * 0xFFFF_FFFF) by (nonlinear_arith)
        requires
            width <= 0xFFFF_FFFF,
            height <= 0xFFFF_FFFF,
    ;
    let n: u64 = (width as u64) * (height as u64);
    if n > usize::MAX as u64 {
        None
    } else {
        Some(n as usize)
    }
}

/// The offset of pixel `(x, y)` in the row-major buffer of a raster.
pub fn offset(x: u32, y: u32, width: u32, height: u32) -> (i: usize)
    requires
        x < width,
        y < height,
        width * height <= usize::MAX,
    ensures
        i == y * width + x,
        i < width * height,
{
    proof {
        lemma_offset_in_range(x as int, y as int, width as int, height as int);
    }
    let row: usize = y as usize;
    let w: usize = width as usize;
    assert(row * w == y * width);
    row * w + x as usize
}

impl Clone for GrayRaster {
    fn clone(&self) -> (r: GrayRaster)
        ensures
            r@ == self@,
    {
        self.duplicate()
    }
}

impl GrayRaster {
    #[verifier::type_invariant]
    spec fn inv(self) -> bool {
        self.data@.len() == self.width * self.height && self.width * self.height <= usize::MAX
    }

    /// A raster of the given size with every pixel zero, or `None` when its
    /// buffer cannot be addressed.
    pub fn new(width: u32, height: u32) -> (r: Option<GrayRaster>)
        ensures
            r is None <==> width * height > usize::MAX,
            r matches Some(g) ==> g@.wf() && g@.width == width && g@.height == height
                && forall|i: int| 0 <= i < g@.pixels.len() ==> g@.pixels[i] == 0,
    {
        match pixel_count(width, height) {
            None => None,
            Some(n) => {
                let data: Vec<u8> = vec![0u8; n];
                Some(GrayRaster { width, height, data })
            },
        }
    }

    /// A raster over the given row-major pixels, or `None` when their number
    /// is not `width * height`.
    pub fn from_raw(width: u32, height: u32, data: Vec<u8>) -> (r: Option<GrayRaster>)
        ensures
            r is None <==> data@.len() != width * height,
            r matches Some(g) ==> g@.wf() && g@.width == width && g@.height == height
                && g@.pixels == data@,
    {
        let len = data.len();
        match pixel_count(width, height) {
            None => None,
            Some(n) => {
                if len == n {
                    Some(GrayRaster { width, height, data })
                } else {
                    None
                }
            },
        }
    }

    /// The pixels, row by row.
    pub fn into_raw(self) -> (data: Vec<u8>)
        ensures
            data@ == self@.pixels,
            self@.wf(),
    {
        proof {
            use_type_invariant(&self);
        }
        self.data
    }

    /// The pixels, row by row.
    pub fn as_raw(&self) -> (data: &Vec<u8>)
        ensures
            data@ == self@.pixels,
            self@.wf(),
    {
        proof {
            use_type_invariant(self);
        }
        &self.data
    }

    pub fn width(&self) -> (w: u32)
        ensures
            w == self@.width,
            self@.wf(),
    {
        proof {
            use_type_invariant(self);
        }
        self.width
    }

    pub fn height(&self) -> (h: u32)
        ensures
            h == self@.height,
            self@.wf(),
    {
        proof {
            use_type_invariant(self);
        }
        self.height
    }

    pub fn dimensions(&self) -> (d: (u32, u32))
        ensures
            d.0 == self@.width,
            d.1 == self@.height,
            self@.wf(),
    {
        proof {
            use_type_invariant(self);
        }
        (self.width, self.height)
    }

    /// The pixel at column `x` of row `y`.
    pub fn get_pixel(&self, x: u32, y: u32) -> (p: u8)
        requires
            self@.inside(x as int, y as int),
        ensures
            p == self@.at(x as int, y as int),
    {
        proof {
            use_type_invariant(self);
        }
        let i: usize = offset(x, y, self.width, self.height);
        self.data[i]
    }

    /// The raster with the pixel at column `x` of row `y` set to `value`.
    pub fn with_pixel(self, x: u32, y: u32, value: u8) -> (r: GrayRaster)
        requires
            self@.inside(x as int, y as int),
        ensures
            r@.wf(),
            r@.same_size(self@),
            r@.pixels == self@.pixels.update(y * self@.width + x, value),
    {
        proof {
            use_type_invariant(&self);
        }
        let i: usize = offset(x, y, self.width, self.height);
        let width = self.width;
        let height = self.height;
        let mut data = self.data;
        data.set(i, value);
        GrayRaster { width, height, data }
    }

    /// A second raster with the same size and pixels.
    pub fn duplicate(&self) -> (r: GrayRaster)
        ensures
            r@ == self@,
            r@.wf(),
    {
        proof {
            use_type_invariant(self);
        }
        let data = self.data.clone();
        assert(data@ =~= self.data@);
        GrayRaster { width: self.width, height: self.height, data }
    }
}

/// One RGB pixel.
#[derive(Debug, Clone, Copy, PartialEq, Eq, Structural)]
pub struct Rgb {
    pub r: u8,
    pub g: u8,
    pub b: u8,
}

/// What an RGB raster holds: its size and its interleaved channel bytes,
/// pixel by pixel and row by row.
pub struct RgbView {
    pub width: nat,
    pub height: nat,
    pub bytes: Seq<u8>,
}

impl RgbView {
    /// There are three bytes for each position.
    pub open spec fn wf(self) -> bool {
        self.bytes.len() == 3 * (self.width * self.height)
    }

    /// The position `(x, y)` lies inside the raster.
    pub open spec fn inside(self, x: int, y: int) -> bool {
        0 <= x < self.width && 0 <= y < self.height
    }

    /// The pixel at column `x` of row `y`.
    pub open spec fn at(self, x: int, y: int) -> Rgb
        recommends
            self.inside(x, y),
    {
        let i = 3 * (y * self.width + x);
        Rgb { r: self.bytes[i], g: self.bytes[i + 1], b: self.bytes[i + 2] }
    }

    /// The pixel whose first byte is at offset `3 * i`.
    pub open spec fn nth(self, i: int) -> Rgb {
        Rgb { r: self.bytes[3 * i], g: self.bytes[3 * i + 1], b: self.bytes[3 * i + 2] }
    }
}

/// An 8-bit RGB raster.
#[derive(Debug)]
pub struct RgbRaster {
    width: u32,
    height: u32,
    data: Vec<u8>,
}

impl View for RgbRaster {
    type V = RgbView;

    closed spec fn view(&self) -> RgbView {
        RgbView { width: self.width as nat, height: self.height as nat, bytes: self.data@ }
    }
}

/// The number of bytes of a `width` by `height` RGB raster, when a buffer of
/// that many bytes can be addressed.
pub fn byte_count(width: u32, height: u32) -> (n: Option<usize>)
    ensures
        n matches Some(k) ==> k == 3 * (width * height),
        n is None <==> 3 * (width * height) > usize::MAX,
{
    assert(width * height <= 0xFFFF_FFFF * 0xFFFF_FFFF) by (nonlinear_arith)
        requires
            width <= 0xFFFF_FFFF,
            height <= 0xFFFF_FFFF,
    ;
    let pixels: u128 = (width as u128) * (height as u128);
    let n: u128 = 3 * pixels;
    if n > usize::MAX as u128 {
        None
    } else {
        Some(n as usize)
    }
}

impl Clone for RgbRaster {
    fn clone(&self) -> (r: RgbRaster)
        ensures
            r@ == self@,
    {
        self.duplicate()
    }
}

impl RgbRaster {
    #[verifier::type_invariant]
    spec fn inv(self) -> bool {
        self.data@.len() == 3 * (self.width * self.height) && 3 * (self.width * self.height)
            <= usize::MAX
    }

    /// A black raster of the given size, or `None` when its buffer cannot be
    /// addressed.
    pub fn new(width: u32, height: u32) -> (r: Option<RgbRaster>)
        ensures
            r is None <==> 3 * (width * height) > usize::MAX,
            r matches Some(g) ==> g@.wf() && g@.width == width && g@.height == height
                && forall|i: int| 0 <= i < g@.bytes.len() ==> g@.bytes[i] == 0,
    {
        match byte_count(width, height) {
            None => None,
            Some(n) => {
                let data: Vec<u8> = vec![0u8; n];
                Some(RgbRaster { width, height, data })
            },
        }
    }

    /// A raster over the given interleaved bytes, or `None` when their
    /// number is not `3 * width * height`.
    pub fn from_raw(width: u32, height: u32, data: Vec<u8>) -> (r: Option<RgbRaster>)
        ensures
            r is None <==> data@.len() != 3 * (width * height),
            r matches Some(g) ==> g@.wf() && g@.width == width && g@.height == height
                && g@.bytes == data@,
    {
        let len = data.len();
        match byte_count(width, height) {
            None => None,
            Some(n) => {
                if len == n {
                    Some(RgbRaster { width, height, data })
                } else {
                    None
                }
            },
        }
    }

    /// The interleaved channel bytes.
    pub fn into_raw(self) -> (data: Vec<u8>)
        ensures
            data@ == self@.bytes,
            self@.wf(),
    {
        proof {
            use_type_invariant(&self);
        }
        self.data
    }

    /// The interleaved channel bytes.
    pub fn as_raw(&self) -> (data: &Vec<u8>)
        ensures
            data@ == self@.bytes,
            self@.wf(),
    {
        proof {
            use_type_invariant(self);
        }
        &self.data
    }

    pub fn width(&self) -> (w: u32)
        ensures
            w == self@.width,
            self@.wf(),
    {
        proof {
            use_type_invariant(self);
        }
        self.width
    }

    pub fn height(&self) -> (h: u32)
        ensures
            h == self@.height,
            self@.wf(),
    {
        proof {
            use_type_invariant(self);
        }
        self.height
    }

    pub fn dimensions(&self) -> (d: (u32, u32))
        ensures
            d.0 == self@.width,
            d.1 == self@.height,
            self@.wf(),
    {
        proof {
            use_type_invariant(self);
        }
        (self.width, self.height)
    }

    /// The pixel at column `x` of row `y`.
    pub fn get_pixel(&self, x: u32, y: u32) -> (p: Rgb)
        requires
            self@.inside(x as int, y as int),
        ensures
            p == self@.at(x as int, y as int),
    {
        proof {
            use_type_invariant(self);
        }
        let i: usize = offset(x, y, self.width, self.height);
        Rgb { r: self.data[3 * i], g: self.data[3 * i + 1], b: self.data[3 * i + 2] }
    }

    /// The raster with the pixel at column `x` of row `y` set to `value`.
    pub fn with_pixel(self, x: u32, y: u32, value: Rgb) -> (r: RgbRaster)
        requires
            self@.inside(x as int, y as int),
        ensures
            r@.wf(),
            r@.width == self@.width,
            r@.height == self@.height,
            r@.bytes == self@.bytes.update(3 * (y * self@.width + x), value.r).update(
                3 * (y * self@.width + x) + 1,
                value.g,
            ).update(3 * (y * self@.width + x) + 2, value.b),
    {
        proof {
            use_type_invariant(&self);
        }
        let i: usize = offset(x, y, self.width, self.height);
        let width = self.width;
        let height = self.height;
        let mut data = self.data;
        data.set(3 * i, value.r);
        data.set(3 * i + 1, value.g);
        data.set(3 * i + 2, value.b);
        RgbRaster { width, height, data }
    }

    /// A second raster with the same size and pixels.
    pub fn duplicate(&self) -> (r: RgbRaster)
        ensures
            r@ == self@,
            r@.wf(),
    {
        proof {
            use_type_invariant(self);
        }
        let data = self.data.clone();
        assert(data@ =~= self.data@);
        RgbRaster { width: self.width, height: self.height, data }
    }
}

} // verus!
