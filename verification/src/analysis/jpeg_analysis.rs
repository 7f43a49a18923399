//! JPEG analysis: recompression, difference and ghost maps, blocking
//! artifacts and the block-energy histogram.

use vstd::arithmetic::div_mod::{lemma_div_pos_is_pos, lemma_mod_multiples_basic};
use vstd::prelude::*;
use crate::error::ForensicsError;
use crate::grid::{count_steps, lemma_step_in_range, steps_below};
use crate::image_utils::{gray_of, rgb_to_gray};
use crate::raster::{
    lemma_offset_in_range,
    lemma_offset_of_position,
    lemma_position_of_offset,
    GrayRaster,
    GrayView,
    Rgb,
    RgbRaster,
    RgbView,
};

verus! {

/// Calls `JpegEncoder::new_with_quality` and `JpegEncoder::encode` of the
/// `image` crate on interleaved RGB bytes and hands back the JPEG stream.
/// `encode` stops the program when the buffer does not hold three bytes for
/// each pixel, so that is asked of the caller. Nothing is claimed of the
/// stream.
#[verifier::external_body]
fn encode_jpeg(rgb: &Vec<u8>, width: u32, height: u32, quality: u8) -> (r: Result<
    Vec<u8>,
    image::ImageError,
>)
    requires
        rgb@.len() == 3 * (width * height),
{
    let mut out: Vec<u8> = Vec::new();
    let done = image::codecs::jpeg::JpegEncoder::new_with_quality(&mut out, quality).encode(
        rgb,
        width,
        height,
        image::ExtendedColorType::Rgb8,
    );
    match done {
        Ok(()) => Ok(out),
        Err(e) => Err(e),
    }
}

/// Calls `image::load_from_memory` and `DynamicImage::into_rgb8` of the
/// `image` crate and hands back the decoded width, height and interleaved
/// RGB bytes. Nothing is claimed of them: the caller checks what it needs.
#[verifier::external_body]
fn decode_rgb(bytes: &Vec<u8>) -> (r: Result<(u32, u32, Vec<u8>), image::ImageError>) {
    match image::load_from_memory(bytes) {
        Ok(decoded) => {
            let rgb = decoded.into_rgb8();
            Ok((rgb.width(), rgb.height(), rgb.into_raw()))
        },
        Err(e) => Err(e),
    }
}

/// The quality is one the JPEG encoder documents: from 1 to 100.
pub open spec fn valid_quality(quality: u8) -> bool {
    1 <= quality <= 100
}

/// What the decoder handed back is an image of the given size.
pub open spec fn fits_size(
    width: u32,
    height: u32,
    decoded_width: u32,
    decoded_height: u32,
    data: Seq<u8>,
) -> bool {
    decoded_width == width && decoded_height == height && data.len() == 3 * (width * height)
}

/// Takes what the decoder handed back as the recompression of an image of
/// the given size: the decoded bytes as a raster, unless they are those of
/// an image of another size.
pub fn accept_decoded(
    width: u32,
    height: u32,
    decoded_width: u32,
    decoded_height: u32,
    data: Vec<u8>,
) -> (r: Result<RgbRaster, ForensicsError>)
    ensures
        fits_size(width, height, decoded_width, decoded_height, data@) ==> (r matches Ok(out)
            && out@.wf() && out@.width == width && out@.height == height && out@.bytes == data@),
        !fits_size(width, height, decoded_width, decoded_height, data@) ==> (r matches Err(
            ForensicsError::AnalysisFailed(msg),
        ) && msg@ == "Recompressed image has another size"@),
{
    if decoded_width != width || decoded_height != height {
        return Err(
            ForensicsError::AnalysisFailed("Recompressed image has another size".to_owned()),
        );
    }
    match RgbRaster::from_raw(width, height, data) {
        Some(out) => Ok(out),
        None => Err(
            ForensicsError::AnalysisFailed("Recompressed image has another size".to_owned()),
        ),
    }
}

/// Encodes the image as JPEG at the given quality and decodes it again. A
/// quality outside `1..=100` is rejected before the codec is called. A
/// failure of the encoder or the decoder comes back as `ImageDecode`, and
/// a decoded image of another size as `AnalysisFailed`.
pub fn recompress(image: &RgbRaster, quality: u8) -> (r: Result<RgbRaster, ForensicsError>)
    ensures
        !valid_quality(quality) ==> (r matches Err(ForensicsError::InvalidParameter(msg)) && msg@
            == "JPEG quality must be between 1 and 100"@),
        valid_quality(quality) ==> (r is Ok || r matches Err(ForensicsError::ImageDecode(_)) || (
        r matches Err(ForensicsError::AnalysisFailed(msg)) && msg@
            == "Recompressed image has another size"@)),
        r matches Ok(out) ==> out@.wf() && out@.width == image@.width && out@.height
            == image@.height,
{
    if quality < 1 || quality > 100 {
        return Err(
            ForensicsError::InvalidParameter("JPEG quality must be between 1 and 100".to_owned()),
        );
    }
    let (width, height) = image.dimensions();
    let stream = match encode_jpeg(image.as_raw(), width, height, quality) {
        Ok(stream) => stream,
        Err(e) => {
            return Err(ForensicsError::ImageDecode(e));
        },
    };
    match decode_rgb(&stream) {
        Ok((decoded_width, decoded_height, data)) => accept_decoded(
            width,
            height,
            decoded_width,
            decoded_height,
            data,
        ),
        Err(e) => Err(ForensicsError::ImageDecode(e)),
    }
}

/// The distance between two bytes.
pub open spec fn abs_diff(a: u8, b: u8) -> int {
    if a >= b {
        a - b
    } else {
        b - a
    }
}

/// The distance between two bytes.
pub fn byte_distance(a: u8, b: u8) -> (d: u8)
    ensures
        d == abs_diff(a, b),
{
    if a >= b {
        a - b
    } else {
        b - a
    }
}

/// The mean of the three channel distances of two pixels, rounded down.
pub open spec fn pixel_difference(a: Rgb, b: Rgb) -> int {
    (abs_diff(a.r, b.r) + abs_diff(a.g, b.g) + abs_diff(a.b, b.b)) / 3
}

/// The sum of the distances between the bytes of `a` and those of `b`.
pub open spec fn total_distance(a: Seq<u8>, b: Seq<u8>) -> int
    decreases a.len(),
{
    if a.len() == 0 || b.len() != a.len() {
        0
    } else {
        total_distance(a.drop_last(), b.drop_last()) + abs_diff(a.last(), b.last())
    }
}

/// The sum of the bytes of `s`.
pub open spec fn sum_bytes(s: Seq<u8>) -> int
    decreases s.len(),
{
    if s.len() == 0 {
        0
    } else {
        sum_bytes(s.drop_last()) + s.last()
    }
}

/// The map of the per-pixel differences of two images: at each place the
/// mean of the three channel distances, rounded down.
pub open spec fn difference_of(first: RgbView, second: RgbView) -> GrayView {
    GrayView {
        width: first.width,
        height: first.height,
        pixels: Seq::new(
            first.width * first.height,
            |i: int| pixel_difference(first.nth(i), second.nth(i)) as u8,
        ),
    }
}

/// The map of the per-pixel differences of two images of one size.
pub fn create_difference_map(first: &RgbRaster, second: &RgbRaster) -> (out: GrayRaster)
    requires
        first@.width == second@.width,
        first@.height == second@.height,
    ensures
        out@ == difference_of(first@, second@),
        out@.wf(),
        out@.width == first@.width,
        out@.height == first@.height,
        forall|x: int, y: int|
            first@.inside(x, y) ==> #[trigger] out@.at(x, y) == pixel_difference(
                first@.at(x, y),
                second@.at(x, y),
            ),
{
    let (width, height) = first.dimensions();
    let a = first.as_raw();
    let b = second.as_raw();
    let total = a.len();
    let other = b.len();
    let n: usize = total / 3;
    let mut data: Vec<u8> = Vec::new();
    let mut i: usize = 0;
    while i < n
        invariant
            0 <= i <= n,
            n == width * height,
            a@.len() == 3 * n,
            b@.len() == 3 * n,
            total == a@.len(),
            a@ == first@.bytes,
            b@ == second@.bytes,
            data@.len() == i,
            forall|k: int|
                0 <= k < i ==> data@[k] == pixel_difference(first@.nth(k), second@.nth(k)),
        decreases n - i,
    {
        let dr: u16 = byte_distance(a[3 * i], b[3 * i]) as u16;
        let dg: u16 = byte_distance(a[3 * i + 1], b[3 * i + 1]) as u16;
        let db: u16 = byte_distance(a[3 * i + 2], b[3 * i + 2]) as u16;
        data.push(((dr + dg + db) / 3) as u8);
        i += 1;
    }
    let out = GrayRaster::from_raw(width, height, data).unwrap();
    proof {
        assert(out@.pixels =~= difference_of(first@, second@).pixels);
        assert forall|x: int, y: int| first@.inside(x, y) implies #[trigger] out@.at(x, y)
            == pixel_difference(first@.at(x, y), second@.at(x, y)) by {
            lemma_offset_in_range(x, y, width as int, height as int);
            assert(first@.at(x, y) == first@.nth(y * width + x));
            assert(second@.at(x, y) == second@.nth(y * width + x));
        }
    }
    out
}

proof fn lemma_total_distance_bound(a: Seq<u8>, b: Seq<u8>)
    requires
        a.len() == b.len(),
    ensures
        0 <= total_distance(a, b) <= 255 * a.len(),
    decreases a.len(),
{
    if a.len() > 0 {
        lemma_total_distance_bound(a.drop_last(), b.drop_last());
    }
}

proof fn lemma_sum_bytes_bound(s: Seq<u8>)
    ensures
        0 <= sum_bytes(s) <= 255 * s.len(),
    decreases s.len(),
{
    if s.len() > 0 {
        lemma_sum_bytes_bound(s.drop_last());
    }
}

/// The sum of the channel distances of two images of one size.
pub fn calculate_image_difference(first: &RgbRaster, second: &RgbRaster) -> (total: u128)
    requires
        first@.width == second@.width,
        first@.height == second@.height,
    ensures
        total == total_distance(first@.bytes, second@.bytes),
{
    let a = first.as_raw();
    let b = second.as_raw();
    let (w1, h1) = first.dimensions();
    let (w2, h2) = second.dimensions();
    let n = a.len();
    let m = b.len();
    let mut total: u128 = 0;
    let mut i: usize = 0;
    assert(a@.take(0) =~= Seq::<u8>::empty());
    while i < n
        invariant
            0 <= i <= n,
            n == a@.len(),
            n == b@.len(),
            total == total_distance(a@.take(i as int), b@.take(i as int)),
            total <= 255 * i,
        decreases n - i,
    {
        proof {
            assert(a@.take(i + 1).drop_last() =~= a@.take(i as int));
            assert(b@.take(i + 1).drop_last() =~= b@.take(i as int));
            assert(a@.take(i + 1).last() == a@[i as int]);
            assert(b@.take(i + 1).last() == b@[i as int]);
        }
        total = total + byte_distance(a[i], b[i]) as u128;
        i += 1;
    }
    assert(a@.take(n as int) =~= a@);
    assert(b@.take(n as int) =~= b@);
    total
}

/// The sum of the pixels of a map.
pub fn sum_of_pixels(map: &GrayRaster) -> (total: u128)
    ensures
        total == sum_bytes(map@.pixels),
        total <= 255 * map@.pixels.len(),
{
    let a = map.as_raw();
    let n = a.len();
    let mut total: u128 = 0;
    let mut i: usize = 0;
    assert(a@.take(0) =~= Seq::<u8>::empty());
    while i < n
        invariant
            0 <= i <= n,
            n == a@.len(),
            total == sum_bytes(a@.take(i as int)),
            total <= 255 * i,
        decreases n - i,
    {
        proof {
            assert(a@.take(i + 1).drop_last() =~= a@.take(i as int));
            assert(a@.take(i + 1).last() == a@[i as int]);
        }
        total = total + a[i] as u128;
        i += 1;
    }
    assert(a@.take(n as int) =~= a@);
    total
}

/// The strength of the blocking artifact at `(x, y)`: on a column of the
/// 8-pixel grid the distance to the left neighbour, on a row of the grid the
/// distance to the upper neighbour, on both the mean of the two rounded
/// down, elsewhere zero. The first column and the first row have no such
/// neighbour and count as off the grid.
pub open spec fn blocking_value(g: GrayView, x: int, y: int) -> int {
    let on_column = x > 0 && x % 8 == 0;
    let on_row = y > 0 && y % 8 == 0;
    if on_column && on_row {
        (abs_diff(g.at(x - 1, y), g.at(x, y)) + abs_diff(g.at(x, y - 1), g.at(x, y))) / 2
    } else if on_column {
        abs_diff(g.at(x - 1, y), g.at(x, y))
    } else if on_row {
        abs_diff(g.at(x, y - 1), g.at(x, y))
    } else {
        0
    }
}

/// The map of the blocking artifacts of a grayscale image.
pub fn analyze_blocking_artifacts(gray: &GrayRaster) -> (out: GrayRaster)
    ensures
        out@.wf(),
        out@.same_size(gray@),
        forall|x: int, y: int|
            gray@.inside(x, y) ==> #[trigger] out@.at(x, y) == blocking_value(gray@, x, y),
{
    let (width, height) = gray.dimensions();
    let raw = gray.as_raw();
    let n = raw.len();
    let mut data: Vec<u8> = Vec::new();
    let mut i: usize = 0;
    while i < n
        invariant
            0 <= i <= n,
            n == width * height,
            gray@.wf(),
            gray@.width == width,
            gray@.height == height,
            data@.len() == i,
            forall|k: int|
                0 <= k < i ==> data@[k] == blocking_value(
                    gray@,
                    k % (width as int),
                    k / (width as int),
                ),
        decreases n - i,
    {
        proof {
            lemma_position_of_offset(i as int, width as int, height as int);
        }
        let x: u32 = (i % (width as usize)) as u32;
        let y: u32 = (i / (width as usize)) as u32;
        let here = gray.get_pixel(x, y);
        let on_column = x > 0 && x % 8 == 0;
        let on_row = y > 0 && y % 8 == 0;
        let value: u8 = if on_column && on_row {
            let left: u16 = byte_distance(gray.get_pixel(x - 1, y), here) as u16;
            let up: u16 = byte_distance(gray.get_pixel(x, y - 1), here) as u16;
            ((left + up) / 2) as u8
        } else if on_column {
            byte_distance(gray.get_pixel(x - 1, y), here)
        } else if on_row {
            byte_distance(gray.get_pixel(x, y - 1), here)
        } else {
            0
        };
        data.push(value);
        i += 1;
    }
    let out = GrayRaster::from_raw(width, height, data).unwrap();
    proof {
        assert forall|x: int, y: int| gray@.inside(x, y) implies #[trigger] out@.at(x, y)
            == blocking_value(gray@, x, y) by {
            lemma_offset_in_range(x, y, width as int, height as int);
            lemma_offset_of_position(x, y, width as int);
        }
    }
    out
}

/// The strength of the block boundary at `(x, y)`: the distance to the left
/// neighbour on a column of the 8-pixel grid plus the distance to the upper
/// neighbour on a row of the grid, at most 255.
pub open spec fn boundary_value(g: GrayView, x: int, y: int) -> int {
    let across = if x > 0 && x % 8 == 0 {
        abs_diff(g.at(x - 1, y), g.at(x, y))
    } else {
        0
    };
    let down = if y > 0 && y % 8 == 0 {
        abs_diff(g.at(x, y - 1), g.at(x, y))
    } else {
        0
    };
    if across + down > 255 {
        255
    } else {
        across + down
    }
}

/// The map of the block boundaries of a grayscale image.
pub fn create_block_artifact_map(gray: &GrayRaster) -> (out: GrayRaster)
    ensures
        out@.wf(),
        out@.same_size(gray@),
        forall|x: int, y: int|
            gray@.inside(x, y) ==> #[trigger] out@.at(x, y) == boundary_value(gray@, x, y),
{
    let (width, height) = gray.dimensions();
    let raw = gray.as_raw();
    let n = raw.len();
    let mut data: Vec<u8> = Vec::new();
    let mut i: usize = 0;
    while i < n
        invariant
            0 <= i <= n,
            n == width * height,
            gray@.wf(),
            gray@.width == width,
            gray@.height == height,
            data@.len() == i,
            forall|k: int|
                0 <= k < i ==> data@[k] == boundary_value(
                    gray@,
                    k % (width as int),
                    k / (width as int),
                ),
        decreases n - i,
    {
        proof {
            lemma_position_of_offset(i as int, width as int, height as int);
        }
        let x: u32 = (i % (width as usize)) as u32;
        let y: u32 = (i / (width as usize)) as u32;
        let here = gray.get_pixel(x, y);
        let across: u16 = if x > 0 && x % 8 == 0 {
            byte_distance(gray.get_pixel(x - 1, y), here) as u16
        } else {
            0
        };
        let down: u16 = if y > 0 && y % 8 == 0 {
            byte_distance(gray.get_pixel(x, y - 1), here) as u16
        } else {
            0
        };
        let value: u8 = if across + down > 255 { 255 } else { (across + down) as u8 };
        data.push(value);
        i += 1;
    }
    let out = GrayRaster::from_raw(width, height, data).unwrap();
    proof {
        assert forall|x: int, y: int| gray@.inside(x, y) implies #[trigger] out@.at(x, y)
            == boundary_value(gray@, x, y) by {
            lemma_offset_in_range(x, y, width as int, height as int);
            lemma_offset_of_position(x, y, width as int);
        }
    }
    out
}

/// The distance between the pixel at `(x, y)` and its lower right neighbour,
/// zero where there is none.
pub open spec fn cell_energy(g: GrayView, x: int, y: int) -> int {
    if x + 1 < g.width && y + 1 < g.height {
        abs_diff(g.at(x, y), g.at(x + 1, y + 1))
    } else {
        0
    }
}

/// The sum of the cell energies of the first `c` cells, row by row, of the
/// 8x8 block at `(x, y)`.
pub open spec fn energy_of_cells(g: GrayView, x: int, y: int, c: int) -> int
    decreases c,
{
    if c <= 0 {
        0
    } else {
        energy_of_cells(g, x, y, c - 1) + cell_energy(g, x + (c - 1) % 8, y + (c - 1) / 8)
    }
}

/// The histogram bin of the 8x8 block at `(x, y)`: a 64th of its energy,
/// at most 255.
pub open spec fn energy_bin(g: GrayView, x: int, y: int) -> int {
    let e = energy_of_cells(g, x, y, 64) / 64;
    if e > 255 {
        255
    } else {
        e
    }
}

/// The number of columns of 8x8 blocks that are examined: those whose corner
/// lies more than eight pixels from the right edge.
pub open spec fn energy_columns(g: GrayView) -> int {
    steps_below(g.width - 8, 8)
}

/// The number of rows of 8x8 blocks that are examined.
pub open spec fn energy_rows(g: GrayView) -> int {
    steps_below(g.height - 8, 8)
}

/// How many of the first `k` examined blocks, row by row, fall into `bin`.
pub open spec fn blocks_in_bin(g: GrayView, k: int, bin: int) -> int
    decreases k,
{
    if k <= 0 {
        0
    } else {
        let nx = energy_columns(g);
        blocks_in_bin(g, k - 1, bin) + if energy_bin(g, 8 * ((k - 1) % nx), 8 * ((k - 1) / nx))
            == bin {
            1int
        } else {
            0int
        }
    }
}

proof fn lemma_blocks_in_bin_bound(g: GrayView, k: int, bin: int)
    requires
        0 <= k,
    ensures
        0 <= blocks_in_bin(g, k, bin) <= k,
    decreases k,
{
    if k > 0 {
        lemma_blocks_in_bin_bound(g, k - 1, bin);
    }
}

/// The histogram bin of the 8x8 block at `(x, y)`.
fn block_energy_bin(gray: &GrayRaster, x: u32, y: u32) -> (bin: u8)
    requires
        x + 8 < gray@.width,
        y + 8 < gray@.height,
    ensures
        bin == energy_bin(gray@, x as int, y as int),
{
    let (width, height) = gray.dimensions();
    let mut energy: u32 = 0;
    let mut c: u32 = 0;
    while c < 64
        invariant
            0 <= c <= 64,
            gray@.width == width,
            gray@.height == height,
            x + 8 < gray@.width,
            y + 8 < gray@.height,
            energy == energy_of_cells(gray@, x as int, y as int, c as int),
            energy <= 255 * c,
        decreases 64 - c,
    {
        let px: u32 = x + c % 8;
        let py: u32 = y + c / 8;
        let here = gray.get_pixel(px, py);
        let there = gray.get_pixel(px + 1, py + 1);
        energy = energy + byte_distance(here, there) as u32;
        c += 1;
    }
    let e: u32 = energy / 64;
    if e > 255 {
        255
    } else {
        e as u8
    }
}

/// The histogram of the energies of the examined 8x8 blocks of a grayscale
/// image.
pub fn energy_histogram(gray: &GrayRaster) -> (histogram: [u64; 256])
    ensures
        forall|bin: int|
            0 <= bin < 256 ==> #[trigger] histogram@[bin] == blocks_in_bin(
                gray@,
                energy_columns(gray@) * energy_rows(gray@),
                bin,
            ),
{
    let (width, height) = gray.dimensions();
    let mut histogram: [u64; 256] = [0u64; 256];
    let x_limit: u32 = if width > 8 { width - 8 } else { 0 };
    let y_limit: u32 = if height > 8 { height - 8 } else { 0 };
    let nx: u32 = count_steps(x_limit, 8);
    let ny: u32 = count_steps(y_limit, 8);
    assert(nx == energy_columns(gray@));
    assert(ny == energy_rows(gray@));
    let mut j: u32 = 0;
    assert(0 * nx == 0) by (nonlinear_arith);
    while j < ny
        invariant
            0 <= j <= ny,
            gray@.wf(),
            gray@.width == width,
            gray@.height == height,
            nx == energy_columns(gray@),
            ny == energy_rows(gray@),
            nx == steps_below(x_limit as int, 8),
            ny == steps_below(y_limit as int, 8),
            x_limit == if width > 8 { width - 8 } else { 0 },
            y_limit == if height > 8 { height - 8 } else { 0 },
            forall|bin: int|
                0 <= bin < 256 ==> #[trigger] histogram@[bin] == blocks_in_bin(gray@, j * nx, bin),
        decreases ny - j,
    {
        proof {
            lemma_step_in_range(j as int, y_limit as int, 8);
        }
        let y: u32 = j * 8;
        let mut i: u32 = 0;
        while i < nx
            invariant
                0 <= i <= nx,
                0 <= j < ny,
                y == j * 8,
                y + 8 < height,
                gray@.wf(),
                gray@.width == width,
                gray@.height == height,
                nx == energy_columns(gray@),
                nx == steps_below(x_limit as int, 8),
                ny == steps_below(y_limit as int, 8),
                x_limit == if width > 8 { width - 8 } else { 0 },
                forall|bin: int|
                    0 <= bin < 256 ==> #[trigger] histogram@[bin] == blocks_in_bin(
                        gray@,
                        j * nx + i,
                        bin,
                    ),
            decreases nx - i,
        {
            proof {
                lemma_step_in_range(i as int, x_limit as int, 8);
            }
            let x: u32 = i * 8;
            let bin = block_energy_bin(gray, x, y);
            let ghost k = j * nx + i;
            proof {
                lemma_offset_of_position(i as int, j as int, nx as int);
                assert(0 <= j * nx) by (nonlinear_arith)
                    requires
                        0 <= j,
                        0 <= nx,
                ;
                lemma_blocks_in_bin_bound(gray@, k, bin as int);
                assert(nx <= 0x2000_0000 && ny <= 0x2000_0000);
                assert(k < 0x2000_0000 * 0x2000_0000) by (nonlinear_arith)
                    requires
                        k == j * nx + i,
                        0 <= i < nx,
                        0 <= j < 0x2000_0000,
                        nx <= 0x2000_0000,
                ;
                assert(8 * ((k + 1 - 1) % (nx as int)) == x);
                assert(8 * ((k + 1 - 1) / (nx as int)) == y);
            }
            let count: u64 = histogram[bin as usize];
            histogram[bin as usize] = count + 1;
            i += 1;
        }
        proof {
            assert((j + 1) * nx == j * nx + nx) by (nonlinear_arith);
        }
        j += 1;
    }
    proof {
        assert(ny * nx == nx * ny) by (nonlinear_arith);
    }
    histogram
}

/// `p` is the position of the first smallest of `totals`.
pub open spec fn is_first_lowest(totals: Seq<u128>, p: int) -> bool {
    &&& 0 <= p < totals.len()
    &&& forall|j: int| 0 <= j < totals.len() ==> totals[p] <= #[trigger] totals[j]
    &&& forall|j: int| 0 <= j < p ==> totals[p] < #[trigger] totals[j]
}

/// The position of the first smallest total, if there is any total.
pub fn first_lowest(totals: &Vec<u128>) -> (r: Option<usize>)
    ensures
        r is None <==> totals@.len() == 0,
        r matches Some(p) ==> is_first_lowest(totals@, p as int),
{
    if totals.len() == 0 {
        return None;
    }
    let mut p: usize = 0;
    let mut i: usize = 1;
    while i < totals.len()
        invariant
            1 <= i <= totals@.len(),
            is_first_lowest(totals@.take(i as int), p as int),
        decreases totals@.len() - i,
    {
        let ghost before = totals@.take(i as int);
        let ghost after = totals@.take(i + 1);
        let ghost old_p = p;
        if totals[i] < totals[p] {
            p = i;
        }
        proof {
            assert forall|j: int| 0 <= j < after.len() implies after[p as int] <= #[trigger] after[j] by {
                if j < i {
                    assert(before[old_p as int] <= before[j]);
                }
            }
            assert forall|j: int| 0 <= j < p implies after[p as int] < #[trigger] after[j] by {
                if p == old_p {
                    assert(before[old_p as int] < before[j]);
                } else {
                    assert(before[old_p as int] <= before[j]);
                }
            }
        }
        i += 1;
    }
    assert(totals@.take(i as int) =~= totals@);
    Some(p)
}

/// One recompression of the quality sweep: the quality and the summed
/// channel distance to the image.
#[derive(Debug, Clone, Copy, PartialEq, Eq, Structural)]
pub struct QualityTrial {
    pub quality: u8,
    pub total: u128,
}

/// The totals of the given trials, in order.
pub open spec fn trial_totals(trials: Seq<QualityTrial>) -> Seq<u128> {
    Seq::new(trials.len(), |i: int| trials[i].total)
}

/// The quality estimate from a sweep: the quality of the first trial with
/// the smallest distance to the image; 75 when there is no trial or the
/// image has no pixel.
pub open spec fn is_quality_estimate(trials: Seq<QualityTrial>, byte_count: int, q: u8) -> bool {
    if trials.len() == 0 || byte_count == 0 {
        q == 75
    } else {
        exists|p: int| is_first_lowest(trial_totals(trials), p) && q == #[trigger] trials[p].quality
    }
}

/// Picks the quality estimate from the trials of a sweep.
pub fn pick_quality(trials: &Vec<QualityTrial>, byte_count: usize) -> (q: u8)
    ensures
        is_quality_estimate(trials@, byte_count as int, q),
{
    if byte_count == 0 {
        return 75;
    }
    let mut totals: Vec<u128> = Vec::new();
    let mut i: usize = 0;
    while i < trials.len()
        invariant
            0 <= i <= trials@.len(),
            totals@.len() == i,
            forall|k: int| 0 <= k < i ==> totals@[k] == trials@[k].total,
        decreases trials@.len() - i,
    {
        totals.push(trials[i].total);
        i += 1;
    }
    assert(totals@ =~= trial_totals(trials@));
    match first_lowest(&totals) {
        None => 75,
        Some(p) => trials[p].quality,
    }
}

/// The best ghost candidate of a sweep so far: its quality, the sum of its
/// difference map, and the map.
#[derive(Debug)]
pub struct GhostCandidate {
    pub quality: u8,
    pub total: u128,
    pub map: GrayRaster,
}

/// A difference map at `quality` replaces the best candidate so far: the
/// quality is below 95, the map has pixels, and its sum is below that of the
/// candidate, if there is one.
pub open spec fn ghost_improves(best: Option<GhostCandidate>, quality: u8, map: GrayView) -> bool {
    &&& quality < 95
    &&& map.pixels.len() > 0
    &&& match best {
        None => true,
        Some(b) => sum_bytes(map.pixels) < b.total,
    }
}

/// Takes the difference map of one more quality into the search for a ghost.
pub fn update_ghost(best: Option<GhostCandidate>, quality: u8, map: GrayRaster) -> (r: Option<
    GhostCandidate,
>)
    ensures
        ghost_improves(best, quality, map@) ==> (r matches Some(c) && c.quality == quality
            && c.total == sum_bytes(map@.pixels) && c.map@ == map@),
        !ghost_improves(best, quality, map@) ==> r == best,
{
    let total = sum_of_pixels(&map);
    let count = map.as_raw().len();
    let improves = quality < 95 && count > 0 && match &best {
        None => true,
        Some(b) => total < b.total,
    };
    if improves {
        Some(GhostCandidate { quality, total, map })
    } else {
        best
    }
}

/// The sweep found a ghost: there is a best candidate, and the mean of its
/// difference map is below 5.
pub open spec fn ghost_found(best: Option<GhostCandidate>) -> bool {
    best matches Some(c) && c.total < 5 * c.map@.pixels.len()
}

/// Whether the sweep found a ghost.
pub fn ghost_detected(best: &Option<GhostCandidate>) -> (r: bool)
    ensures
        r == ghost_found(*best),
{
    match best {
        None => false,
        Some(c) => {
            let count = c.map.as_raw().len();
            c.total < 5 * (count as u128)
        },
    }
}

/// `out` holds the qualities `lo`, `lo + step`, ... below `hi`.
pub open spec fn is_sweep(out: Seq<u8>, lo: int, hi: int, step: int) -> bool {
    &&& out.len() == steps_below(hi - lo, step)
    &&& forall|i: int| 0 <= i < out.len() ==> #[trigger] out[i] == lo + i * step
}

/// The qualities from `lo` up to but not including `hi`, `step` apart.
pub fn quality_sweep(lo: u8, hi: u8, step: u8) -> (out: Vec<u8>)
    requires
        step > 0,
    ensures
        is_sweep(out@, lo as int, hi as int, step as int),
{
    let limit: u32 = if hi > lo { (hi - lo) as u32 } else { 0 };
    let n: u32 = count_steps(limit, step as u32);
    let mut out: Vec<u8> = Vec::new();
    let mut i: u32 = 0;
    while i < n
        invariant
            0 <= i <= n,
            step > 0,
            limit == if hi > lo { hi - lo } else { 0 },
            n == steps_below(limit as int, step as int),
            out@.len() == i,
            forall|k: int| 0 <= k < i ==> #[trigger] out@[k] == lo + k * step,
        decreases n - i,
    {
        proof {
            lemma_step_in_range(i as int, limit as int, step as int);
        }
        let q: u32 = lo as u32 + i * (step as u32);
        out.push(q as u8);
        i += 1;
    }
    out
}

/// What the JPEG analysis finds without any estimate of likelihood: the
/// trials of the quality sweep and the estimate picked from them, the
/// trials of the ghost sweep, its best candidate and whether it is a ghost,
/// the blocking artifacts and the histogram of block energies.
#[derive(Debug)]
pub struct JpegEvidence {
    pub trials: Vec<QualityTrial>,
    pub quality_estimate: u8,
    pub ghost_trials: Vec<QualityTrial>,
    pub best_ghost: Option<GhostCandidate>,
    pub ghost_detected: bool,
    pub blocking_artifact_map: GrayRaster,
    pub energy_histogram: [u64; 256],
}

/// The trials are those of the qualities from `lo` up to but not including
/// `hi`, `step` apart, in order.
pub open spec fn trials_follow(trials: Seq<QualityTrial>, lo: int, hi: int, step: int) -> bool {
    &&& trials.len() == steps_below(hi - lo, step)
    &&& forall|k: int|
        0 <= k < trials.len() ==> (#[trigger] trials[k]).quality == lo + k * step
}

/// The trial at `p` is the pick of a ghost sweep: its quality is below 95,
/// no trial of a quality below 95 has a lower total, and each earlier one
/// has a higher total.
pub open spec fn is_ghost_pick(trials: Seq<QualityTrial>, p: int) -> bool {
    &&& 0 <= p < trials.len()
    &&& trials[p].quality < 95
    &&& forall|k: int|
        0 <= k < trials.len() && (#[trigger] trials[k]).quality < 95 ==> trials[p].total
            <= trials[k].total
    &&& forall|k: int|
        0 <= k < p && (#[trigger] trials[k]).quality < 95 ==> trials[p].total < trials[k].total
}

/// `best` is the best candidate of the trials of a ghost sweep over an
/// image of `pixels` pixels: the pick of the trials, and none when the
/// image has no pixel or no trial has a quality below 95.
pub open spec fn is_best_ghost(
    best: Option<GhostCandidate>,
    trials: Seq<QualityTrial>,
    pixels: int,
) -> bool {
    match best {
        None => pixels == 0 || forall|k: int|
            0 <= k < trials.len() ==> (#[trigger] trials[k]).quality >= 95,
        Some(c) => pixels > 0 && exists|p: int|
            is_ghost_pick(trials, p) && (#[trigger] trials[p]).quality == c.quality
                && trials[p].total == c.total,
    }
}

/// The quality `q` is one of `lo`, `lo + step`, ... below `hi`.
pub open spec fn swept(q: int, lo: int, hi: int, step: int) -> bool {
    lo <= q < hi && (q - lo) % step == 0
}

/// `c` is a candidate of a ghost sweep over an image of the given size: its
/// quality is below 95, its map has the size of the image and at least one
/// pixel, and its total is the sum of the map.
pub open spec fn is_ghost_candidate(c: GhostCandidate, width: nat, height: nat) -> bool {
    &&& c.quality < 95
    &&& c.map@.wf() && c.map@.width == width && c.map@.height == height
    &&& c.map@.pixels.len() > 0
    &&& c.total == sum_bytes(c.map@.pixels)
}

/// No trial has a total above what `limit` values of 255 sum to.
pub open spec fn totals_within(trials: Seq<QualityTrial>, limit: int) -> bool {
    forall|k: int| 0 <= k < trials.len() ==> (#[trigger] trials[k]).total <= 255 * limit
}

/// `e` is what the JPEG analysis finds in the image when the ghost sweep
/// runs from `lo` up to `hi` in steps of `step`, given the totals that the
/// recompressions led to.
pub open spec fn is_jpeg_evidence(e: JpegEvidence, v: RgbView, lo: int, hi: int, step: int) -> bool {
    &&& e.blocking_artifact_map@.wf()
    &&& e.blocking_artifact_map@.same_size(gray_of(v))
    &&& forall|x: int, y: int|
        v.inside(x, y) ==> #[trigger] e.blocking_artifact_map@.at(x, y) == blocking_value(
            gray_of(v),
            x,
            y,
        )
    &&& forall|bin: int|
        0 <= bin < 256 ==> #[trigger] e.energy_histogram@[bin] == blocks_in_bin(
            gray_of(v),
            energy_columns(gray_of(v)) * energy_rows(gray_of(v)),
            bin,
        )
    &&& trials_follow(e.trials@, 50, 100, 5)
    &&& totals_within(e.trials@, v.bytes.len() as int)
    &&& is_quality_estimate(e.trials@, v.bytes.len() as int, e.quality_estimate)
    &&& trials_follow(e.ghost_trials@, lo, hi, step)
    &&& totals_within(e.ghost_trials@, (v.width * v.height) as int)
    &&& is_best_ghost(e.best_ghost, e.ghost_trials@, (v.width * v.height) as int)
    &&& e.best_ghost matches Some(c) ==> is_ghost_candidate(c, v.width, v.height)
    &&& e.ghost_detected == ghost_found(e.best_ghost)
}

/// `q` is the estimate picked from the given trials of the quality sweep
/// over an image of `byte_count` bytes.
pub open spec fn is_sweep_estimate_of(trials: Seq<QualityTrial>, q: u8, byte_count: int) -> bool {
    trials_follow(trials, 50, 100, 5) && totals_within(trials, byte_count) && is_quality_estimate(
        trials,
        byte_count,
        q,
    )
}

/// `q` is the estimate picked from some trials of the quality sweep over an
/// image of `byte_count` bytes.
pub open spec fn is_swept_estimate(q: u8, byte_count: int) -> bool {
    exists|trials: Seq<QualityTrial>| #[trigger] is_sweep_estimate_of(trials, q, byte_count)
}

/// Each of the rasters has the size of the image.
pub open spec fn same_sized(rasters: Seq<RgbRaster>, v: RgbView) -> bool {
    forall|k: int|
        0 <= k < rasters.len() ==> (#[trigger] rasters[k])@.wf() && rasters[k]@.width == v.width
            && rasters[k]@.height == v.height
}

/// The trials measure the recompressions at the given qualities: each
/// total is the summed channel distance between the image and the
/// recompression.
pub open spec fn is_trials_of(
    trials: Seq<QualityTrial>,
    v: RgbView,
    qualities: Seq<u8>,
    rasters: Seq<RgbRaster>,
) -> bool {
    &&& trials.len() == qualities.len()
    &&& forall|k: int|
        0 <= k < trials.len() ==> (#[trigger] trials[k]).quality == qualities[k] && trials[k].total
            == total_distance(v.bytes, rasters[k]@.bytes)
}

/// The trials measure the difference maps of the recompressions at the
/// given qualities: each total is the sum of the map.
pub open spec fn is_ghost_trials_of(
    trials: Seq<QualityTrial>,
    v: RgbView,
    qualities: Seq<u8>,
    rasters: Seq<RgbRaster>,
) -> bool {
    &&& trials.len() == qualities.len()
    &&& forall|k: int|
        0 <= k < trials.len() ==> (#[trigger] trials[k]).quality == qualities[k] && trials[k].total
            == sum_bytes(difference_of(v, rasters[k]@).pixels)
}

/// The map of the best candidate is the difference map of one of the
/// recompressions, at the candidate's quality.
pub open spec fn is_ghost_map_of(
    best: Option<GhostCandidate>,
    v: RgbView,
    qualities: Seq<u8>,
    rasters: Seq<RgbRaster>,
) -> bool {
    best matches Some(c) ==> exists|p: int|
        0 <= p < qualities.len() && #[trigger] qualities[p] == c.quality && c.map@ == difference_of(
            v,
            rasters[p]@,
        )
}

/// The qualities of a sweep from at least 1 up to at most 100 are valid.
proof fn lemma_sweep_is_valid(qualities: Seq<u8>, lo: int, hi: int, step: int)
    requires
        is_sweep(qualities, lo, hi, step),
        1 <= lo,
        hi <= 100,
        step > 0,
    ensures
        forall|k: int| 0 <= k < qualities.len() ==> valid_quality(#[trigger] qualities[k]),
{
    assert forall|k: int| 0 <= k < qualities.len() implies valid_quality(
        #[trigger] qualities[k],
    ) by {
        lemma_step_in_range(k, hi - lo, step);
    }
}

/// One more trial keeps the best candidate the pick of the trials.
proof fn lemma_ghost_step(
    before: Option<GhostCandidate>,
    after: Option<GhostCandidate>,
    earlier: Seq<QualityTrial>,
    trials: Seq<QualityTrial>,
    pixels: int,
)
    requires
        pixels >= 0,
        earlier.len() + 1 == trials.len(),
        earlier =~= trials.drop_last(),
        is_best_ghost(before, earlier, pixels),
        trials.last().quality < 95 && pixels > 0 && (before matches Some(b) ==> trials.last().total
            < b.total) ==> (after matches Some(c) && c.quality == trials.last().quality && c.total
            == trials.last().total),
        !(trials.last().quality < 95 && pixels > 0 && (before matches Some(b)
            ==> trials.last().total < b.total)) ==> after == before,
    ensures
        is_best_ghost(after, trials, pixels),
{
    let n = earlier.len() as int;
    assert(forall|k: int| 0 <= k < n ==> trials[k] == earlier[k]);
    let last = trials.last();
    let improves = last.quality < 95 && pixels > 0 && (before matches Some(b) ==> last.total
        < b.total);
    if improves {
        match before {
            None => {
                assert(forall|k: int| 0 <= k < n ==> (#[trigger] trials[k]).quality >= 95);
            },
            Some(b) => {
                let p = choose|p: int|
                    is_ghost_pick(earlier, p) && (#[trigger] earlier[p]).quality == b.quality
                        && earlier[p].total == b.total;
                assert forall|k: int| 0 <= k < n && (#[trigger] trials[k]).quality
                    < 95 implies last.total < trials[k].total by {
                    assert(earlier[k].quality < 95);
                }
            },
        }
        assert(is_ghost_pick(trials, n));
        assert(trials[n] == last);
    } else {
        match before {
            None => {
                if pixels != 0 {
                    assert forall|k: int| 0 <= k < trials.len() implies (#[trigger] trials[k]).quality
                        >= 95 by {
                        if k < n {
                            assert(earlier[k].quality >= 95);
                        } else {
                            assert(trials[k] == last);
                        }
                    }
                }
            },
            Some(b) => {
                let p = choose|p: int|
                    is_ghost_pick(earlier, p) && (#[trigger] earlier[p]).quality == b.quality
                        && earlier[p].total == b.total;
                assert forall|k: int| 0 <= k < trials.len() && (#[trigger] trials[k]).quality
                    < 95 implies trials[p].total <= trials[k].total by {
                    if k < n {
                        assert(earlier[k].quality < 95);
                    } else {
                        assert(trials[k] == last);
                    }
                }
                assert forall|k: int| 0 <= k < p && (#[trigger] trials[k]).quality
                    < 95 implies trials[p].total < trials[k].total by {
                    assert(earlier[k].quality < 95);
                }
                assert(is_ghost_pick(trials, p));
                assert(trials[p].quality == b.quality && trials[p].total == b.total);
            },
        }
    }
}

/// The best candidate of a sweep has a swept quality, and there is one when
/// the image has pixels and the sweep holds a quality below 95.
proof fn lemma_best_is_swept(
    best: Option<GhostCandidate>,
    trials: Seq<QualityTrial>,
    pixels: int,
    lo: int,
    hi: int,
    step: int,
)
    requires
        step > 0,
        trials_follow(trials, lo, hi, step),
        is_best_ghost(best, trials, pixels),
    ensures
        best is Some <==> pixels > 0 && lo < hi && lo < 95,
        best matches Some(c) ==> swept(c.quality as int, lo, hi, step),
{
    match best {
        None => {
            if pixels > 0 && lo < hi && lo < 95 {
                assert(steps_below(hi - lo, step) >= 1) by {
                    lemma_div_pos_is_pos(hi - lo - 1, step);
                }
                assert(trials[0].quality == lo + 0 * step);
            }
        },
        Some(c) => {
            let p = choose|p: int|
                is_ghost_pick(trials, p) && (#[trigger] trials[p]).quality == c.quality
                    && trials[p].total == c.total;
            lemma_step_in_range(p, hi - lo, step);
            assert(trials[p].quality == lo + p * step);
            lemma_mod_multiples_basic(p, step);
            assert(0 <= p * step) by (nonlinear_arith)
                requires
                    0 <= p,
                    0 < step,
            ;
        },
    }
}

/// Recompresses the image at each of the given qualities, in order. With
/// no quality there is nothing to recompress and the result is empty.
pub fn recompressions(image: &RgbRaster, qualities: &Vec<u8>) -> (r: Result<
    Vec<RgbRaster>,
    ForensicsError,
>)
    ensures
        qualities@.len() == 0 ==> r is Ok,
        r matches Ok(rasters) ==> rasters@.len() == qualities@.len() && same_sized(
            rasters@,
            image@,
        ),
        (exists|k: int| 0 <= k < qualities@.len() && !valid_quality(#[trigger] qualities@[k]))
            ==> r is Err,
        (forall|k: int| 0 <= k < qualities@.len() ==> valid_quality(#[trigger] qualities@[k]))
            ==> !(r matches Err(ForensicsError::InvalidParameter(_))),
{
    let mut rasters: Vec<RgbRaster> = Vec::new();
    let mut i: usize = 0;
    while i < qualities.len()
        invariant
            0 <= i <= qualities@.len(),
            rasters@.len() == i,
            same_sized(rasters@, image@),
            forall|k: int| 0 <= k < i ==> valid_quality(#[trigger] qualities@[k]),
        decreases qualities@.len() - i,
    {
        let recompressed = match recompress(image, qualities[i]) {
            Ok(out) => out,
            Err(e) => {
                return Err(e);
            },
        };
        let ghost earlier = rasters@;
        rasters.push(recompressed);
        proof {
            assert forall|k: int| 0 <= k < rasters@.len() implies (#[trigger] rasters@[k])@.wf()
                && rasters@[k]@.width == image@.width && rasters@[k]@.height
                == image@.height by {
                if k < i {
                    assert(rasters@[k] == earlier[k]);
                }
            }
        }
        i += 1;
    }
    Ok(rasters)
}

/// Measures the recompressions of a quality sweep: for each the summed
/// channel distance to the image.
pub fn measure_trials(image: &RgbRaster, qualities: &Vec<u8>, rasters: &Vec<RgbRaster>) -> (trials:
    Vec<QualityTrial>)
    requires
        rasters@.len() == qualities@.len(),
        same_sized(rasters@, image@),
    ensures
        is_trials_of(trials@, image@, qualities@, rasters@),
        totals_within(trials@, image@.bytes.len() as int),
{
    let (width, height) = image.dimensions();
    let mut trials: Vec<QualityTrial> = Vec::new();
    let mut i: usize = 0;
    while i < qualities.len()
        invariant
            0 <= i <= qualities@.len(),
            rasters@.len() == qualities@.len(),
            same_sized(rasters@, image@),
            image@.wf(),
            trials@.len() == i,
            forall|k: int|
                0 <= k < i ==> (#[trigger] trials@[k]).quality == qualities@[k]
                    && trials@[k].total == total_distance(image@.bytes, rasters@[k]@.bytes)
                    && trials@[k].total <= 255 * image@.bytes.len(),
        decreases qualities@.len() - i,
    {
        assert(rasters@[i as int]@.wf());
        let total = calculate_image_difference(image, &rasters[i]);
        proof {
            lemma_total_distance_bound(image@.bytes, rasters@[i as int]@.bytes);
        }
        trials.push(QualityTrial { quality: qualities[i], total });
        i += 1;
    }
    trials
}

/// Searches the recompressions of a ghost sweep: the sum of each difference
/// map is listed as a trial, and the best candidate is kept, the first of
/// the qualities below 95 whose difference map has the lowest sum.
pub fn ghost_from(image: &RgbRaster, qualities: &Vec<u8>, rasters: &Vec<RgbRaster>) -> (found: (
    Vec<QualityTrial>,
    Option<GhostCandidate>,
))
    requires
        rasters@.len() == qualities@.len(),
        same_sized(rasters@, image@),
    ensures
        is_ghost_trials_of(found.0@, image@, qualities@, rasters@),
        totals_within(found.0@, (image@.width * image@.height) as int),
        is_best_ghost(found.1, found.0@, (image@.width * image@.height) as int),
        is_ghost_map_of(found.1, image@, qualities@, rasters@),
        found.1 matches Some(c) ==> is_ghost_candidate(c, image@.width, image@.height),
{
    let (width, height) = image.dimensions();
    let mut trials: Vec<QualityTrial> = Vec::new();
    let mut best: Option<GhostCandidate> = None;
    let mut i: usize = 0;
    while i < qualities.len()
        invariant
            0 <= i <= qualities@.len(),
            rasters@.len() == qualities@.len(),
            same_sized(rasters@, image@),
            image@.wf(),
            image@.width == width,
            image@.height == height,
            trials@.len() == i,
            forall|k: int|
                0 <= k < i ==> (#[trigger] trials@[k]).quality == qualities@[k]
                    && trials@[k].total == sum_bytes(difference_of(image@, rasters@[k]@).pixels)
                    && trials@[k].total <= 255 * (width * height),
            is_best_ghost(best, trials@, width * height),
            best matches Some(c) ==> is_ghost_candidate(c, width as nat, height as nat),
            best matches Some(c) ==> exists|p: int|
                0 <= p < i && #[trigger] qualities@[p] == c.quality && c.map@ == difference_of(
                    image@,
                    rasters@[p]@,
                ),
        decreases qualities@.len() - i,
    {
        let q = qualities[i];
        assert(rasters@[i as int]@.wf());
        let map = create_difference_map(image, &rasters[i]);
        let total = sum_of_pixels(&map);
        let ghost before = best;
        let ghost earlier = trials@;
        trials.push(QualityTrial { quality: q, total });
        best = update_ghost(best, q, map);
        proof {
            lemma_ghost_step(before, best, earlier, trials@, width * height);
            if best != before {
                assert(qualities@[i as int] == best->Some_0.quality);
            } else if before is Some {
                let p = choose|p: int|
                    0 <= p < i && #[trigger] qualities@[p] == before->Some_0.quality
                        && before->Some_0.map@ == difference_of(image@, rasters@[p]@);
                assert(qualities@[p] == best->Some_0.quality);
            }
        }
        i += 1;
    }
    (trials, best)
}

/// The JPEG analyzer: the range and step of the qualities it sweeps in
/// search of a ghost.
#[derive(Debug, Clone, Copy)]
pub struct JpegAnalyzer {
    ghost_quality_range: (u8, u8),
    ghost_quality_step: u8,
}

impl Default for JpegAnalyzer {
    fn default() -> (r: JpegAnalyzer)
        ensures
            r.ghost_range() == (60u8, 100u8),
            r.ghost_step() == 5,
    {
        JpegAnalyzer::new()
    }
}

impl JpegAnalyzer {
    #[verifier::type_invariant]
    spec fn inv(self) -> bool {
        self.ghost_quality_step > 0 && self.ghost_quality_range.1 <= 100
            && self.ghost_quality_range.0 >= 1
    }

    /// The first and the end of the qualities swept for a ghost.
    pub closed spec fn ghost_range(&self) -> (u8, u8) {
        self.ghost_quality_range
    }

    /// The step between two qualities swept for a ghost.
    pub closed spec fn ghost_step(&self) -> u8 {
        self.ghost_quality_step
    }

    /// The analyzer that sweeps the qualities 60, 65, ..., 95.
    pub fn new() -> (r: JpegAnalyzer)
        ensures
            r.ghost_range() == (60u8, 100u8),
            r.ghost_step() == 5,
    {
        JpegAnalyzer { ghost_quality_range: (60, 100), ghost_quality_step: 5 }
    }

    /// Recompresses the image at the qualities 50, 55, ..., 95 and measures
    /// the distance of each recompression to the image.
    pub fn sweep_qualities(&self, image: &RgbRaster) -> (r: Result<
        Vec<QualityTrial>,
        ForensicsError,
    >)
        ensures
            r matches Ok(trials) ==> trials_follow(trials@, 50, 100, 5) && totals_within(
                trials@,
                image@.bytes.len() as int,
            ),
            !(r matches Err(ForensicsError::InvalidParameter(_))),
    {
        let qualities = quality_sweep(50, 100, 5);
        proof {
            lemma_sweep_is_valid(qualities@, 50, 100, 5);
        }
        match recompressions(image, &qualities) {
            Ok(rasters) => Ok(measure_trials(image, &qualities, &rasters)),
            Err(e) => Err(e),
        }
    }

    /// Estimates the quality at which the image was last compressed: of the
    /// qualities 50, 55, ..., 95 the first whose recompression is closest to
    /// the image.
    pub fn estimate_quality(&self, image: &RgbRaster) -> (r: Result<u8, ForensicsError>)
        ensures
            r matches Ok(q) ==> (q == 75 && image@.bytes.len() == 0) || (50 <= q <= 95 && q % 5
                == 0),
            r matches Ok(q) ==> is_swept_estimate(q, image@.bytes.len() as int),
            !(r matches Err(ForensicsError::InvalidParameter(_))),
    {
        let trials = match self.sweep_qualities(image) {
            Ok(trials) => trials,
            Err(e) => {
                return Err(e);
            },
        };
        let byte_count = image.as_raw().len();
        let q = pick_quality(&trials, byte_count);
        proof {
            if byte_count != 0 {
                let p = choose|p: int|
                    is_first_lowest(trial_totals(trials@), p) && q == #[trigger] trials@[p].quality;
                assert(q == 50 + p * 5);
            }
            assert(is_sweep_estimate_of(trials@, q, image@.bytes.len() as int));
        }
        Ok(q)
    }

    /// Sweeps the ghost qualities: the image is recompressed at each of
    /// them, the sum of each difference map is listed as a trial, and the
    /// best candidate is kept, the first of the qualities below 95 whose
    /// difference map has the lowest sum.
    pub fn sweep_ghost_trials(&self, image: &RgbRaster) -> (r: Result<
        (Vec<QualityTrial>, Option<GhostCandidate>),
        ForensicsError,
    >)
        ensures
            r matches Ok(found) ==> {
                &&& trials_follow(
                    found.0@,
                    self.ghost_range().0 as int,
                    self.ghost_range().1 as int,
                    self.ghost_step() as int,
                )
                &&& totals_within(found.0@, (image@.width * image@.height) as int)
                &&& is_best_ghost(found.1, found.0@, (image@.width * image@.height) as int)
                &&& found.1 matches Some(c) ==> is_ghost_candidate(c, image@.width, image@.height)
            },
            self.ghost_range().0 >= self.ghost_range().1 ==> r is Ok,
            !(r matches Err(ForensicsError::InvalidParameter(_))),
    {
        proof {
            use_type_invariant(self);
        }
        let qualities = quality_sweep(
            self.ghost_quality_range.0,
            self.ghost_quality_range.1,
            self.ghost_quality_step,
        );
        proof {
            lemma_sweep_is_valid(
                qualities@,
                self.ghost_quality_range.0 as int,
                self.ghost_quality_range.1 as int,
                self.ghost_quality_step as int,
            );
        }
        match recompressions(image, &qualities) {
            Ok(rasters) => Ok(ghost_from(image, &qualities, &rasters)),
            Err(e) => Err(e),
        }
    }

    /// Sweeps the ghost qualities and keeps the best candidate: of the
    /// qualities below 95 the first whose difference map has the lowest sum.
    /// There is a candidate when the image has pixels and the sweep holds a
    /// quality below 95.
    pub fn sweep_ghost(&self, image: &RgbRaster) -> (r: Result<
        Option<GhostCandidate>,
        ForensicsError,
    >)
        ensures
            r matches Ok(best) ==> {
                &&& best is Some <==> image@.width * image@.height > 0 && self.ghost_range().0
                    < self.ghost_range().1 && self.ghost_range().0 < 95
                &&& best matches Some(c) ==> is_ghost_candidate(c, image@.width, image@.height)
                    && swept(
                    c.quality as int,
                    self.ghost_range().0 as int,
                    self.ghost_range().1 as int,
                    self.ghost_step() as int,
                )
            },
            self.ghost_range().0 >= self.ghost_range().1 ==> r is Ok,
            !(r matches Err(ForensicsError::InvalidParameter(_))),
    {
        proof {
            use_type_invariant(self);
        }
        match self.sweep_ghost_trials(image) {
            Ok((trials, best)) => {
                proof {
                    lemma_best_is_swept(
                        best,
                        trials@,
                        (image@.width * image@.height) as int,
                        self.ghost_quality_range.0 as int,
                        self.ghost_quality_range.1 as int,
                        self.ghost_quality_step as int,
                    );
                }
                Ok(best)
            },
            Err(e) => Err(e),
        }
    }

    /// Sweeps the ghost qualities and reports whether a ghost was found,
    /// with the difference map of the best candidate: there is a ghost when
    /// there is a candidate and the mean of its map is below 5. The map is
    /// all zero when no quality gave a candidate.
    pub fn detect_ghost(&self, image: &RgbRaster) -> (r: Result<(bool, GrayRaster), ForensicsError>)
        ensures
            r matches Ok(found) ==> found.1@.wf() && found.1@.width == image@.width
                && found.1@.height == image@.height,
            r matches Ok(found) ==> (found.0 <==> image@.width * image@.height > 0
                && self.ghost_range().0 < self.ghost_range().1 && self.ghost_range().0 < 95
                && sum_bytes(found.1@.pixels) < 5 * found.1@.pixels.len()),
            !(r matches Err(ForensicsError::InvalidParameter(_))),
    {
        let (width, height) = image.dimensions();
        let best = match self.sweep_ghost(image) {
            Ok(best) => best,
            Err(e) => {
                return Err(e);
            },
        };
        let found = ghost_detected(&best);
        match best {
            Some(c) => Ok((found, c.map)),
            None => {
                match GrayRaster::new(width, height) {
                    Some(blank) => Ok((found, blank)),
                    None => Err(
                        ForensicsError::AnalysisFailed("Image is too large to map".to_owned()),
                    ),
                }
            },
        }
    }

    /// What the JPEG analysis finds in an image, given its recompressions
    /// at the qualities 50, 55, ..., 95 of the quality sweep and at those
    /// of the ghost sweep.
    pub fn evidence_from(
        &self,
        image: &RgbRaster,
        quality_rasters: &Vec<RgbRaster>,
        ghost_rasters: &Vec<RgbRaster>,
    ) -> (e: JpegEvidence)
        requires
            quality_rasters@.len() == steps_below(50, 5),
            ghost_rasters@.len() == steps_below(
                self.ghost_range().1 - self.ghost_range().0,
                self.ghost_step() as int,
            ),
            same_sized(quality_rasters@, image@),
            same_sized(ghost_rasters@, image@),
        ensures
            is_jpeg_evidence(
                e,
                image@,
                self.ghost_range().0 as int,
                self.ghost_range().1 as int,
                self.ghost_step() as int,
            ),
            forall|k: int|
                0 <= k < e.trials@.len() ==> (#[trigger] e.trials@[k]).total == total_distance(
                    image@.bytes,
                    quality_rasters@[k]@.bytes,
                ),
            forall|k: int|
                0 <= k < e.ghost_trials@.len() ==> (#[trigger] e.ghost_trials@[k]).total
                    == sum_bytes(difference_of(image@, ghost_rasters@[k]@).pixels),
            e.best_ghost matches Some(c) ==> exists|p: int|
                0 <= p < e.ghost_trials@.len() && (#[trigger] e.ghost_trials@[p]).quality
                    == c.quality && c.map@ == difference_of(image@, ghost_rasters@[p]@),
    {
        proof {
            use_type_invariant(self);
        }
        let qualities = quality_sweep(50, 100, 5);
        let trials = measure_trials(image, &qualities, quality_rasters);
        let quality_estimate = pick_quality(&trials, image.as_raw().len());
        let ghost_qualities = quality_sweep(
            self.ghost_quality_range.0,
            self.ghost_quality_range.1,
            self.ghost_quality_step,
        );
        let (ghost_trials, best_ghost) = ghost_from(image, &ghost_qualities, ghost_rasters);
        let found = ghost_detected(&best_ghost);
        let gray = rgb_to_gray(image);
        let blocking_artifact_map = analyze_blocking_artifacts(&gray);
        let histogram = energy_histogram(&gray);
        proof {
            if best_ghost is Some {
                let c = best_ghost->Some_0;
                let p = choose|p: int|
                    0 <= p < ghost_qualities@.len() && #[trigger] ghost_qualities@[p] == c.quality
                        && c.map@ == difference_of(image@, ghost_rasters@[p]@);
                assert(ghost_trials@[p].quality == c.quality);
            }
        }
        JpegEvidence {
            trials,
            quality_estimate,
            ghost_trials,
            best_ghost,
            ghost_detected: found,
            blocking_artifact_map,
            energy_histogram: histogram,
        }
    }

    /// Runs the JPEG analysis on an image: the image is recompressed at the
    /// qualities of the two sweeps and the evidence is taken from the
    /// recompressions.
    pub fn analyze(&self, image: &RgbRaster) -> (r: Result<JpegEvidence, ForensicsError>)
        ensures
            r matches Ok(e) ==> is_jpeg_evidence(
                e,
                image@,
                self.ghost_range().0 as int,
                self.ghost_range().1 as int,
                self.ghost_step() as int,
            ),
            !(r matches Err(ForensicsError::InvalidParameter(_))),
    {
        proof {
            use_type_invariant(self);
        }
        let qualities = quality_sweep(50, 100, 5);
        let ghost_qualities = quality_sweep(
            self.ghost_quality_range.0,
            self.ghost_quality_range.1,
            self.ghost_quality_step,
        );
        proof {
            lemma_sweep_is_valid(qualities@, 50, 100, 5);
            lemma_sweep_is_valid(
                ghost_qualities@,
                self.ghost_quality_range.0 as int,
                self.ghost_quality_range.1 as int,
                self.ghost_quality_step as int,
            );
        }
        let quality_rasters = match recompressions(image, &qualities) {
            Ok(rasters) => rasters,
            Err(e) => {
                return Err(e);
            },
        };
        let ghost_rasters = match recompressions(image, &ghost_qualities) {
            Ok(rasters) => rasters,
            Err(e) => {
                return Err(e);
            },
        };
        Ok(self.evidence_from(image, &quality_rasters, &ghost_rasters))
    }
}

} // verus!
