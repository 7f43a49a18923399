//! Regular grids of block corners over an image.

use vstd::prelude::*;
use vstd::arithmetic::div_mod::lemma_fundamental_div_mod;
use crate::raster::lemma_position_of_offset;
use crate::region::SRegion;

verus! {

/// The number of multiples of `step` below `limit`.
pub open spec fn steps_below(limit: int, step: int) -> int {
    if limit <= 0 {
        0
    } else {
        (limit - 1) / step + 1
    }
}

/// `positions` holds the corners `(i * step, j * step)` with
/// `i * step < x_limit` and `j * step < y_limit`, row by row.
pub open spec fn is_grid(positions: Seq<(u32, u32)>, x_limit: int, y_limit: int, step: int) -> bool {
    let nx = steps_below(x_limit, step);
    let ny = steps_below(y_limit, step);
    &&& positions.len() == nx * ny
    &&& forall|i: int, j: int|
        0 <= i < nx && 0 <= j < ny ==> (#[trigger] positions[j * nx + i]).0 == i * step
            && positions[j * nx + i].1 == j * step
}

/// The `i`-th multiple of `step` lies below `limit` when `i` is below the
/// number of such multiples.
pub proof fn lemma_step_in_range(i: int, limit: int, step: int)
    requires
        0 < step,
        0 <= i < steps_below(limit, step),
    ensures
        0 <= i * step < limit,
{
    lemma_fundamental_div_mod(limit - 1, step);
    let q = (limit - 1) / step;
    assert(i * step <= q * step) by (nonlinear_arith)
        requires
            0 <= i <= q,
            0 < step,
    ;
    assert(step * q == q * step) by (nonlinear_arith);
    assert(0 <= (limit - 1) % step) by (nonlinear_arith)
        requires
            0 < step,
    ;
    assert(0 <= i * step) by (nonlinear_arith)
        requires
            0 <= i,
            0 < step,
    ;
}

/// The number of multiples of `step` below `limit`.
pub fn count_steps(limit: u32, step: u32) -> (n: u32)
    requires
        step > 0,
    ensures
        n == steps_below(limit as int, step as int),
{
    if limit == 0 {
        0
    } else {
        let q = (limit - 1) / step;
        assert(q <= limit - 1) by (nonlinear_arith)
            requires
                q == (limit - 1) / (step as int),
                step >= 1,
                limit >= 1,
        ;
        q + 1
    }
}

/// The corners `(i * step, j * step)` with `i * step < x_limit` and
/// `j * step < y_limit`, row by row.
pub fn grid_positions(x_limit: u32, y_limit: u32, step: u32) -> (positions: Vec<(u32, u32)>)
    requires
        step > 0,
    ensures
        is_grid(positions@, x_limit as int, y_limit as int, step as int),
{
    let nx: u32 = count_steps(x_limit, step);
    let ny: u32 = count_steps(y_limit, step);
    let mut positions: Vec<(u32, u32)> = Vec::new();
    let mut j: u32 = 0;
    while j < ny
        invariant
            0 <= j <= ny,
            step > 0,
            nx == steps_below(x_limit as int, step as int),
            ny == steps_below(y_limit as int, step as int),
            positions@.len() == j * nx,
            forall|a: int, b: int|
                0 <= a < nx && 0 <= b < j ==> (#[trigger] positions@[b * nx + a]).0 == a * step
                    && positions@[b * nx + a].1 == b * step,
        decreases ny - j,
    {
        proof {
            lemma_step_in_range(j as int, y_limit as int, step as int);
        }
        let y: u32 = j * step;
        let mut i: u32 = 0;
        while i < nx
            invariant
                0 <= i <= nx,
                0 <= j < ny,
                step > 0,
                y == j * step,
                nx == steps_below(x_limit as int, step as int),
                positions@.len() == j * nx + i,
                forall|a: int, b: int|
                    0 <= a < nx && 0 <= b < j ==> (#[trigger] positions@[b * nx + a]).0 == a
                        * step && positions@[b * nx + a].1 == b * step,
                forall|a: int|
                    0 <= a < i ==> (#[trigger] positions@[j * nx + a]).0 == a * step
                        && positions@[j * nx + a].1 == j * step,
            decreases nx - i,
        {
            proof {
                lemma_step_in_range(i as int, x_limit as int, step as int);
            }
            let x: u32 = i * step;
            let ghost before = positions@;
            positions.push((x, y));
            proof {
                assert forall|a: int, b: int| 0 <= a < nx && 0 <= b < j implies (
                #[trigger] positions@[b * nx + a]).0 == a * step && positions@[b * nx + a].1
                    == b * step by {
                    assert(0 <= b * nx + a < j * nx) by (nonlinear_arith)
                        requires
                            0 <= a < nx,
                            0 <= b < j,
                    ;
                    assert(positions@[b * nx + a] == before[b * nx + a]);
                }
                assert forall|a: int| 0 <= a < i + 1 implies (#[trigger] positions@[j * nx
                    + a]).0 == a * step && positions@[j * nx + a].1 == j * step by {
                    if a < i {
                        assert(positions@[j * nx + a] == before[j * nx + a]);
                    }
                }
            }
            i += 1;
        }
        proof {
            assert((j + 1) * nx == j * nx + nx) by (nonlinear_arith);
            assert forall|a: int, b: int| 0 <= a < nx && 0 <= b < j + 1 implies (
            #[trigger] positions@[b * nx + a]).0 == a * step && positions@[b * nx + a].1 == b
                * step by {
                if b == j {
                    assert(positions@[j * nx + a].0 == a * step);
                }
            }
        }
        j += 1;
    }
    proof {
        assert(ny * nx == nx * ny) by (nonlinear_arith);
    }
    positions
}

/// The block at column `i` and row `j` of the grid of side `block_size`,
/// clipped at the edges of a `width` by `height` image.
pub open spec fn grid_block(i: int, j: int, width: int, height: int, block_size: int) -> SRegion {
    let x = i * block_size;
    let y = j * block_size;
    SRegion {
        x: x as u32,
        y: y as u32,
        width: (if x + block_size <= width { block_size } else { width - x }) as u32,
        height: (if y + block_size <= height { block_size } else { height - y }) as u32,
    }
}

/// `blocks` holds the blocks of side `block_size` that tile a `width` by
/// `height` image, row by row, those at the right and lower edge clipped.
pub open spec fn is_tiling(blocks: Seq<SRegion>, width: int, height: int, block_size: int) -> bool {
    let nx = steps_below(width, block_size);
    let ny = steps_below(height, block_size);
    &&& blocks.len() == nx * ny
    &&& forall|i: int, j: int|
        0 <= i < nx && 0 <= j < ny ==> #[trigger] blocks[j * nx + i] == grid_block(
            i,
            j,
            width,
            height,
            block_size,
        )
}

/// The blocks of side `block_size` that tile a `width` by `height` image, row
/// by row.
pub open spec fn tiling(width: int, height: int, block_size: int) -> Seq<SRegion> {
    let nx = steps_below(width, block_size);
    let ny = steps_below(height, block_size);
    Seq::new((nx * ny) as nat, |k: int| grid_block(k % nx, k / nx, width, height, block_size))
}

/// There is one tiling of an image.
pub proof fn lemma_tiling_unique(blocks: Seq<SRegion>, width: int, height: int, block_size: int)
    requires
        0 < block_size,
        0 <= width,
        0 <= height,
        is_tiling(blocks, width, height, block_size),
    ensures
        blocks == tiling(width, height, block_size),
{
    let nx = steps_below(width, block_size);
    let ny = steps_below(height, block_size);
    assert(nx >= 0 && ny >= 0) by {
        if width > 0 {
            assert(0 <= (width - 1) / block_size) by (nonlinear_arith)
                requires
                    0 <= width - 1,
                    0 < block_size,
            ;
        }
        if height > 0 {
            assert(0 <= (height - 1) / block_size) by (nonlinear_arith)
                requires
                    0 <= height - 1,
                    0 < block_size,
            ;
        }
    }
    assert(nx * ny >= 0) by (nonlinear_arith)
        requires
            nx >= 0,
            ny >= 0,
    ;
    let t = tiling(width, height, block_size);
    assert(blocks.len() == t.len());
    assert forall|k: int| 0 <= k < blocks.len() implies blocks[k] == t[k] by {
        lemma_position_of_offset(k, nx, ny);
        let i = k % nx;
        let j = k / nx;
        assert(blocks[j * nx + i] == grid_block(i, j, width, height, block_size));
    }
    assert(blocks =~= t);
}

/// A block of the grid is non-empty and lies inside the image.
pub proof fn grid_block_stays_within(i: int, j: int, width: int, height: int, block_size: int)
    requires
        0 < block_size,
        0 <= i < steps_below(width, block_size),
        0 <= j < steps_below(height, block_size),
        width <= u32::MAX,
        height <= u32::MAX,
    ensures
        grid_block(i, j, width, height, block_size).within(width, height),
        grid_block(i, j, width, height, block_size).x == i * block_size,
        grid_block(i, j, width, height, block_size).y == j * block_size,
{
    lemma_step_in_range(i, width, block_size);
    lemma_step_in_range(j, height, block_size);
}

/// The blocks of side `block_size` that tile a `width` by `height` image.
pub fn block_regions(width: u32, height: u32, block_size: u32) -> (blocks: Vec<SRegion>)
    requires
        block_size > 0,
    ensures
        is_tiling(blocks@, width as int, height as int, block_size as int),
        blocks@ == tiling(width as int, height as int, block_size as int),
        forall|k: int|
            0 <= k < blocks@.len() ==> (#[trigger] blocks@[k]).within(width as int, height as int)
                && blocks@[k].width <= block_size && blocks@[k].height <= block_size,
{
    let nx: u32 = count_steps(width, block_size);
    let ny: u32 = count_steps(height, block_size);
    let mut blocks: Vec<SRegion> = Vec::new();
    let mut j: u32 = 0;
    while j < ny
        invariant
            0 <= j <= ny,
            block_size > 0,
            nx == steps_below(width as int, block_size as int),
            ny == steps_below(height as int, block_size as int),
            blocks@.len() == j * nx,
            forall|a: int, b: int|
                0 <= a < nx && 0 <= b < j ==> #[trigger] blocks@[b * nx + a] == grid_block(
                    a,
                    b,
                    width as int,
                    height as int,
                    block_size as int,
                ),
            forall|k: int|
                0 <= k < blocks@.len() ==> (#[trigger] blocks@[k]).within(
                    width as int,
                    height as int,
                ) && blocks@[k].width <= block_size && blocks@[k].height <= block_size,
        decreases ny - j,
    {
        proof {
            lemma_step_in_range(j as int, height as int, block_size as int);
        }
        let y: u32 = j * block_size;
        let h: u32 = if block_size <= height - y { block_size } else { height - y };
        let mut i: u32 = 0;
        while i < nx
            invariant
                0 <= i <= nx,
                0 <= j < ny,
                block_size > 0,
                y == j * block_size,
                y < height,
                h == if y + block_size <= height { block_size as int } else { height - y },
                nx == steps_below(width as int, block_size as int),
                ny == steps_below(height as int, block_size as int),
                blocks@.len() == j * nx + i,
                forall|a: int, b: int|
                    0 <= a < nx && 0 <= b < j ==> #[trigger] blocks@[b * nx + a] == grid_block(
                        a,
                        b,
                        width as int,
                        height as int,
                        block_size as int,
                    ),
                forall|a: int|
                    0 <= a < i ==> #[trigger] blocks@[j * nx + a] == grid_block(
                        a,
                        j as int,
                        width as int,
                        height as int,
                        block_size as int,
                    ),
                forall|k: int|
                    0 <= k < blocks@.len() ==> (#[trigger] blocks@[k]).within(
                        width as int,
                        height as int,
                    ) && blocks@[k].width <= block_size && blocks@[k].height <= block_size,
            decreases nx - i,
        {
            proof {
                lemma_step_in_range(i as int, width as int, block_size as int);
            }
            let x: u32 = i * block_size;
            let w: u32 = if block_size <= width - x { block_size } else { width - x };
            let ghost before = blocks@;
            blocks.push(SRegion { x, y, width: w, height: h });
            proof {
                assert forall|a: int, b: int| 0 <= a < nx && 0 <= b < j implies #[trigger] blocks@[b
                    * nx + a] == grid_block(
                    a,
                    b,
                    width as int,
                    height as int,
                    block_size as int,
                ) by {
                    assert(0 <= b * nx + a < j * nx) by (nonlinear_arith)
                        requires
                            0 <= a < nx,
                            0 <= b < j,
                    ;
                    assert(blocks@[b * nx + a] == before[b * nx + a]);
                }
                assert forall|a: int| 0 <= a < i + 1 implies #[trigger] blocks@[j * nx + a]
                    == grid_block(
                    a,
                    j as int,
                    width as int,
                    height as int,
                    block_size as int,
                ) by {
                    if a < i {
                        assert(blocks@[j * nx + a] == before[j * nx + a]);
                    }
                }
                assert forall|k: int| 0 <= k < blocks@.len() implies (#[trigger] blocks@[k]).within(
                    width as int,
                    height as int,
                ) && blocks@[k].width <= block_size && blocks@[k].height <= block_size by {
                    if k < before.len() {
                        assert(blocks@[k] == before[k]);
                    }
                }
            }
            i += 1;
        }
        proof {
            assert((j + 1) * nx == j * nx + nx) by (nonlinear_arith);
            assert forall|a: int, b: int| 0 <= a < nx && 0 <= b < j + 1 implies #[trigger] blocks@[b
                * nx + a] == grid_block(a, b, width as int, height as int, block_size as int) by {
                if b == j {
                    assert(blocks@[j * nx + a] == grid_block(
                        a,
                        j as int,
                        width as int,
                        height as int,
                        block_size as int,
                    ));
                }
            }
        }
        j += 1;
    }
    proof {
        assert(ny * nx == nx * ny) by (nonlinear_arith);
        lemma_tiling_unique(blocks@, width as int, height as int, block_size as int);
    }
    blocks
}

/// Every block of the tiling of an image is non-empty and lies inside the
/// image.
pub proof fn tiling_stays_within(width: int, height: int, block_size: int, k: int)
    requires
        0 < block_size,
        0 <= width <= u32::MAX,
        0 <= height <= u32::MAX,
        0 <= k < tiling(width, height, block_size).len(),
    ensures
        tiling(width, height, block_size)[k].within(width, height),
{
    let nx = steps_below(width, block_size);
    let ny = steps_below(height, block_size);
    assert(nx >= 0 && ny >= 0) by {
        if width > 0 {
            assert(0 <= (width - 1) / block_size) by (nonlinear_arith)
                requires
                    0 <= width - 1,
                    0 < block_size,
            ;
        }
        if height > 0 {
            assert(0 <= (height - 1) / block_size) by (nonlinear_arith)
                requires
                    0 <= height - 1,
                    0 < block_size,
            ;
        }
    }
    assert(nx * ny >= 0) by (nonlinear_arith)
        requires
            nx >= 0,
            ny >= 0,
    ;
    lemma_position_of_offset(k, nx, ny);
    grid_block_stays_within(k % nx, k / nx, width, height, block_size);
}

} // verus!
