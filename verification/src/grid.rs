//! The tiling grid: partitioning a pixel image whose sides are exact
//! multiples of the tile edge into a rectangular grid of tiles, and the
//! arithmetic between tile coordinates, linear page indices and pixel
//! regions.

use vstd::prelude::*;
use crate::PosterError;

verus! {

/// Edge length, in pixels, of one tile: a hard invariant of the target
/// medium.
pub const TILE_EDGE: usize = 128;

/// Number of pixels in one tile.
pub const PAGE_PIXELS: usize = TILE_EDGE * TILE_EDGE;

/// Half of the tile edge; the rounding threshold when snapping a length
/// to the nearest tile multiple.
pub const HALF_TILE: usize = 64;

/// True when a pixel extent is positive and an exact multiple of the
/// tile edge in both directions.
pub open spec fn dims_valid(width: int, height: int) -> bool {
    width > 0 && height > 0 && width % (TILE_EDGE as int) == 0 && height % (TILE_EDGE as int) == 0
}

/// The grid extent of a valid pixel extent, measured in tiles.
pub open spec fn spec_grid_extent(width: int, height: int) -> (int, int) {
    (width / (TILE_EDGE as int), height / (TILE_EDGE as int))
}

/// Tile coordinate of the page at a linear index, in row-major order.
pub open spec fn spec_tile_coord(idx: int, grid_width: int) -> (int, int) {
    (idx % grid_width, idx / grid_width)
}

/// Linear page index of a tile coordinate, in row-major order.
pub open spec fn spec_page_index(col: int, row: int, grid_width: int) -> int {
    row * grid_width + col
}

/// Grid extent of an image, in tiles. Fails with `InvalidDimensions`
/// exactly when a side is zero or not a multiple of the tile edge.
pub fn grid_extent(width: usize, height: usize) -> (r: Result<(usize, usize), PosterError>)
    ensures
        dims_valid(width as int, height as int) ==> (r matches Ok(e) && (e.0 as int, e.1 as int)
            == spec_grid_extent(width as int, height as int) && e.0 >= 1 && e.1 >= 1),
        !dims_valid(width as int, height as int) ==> (r matches Err(e) && e
            == PosterError::InvalidDimensions),
{
    if width == 0 || height == 0 || width % TILE_EDGE != 0 || height % TILE_EDGE != 0 {
        Err(PosterError::InvalidDimensions)
    } else {
        Ok((width / TILE_EDGE, height / TILE_EDGE))
    }
}

/// Row-major coordinate of a linear page index.
pub fn tile_coord(idx: usize, grid_width: usize) -> (c: (usize, usize))
    requires
        grid_width >= 1,
    ensures
        (c.0 as int, c.1 as int) == spec_tile_coord(idx as int, grid_width as int),
        c.0 < grid_width,
{
    (idx % grid_width, idx / grid_width)
}

/// Linear page index of a row-major tile coordinate.
pub fn page_index(col: usize, row: usize, grid_width: usize, grid_height: usize) -> (i: usize)
    requires
        col < grid_width,
        row < grid_height,
        grid_width * grid_height <= usize::MAX,
    ensures
        i as int == spec_page_index(col as int, row as int, grid_width as int),
        i < grid_width * grid_height,
{
    proof {
        assert(row * grid_width + col < grid_width * grid_height) by (nonlinear_arith)
            requires
                col < grid_width,
                row < grid_height,
        ;
    }
    row * grid_width + col
}

/// Pixel region of a tile: the offset of its top-left corner, paired
/// with the tile edge as its width and height.
pub fn pixel_region(col: usize, row: usize) -> (r: (usize, usize, usize, usize))
    requires
        col * TILE_EDGE + TILE_EDGE <= usize::MAX,
        row * TILE_EDGE + TILE_EDGE <= usize::MAX,
    ensures
        r.0 == col * TILE_EDGE,
        r.1 == row * TILE_EDGE,
        r.2 == TILE_EDGE,
        r.3 == TILE_EDGE,
{
    (col * TILE_EDGE, row * TILE_EDGE, TILE_EDGE, TILE_EDGE)
}

/// All tile coordinates of a grid, enumerated in row-major order: the
/// order in which the conversion pipeline emits pages.
pub fn enumerate_tiles(grid_width: usize, grid_height: usize) -> (r: Vec<(usize, usize)>)
    requires
        grid_width >= 1,
        grid_width * grid_height <= usize::MAX,
    ensures
        r@.len() == grid_width * grid_height,
        forall|i: int|
            0 <= i < r@.len() ==> ((#[trigger] r@[i]).0 as int, r@[i].1 as int) == spec_tile_coord(
                i,
                grid_width as int,
            ),
{
    let total = grid_width * grid_height;
    let mut out: Vec<(usize, usize)> = Vec::new();
    let mut i: usize = 0;
    while i < total
        invariant
            i <= total,
            grid_width >= 1,
            out@.len() == i,
            forall|k: int|
                0 <= k < i ==> ((#[trigger] out@[k]).0 as int, out@[k].1 as int) == spec_tile_coord(
                    k,
                    grid_width as int,
                ),
        decreases total - i,
    {
        out.push((i % grid_width, i / grid_width));
        i += 1;
    }
    out
}

/// The exact snapping rule for one side length: round to the nearest
/// multiple of the tile edge, half a tile rounding up, but never below
/// one full tile.
pub open spec fn spec_snap(v: int) -> int {
    let rem = v % (TILE_EDGE as int);
    let snapped = if rem >= HALF_TILE as int {
        v + (TILE_EDGE as int) - rem
    } else {
        v - rem
    };
    if snapped == 0 {
        TILE_EDGE as int
    } else {
        snapped
    }
}

/// Snaps a scaled side length to the nearest multiple of the tile edge
/// (half a tile rounds up), with a floor of one tile: the integral part
/// of the auto-scaling step.
pub fn snap_to_tile_multiple(v: usize) -> (r: usize)
    requires
        v + TILE_EDGE <= usize::MAX,
    ensures
        r as int == spec_snap(v as int),
        r as int % (TILE_EDGE as int) == 0,
        r >= TILE_EDGE,
{
    let rem = v % TILE_EDGE;
    let snapped = if rem >= HALF_TILE {
        v + (TILE_EDGE - rem)
    } else {
        v - rem
    };
    if snapped == 0 {
        TILE_EDGE
    } else {
        snapped
    }
}

} // verus!
