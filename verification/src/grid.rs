//! The grid: the cells that a source raster is cut into, and the tiles of the
//! output that stand for them.

use vstd::prelude::*;
use vstd::arithmetic::div_mod::{
    lemma_div_multiples_vanish, lemma_fundamental_div_mod, lemma_fundamental_div_mod_converse,
};
use vstd::arithmetic::mul::lemma_mul_inequality;
use crate::block_map::BLOCK_SIZE;
use crate::raster::{buffer_new, ImgBuffer};

verus! {

/// The number of whole cells of side `scale` along `len` pixels.
pub open spec fn cells_along(len: nat, scale: nat) -> nat {
    len / scale
}

/// The side of the output along an axis on which the source has `len`
/// pixels: one tile for each whole cell.
pub open spec fn output_side(len: nat, scale: nat) -> nat {
    cells_along(len, scale) * (BLOCK_SIZE as nat)
}

/// The output for a source of `width` by `height` pixels can be held: its
/// sides are coordinates, the samples of one row can be counted in a machine
/// word, and all its samples fit in a vector.
pub open spec fn output_fits(width: nat, height: nat, scale: nat) -> bool {
    &&& output_side(width, scale) <= u32::MAX
    &&& output_side(height, scale) <= u32::MAX
    &&& 3 * output_side(width, scale) <= usize::MAX
    &&& 3 * output_side(width, scale) * output_side(height, scale) <= isize::MAX
}

/// The top-left pixel of cell number `k` of a grid of `cols` columns, the
/// cells counted row by row from the top and in each row from the left.
pub open spec fn cell_origin(cols: nat, scale: nat, k: int) -> (int, int) {
    ((k % (cols as int)) * scale, (k / (cols as int)) * scale)
}

/// The source pixel `(x, y)` lies in cell number `k` of a grid of `cols`
/// columns, the cells counted row by row.
pub open spec fn in_nth_cell(cols: nat, scale: nat, k: int, x: int, y: int) -> bool {
    let origin = cell_origin(cols, scale, k);
    origin.0 <= x < origin.0 + scale && origin.1 <= y < origin.1 + scale
}

/// The number of the cell of side `scale` in which the source pixel `(x, y)`
/// lies, in a grid of `cols` columns.
pub open spec fn source_cell_number(cols: nat, scale: nat, x: int, y: int) -> int {
    (y / (scale as int)) * cols + x / (scale as int)
}

/// Where in the output the tile starts that stands for the cell at source
/// coordinate `coord`.
pub open spec fn tile_offset(coord: nat, scale: nat) -> nat {
    (BLOCK_SIZE as nat) * coord / scale
}

/// `(px, py)` lies in the square of `BLOCK_SIZE` by `BLOCK_SIZE` pixels whose
/// top-left pixel is `(left, top)`.
pub open spec fn in_tile(left: int, top: int, px: int, py: int) -> bool {
    left <= px < left + BLOCK_SIZE && top <= py < top + BLOCK_SIZE
}

/// `(px, py)` lies in the tile that stands for the cell in column `cx` and
/// row `cy` of the grid.
pub open spec fn in_tile_of_cell(cx: int, cy: int, px: int, py: int) -> bool {
    in_tile(cx * BLOCK_SIZE, cy * BLOCK_SIZE, px, py)
}

/// `(px, py)` lies in the tile that stands for cell number `k` of a grid of
/// `cols` columns, the cells counted row by row.
pub open spec fn in_tile_of_nth_cell(cols: int, k: int, px: int, py: int) -> bool {
    in_tile_of_cell(k % cols, k / cols, px, py)
}

/// The number of the cell whose tile holds the pixel `(px, py)` of the output
/// of a grid of `cols` columns.
pub open spec fn cell_number(cols: int, px: int, py: int) -> int {
    (py / (BLOCK_SIZE as int)) * cols + px / (BLOCK_SIZE as int)
}

/// What holds of cell number `c` along an axis of `len` pixels: it lies
/// within the axis, and so does its tile within the output.
pub proof fn lemma_cell_on_axis(len: nat, scale: nat, c: nat)
    requires
        scale >= 1,
        c < cells_along(len, scale),
    ensures
        c * scale + scale <= len,
        tile_offset(c * scale, scale) == c * BLOCK_SIZE,
        c * BLOCK_SIZE + BLOCK_SIZE <= output_side(len, scale),
{
    let n = cells_along(len, scale);
    lemma_fundamental_div_mod(len as int, scale as int);
    assert((c + 1) * scale <= n * scale) by {
        lemma_mul_inequality((c + 1) as int, n as int, scale as int);
    }
    assert((c + 1) * scale == c * scale + scale) by (nonlinear_arith);
    assert((BLOCK_SIZE as nat) * (c * scale) == scale * (c * BLOCK_SIZE)) by (nonlinear_arith);
    lemma_div_multiples_vanish((c * BLOCK_SIZE) as int, scale as int);
}

/// Cell number `k` of a grid of `cols` by `rows` cells, counted row by row,
/// stands in column `k % cols` of row `k / cols`.
pub proof fn lemma_grid_index(cols: int, rows: int, k: int)
    requires
        0 <= k < cols * rows,
        0 <= rows,
    ensures
        0 <= k % cols < cols,
        0 <= k / cols < rows,
        k == (k / cols) * cols + k % cols,
{
    assert(cols > 0) by (nonlinear_arith)
        requires
            0 <= k < cols * rows,
            0 <= rows,
    ;
    lemma_fundamental_div_mod(k, cols);
    let q = k / cols;
    let r = k % cols;
    assert(cols * q == q * cols) by (nonlinear_arith);
    assert(0 <= q < rows) by (nonlinear_arith)
        requires
            0 <= k < cols * rows,
            k == q * cols + r,
            0 <= r < cols,
    ;
}

/// Where `scale` divides the length of an axis, the cells leave no pixel of
/// it over.
pub proof fn lemma_exact_axis_has_no_remainder(len: nat, scale: nat)
    requires
        scale >= 1,
        len % scale == 0,
    ensures
        cells_along(len, scale) * scale == len,
        output_side(len, scale) * scale == len * BLOCK_SIZE,
{
    lemma_fundamental_div_mod(len as int, scale as int);
    let n = cells_along(len, scale);
    assert((n * BLOCK_SIZE) * scale == (n * scale) * BLOCK_SIZE) by (nonlinear_arith);
}

/// A coordinate lies in the stretch of `scale` pixels that starts at the
/// `c`-th multiple of `scale` if and only if `scale` goes `c` times into it.
proof fn lemma_stretch_of_coordinate(scale: nat, c: int, x: int)
    requires
        scale >= 1,
    ensures
        c * scale <= x < c * scale + scale <==> x / (scale as int) == c,
{
    lemma_fundamental_div_mod(x, scale as int);
    if c * scale <= x < c * scale + scale {
        lemma_fundamental_div_mod_converse(x, scale as int, c, x - c * scale);
    }
    if x / (scale as int) == c {
        assert(scale * c == c * scale) by (nonlinear_arith);
    }
}

/// The whole cells part the source: a pixel within them lies in one and
/// only one cell of the walk, and a pixel of the remainder at the right or
/// at the bottom lies in none.  This holds of every size and scale.
pub proof fn lemma_whole_cells_part_source(width: nat, height: nat, scale: nat, x: int, y: int)
    requires
        scale >= 1,
        0 <= x < width,
        0 <= y < height,
    ensures
        x < cells_along(width, scale) * scale && y < cells_along(height, scale) * scale ==> 0
            <= source_cell_number(cells_along(width, scale), scale, x, y) < cells_along(
            width,
            scale,
        ) * cells_along(height, scale),
        forall|k: int|
            0 <= k < cells_along(width, scale) * cells_along(height, scale) ==> (
            #[trigger] in_nth_cell(cells_along(width, scale), scale, k, x, y) <==> x
                < cells_along(width, scale) * scale && y < cells_along(height, scale) * scale && k
                == source_cell_number(cells_along(width, scale), scale, x, y)),
{
    let cols = cells_along(width, scale);
    let rows = cells_along(height, scale);
    let qx = x / (scale as int);
    let qy = y / (scale as int);
    lemma_stretch_of_coordinate(scale, qx, x);
    lemma_stretch_of_coordinate(scale, qy, y);
    assert(0 <= qx && 0 <= qy) by (nonlinear_arith)
        requires
            qx * scale <= x < qx * scale + scale,
            qy * scale <= y < qy * scale + scale,
            0 <= x,
            0 <= y,
            scale >= 1,
    ;
    assert(x < cols * scale <==> qx < cols) by (nonlinear_arith)
        requires
            qx * scale <= x < qx * scale + scale,
            scale >= 1,
    ;
    assert(y < rows * scale <==> qy < rows) by (nonlinear_arith)
        requires
            qy * scale <= y < qy * scale + scale,
            scale >= 1,
    ;
    if qx < cols && qy < rows {
        assert(0 <= qy * cols + qx < cols * rows) by (nonlinear_arith)
            requires
                0 <= qx < cols,
                0 <= qy < rows,
        ;
    }
    assert forall|k: int| 0 <= k < cols * rows implies (#[trigger] in_nth_cell(
        cols,
        scale,
        k,
        x,
        y,
    ) <==> x < cols * scale && y < rows * scale && k == qy * cols + qx) by {
        lemma_grid_index(cols as int, rows as int, k);
        let cx = k % (cols as int);
        let cy = k / (cols as int);
        lemma_stretch_of_coordinate(scale, cx, x);
        lemma_stretch_of_coordinate(scale, cy, y);
        if qx < cols && qy < rows && k == qy * cols + qx {
            lemma_fundamental_div_mod_converse(k, cols as int, qy, qx);
        }
    }
}

/// Where `scale` divides both sides of the source, no pixel is dropped: each
/// pixel of the source lies in one and only one cell of the walk.
pub proof fn lemma_exact_division_drops_no_pixel(
    width: nat,
    height: nat,
    scale: nat,
    x: int,
    y: int,
)
    requires
        scale >= 1,
        width % scale == 0,
        height % scale == 0,
        0 <= x < width,
        0 <= y < height,
    ensures
        0 <= source_cell_number(cells_along(width, scale), scale, x, y) < cells_along(
            width,
            scale,
        ) * cells_along(height, scale),
        forall|k: int|
            0 <= k < cells_along(width, scale) * cells_along(height, scale) ==> (
            #[trigger] in_nth_cell(cells_along(width, scale), scale, k, x, y) <==> k
                == source_cell_number(cells_along(width, scale), scale, x, y)),
{
    lemma_exact_axis_has_no_remainder(width, scale);
    lemma_exact_axis_has_no_remainder(height, scale);
    lemma_whole_cells_part_source(width, height, scale, x, y);
}

/// Each pixel of the output of a grid of `cols` by `rows` cells lies in the
/// tile of exactly one cell: the tiles leave no pixel out, and no two of them
/// share one.
pub proof fn lemma_tiles_partition_output(cols: nat, rows: nat, px: int, py: int)
    requires
        0 <= px < cols * BLOCK_SIZE,
        0 <= py < rows * BLOCK_SIZE,
    ensures
        0 <= px / (BLOCK_SIZE as int) < cols,
        0 <= py / (BLOCK_SIZE as int) < rows,
        forall|cx: int, cy: int| #[trigger]
            in_tile_of_cell(cx, cy, px, py) <==> cx == px / (BLOCK_SIZE as int) && cy == py / (
            BLOCK_SIZE as int),
{
}

/// Of the cells of a grid of `cols` by `rows` cells, counted row by row, one
/// and only one has the tile in which a given pixel of the output lies: as
/// the cells are walked, each pixel is written once.
pub proof fn lemma_each_pixel_has_one_cell(cols: nat, rows: nat, px: int, py: int)
    requires
        0 <= px < cols * BLOCK_SIZE,
        0 <= py < rows * BLOCK_SIZE,
    ensures
        0 <= cell_number(cols as int, px, py) < cols * rows,
        forall|k: int|
            0 <= k < cols * rows ==> (#[trigger] in_tile_of_nth_cell(cols as int, k, px, py) <==> k
                == cell_number(cols as int, px, py)),
{
    let cx = px / (BLOCK_SIZE as int);
    let cy = py / (BLOCK_SIZE as int);
    assert(0 <= cy * cols + cx < cols * rows) by (nonlinear_arith)
        requires
            0 <= cx < cols,
            0 <= cy < rows,
    ;
    assert forall|k: int| 0 <= k < cols * rows implies (#[trigger] in_tile_of_nth_cell(
        cols as int,
        k,
        px,
        py,
    ) <==> k == cy * cols + cx) by {
        lemma_grid_index(cols as int, rows as int, k);
        if k == cy * cols + cx {
            lemma_fundamental_div_mod_converse(k, cols as int, cy, cx);
        }
    }
}

/// The cells of a raster of `width` by `height` pixels, each by its top-left
/// pixel, row by row from the top and in each row from the left.  Only whole
/// cells count: what is left over at the right and at the bottom belongs to
/// no cell.
pub fn cell_origins(width: u32, height: u32, scale: u32) -> (cells: Vec<(u32, u32)>)
    requires
        scale >= 1,
    ensures
        cells@.len() == cells_along(width as nat, scale as nat) * cells_along(
            height as nat,
            scale as nat,
        ),
        forall|k: int|
            0 <= k < cells@.len() ==> (#[trigger] cells@[k]).0 == cell_origin(
                cells_along(width as nat, scale as nat),
                scale as nat,
                k,
            ).0 && cells@[k].1 == cell_origin(cells_along(width as nat, scale as nat), scale as nat, k).1,
{
    let cols: u32 = width / scale;
    let rows: u32 = height / scale;
    let mut cells: Vec<(u32, u32)> = Vec::new();
    let mut cy: u32 = 0;
    while cy < rows
        invariant
            scale >= 1,
            cols == cells_along(width as nat, scale as nat),
            rows == cells_along(height as nat, scale as nat),
            cy <= rows,
            cells@.len() == cy * cols,
            forall|k: int|
                0 <= k < cells@.len() ==> (#[trigger] cells@[k]).0 == cell_origin(
                    cols as nat,
                    scale as nat,
                    k,
                ).0 && cells@[k].1 == cell_origin(cols as nat, scale as nat, k).1,
        decreases rows - cy,
    {
        let mut cx: u32 = 0;
        while cx < cols
            invariant
                scale >= 1,
                cols == cells_along(width as nat, scale as nat),
                rows == cells_along(height as nat, scale as nat),
                cy < rows,
                cx <= cols,
                cells@.len() == cy * cols + cx,
                forall|k: int|
                    0 <= k < cells@.len() ==> (#[trigger] cells@[k]).0 == cell_origin(
                        cols as nat,
                        scale as nat,
                        k,
                    ).0 && cells@[k].1 == cell_origin(cols as nat, scale as nat, k).1,
            decreases cols - cx,
        {
            proof {
                lemma_cell_on_axis(width as nat, scale as nat, cx as nat);
                lemma_cell_on_axis(height as nat, scale as nat, cy as nat);
                lemma_fundamental_div_mod_converse(cy * cols + cx, cols as int, cy as int, cx as int);
            }
            cells.push((cx * scale, cy * scale));
            cx = cx + 1;
        }
        assert(cy * cols + cols == (cy + 1) * cols) by (nonlinear_arith);
        cy = cy + 1;
    }
    assert(rows * cols == cols * rows) by (nonlinear_arith);
    cells
}

/// A raster of the size of the output for a source of `width` by `height`
/// pixels, every sample zero; `None` where a raster of that size cannot be
/// held.
pub fn blank_output(width: u32, height: u32, scale: u32) -> (made: Option<ImgBuffer>)
    requires
        scale >= 1,
    ensures
        made is Some <==> output_fits(width as nat, height as nat, scale as nat),
        made matches Some(out) ==> out@.width == output_side(width as nat, scale as nat)
            && out@.height == output_side(height as nat, scale as nat) && forall|px: int, py: int|
            out@.contains(px, py) ==> (#[trigger] out@.pixel(px, py))@ == seq![0u8, 0u8, 0u8],
{
    let cols: u32 = width / scale;
    let rows: u32 = height / scale;
    let out_width: u64 = cols as u64 * BLOCK_SIZE as u64;
    let out_height: u64 = rows as u64 * BLOCK_SIZE as u64;
    if out_width > u32::MAX as u64 || out_height > u32::MAX as u64 {
        return None;
    }
    assert(out_width * out_height <= 0xffff_ffff * 0xffff_ffff) by (nonlinear_arith)
        requires
            out_width <= 0xffff_ffff,
            out_height <= 0xffff_ffff,
    ;
    assert(3 * out_width * out_height == 3 * (out_width * out_height)) by (nonlinear_arith);
    let samples: u128 = 3 * (out_width as u128 * out_height as u128);
    if 3 * (out_width as u128) > usize::MAX as u128 || samples > isize::MAX as u128 {
        return None;
    }
    Some(buffer_new(out_width as u32, out_height as u32))
}

} // verus!
