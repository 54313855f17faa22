//! The mosaic: the colour of a cell, the writing of a tile, and the output
//! raster in which each cell is shown by the tile matched with it.

use vstd::prelude::*;
use vstd::arithmetic::div_mod::lemma_fundamental_div_mod_converse;
use crate::block_map::{best_match, get_best_block, BlockMap, BLOCK_SIZE};
use crate::error::MosaicError;
use crate::grid::{
    cell_number, cell_origin, cell_origins, cells_along, in_tile, in_tile_of_nth_cell, lemma_cell_on_axis,
    lemma_each_pixel_has_one_cell, lemma_grid_index, output_fits, output_side, tile_offset,
};
use crate::raster::{
    buffer_get_pixel, buffer_height, buffer_new, buffer_put_pixel, buffer_width,
    lemma_sample_position, ImgBuffer, RasterView,
};
use crate::sums::{lemma_block_sum_agrees, lemma_block_sum_is_bounded, sum_block};

verus! {

/// The colour of the cell of `scale` by `scale` pixels whose top-left pixel is
/// `(x, y)`: for each channel, the sum over the cell divided by its pixel
/// count.
pub open spec fn cell_average(img: RasterView, x: int, y: int, scale: nat) -> Seq<u8> {
    Seq::new(3, |c: int| (img.block_sum(x, y, scale, scale, c) / ((scale * scale) as int)) as u8)
}

/// `tile` can stand in `out` for the cell whose top-left source pixel is
/// `(x, y)`: it holds a block of `BLOCK_SIZE` by `BLOCK_SIZE` pixels, and `out`
/// holds the place of that block.
pub open spec fn tile_fits(out: RasterView, tile: RasterView, x: nat, y: nat, scale: nat) -> bool {
    &&& scale >= 1
    &&& tile.width >= BLOCK_SIZE
    &&& tile.height >= BLOCK_SIZE
    &&& tile_offset(x, scale) + BLOCK_SIZE <= out.width
    &&& tile_offset(y, scale) + BLOCK_SIZE <= out.height
}

/// Every tile of the palette holds at least `BLOCK_SIZE` by `BLOCK_SIZE`
/// pixels.
pub open spec fn tiles_cover_block(map: Seq<([u8; 3], ImgBuffer)>) -> bool {
    forall|i: int|
        0 <= i < map.len() ==> (#[trigger] map[i]).1@.width >= BLOCK_SIZE && map[i].1@.height
            >= BLOCK_SIZE
}

/// The tile matched with the cell in column `cx` and row `cy` of the grid.
pub open spec fn matched_tile(
    img: RasterView,
    map: Seq<([u8; 3], ImgBuffer)>,
    scale: nat,
    cx: int,
    cy: int,
) -> RasterView {
    map[best_match(map, cell_average(img, cx * scale, cy * scale, scale))].1@
}

/// The pixel of the mosaic at `(px, py)`: that of the tile matched with the
/// cell it stands for, at the same place in the tile.
pub open spec fn mosaic_pixel(
    img: RasterView,
    map: Seq<([u8; 3], ImgBuffer)>,
    scale: nat,
    px: int,
    py: int,
) -> [u8; 3] {
    matched_tile(img, map, scale, px / (BLOCK_SIZE as int), py / (BLOCK_SIZE as int)).pixel(
        px % (BLOCK_SIZE as int),
        py % (BLOCK_SIZE as int),
    )
}

/// `out` is the mosaic of `img`: it holds one tile for each whole cell, and
/// each of its pixels is the pixel of the mosaic at that place.
pub open spec fn is_mosaic(
    out: RasterView,
    img: RasterView,
    map: Seq<([u8; 3], ImgBuffer)>,
    scale: nat,
) -> bool {
    &&& out.width == output_side(img.width, scale)
    &&& out.height == output_side(img.height, scale)
    &&& forall|px: int, py: int|
        out.contains(px, py) ==> #[trigger] out.pixel(px, py) == mosaic_pixel(
            img,
            map,
            scale,
            px,
            py,
        )
}

/// The colour of a cell is its average to the full: in each channel the sum
/// over the cell divided by its pixel count is a sample, and nothing of it is
/// cut off.
pub proof fn lemma_cell_average_is_exact(img: RasterView, x: int, y: int, scale: nat, c: int)
    requires
        scale >= 1,
        0 <= c < 3,
    ensures
        cell_average(img, x, y, scale)[c] == img.block_sum(x, y, scale, scale, c) / ((scale
            * scale) as int),
{
    lemma_block_sum_is_bounded(img, x, y, scale, scale, c);
    assert(scale * scale >= 1) by (nonlinear_arith)
        requires
            scale >= 1,
    ;
    lemma_average_is_sample(img.block_sum(x, y, scale, scale, c), (scale * scale) as int);
}

/// The mosaic is settled by the source, the palette and the scale: two
/// mosaics of the same three have the same size and the same samples.
pub proof fn lemma_mosaic_is_determined(
    first: RasterView,
    second: RasterView,
    img: RasterView,
    map: Seq<([u8; 3], ImgBuffer)>,
    scale: nat,
)
    requires
        is_mosaic(first, img, map, scale),
        is_mosaic(second, img, map, scale),
    ensures
        first.width == second.width,
        first.height == second.height,
        first.samples() == second.samples(),
{
    assert forall|k: int| 0 <= k < first.samples().len() implies first.samples()[k]
        == second.samples()[k] by {
        lemma_sample_position(first.width, first.height, k);
        let x = (k / 3) % (first.width as int);
        let y = (k / 3) / (first.width as int);
        assert(first.pixel(x, y) == second.pixel(x, y));
    }
}

/// Two sources of one size that hold the same pixels in their whole cells
/// give each cell the same colour.
pub proof fn lemma_cell_average_agrees(
    first: RasterView,
    second: RasterView,
    scale: nat,
    cx: int,
    cy: int,
)
    requires
        scale >= 1,
        first.width == second.width,
        first.height == second.height,
        0 <= cx < cells_along(first.width, scale),
        0 <= cy < cells_along(first.height, scale),
        forall|x: int, y: int|
            0 <= x < cells_along(first.width, scale) * scale && 0 <= y < cells_along(
                first.height,
                scale,
            ) * scale ==> #[trigger] first.pixel(x, y) == second.pixel(x, y),
    ensures
        cell_average(first, cx * scale, cy * scale, scale) == cell_average(
            second,
            cx * scale,
            cy * scale,
            scale,
        ),
{
    let cols = cells_along(first.width, scale);
    let rows = cells_along(first.height, scale);
    assert((cx + 1) * scale <= cols * scale) by (nonlinear_arith)
        requires
            cx + 1 <= cols,
    ;
    assert((cy + 1) * scale <= rows * scale) by (nonlinear_arith)
        requires
            cy + 1 <= rows,
    ;
    assert((cx + 1) * scale == cx * scale + scale) by (nonlinear_arith);
    assert((cy + 1) * scale == cy * scale + scale) by (nonlinear_arith);
    assert(0 <= cx * scale && 0 <= cy * scale) by (nonlinear_arith)
        requires
            0 <= cx,
            0 <= cy,
    ;
    lemma_block_sum_agrees(first, second, cx * scale, cy * scale, scale, scale, 0);
    lemma_block_sum_agrees(first, second, cx * scale, cy * scale, scale, scale, 1);
    lemma_block_sum_agrees(first, second, cx * scale, cy * scale, scale, scale, 2);
    assert(cell_average(first, cx * scale, cy * scale, scale) =~= cell_average(
        second,
        cx * scale,
        cy * scale,
        scale,
    ));
}

/// The pixels of the source that lie in no whole cell have no part in any
/// pixel of the mosaic: two sources of one size that hold the same pixels in
/// their whole cells give the mosaic the same pixel at every place.  This
/// holds of every size and scale.
pub proof fn lemma_mosaic_pixel_ignores_remainder(
    first: RasterView,
    second: RasterView,
    map: Seq<([u8; 3], ImgBuffer)>,
    scale: nat,
    px: int,
    py: int,
)
    requires
        scale >= 1,
        first.width == second.width,
        first.height == second.height,
        forall|x: int, y: int|
            0 <= x < cells_along(first.width, scale) * scale && 0 <= y < cells_along(
                first.height,
                scale,
            ) * scale ==> #[trigger] first.pixel(x, y) == second.pixel(x, y),
        0 <= px < output_side(first.width, scale),
        0 <= py < output_side(first.height, scale),
    ensures
        mosaic_pixel(first, map, scale, px, py) == mosaic_pixel(second, map, scale, px, py),
{
    lemma_cell_average_agrees(
        first,
        second,
        scale,
        px / (BLOCK_SIZE as int),
        py / (BLOCK_SIZE as int),
    );
}

/// Each pixel of a mosaic comes from one cell of the walk and from no other:
/// it lies in the tile of that cell alone, and it is the pixel at its place
/// in the tile matched with that cell.  This holds of every size and scale.
pub proof fn lemma_mosaic_pixel_comes_from_its_cell(
    out: RasterView,
    img: RasterView,
    map: Seq<([u8; 3], ImgBuffer)>,
    scale: nat,
    px: int,
    py: int,
)
    requires
        is_mosaic(out, img, map, scale),
        out.contains(px, py),
    ensures
        0 <= cell_number(cells_along(img.width, scale) as int, px, py) < cells_along(
            img.width,
            scale,
        ) * cells_along(img.height, scale),
        forall|k: int|
            0 <= k < cells_along(img.width, scale) * cells_along(img.height, scale) ==> (
            #[trigger] in_tile_of_nth_cell(cells_along(img.width, scale) as int, k, px, py) <==> k
                == cell_number(cells_along(img.width, scale) as int, px, py)),
        out.pixel(px, py) == matched_tile(
            img,
            map,
            scale,
            cell_number(cells_along(img.width, scale) as int, px, py) % (cells_along(
                img.width,
                scale,
            ) as int),
            cell_number(cells_along(img.width, scale) as int, px, py) / (cells_along(
                img.width,
                scale,
            ) as int),
        ).pixel(px % (BLOCK_SIZE as int), py % (BLOCK_SIZE as int)),
{
    let cols = cells_along(img.width, scale);
    let rows = cells_along(img.height, scale);
    lemma_each_pixel_has_one_cell(cols, rows, px, py);
    lemma_fundamental_div_mod_converse(
        cell_number(cols as int, px, py),
        cols as int,
        py / (BLOCK_SIZE as int),
        px / (BLOCK_SIZE as int),
    );
}

/// The mosaic of `img` as a value: its size, and at each place the pixel of
/// the mosaic there.  It is defined for every source, palette and scale,
/// whether or not a raster of its size can be held.
pub open spec fn mosaic_of(img: RasterView, map: Seq<([u8; 3], ImgBuffer)>, scale: nat) -> RasterView {
    RasterView {
        width: output_side(img.width, scale),
        height: output_side(img.height, scale),
        pixels: Map::new(
            |place: (int, int)|
                0 <= place.0 < output_side(img.width, scale) && 0 <= place.1 < output_side(
                    img.height,
                    scale,
                ),
            |place: (int, int)| mosaic_pixel(img, map, scale, place.0, place.1),
        ),
    }
}

/// Every source has its mosaic, and a raster is a mosaic of the source if
/// and only if it has the size and the samples of that one.
pub proof fn lemma_mosaic_of_is_the_mosaic(
    out: RasterView,
    img: RasterView,
    map: Seq<([u8; 3], ImgBuffer)>,
    scale: nat,
)
    ensures
        is_mosaic(mosaic_of(img, map, scale), img, map, scale),
        is_mosaic(out, img, map, scale) ==> out.width == mosaic_of(img, map, scale).width
            && out.height == mosaic_of(img, map, scale).height && out.samples() == mosaic_of(
            img,
            map,
            scale,
        ).samples(),
{
    let whole = mosaic_of(img, map, scale);
    assert forall|px: int, py: int| whole.contains(px, py) implies #[trigger] whole.pixel(px, py)
        == mosaic_pixel(img, map, scale, px, py) by {
        assert(whole.pixels.dom().contains((px, py)));
    }
    if is_mosaic(out, img, map, scale) {
        lemma_mosaic_is_determined(out, whole, img, map, scale);
    }
}

/// The pixels of the source that lie in no whole cell have no part in the
/// mosaic: of two sources of one size that hold the same pixels in their
/// whole cells, the mosaic of one is the mosaic of the other.
pub proof fn lemma_remainder_is_ignored(
    out: RasterView,
    first: RasterView,
    second: RasterView,
    map: Seq<([u8; 3], ImgBuffer)>,
    scale: nat,
)
    requires
        scale >= 1,
        first.width == second.width,
        first.height == second.height,
        forall|x: int, y: int|
            0 <= x < cells_along(first.width, scale) * scale && 0 <= y < cells_along(
                first.height,
                scale,
            ) * scale ==> #[trigger] first.pixel(x, y) == second.pixel(x, y),
        is_mosaic(out, first, map, scale),
    ensures
        is_mosaic(out, second, map, scale),
{
    let cols = cells_along(first.width, scale);
    let rows = cells_along(first.height, scale);
    assert forall|px: int, py: int| out.contains(px, py) implies #[trigger] out.pixel(px, py)
        == mosaic_pixel(second, map, scale, px, py) by {
        lemma_mosaic_pixel_ignores_remainder(first, second, map, scale, px, py);
    }
}

/// The average of `count` samples fits in a sample.
proof fn lemma_average_is_sample(sum: int, count: int)
    requires
        count >= 1,
        0 <= sum <= 255 * count,
    ensures
        0 <= sum / count <= 255,
{
    assert(0 <= sum / count <= 255) by (nonlinear_arith)
        requires
            count >= 1,
            0 <= sum <= 255 * count,
    ;
}

/// The colour of the cell of `scale` by `scale` pixels whose top-left pixel is
/// `(x, y)`.
pub fn cell_color(img: &ImgBuffer, x: u32, y: u32, scale: u32) -> (color: [u8; 3])
    requires
        scale >= 1,
        x + scale <= img@.width,
        y + scale <= img@.height,
    ensures
        color@ == cell_average(img@, x as int, y as int, scale as nat),
        forall|c: int|
            0 <= c < 3 ==> #[trigger] color@[c] == img@.block_sum(
                x as int,
                y as int,
                scale as nat,
                scale as nat,
                c,
            ) / (scale * scale),
{
    let sums: [u128; 3] = sum_block(img, x, y, scale, scale);
    assert(1 <= scale * scale <= 0xffff_ffff * 0xffff_ffff) by (nonlinear_arith)
        requires
            1 <= scale <= 0xffff_ffff,
    ;
    let area: u128 = scale as u128 * scale as u128;
    proof {
        lemma_average_is_sample(sums@[0] as int, area as int);
        lemma_average_is_sample(sums@[1] as int, area as int);
        lemma_average_is_sample(sums@[2] as int, area as int);
    }
    let color: [u8; 3] = [
        (sums[0] / area) as u8,
        (sums[1] / area) as u8,
        (sums[2] / area) as u8,
    ];
    color
}

/// Whether every tile of the palette holds at least `BLOCK_SIZE` by
/// `BLOCK_SIZE` pixels.
pub fn covers_block(map: &BlockMap) -> (covers: bool)
    ensures
        covers == tiles_cover_block(map@),
{
    let mut k: usize = 0;
    while k < map.len()
        invariant
            k <= map@.len(),
            forall|i: int|
                0 <= i < k ==> (#[trigger] map@[i]).1@.width >= BLOCK_SIZE && map@[i].1@.height
                    >= BLOCK_SIZE,
        decreases map@.len() - k,
    {
        if buffer_width(&map[k].1) < BLOCK_SIZE || buffer_height(&map[k].1) < BLOCK_SIZE {
            return false;
        }
        k = k + 1;
    }
    true
}

/// Whether `tile` can stand in `out` for the cell whose top-left source pixel
/// is `(x, y)`.
pub fn can_place_tile(out: &ImgBuffer, tile: &ImgBuffer, x: u32, y: u32, scale: u32) -> (fits: bool)
    ensures
        fits == tile_fits(out@, tile@, x as nat, y as nat, scale as nat),
{
    if scale == 0 {
        return false;
    }
    let out_width: u32 = buffer_width(out);
    let out_height: u32 = buffer_height(out);
    let left: u64 = BLOCK_SIZE as u64 * x as u64 / scale as u64;
    let top: u64 = BLOCK_SIZE as u64 * y as u64 / scale as u64;
    buffer_width(tile) >= BLOCK_SIZE && buffer_height(tile) >= BLOCK_SIZE && left
        + BLOCK_SIZE as u64 <= out_width as u64 && top + BLOCK_SIZE as u64 <= out_height as u64
}

/// Writes the top-left `BLOCK_SIZE` by `BLOCK_SIZE` pixels of `tile` into
/// `out`, at the place of the cell whose top-left source pixel is `(x, y)`.
/// No other pixel of `out` changes.
pub fn place_tile(out: &mut ImgBuffer, tile: &ImgBuffer, x: u32, y: u32, scale: u32)
    requires
        tile_fits(old(out)@, tile@, x as nat, y as nat, scale as nat),
    ensures
        final(out)@.width == old(out)@.width,
        final(out)@.height == old(out)@.height,
        forall|px: int, py: int| #[trigger]
            final(out)@.pixel(px, py) == if in_tile(
                tile_offset(x as nat, scale as nat) as int,
                tile_offset(y as nat, scale as nat) as int,
                px,
                py,
            ) {
                tile@.pixel(
                    px - tile_offset(x as nat, scale as nat),
                    py - tile_offset(y as nat, scale as nat),
                )
            } else {
                old(out)@.pixel(px, py)
            },
{
    let width: u32 = buffer_width(out);
    let height: u32 = buffer_height(out);
    let left: u32 = (BLOCK_SIZE as u64 * x as u64 / scale as u64) as u32;
    let top: u32 = (BLOCK_SIZE as u64 * y as u64 / scale as u64) as u32;
    let mut i: u32 = 0;
    while i < BLOCK_SIZE
        invariant
            i <= BLOCK_SIZE,
            tile@.width >= BLOCK_SIZE,
            tile@.height >= BLOCK_SIZE,
            left == tile_offset(x as nat, scale as nat),
            top == tile_offset(y as nat, scale as nat),
            left + BLOCK_SIZE <= width,
            top + BLOCK_SIZE <= height,
            out@.width == width,
            out@.height == height,
            forall|px: int, py: int| #[trigger]
                out@.pixel(px, py) == if left <= px < left + i && top <= py < top + BLOCK_SIZE {
                    tile@.pixel(px - left, py - top)
                } else {
                    old(out)@.pixel(px, py)
                },
        decreases BLOCK_SIZE - i,
    {
        let mut j: u32 = 0;
        while j < BLOCK_SIZE
            invariant
                i < BLOCK_SIZE,
                j <= BLOCK_SIZE,
                tile@.width >= BLOCK_SIZE,
                tile@.height >= BLOCK_SIZE,
                left + BLOCK_SIZE <= width,
                top + BLOCK_SIZE <= height,
                out@.width == width,
                out@.height == height,
                forall|px: int, py: int| #[trigger]
                    out@.pixel(px, py) == if (left <= px < left + i && top <= py < top
                        + BLOCK_SIZE) || (px == left + i && top <= py < top + j) {
                        tile@.pixel(px - left, py - top)
                    } else {
                        old(out)@.pixel(px, py)
                    },
            decreases BLOCK_SIZE - j,
        {
            let ghost before = out@;
            let sample: [u8; 3] = buffer_get_pixel(tile, i, j);
            buffer_put_pixel(out, left + i, top + j, sample);
            assert forall|px: int, py: int| #[trigger]
                out@.pixel(px, py) == if (left <= px < left + i && top <= py < top + BLOCK_SIZE)
                    || (px == left + i && top <= py < top + j + 1) {
                    tile@.pixel(px - left, py - top)
                } else {
                    old(out)@.pixel(px, py)
                } by {
                if px != left + i || py != top + j {
                    assert(out@.pixel(px, py) == before.pixel(px, py));
                }
            }
            j = j + 1;
        }
        i = i + 1;
    }
}

/// Builds the mosaic of `img`: each whole cell of `scale` by `scale` pixels is
/// reduced to its colour, matched with a tile of the palette, and shown by
/// that tile.  Fails where there is a cell to match and the palette is empty.
/// What comes back is settled by the three arguments, to the last sample.
pub fn build_mosaic(img: &ImgBuffer, map: &BlockMap, scale: u32) -> (made: Result<
    ImgBuffer,
    MosaicError,
>)
    requires
        scale >= 1,
        output_fits(img@.width, img@.height, scale as nat),
        tiles_cover_block(map@),
    ensures
        made is Err <==> map@.len() == 0 && cells_along(img@.width, scale as nat) * cells_along(
            img@.height,
            scale as nat,
        ) > 0,
        made matches Err(e) ==> e == MosaicError::EmptyPalette,
        made matches Ok(out) ==> is_mosaic(out@, img@, map@, scale as nat),
        made matches Ok(out) ==> out@.width == cells_along(img@.width, scale as nat) * BLOCK_SIZE
            && out@.height == cells_along(img@.height, scale as nat) * BLOCK_SIZE,
        made matches Ok(out) ==> out@.samples() == mosaic_of(img@, map@, scale as nat).samples(),
{
    let width: u32 = buffer_width(img);
    let height: u32 = buffer_height(img);
    let cells: Vec<(u32, u32)> = cell_origins(width, height, scale);
    let ghost cols: nat = cells_along(width as nat, scale as nat);
    let ghost rows: nat = cells_along(height as nat, scale as nat);
    let mut out: ImgBuffer = buffer_new((width / scale) * BLOCK_SIZE, (height / scale) * BLOCK_SIZE);
    let mut k: usize = 0;
    while k < cells.len()
        invariant
            scale >= 1,
            width == img@.width,
            height == img@.height,
            cols == cells_along(width as nat, scale as nat),
            rows == cells_along(height as nat, scale as nat),
            tiles_cover_block(map@),
            cells@.len() == cols * rows,
            forall|i: int|
                0 <= i < cells@.len() ==> (#[trigger] cells@[i]).0 == cell_origin(
                    cols,
                    scale as nat,
                    i,
                ).0 && cells@[i].1 == cell_origin(cols, scale as nat, i).1,
            k <= cells@.len(),
            k > 0 ==> map@.len() > 0,
            out@.width == output_side(width as nat, scale as nat),
            out@.height == output_side(height as nat, scale as nat),
            forall|px: int, py: int|
                out@.contains(px, py) && cell_number(cols as int, px, py) < k
                    ==> #[trigger] out@.pixel(px, py) == mosaic_pixel(
                    img@,
                    map@,
                    scale as nat,
                    px,
                    py,
                ),
        decreases cells@.len() - k,
    {
        let x: u32 = cells[k].0;
        let y: u32 = cells[k].1;
        let ghost cx: int = k as int % (cols as int);
        let ghost cy: int = k as int / (cols as int);
        proof {
            lemma_grid_index(cols as int, rows as int, k as int);
            lemma_cell_on_axis(width as nat, scale as nat, cx as nat);
            lemma_cell_on_axis(height as nat, scale as nat, cy as nat);
        }
        let color: [u8; 3] = cell_color(img, x, y, scale);
        let tile: ImgBuffer = match get_best_block(map, &color) {
            Ok(tile) => tile,
            Err(e) => { return Err(e); },
        };
        let ghost before = out@;
        place_tile(&mut out, &tile, x, y, scale);
        proof {
            assert forall|px: int, py: int|
                out@.contains(px, py) && cell_number(cols as int, px, py) < k + 1
                    implies #[trigger] out@.pixel(px, py) == mosaic_pixel(
                img@,
                map@,
                scale as nat,
                px,
                py,
            ) by {
                lemma_each_pixel_has_one_cell(cols, rows, px, py);
                assert(in_tile_of_nth_cell(cols as int, k as int, px, py) == in_tile(
                    cx * BLOCK_SIZE,
                    cy * BLOCK_SIZE,
                    px,
                    py,
                ));
                if cell_number(cols as int, px, py) != k {
                    assert(out@.pixel(px, py) == before.pixel(px, py));
                }
            }
        }
        k = k + 1;
    }
    proof {
        assert forall|px: int, py: int| out@.contains(px, py) implies cell_number(
            cols as int,
            px,
            py,
        ) < cols * rows by {
            lemma_each_pixel_has_one_cell(cols, rows, px, py);
        }
        lemma_mosaic_of_is_the_mosaic(out@, img@, map@, scale as nat);
    }
    Ok(out)
}

} // verus!
