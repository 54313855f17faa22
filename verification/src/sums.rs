//! Sums of one colour channel over a block of pixels, from which the averages
//! are taken.

use vstd::prelude::*;
use crate::raster::{buffer_get_pixel, buffer_height, buffer_width, ImgBuffer, RasterView};

verus! {

impl RasterView {
    /// The sum of channel `c` over the `n` pixels of row `y` that start at
    /// column `x`.
    pub open spec fn row_sum(self, x: int, y: int, n: nat, c: int) -> int
        recommends
            0 <= c < 3,
        decreases n,
    {
        if n == 0 {
            0
        } else {
            self.row_sum(x, y, (n - 1) as nat, c) + self.pixel(x + n - 1, y)[c]
        }
    }

    /// The sum of channel `c` over the block of `cols` by `rows` pixels whose
    /// top-left pixel is `(x, y)`.
    pub open spec fn block_sum(self, x: int, y: int, cols: nat, rows: nat, c: int) -> int
        recommends
            0 <= c < 3,
        decreases rows,
    {
        if rows == 0 {
            0
        } else {
            self.block_sum(x, y, cols, (rows - 1) as nat, c) + self.row_sum(
                x,
                y + rows - 1,
                cols,
                c,
            )
        }
    }
}

/// A row of pixels that all hold `value` in channel `c` sums to as many times
/// `value`.
pub proof fn lemma_uniform_row_sum(img: RasterView, x: int, y: int, n: nat, c: int, value: int)
    requires
        0 <= c < 3,
        forall|i: int| x <= i < x + n ==> (#[trigger] img.pixel(i, y))[c] == value,
    ensures
        img.row_sum(x, y, n, c) == n * value,
    decreases n,
{
    if n > 0 {
        lemma_uniform_row_sum(img, x, y, (n - 1) as nat, c, value);
        assert((n - 1) * value + value == n * value) by (nonlinear_arith);
    } else {
        assert(n * value == 0) by (nonlinear_arith)
            requires
                n == 0,
        ;
    }
}

/// A block of pixels that all hold `value` in channel `c` sums to as many
/// times `value`.
pub proof fn lemma_uniform_block_sum(
    img: RasterView,
    x: int,
    y: int,
    cols: nat,
    rows: nat,
    c: int,
    value: int,
)
    requires
        0 <= c < 3,
        forall|i: int, j: int|
            x <= i < x + cols && y <= j < y + rows ==> (#[trigger] img.pixel(i, j))[c] == value,
    ensures
        img.block_sum(x, y, cols, rows, c) == (cols * rows) * value,
    decreases rows,
{
    if rows > 0 {
        lemma_uniform_block_sum(img, x, y, cols, (rows - 1) as nat, c, value);
        lemma_uniform_row_sum(img, x, y + rows - 1, cols, c, value);
        assert((cols * (rows - 1)) * value + cols * value == (cols * rows) * value)
            by (nonlinear_arith);
    } else {
        assert((cols * rows) * value == 0) by (nonlinear_arith)
            requires
                rows == 0,
        ;
    }
}

/// The sum of a channel over a row is at most 255 for each pixel.
pub proof fn lemma_row_sum_is_bounded(img: RasterView, x: int, y: int, n: nat, c: int)
    requires
        0 <= c < 3,
    ensures
        0 <= img.row_sum(x, y, n, c) <= 255 * n,
    decreases n,
{
    if n > 0 {
        lemma_row_sum_is_bounded(img, x, y, (n - 1) as nat, c);
    }
}

/// The sum of a channel over a block is at most 255 for each pixel.
pub proof fn lemma_block_sum_is_bounded(
    img: RasterView,
    x: int,
    y: int,
    cols: nat,
    rows: nat,
    c: int,
)
    requires
        0 <= c < 3,
    ensures
        0 <= img.block_sum(x, y, cols, rows, c) <= 255 * (cols * rows),
    decreases rows,
{
    if rows > 0 {
        lemma_block_sum_is_bounded(img, x, y, cols, (rows - 1) as nat, c);
        lemma_row_sum_is_bounded(img, x, y + rows - 1, cols, c);
        assert(255 * (cols * (rows - 1)) + 255 * cols == 255 * (cols * rows)) by (nonlinear_arith);
    } else {
        assert(cols * rows == 0) by (nonlinear_arith)
            requires
                rows == 0,
        ;
    }
}

/// Two rasters that hold the same pixels in a row sum to the same over it.
pub proof fn lemma_row_sum_agrees(a: RasterView, b: RasterView, x: int, y: int, n: nat, c: int)
    requires
        0 <= c < 3,
        forall|i: int| x <= i < x + n ==> #[trigger] a.pixel(i, y) == b.pixel(i, y),
    ensures
        a.row_sum(x, y, n, c) == b.row_sum(x, y, n, c),
    decreases n,
{
    if n > 0 {
        lemma_row_sum_agrees(a, b, x, y, (n - 1) as nat, c);
    }
}

/// Two rasters that hold the same pixels in a block sum to the same over it.
pub proof fn lemma_block_sum_agrees(
    a: RasterView,
    b: RasterView,
    x: int,
    y: int,
    cols: nat,
    rows: nat,
    c: int,
)
    requires
        0 <= c < 3,
        forall|i: int, j: int|
            x <= i < x + cols && y <= j < y + rows ==> #[trigger] a.pixel(i, j) == b.pixel(i, j),
    ensures
        a.block_sum(x, y, cols, rows, c) == b.block_sum(x, y, cols, rows, c),
    decreases rows,
{
    if rows > 0 {
        lemma_block_sum_agrees(a, b, x, y, cols, (rows - 1) as nat, c);
        lemma_row_sum_agrees(a, b, x, y + rows - 1, cols, c);
    }
}

/// Sums each channel over the block of `cols` by `rows` pixels whose top-left
/// pixel is `(x, y)`.
pub(crate) fn sum_block(img: &ImgBuffer, x: u32, y: u32, cols: u32, rows: u32) -> (sums: [u128; 3])
    requires
        x + cols <= img@.width,
        y + rows <= img@.height,
    ensures
        forall|c: int|
            0 <= c < 3 ==> #[trigger] sums@[c] == img@.block_sum(
                x as int,
                y as int,
                cols as nat,
                rows as nat,
                c,
            ),
        forall|c: int| 0 <= c < 3 ==> #[trigger] sums@[c] <= 255 * (cols * rows),
{
    let width: u32 = buffer_width(img);
    let height: u32 = buffer_height(img);
    let mut red: u128 = 0;
    let mut green: u128 = 0;
    let mut blue: u128 = 0;
    let mut j: u32 = 0;
    while j < rows
        invariant
            j <= rows,
            width == img@.width,
            height == img@.height,
            x + cols <= width,
            y + rows <= height,
            red == img@.block_sum(x as int, y as int, cols as nat, j as nat, 0),
            green == img@.block_sum(x as int, y as int, cols as nat, j as nat, 1),
            blue == img@.block_sum(x as int, y as int, cols as nat, j as nat, 2),
            red <= 255 * (cols * j),
            green <= 255 * (cols * j),
            blue <= 255 * (cols * j),
        decreases rows - j,
    {
        let mut row_red: u64 = 0;
        let mut row_green: u64 = 0;
        let mut row_blue: u64 = 0;
        let mut i: u32 = 0;
        while i < cols
            invariant
                i <= cols,
                j < rows,
                width == img@.width,
                height == img@.height,
                x + cols <= width,
                y + rows <= height,
                row_red == img@.row_sum(x as int, y + j, i as nat, 0),
                row_green == img@.row_sum(x as int, y + j, i as nat, 1),
                row_blue == img@.row_sum(x as int, y + j, i as nat, 2),
                row_red <= 255 * i,
                row_green <= 255 * i,
                row_blue <= 255 * i,
            decreases cols - i,
        {
            let px: [u8; 3] = buffer_get_pixel(img, x + i, y + j);
            row_red = row_red + px[0] as u64;
            row_green = row_green + px[1] as u64;
            row_blue = row_blue + px[2] as u64;
            i = i + 1;
        }
        assert(255 * (cols * j) + 255 * cols == 255 * (cols * (j + 1))) by (nonlinear_arith);
        assert(cols * j <= 0xffff_ffff * 0xffff_ffff) by (nonlinear_arith)
            requires
                cols <= 0xffff_ffff,
                j <= 0xffff_ffff,
        ;
        red = red + row_red as u128;
        green = green + row_green as u128;
        blue = blue + row_blue as u128;
        j = j + 1;
    }
    [red, green, blue]
}

} // verus!
