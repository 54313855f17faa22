//! The pixel rasters that the library reads and fills.
//!
//! A raster is stored in an `image::ImageBuffer`.  The verifier does not look
//! inside that buffer: the contracts speak of a raster through its width, its
//! height and the samples of its pixels, and the few functions that touch the
//! buffer state what the `image` crate does to these three.

use vstd::prelude::*;
use vstd::arithmetic::div_mod::lemma_fundamental_div_mod;

verus! {

/// An 8-bit RGB raster, stored in an `image::ImageBuffer`.  The verifier
/// knows of it only what the functions below state.
#[verifier::external_body]
#[derive(Debug)]
pub struct ImgBuffer {
    buf: image::ImageBuffer<image::Rgb<u8>, Vec<u8>>,
}

/// The number of pixel columns of a raster: what `image::ImageBuffer::width`
/// returns.
pub uninterp spec fn raster_width(img: ImgBuffer) -> nat;

/// The number of pixel rows of a raster: what `image::ImageBuffer::height`
/// returns.
pub uninterp spec fn raster_height(img: ImgBuffer) -> nat;

/// The red, green and blue sample of each pixel of a raster, by column and
/// row: what `image::ImageBuffer::get_pixel` returns there.
pub uninterp spec fn raster_pixels(img: ImgBuffer) -> Map<(int, int), [u8; 3]>;

/// What a raster is to the contracts: its size and its pixels.
pub struct RasterView {
    pub width: nat,
    pub height: nat,
    pub pixels: Map<(int, int), [u8; 3]>,
}

impl RasterView {
    /// `(x, y)` names a pixel of the raster.
    pub open spec fn contains(self, x: int, y: int) -> bool {
        0 <= x < self.width && 0 <= y < self.height
    }

    /// The three samples of the pixel at `(x, y)`.
    pub open spec fn pixel(self, x: int, y: int) -> [u8; 3] {
        self.pixels[(x, y)]
    }

    /// The samples of the raster as they are stored and written out: row by
    /// row from the top, in each row pixel by pixel from the left, and of
    /// each pixel red, green and blue.
    pub open spec fn samples(self) -> Seq<u8> {
        Seq::new(
            3 * self.width * self.height,
            |k: int| self.pixel((k / 3) % (self.width as int), (k / 3) / (self.width as int))[k % 3],
        )
    }
}

impl View for ImgBuffer {
    type V = RasterView;

    open spec fn view(&self) -> RasterView {
        RasterView {
            width: raster_width(*self),
            height: raster_height(*self),
            pixels: raster_pixels(*self),
        }
    }
}

/// Where the samples of the pixel at `(x, y)` start in the row-major sample
/// sequence of a raster `width` pixels wide.
pub open spec fn sample_offset(width: int, x: int, y: int) -> int {
    3 * (y * width + x)
}

/// Calls `image::ImageBuffer::new`.  It counts the samples in machine words,
/// those of one row first and then those of all rows, and panics where either
/// count overflows or the samples would not fit in a vector.  Taken on trust:
/// the raster has the given size, and every sample of it is zero.
#[verifier::external_body]
pub(crate) fn buffer_new(width: u32, height: u32) -> (out: ImgBuffer)
    requires
        3 * width <= usize::MAX,
        3 * width * height <= isize::MAX,
    ensures
        raster_width(out) == width,
        raster_height(out) == height,
        forall|x: int, y: int|
            0 <= x < width && 0 <= y < height ==> (#[trigger] raster_pixels(out)[(x, y)])@
                == seq![0u8, 0u8, 0u8],
{
    ImgBuffer { buf: image::ImageBuffer::new(width, height) }
}

/// Calls `image::ImageBuffer::from_raw`.  It counts the samples in machine
/// words, those of one row first and then those of all rows.  Taken on trust:
/// a raster comes back if and only if the samples of one row can be counted
/// and there are at least three samples for each pixel; it has the given
/// size, and its pixels are the given samples, row by row, three to a pixel.
#[verifier::external_body]
pub(crate) fn buffer_from_raw(width: u32, height: u32, data: Vec<u8>) -> (out: Option<ImgBuffer>)
    ensures
        out is Some <==> (3 * width <= usize::MAX && 3 * width * height <= data@.len()),
        out matches Some(img) ==> raster_width(img) == width && raster_height(img) == height
            && forall|x: int, y: int|
            0 <= x < width && 0 <= y < height ==> (#[trigger] raster_pixels(img)[(x, y)])@
                == data@.subrange(sample_offset(width as int, x, y), sample_offset(width as int, x, y) + 3),
{
    match image::ImageBuffer::from_raw(width, height, data) {
        Some(buf) => Some(ImgBuffer { buf }),
        None => None,
    }
}

/// Calls `image::ImageBuffer::into_raw`.  Taken on trust: there come back at
/// least three samples for each pixel, and the first of them are those of the
/// pixels, row by row, three to a pixel.
#[verifier::external_body]
pub(crate) fn buffer_into_raw(img: ImgBuffer) -> (data: Vec<u8>)
    ensures
        3 * raster_width(img) * raster_height(img) <= data@.len(),
        forall|x: int, y: int|
            0 <= x < raster_width(img) && 0 <= y < raster_height(img) ==> data@.subrange(
                sample_offset(raster_width(img) as int, x, y),
                sample_offset(raster_width(img) as int, x, y) + 3,
            ) == (#[trigger] raster_pixels(img)[(x, y)])@,
{
    img.buf.into_raw()
}

/// Calls `image::ImageBuffer::width`.  Taken on trust: the width of the
/// raster comes back.
#[verifier::external_body]
pub(crate) fn buffer_width(img: &ImgBuffer) -> (w: u32)
    ensures
        w == raster_width(*img),
{
    img.buf.width()
}

/// Calls `image::ImageBuffer::height`.  Taken on trust: the height of the
/// raster comes back.
#[verifier::external_body]
pub(crate) fn buffer_height(img: &ImgBuffer) -> (h: u32)
    ensures
        h == raster_height(*img),
{
    img.buf.height()
}

/// Calls `image::ImageBuffer::get_pixel`, which panics outside the raster.
/// Taken on trust: the three samples of the pixel at `(x, y)` come back.
#[verifier::external_body]
pub(crate) fn buffer_get_pixel(img: &ImgBuffer, x: u32, y: u32) -> (px: [u8; 3])
    requires
        x < raster_width(*img),
        y < raster_height(*img),
    ensures
        px == raster_pixels(*img)[(x as int, y as int)],
{
    img.buf.get_pixel(x, y).0
}

/// Calls `image::ImageBuffer::put_pixel`, which panics outside the raster.
/// Taken on trust: the pixel at `(x, y)` takes the given samples, and neither
/// the size nor another pixel changes.
#[verifier::external_body]
pub(crate) fn buffer_put_pixel(img: &mut ImgBuffer, x: u32, y: u32, px: [u8; 3])
    requires
        x < raster_width(*old(img)),
        y < raster_height(*old(img)),
    ensures
        raster_width(*final(img)) == raster_width(*old(img)),
        raster_height(*final(img)) == raster_height(*old(img)),
        raster_pixels(*final(img)) == raster_pixels(*old(img)).insert((x as int, y as int), px),
{
    img.buf.put_pixel(x, y, image::Rgb(px));
}

/// Calls `Clone::clone` of `image::ImageBuffer`.  Taken on trust: the copy
/// has the size and the pixels of the raster.
#[verifier::external_body]
pub(crate) fn buffer_clone(img: &ImgBuffer) -> (out: ImgBuffer)
    ensures
        raster_width(out) == raster_width(*img),
        raster_height(out) == raster_height(*img),
        raster_pixels(out) == raster_pixels(*img),
{
    ImgBuffer { buf: img.buf.clone() }
}

/// Sample `k` of a raster of `width` by `height` pixels belongs to a pixel of
/// the raster, and the samples of that pixel start where `sample_offset`
/// says.
pub proof fn lemma_sample_position(width: nat, height: nat, k: int)
    requires
        0 <= k < 3 * width * height,
    ensures
        0 <= (k / 3) % (width as int) < width,
        0 <= (k / 3) / (width as int) < height,
        sample_offset(width as int, (k / 3) % (width as int), (k / 3) / (width as int)) + k % 3
            == k,
        sample_offset(width as int, (k / 3) % (width as int), (k / 3) / (width as int)) + 3 <= 3
            * width * height,
{
    let p = k / 3;
    assert(3 * width * height == 3 * (width * height)) by (nonlinear_arith);
    assert(width > 0) by (nonlinear_arith)
        requires
            0 <= p < width * height,
    ;
    lemma_fundamental_div_mod(p, width as int);
    let row = p / (width as int);
    let col = p % (width as int);
    assert(0 <= row < height) by (nonlinear_arith)
        requires
            0 <= p < width * height,
            p == row * width + col,
            0 <= col < width,
    ;
}

impl ImgBuffer {
    /// A raster of `width` by `height` pixels over the given samples, which
    /// stand row by row, three to a pixel.  There must be exactly as many as
    /// the size asks for, and the samples of one row must be countable in a
    /// machine word, also where there is no row.
    pub fn from_samples(width: u32, height: u32, data: Vec<u8>) -> (made: Option<ImgBuffer>)
        ensures
            made is Some <==> (3 * width <= usize::MAX && data@.len() == 3 * width * height),
            made matches Some(img) ==> img@.width == width && img@.height == height
                && img@.samples() == data@,
    {
        assert(width * height <= 0xffff_ffff * 0xffff_ffff) by (nonlinear_arith)
            requires
                width <= 0xffff_ffff,
                height <= 0xffff_ffff,
        ;
        assert(3 * width * height == 3 * (width * height)) by (nonlinear_arith);
        let wanted: u128 = 3 * (width as u128 * height as u128);
        if 3 * (width as u128) > usize::MAX as u128 || data.len() as u128 != wanted {
            return None;
        }
        let ghost samples = data@;
        match buffer_from_raw(width, height, data) {
            Some(img) => {
                proof {
                    assert forall|k: int| 0 <= k < samples.len() implies img@.samples()[k]
                        == samples[k] by {
                        lemma_sample_position(width as nat, height as nat, k);
                        let x = (k / 3) % (width as int);
                        let y = (k / 3) / (width as int);
                        let start = sample_offset(width as int, x, y);
                        assert(img@.pixel(x, y)@ == samples.subrange(start, start + 3));
                    }
                }
                Some(img)
            },
            None => None,
        }
    }

    /// The samples of the raster, row by row, three to a pixel.
    pub fn into_samples(self) -> (data: Vec<u8>)
        ensures
            data@ == self@.samples(),
    {
        let width: u32 = buffer_width(&self);
        let height: u32 = buffer_height(&self);
        let mut data: Vec<u8> = buffer_into_raw(self);
        assert(3 * width * height == 3 * (width * height)) by (nonlinear_arith);
        let ghost held = data@;
        assert(held.len() == data.len());
        let wanted: usize = 3 * (width as usize * height as usize);
        data.truncate(wanted);
        proof {
            assert forall|k: int| 0 <= k < data@.len() implies data@[k] == self@.samples()[k] by {
                lemma_sample_position(width as nat, height as nat, k);
                let x = (k / 3) % (width as int);
                let y = (k / 3) / (width as int);
                let start = sample_offset(width as int, x, y);
                assert(self@.pixel(x, y)@ == held.subrange(start, start + 3));
            }
        }
        data
    }

    /// The width and the height of the raster, in pixels.
    pub fn dimensions(&self) -> (size: (u32, u32))
        ensures
            size.0 == self@.width,
            size.1 == self@.height,
    {
        (buffer_width(self), buffer_height(self))
    }
}

} // verus!
