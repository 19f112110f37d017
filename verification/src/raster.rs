//! Decoded RGB rasters.
//!
//! A raster is a rectangle of 8-bit RGB pixels stored row by row, three
//! bytes per pixel, with no padding between rows.

use vstd::prelude::*;
use crate::color::Rgb;

verus! {

/// The pixel that the bytes `3k`, `3k + 1` and `3k + 2` of `bytes` spell.
pub open spec fn pixel_of(bytes: Seq<u8>, k: int) -> Rgb {
    Rgb { r: bytes[3 * k], g: bytes[3 * k + 1], b: bytes[3 * k + 2] }
}

/// What a raster is: its dimensions and its bytes.
pub struct RasterView {
    pub width: nat,
    pub height: nat,
    pub bytes: Seq<u8>,
}

impl RasterView {
    /// The number of pixels.
    pub open spec fn count(self) -> nat {
        self.width * self.height
    }

    /// The bytes hold exactly three channels for each pixel.
    pub open spec fn wf(self) -> bool {
        self.bytes.len() == 3 * self.count()
    }

    /// The `k`-th pixel in row-major order.
    pub open spec fn pixel(self, k: int) -> Rgb {
        pixel_of(self.bytes, k)
    }

    /// The pixel in column `x` of row `y`.
    pub open spec fn pixel_at(self, x: int, y: int) -> Rgb {
        self.pixel(y * self.width + x)
    }

    /// Every pixel has the colour `c`.
    pub open spec fn is_solid(self, c: Rgb) -> bool {
        forall|k: int| 0 <= k < self.count() ==> #[trigger] self.pixel(k) == c
    }

    /// Width and height are equal.
    pub open spec fn is_square(self) -> bool {
        self.width == self.height
    }
}

/// A raster of `width` by `height` pixels can be allocated.
pub open spec fn buffer_fits(width: nat, height: nat) -> bool {
    3 * (width * height) <= isize::MAX
}

/// A coordinate pair inside a `w` by `h` rectangle has a row-major index
/// inside it.
pub proof fn lemma_index_in_range(x: int, y: int, w: int, h: int)
    requires
        0 <= x < w,
        0 <= y < h,
    ensures
        0 <= y * w + x < w * h,
{
    assert(0 <= y * w && y * w + w <= h * w && h * w == w * h) by (nonlinear_arith)
        requires
            0 <= y < h,
            0 <= w,
    ;
}

/// Distinct coordinate pairs have distinct row-major indices.
pub proof fn lemma_index_injective(x1: int, y1: int, x2: int, y2: int, w: int)
    requires
        0 <= x1 < w,
        0 <= x2 < w,
        y1 * w + x1 == y2 * w + x2,
    ensures
        x1 == x2,
        y1 == y2,
{
    assert(y1 == y2) by (nonlinear_arith)
        requires
            0 <= x1 < w,
            0 <= x2 < w,
            y1 * w + x1 == y2 * w + x2,
    ;
}

/// An owned RGB raster.
#[derive(Debug)]
pub struct Raster {
    pub(crate) width: u32,
    pub(crate) height: u32,
    pub(crate) data: Vec<u8>,
}

impl View for Raster {
    type V = RasterView;

    closed spec fn view(&self) -> RasterView {
        RasterView { width: self.width as nat, height: self.height as nat, bytes: self.data@ }
    }
}

impl Raster {
    /// The raster's invariant: see [`RasterView::wf`].
    pub open spec fn wf(&self) -> bool {
        self@.wf()
    }

    /// The bytes of a raster can be counted in a `usize`, and its dimensions
    /// in a `u32` each.
    pub proof fn lemma_size_bound(&self)
        requires
            self.wf(),
        ensures
            3 * self@.count() <= usize::MAX,
            self@.width <= u32::MAX,
            self@.height <= u32::MAX,
    {
        assert(self.data.len() == self.data@.len());
    }

    /// Wraps `data` as a raster of `width` by `height` pixels, if it has
    /// exactly the length that those dimensions call for.
    pub fn new(width: u32, height: u32, data: Vec<u8>) -> (res: Option<Raster>)
        ensures
            res is Some <==> data@.len() == 3 * (width as nat * height as nat),
            res matches Some(r) ==> r.wf() && r@ == (RasterView {
                width: width as nat,
                height: height as nat,
                bytes: data@,
            }),
    {
        let need: u128 = Self::byte_len(width, height);
        if data.len() as u128 == need {
            Some(Raster { width, height, data })
        } else {
            None
        }
    }

    /// The number of bytes that a raster of these dimensions holds.
    pub fn byte_len(width: u32, height: u32) -> (n: u128)
        ensures
            n == 3 * (width as nat * height as nat),
    {
        let w: u128 = width as u128;
        let h: u128 = height as u128;
        assert(w * h <= 0xffff_ffff * 0xffff_ffff) by (nonlinear_arith)
            requires
                w <= 0xffff_ffff,
                h <= 0xffff_ffff,
        ;
        3 * (w * h)
    }

    /// Whether a raster of these dimensions can be allocated.
    pub fn fits(width: u32, height: u32) -> (ok: bool)
        ensures
            ok == buffer_fits(width as nat, height as nat),
    {
        Self::byte_len(width, height) <= isize::MAX as u128
    }

    /// A raster of `width` by `height` pixels, each of the colour `c`;
    /// `None` if a raster of that size cannot be allocated.
    pub fn solid(width: u32, height: u32, c: Rgb) -> (res: Option<Raster>)
        ensures
            res is Some <==> buffer_fits(width as nat, height as nat),
            res matches Some(r) ==> r.wf() && r@.width == width && r@.height == height
                && r@.is_solid(c),
    {
        if !Self::fits(width, height) {
            return None;
        }
        let count: usize = (width as usize) * (height as usize);
        let mut data: Vec<u8> = Vec::new();
        let mut i: usize = 0;
        while i < count
            invariant
                i <= count,
                count == width as nat * height as nat,
                data@.len() == 3 * i,
                forall|k: int| 0 <= k < i ==> #[trigger] pixel_of(data@, k) == c,
            decreases count - i,
        {
            let ghost before = data@;
            data.push(c.r);
            data.push(c.g);
            data.push(c.b);
            assert forall|k: int| 0 <= k < i + 1 implies #[trigger] pixel_of(data@, k) == c by {
                if k < i {
                    assert(pixel_of(before, k) == c);
                }
            }
            i = i + 1;
        }
        Some(Raster { width, height, data })
    }

    /// The number of columns.
    pub fn width(&self) -> (w: u32)
        ensures
            w == self@.width,
    {
        self.width
    }

    /// The number of rows.
    pub fn height(&self) -> (h: u32)
        ensures
            h == self@.height,
    {
        self.height
    }

    /// Width and height, in that order.
    pub fn dimensions(&self) -> (d: (u32, u32))
        ensures
            d.0 == self@.width,
            d.1 == self@.height,
    {
        (self.width, self.height)
    }

    /// The number of pixels.
    pub fn pixel_count(&self) -> (n: usize)
        requires
            self.wf(),
        ensures
            n == self@.count(),
    {
        proof {
            self.lemma_size_bound();
        }
        (self.width as usize) * (self.height as usize)
    }

    /// The `k`-th pixel in row-major order.
    pub fn pixel(&self, k: usize) -> (c: Rgb)
        requires
            self.wf(),
            k < self@.count(),
        ensures
            c == self@.pixel(k as int),
    {
        proof {
            self.lemma_size_bound();
        }
        Rgb { r: self.data[3 * k], g: self.data[3 * k + 1], b: self.data[3 * k + 2] }
    }

    /// The pixel in column `x` of row `y`.
    pub fn get_pixel(&self, x: u32, y: u32) -> (c: Rgb)
        requires
            self.wf(),
            x < self@.width,
            y < self@.height,
        ensures
            c == self@.pixel_at(x as int, y as int),
    {
        proof {
            self.lemma_size_bound();
            lemma_index_in_range(x as int, y as int, self.width as int, self.height as int);
            assert((y as int) * (self.width as int) >= 0) by (nonlinear_arith);
        }
        let k: usize = (y as usize) * (self.width as usize) + (x as usize);
        self.pixel(k)
    }

    /// Replaces the pixel in column `x` of row `y` by `c` and leaves every
    /// other pixel as it was.
    pub fn put_pixel(&mut self, x: u32, y: u32, c: Rgb)
        requires
            old(self).wf(),
            x < old(self)@.width,
            y < old(self)@.height,
        ensures
            final(self).wf(),
            final(self)@.width == old(self)@.width,
            final(self)@.height == old(self)@.height,
            final(self)@.pixel_at(x as int, y as int) == c,
            forall|k: int|
                0 <= k < old(self)@.count() && k != y * old(self)@.width + x
                    ==> #[trigger] final(self)@.pixel(k) == old(self)@.pixel(k),
            forall|i: int, j: int|
                0 <= i < old(self)@.width && 0 <= j < old(self)@.height && !(i == x && j == y)
                    ==> #[trigger] final(self)@.pixel_at(i, j) == old(self)@.pixel_at(i, j),
    {
        proof {
            self.lemma_size_bound();
            lemma_index_in_range(x as int, y as int, self.width as int, self.height as int);
            assert((y as int) * (self.width as int) >= 0) by (nonlinear_arith);
        }
        let k: usize = (y as usize) * (self.width as usize) + (x as usize);
        self.data.set(3 * k, c.r);
        self.data.set(3 * k + 1, c.g);
        self.data.set(3 * k + 2, c.b);
        proof {
            let w: int = self.width as int;
            assert forall|i: int, j: int|
                0 <= i < w && 0 <= j < self.height && !(i == x && j == y) implies #[trigger] self@.pixel_at(
                i,
                j,
            ) == old(self)@.pixel_at(i, j) by {
                lemma_index_in_range(i, j, w, self.height as int);
                if j * w + i == y * w + x {
                    lemma_index_injective(i, j, x as int, y as int, w);
                }
                assert(self@.pixel(j * w + i) == old(self)@.pixel(j * w + i));
            }
        }
    }

    /// The raster's bytes, row by row.
    pub fn as_raw(&self) -> (bytes: &Vec<u8>)
        ensures
            bytes@ == self@.bytes,
    {
        &self.data
    }

    /// Gives up the raster for its bytes.
    pub fn into_raw(self) -> (bytes: Vec<u8>)
        ensures
            bytes@ == self@.bytes,
    {
        self.data
    }
}

} // verus!
