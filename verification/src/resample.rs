//! Resizing a raster to exact dimensions.
//!
//! The resampling itself is the `image` crate's: this module gives its
//! result a name, states when the call can be made, and makes it.

use vstd::prelude::*;
use crate::raster::{buffer_fits, Raster, RasterView};

verus! {

/// The bytes of the raster that `image::DynamicImage::resize_exact` with
/// the triangle filter makes of an RGB raster with the bytes `bytes` and the
/// dimensions `width` by `height`, when asked for `new_width` by
/// `new_height` pixels.
pub uninterp spec fn resampled(
    bytes: Seq<u8>,
    width: nat,
    height: nat,
    new_width: nat,
    new_height: nat,
) -> Seq<u8>;

/// The raster that resizing `v` to `new_width` by `new_height` gives.
pub open spec fn resized(v: RasterView, new_width: nat, new_height: nat) -> RasterView {
    RasterView {
        width: new_width,
        height: new_height,
        bytes: resampled(v.bytes, v.width, v.height, new_width, new_height),
    }
}

/// The longest side of a raster that is resized or made by resizing. Up to
/// this length the single precision arithmetic of the resampling places
/// every sample point less than one pixel from the raster it samples.
pub const MAX_SIDE: u32 = 0x40_0000;

/// A raster of `width` by `height` pixels can be resized to `new_width` by
/// `new_height`: neither raster is empty, no side is longer than
/// [`MAX_SIDE`], and both the result and the intermediate raster of `width`
/// by `new_height` pixels, which has four 4-byte samples per pixel, can be
/// allocated.
pub open spec fn can_resize(width: nat, height: nat, new_width: nat, new_height: nat) -> bool {
    &&& 1 <= width <= MAX_SIDE
    &&& 1 <= height <= MAX_SIDE
    &&& 1 <= new_width <= MAX_SIDE
    &&& 1 <= new_height <= MAX_SIDE
    &&& 16 * (width * new_height) <= isize::MAX
    &&& buffer_fits(new_width, new_height)
}

/// Calls `image::DynamicImage::resize_exact` with
/// `image::imageops::FilterType::Triangle` on an 8-bit RGB image.
///
/// Trusted: the result has the dimensions asked for and three bytes per
/// pixel, its bytes are a function of the arguments, and a request for the
/// dimensions that the raster already has returns a copy of it. The
/// `requires` keeps away the inputs on which the call panics: empty rasters,
/// buffers too large to allocate, and sides so long that rounding could
/// leave a sample point without a pixel in reach.
#[verifier::external_body]
pub(crate) fn resize_triangle(img: &Raster, new_width: u32, new_height: u32) -> (out: Raster)
    requires
        img.wf(),
        can_resize(img@.width, img@.height, new_width as nat, new_height as nat),
    ensures
        out.wf(),
        out@.width == new_width,
        out@.height == new_height,
        out@.bytes == resampled(
            img@.bytes,
            img@.width,
            img@.height,
            new_width as nat,
            new_height as nat,
        ),
        new_width == img@.width && new_height == img@.height ==> out@.bytes == img@.bytes,
{
    let src = image::RgbImage::from_raw(img.width, img.height, img.data.clone()).unwrap();
    let out = image::DynamicImage::ImageRgb8(src).resize_exact(
        new_width,
        new_height,
        image::imageops::FilterType::Triangle,
    ).to_rgb8();
    Raster { width: out.width(), height: out.height(), data: out.into_raw() }
}

/// Whether [`can_resize`] holds of these dimensions.
pub fn resize_allowed(width: u32, height: u32, new_width: u32, new_height: u32) -> (ok: bool)
    ensures
        ok == can_resize(width as nat, height as nat, new_width as nat, new_height as nat),
{
    if width == 0 || height == 0 || new_width == 0 || new_height == 0 {
        return false;
    }
    if width > MAX_SIDE || height > MAX_SIDE || new_width > MAX_SIDE || new_height > MAX_SIDE {
        return false;
    }
    let w: u128 = width as u128;
    let h: u128 = new_height as u128;
    assert(w * h <= 0xffff_ffff * 0xffff_ffff) by (nonlinear_arith)
        requires
            w <= 0xffff_ffff,
            h <= 0xffff_ffff,
    ;
    16 * (w * h) <= isize::MAX as u128 && Raster::fits(new_width, new_height)
}

impl Raster {
    /// Resizes the raster to exactly `new_width` by `new_height` pixels with
    /// a triangle filter, without regard to its aspect ratio. Returns `None`
    /// where that cannot be done: see [`can_resize`].
    pub fn resize_exact(&self, new_width: u32, new_height: u32) -> (res: Option<Raster>)
        requires
            self.wf(),
        ensures
            res is Some <==> can_resize(
                self@.width,
                self@.height,
                new_width as nat,
                new_height as nat,
            ),
            res matches Some(out) ==> out.wf() && out@ == resized(
                self@,
                new_width as nat,
                new_height as nat,
            ) && (new_width == self@.width && new_height == self@.height ==> out@ == self@),
    {
        if resize_allowed(self.width(), self.height(), new_width, new_height) {
            Some(resize_triangle(self, new_width, new_height))
        } else {
            None
        }
    }
}

} // verus!
