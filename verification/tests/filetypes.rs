//! Mosaics of a gradient whose source image and result pass through popular
//! image encodings.

// tilr - A program to build an image from a set of image 'tiles'.
// Copyright (C) 2023  Charles German <5donuts@pm.me>
//
// This program is free software: you can redistribute it and/or modify
// it under the terms of the GNU General Public License as published by
// the Free Software Foundation, either version 3 of the License, or
// (at your option) any later version.
// This program is distributed in the hope that it will be useful,
// but WITHOUT ANY WARRANTY; without even the implied warranty of
// MERCHANTABILITY or FITNESS FOR A PARTICULAR PURPOSE.  See the
// GNU General Public License for more details.
//
// You should have received a copy of the GNU General Public License
// along with this program.  If not, see <https://www.gnu.org/licenses/>.

use image::{DynamicImage, GenericImage, ImageFormat, Pixel, Rgb};
use std::error::Error;
use std::io::Cursor;
use std::ops::{Add, Div, Sub};
use tilr::{Mosaic, Raster, Scale};

// Tile constants
const TILE_WIDTH: u32 = 25;
const TILE_HEIGHT: u32 = 25;
const COLORS: [(u8, u8, u8); 12] = [
    (0, 0, 0),       // black
    (255, 255, 255), // white
    (208, 35, 35),   // red
    (209, 136, 192), // pink
    (125, 36, 209),  // purple
    (52, 36, 209),   // blue
    (36, 167, 209),  // lighter blue
    (36, 209, 136),  // blue-ish green-ish
    (42, 209, 36),   // green
    (159, 209, 36),  // green-ish yellow-ish
    (209, 207, 36),  // yellow
    (209, 108, 36),  // orange
];

// Mosaic constants
const PURPLE: (u8, u8, u8) = (125, 36, 209);
const YELLOW: (u8, u8, u8) = (209, 207, 36);
const WIDTH: u32 = 250;
const HEIGHT: u32 = 250;
const SCALE_FACTOR: f32 = 0.25;
const TILE_SCALE_SIZE: u8 = 8; // scale the tiles to be 8px x 8px images

/// Encode an image in the given format, in memory.
fn encode(img: &DynamicImage, format: ImageFormat) -> Result<Vec<u8>, Box<dyn Error>> {
    let mut bytes = Cursor::new(Vec::new());
    img.write_to(&mut bytes, format)?;
    Ok(bytes.into_inner())
}

/// Decode an image of the given format and hand it to the library as a raster.
fn decode(bytes: &[u8], format: ImageFormat) -> Result<Raster, Box<dyn Error>> {
    let img = image::load_from_memory_with_format(bytes, format)?.into_rgb8();
    let (w, h) = img.dimensions();
    Ok(Raster::new(w, h, img.into_raw()).expect("decoded buffer has three bytes per pixel"))
}

/// Create the solid-color tile images, each one encoded as a PNG
fn make_tiles() -> Result<Vec<Vec<u8>>, Box<dyn Error>> {
    let mut tiles = Vec::new();
    for c in COLORS.iter() {
        let mut img = DynamicImage::new_rgb8(TILE_WIDTH, TILE_HEIGHT);
        for x in 0..TILE_WIDTH {
            for y in 0..TILE_HEIGHT {
                let px = Rgb([c.0, c.1, c.2]);
                img.put_pixel(x, y, px.to_rgba());
            }
        }

        let img = DynamicImage::ImageRgb8(img.to_rgb8());
        tiles.push(encode(&img, ImageFormat::Png)?);
    }

    Ok(tiles)
}

/// Decode the tile images
fn load_tiles(encoded: &[Vec<u8>]) -> Result<Vec<Raster>, Box<dyn Error>> {
    let mut tiles = Vec::new();
    for bytes in encoded {
        tiles.push(decode(bytes, ImageFormat::Png)?);
    }
    Ok(tiles)
}

/// The core logic of these tests
///
/// # Arguments
/// * `extension` - the file extension (e.g., `png` for a `.png` file) to test encoding & decoding
///
/// # Returns
/// `Ok(())` if no errors were encountered while creating the mosaic.
///
/// `Err(_)` if any error was encountered while creating the mosaic.
fn make_mosaic(extension: &str) -> Result<(), Box<dyn Error>> {
    let format = ImageFormat::from_extension(extension)
        .ok_or_else(|| format!("no image format for the extension {}", extension))?;
    // create the tiles
    let encoded_tiles = make_tiles()?;
    // create the src image
    let img = gradient(&PURPLE, &YELLOW, WIDTH, HEIGHT);
    let encoded_img = encode(&img, format)?;

    // create the mosaic
    let img = decode(&encoded_img, format)?;
    let tiles = load_tiles(&encoded_tiles)?;
    let mosaic = Mosaic::new(
        img,
        &tiles,
        Scale::from_bits(SCALE_FACTOR.to_bits()),
        TILE_SCALE_SIZE,
    )
    .map_err(|e| e.message())?;
    let (mos_x, mos_y) = mosaic.output_size();
    let mosaic = mosaic.to_image();
    assert_eq!(mosaic.dimensions(), (mos_x, mos_y));
    assert_eq!((mos_x, mos_y), (63 * 8, 63 * 8));

    let mosaic = image::RgbImage::from_raw(mos_x, mos_y, mosaic.into_raw())
        .expect("the mosaic has three bytes per pixel");
    encode(&DynamicImage::ImageRgb8(mosaic), format)?;
    Ok(())
}

/// Generate a gradient from one color to another
///
/// # Arguments
/// * `c1` - the start color of the gradient (i.e., top left color)
/// * `c2` - the stop color of the gradient (i.e., bottom right color)
/// * `w` - the width of the resulting image
/// * `h` - the height of the resulting image
fn gradient(c1: &(u8, u8, u8), c2: &(u8, u8, u8), w: u32, h: u32) -> DynamicImage {
    let mut img = DynamicImage::new_rgb8(w, h);

    // Convert u8 to f32 for easier subtraction & division, plus use the convenience type
    let c1 = Color((c1.0 as f32, c1.1 as f32, c1.2 as f32));
    let c2 = Color((c2.0 as f32, c2.1 as f32, c2.2 as f32));

    // Change in the x- or y-directions per pixel
    let d_x = &(&c2 - &c1) / w as f32;
    let d_y = &(&c2 - &c1) / h as f32;

    let mut c_x = c1;
    for x in 0..w {
        let mut c_y = c1;
        for y in 0..h {
            let color = &(&c_x + &c_y) / 2.0;
            let px = Rgb(color.to_u8_array());
            img.put_pixel(x, y, px.to_rgba());

            c_y = &c_y + &d_y;
        }
        c_x = &c_x + &d_x;
    }

    img
}

/// A wrapper type so we can use some convenient arithmetic operators when
/// doing the math to generate a gradient.
#[derive(Debug, PartialEq, Clone, Copy)]
struct Color<T>((T, T, T));

impl<T> Color<T>
where
    T: Into<f32> + Copy,
{
    fn to_u8_array(&self) -> [u8; 3] {
        let r: f32 = (self.0).0.into();
        let g: f32 = (self.0).1.into();
        let b: f32 = (self.0).2.into();

        [r.floor() as u8, g.floor() as u8, b.floor() as u8]
    }
}

impl<T> Add<&Color<T>> for &Color<T>
where
    T: Add<Output = T> + Copy,
{
    type Output = Color<T>;

    fn add(self, other: &Color<T>) -> Self::Output {
        Color((
            (self.0).0 + (other.0).0,
            (self.0).1 + (other.0).1,
            (self.0).2 + (other.0).2,
        ))
    }
}

impl<T> Sub<&Color<T>> for &Color<T>
where
    T: Sub<Output = T> + Copy,
{
    type Output = Color<T>;

    fn sub(self, other: &Color<T>) -> Self::Output {
        Color((
            (self.0).0 - (other.0).0,
            (self.0).1 - (other.0).1,
            (self.0).2 - (other.0).2,
        ))
    }
}

impl<T> Div<f32> for &Color<T>
where
    T: Div<Output = f32> + Div<f32> + Copy,
    <T as Div<f32>>::Output: Into<f32>,
{
    type Output = Color<f32>;

    fn div(self, other: f32) -> Self::Output {
        Color((
            ((self.0).1 / other).into(),
            ((self.0).1 / other).into(),
            ((self.0).2 / other).into(),
        ))
    }
}

#[test]
fn png() -> Result<(), Box<dyn Error>> {
    make_mosaic("png")
}

#[test]
fn gif() -> Result<(), Box<dyn Error>> {
    make_mosaic("gif")
}

#[test]
fn tiff() -> Result<(), Box<dyn Error>> {
    make_mosaic("tiff")
}

#[test]
fn bmp() -> Result<(), Box<dyn Error>> {
    make_mosaic("bmp")
}

#[test]
fn jpeg() -> Result<(), Box<dyn Error>> {
    make_mosaic("jpg")?;
    make_mosaic("jpeg")
}
