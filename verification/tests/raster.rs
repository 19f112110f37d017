//! Rasters: construction, pixel access and resizing.

use tilr::{Raster, Rgb};

#[test]
fn new_takes_exactly_three_bytes_per_pixel() {
    assert!(Raster::new(2, 3, vec![0; 18]).is_some());
    assert!(Raster::new(2, 3, vec![0; 17]).is_none());
    assert!(Raster::new(2, 3, vec![0; 19]).is_none());
    assert!(Raster::new(0, 3, vec![]).is_some());
    assert!(Raster::new(0, 0, vec![1]).is_none());
}

#[test]
fn byte_len_is_three_times_the_area() {
    assert_eq!(Raster::byte_len(2, 3), 18);
    assert_eq!(Raster::byte_len(0, 7), 0);
    assert_eq!(Raster::byte_len(u32::MAX, u32::MAX), 3 * (u32::MAX as u128) * (u32::MAX as u128));
    assert!(Raster::fits(100, 100));
    assert!(!Raster::fits(u32::MAX, u32::MAX));
}

#[test]
fn pixels_lie_row_by_row() {
    let img = Raster::new(2, 2, vec![1, 2, 3, 4, 5, 6, 7, 8, 9, 10, 11, 12]).unwrap();
    assert_eq!(img.dimensions(), (2, 2));
    assert_eq!(img.width(), 2);
    assert_eq!(img.height(), 2);
    assert_eq!(img.pixel_count(), 4);
    assert_eq!(img.get_pixel(0, 0), Rgb::new(1, 2, 3));
    assert_eq!(img.get_pixel(1, 0), Rgb::new(4, 5, 6));
    assert_eq!(img.get_pixel(0, 1), Rgb::new(7, 8, 9));
    assert_eq!(img.get_pixel(1, 1), Rgb::new(10, 11, 12));
    assert_eq!(img.pixel(2), Rgb::new(7, 8, 9));
}

#[test]
fn solid_raster_has_one_colour() {
    let c = Rgb::new(9, 8, 7);
    let img = Raster::solid(3, 2, c).unwrap();
    assert_eq!(img.dimensions(), (3, 2));
    assert_eq!(img.as_raw(), &vec![9, 8, 7, 9, 8, 7, 9, 8, 7, 9, 8, 7, 9, 8, 7, 9, 8, 7]);
    assert!(Raster::solid(u32::MAX, u32::MAX, c).is_none());
    assert_eq!(Raster::solid(0, 5, c).unwrap().into_raw(), Vec::<u8>::new());
}

#[test]
fn put_pixel_changes_one_pixel() {
    let mut img = Raster::solid(3, 2, Rgb::new(0, 0, 0)).unwrap();
    img.put_pixel(2, 1, Rgb::new(1, 2, 3));
    for y in 0..2 {
        for x in 0..3 {
            let want = if (x, y) == (2, 1) { Rgb::new(1, 2, 3) } else { Rgb::new(0, 0, 0) };
            assert_eq!(img.get_pixel(x, y), want);
        }
    }
    assert_eq!(&img.as_raw()[15..], &[1, 2, 3]);
}

#[test]
fn resize_to_own_size_is_a_copy() {
    let bytes: Vec<u8> = (0..48).collect();
    let img = Raster::new(4, 4, bytes.clone()).unwrap();
    let same = img.resize_exact(4, 4).unwrap();
    assert_eq!(same.dimensions(), (4, 4));
    assert_eq!(same.into_raw(), bytes);
}

#[test]
fn resize_gives_the_size_asked_for() {
    let bytes: Vec<u8> = (0..48).collect();
    let img = Raster::new(4, 4, bytes.clone()).unwrap();
    let small = img.resize_exact(2, 3).unwrap();
    assert_eq!(small.dimensions(), (2, 3));
    assert_eq!(small.as_raw().len(), 18);
    assert_ne!(small.as_raw(), &bytes);
    let large = img.resize_exact(7, 5).unwrap();
    assert_eq!(large.dimensions(), (7, 5));
    assert_eq!(large.as_raw().len(), 105);
}

#[test]
fn resize_ignores_the_aspect_ratio() {
    let img = Raster::solid(10, 20, Rgb::new(200, 100, 50)).unwrap();
    let square = img.resize_exact(8, 8).unwrap();
    assert_eq!(square.dimensions(), (8, 8));
    for k in 0..64 {
        assert_eq!(square.pixel(k), Rgb::new(200, 100, 50));
    }
}

#[test]
fn resize_averages_neighbours() {
    // Two columns, black and white, shrunk to one column of their mean.
    let img = Raster::new(2, 1, vec![0, 0, 0, 255, 255, 255]).unwrap();
    let one = img.resize_exact(1, 1).unwrap();
    assert_eq!(one.dimensions(), (1, 1));
    let px = one.get_pixel(0, 0);
    assert!(px.r == 127 || px.r == 128);
    assert_eq!((px.g, px.b), (px.r, px.r));
}

#[test]
fn resize_refuses_empty_rasters() {
    let img = Raster::solid(4, 4, Rgb::new(1, 1, 1)).unwrap();
    assert!(img.resize_exact(0, 4).is_none());
    assert!(img.resize_exact(4, 0).is_none());
    let empty = Raster::new(0, 4, vec![]).unwrap();
    assert!(empty.resize_exact(2, 2).is_none());
    assert!(empty.resize_exact(0, 4).is_none());
    assert!(!tilr::resample::resize_allowed(4, 4, u32::MAX, u32::MAX));
    assert!(tilr::resample::resize_allowed(4, 4, 8, 8));
}

#[test]
fn resize_refuses_overlong_sides() {
    let max = tilr::resample::MAX_SIDE;
    assert_eq!(max, 1 << 22);
    assert!(tilr::resample::resize_allowed(max, 1, 1, 1));
    assert!(tilr::resample::resize_allowed(1, 1, max, 1));
    assert!(!tilr::resample::resize_allowed(max + 1, 1, 1, 1));
    assert!(!tilr::resample::resize_allowed(1, max + 1, 1, 1));
    assert!(!tilr::resample::resize_allowed(1, 1, max + 1, 1));
    assert!(!tilr::resample::resize_allowed(1, 1, 1, max + 1));
    let img = Raster::solid(2, 2, Rgb::new(1, 2, 3)).unwrap();
    assert!(img.resize_exact(max + 1, 1).is_none());
}
