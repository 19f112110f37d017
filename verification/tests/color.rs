//! Colours, their keys and the distance between them.

use tilr::{Distance, Rgb};

#[test]
fn distance_to_itself_is_zero() {
    let c = Rgb::new(12, 200, 77);
    assert_eq!(c.dist_to(&c), Distance { squared: 0 });
}

#[test]
fn distance_is_symmetric() {
    let p = Rgb::new(12, 200, 77);
    let q = Rgb::new(250, 3, 78);
    assert_eq!(p.dist_to(&q), q.dist_to(&p));
    assert_eq!(p.dist_to(&q).squared, 238 * 238 + 197 * 197 + 1);
}

#[test]
fn distance_of_grey_to_black_and_white() {
    let px = Rgb::new(10, 10, 10);
    let to_black = px.dist_to(&Rgb::new(0, 0, 0));
    let to_white = px.dist_to(&Rgb::new(255, 255, 255));
    assert_eq!(to_black.squared, 300);
    assert_eq!(to_white.squared, 180075);
    assert!(((to_black.squared as f64).sqrt() - 17.3).abs() < 0.05);
    assert!(((to_white.squared as f64).sqrt() - 424.3).abs() < 0.1);
}

#[test]
fn distance_does_not_wrap() {
    let black = Rgb::new(0, 0, 0);
    let white = Rgb::new(255, 255, 255);
    assert_eq!(black.dist_to(&white).squared, 195075);
    assert_eq!(black.dist_to(&white).squared, tilr::color::MAX_DIST_SQ);
    assert_eq!(Rgb::new(0, 200, 0).dist_to(&Rgb::new(0, 100, 0)).squared, 10000);
}

#[test]
fn distance_is_zero_only_for_equal_colours() {
    let p = Rgb::new(5, 6, 7);
    assert_ne!(p.dist_to(&Rgb::new(5, 6, 8)).squared, 0);
    assert_ne!(p.dist_to(&Rgb::new(4, 6, 7)).squared, 0);
    assert_ne!(p.dist_to(&Rgb::new(5, 7, 7)).squared, 0);
}

#[test]
fn key_spells_the_channels() {
    assert_eq!(Rgb::new(1, 2, 3).key(), 0x010203);
    assert_eq!(Rgb::new(0, 0, 0).key(), 0);
    assert_eq!(Rgb::new(255, 255, 255).key(), 0xffffff);
    assert_ne!(Rgb::new(1, 0, 0).key(), Rgb::new(0, 1, 0).key());
    assert_ne!(Rgb::new(0, 1, 0).key(), Rgb::new(0, 0, 1).key());
}
