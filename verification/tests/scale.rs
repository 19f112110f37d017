//! Scale factors read from single precision bit patterns.

use tilr::Scale;

fn scale(f: f32) -> Scale {
    Scale::from_bits(f.to_bits())
}

#[test]
fn one_tenth_is_the_least_valid_factor() {
    assert!(scale(0.1).is_valid());
    assert!(!scale(f32::from_bits(0.1f32.to_bits() - 1)).is_valid());
    assert!(!scale(0.05).is_valid());
    assert!(!scale(0.0625).is_valid());
    assert!(scale(0.125).is_valid());
    assert!(scale(0.25).is_valid());
    assert!(scale(1.0).is_valid());
    assert!(scale(3.5).is_valid());
    assert!(scale(f32::MAX).is_valid());
}

#[test]
fn numbers_that_are_no_factor_are_invalid() {
    assert!(!scale(0.0).is_valid());
    assert!(!scale(-0.0).is_valid());
    assert!(!scale(-1.0).is_valid());
    assert!(!scale(f32::NAN).is_valid());
    assert!(!scale(f32::INFINITY).is_valid());
    assert!(!scale(f32::NEG_INFINITY).is_valid());
    assert!(!scale(f32::MIN_POSITIVE).is_valid());
    assert!(!scale(f32::from_bits(1)).is_valid());
}

#[test]
fn only_one_is_the_identity() {
    assert!(scale(1.0).is_identity());
    assert!(Scale::from_bits(0x3f80_0000).is_identity());
    assert!(!scale(0.5).is_identity());
    assert!(!scale(2.0).is_identity());
    assert!(!scale(f32::from_bits(1.0f32.to_bits() + 1)).is_identity());
    assert!(!scale(f32::from_bits(1.0f32.to_bits() - 1)).is_identity());
    assert!(!scale(-1.0).is_identity());
    assert!(!scale(f32::NAN).is_identity());
}

#[test]
fn lengths_are_rounded_to_the_nearest() {
    assert_eq!(scale(0.25).scaled_len(250), Some(63)); // 62.5
    assert_eq!(scale(0.25).scaled_len(249), Some(62)); // 62.25
    assert_eq!(scale(0.25).scaled_len(251), Some(63)); // 62.75
    assert_eq!(scale(0.5).scaled_len(3), Some(2)); // 1.5
    assert_eq!(scale(0.5).scaled_len(1), Some(1)); // 0.5
    assert_eq!(scale(0.125).scaled_len(3), Some(0)); // 0.375
    assert_eq!(scale(0.1).scaled_len(2), Some(0)); // 0.2
    assert_eq!(scale(0.1).scaled_len(10), Some(1));
    assert_eq!(scale(0.1).scaled_len(4), Some(0)); // 0.4
    assert_eq!(scale(0.1).scaled_len(5), Some(1)); // a little over 0.5
    assert_eq!(scale(0.3).scaled_len(5), Some(2)); // a little over 1.5
    assert_eq!(scale(1.5).scaled_len(100), Some(150));
    assert_eq!(scale(1.0).scaled_len(77), Some(77));
    assert_eq!(scale(2.0).scaled_len(7), Some(14));
    assert_eq!(scale(0.75).scaled_len(0), Some(0));
    assert_eq!(scale(1024.0).scaled_len(0), Some(0));
}

#[test]
fn lengths_beyond_the_range_are_refused() {
    assert_eq!(scale(2.0).scaled_len(u32::MAX), None);
    assert_eq!(scale(1.0).scaled_len(u32::MAX), Some(u32::MAX));
    assert_eq!(scale(0.5).scaled_len(u32::MAX), Some(1 << 31));
    assert_eq!(scale(4294967296.0).scaled_len(1), None);
    assert_eq!(scale(2147483648.0).scaled_len(1), Some(1 << 31));
    assert_eq!(scale(16777216.0).scaled_len(255), Some(255 << 24));
    assert_eq!(scale(16777216.0).scaled_len(256), None);
    assert_eq!(scale(f32::MAX).scaled_len(1), None);
    assert_eq!(scale(8388607.5).scaled_len(512), Some(4294967040));
    assert_eq!(scale(8388607.5).scaled_len(513), None);
}
