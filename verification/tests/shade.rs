use mandelbrot::shade::{intensity, BRIGHTEST, DEFAULT_LIMIT};

#[test]
fn members_are_brightest() {
    assert_eq!(intensity(None), 255);
    assert_eq!(BRIGHTEST, 255);
}

#[test]
fn escaping_points_darken_with_each_iteration() {
    assert_eq!(intensity(Some(0)), 255);
    assert_eq!(intensity(Some(1)), 254);
    assert_eq!(intensity(Some(2)), 253);
    assert_eq!(intensity(Some(100)), 155);
    assert_eq!(intensity(Some(254)), 1);
}

#[test]
fn intensity_never_wraps_below_black() {
    assert_eq!(intensity(Some(255)), 0);
    assert_eq!(intensity(Some(256)), 0);
    assert_eq!(intensity(Some(300)), 0);
    assert_eq!(intensity(Some(511)), 0);
    assert_eq!(intensity(Some(u32::MAX)), 0);
}

#[test]
fn default_limit_keeps_every_escape_above_black() {
    assert_eq!(DEFAULT_LIMIT, 255);
    for i in 0..DEFAULT_LIMIT {
        assert_eq!(u32::from(intensity(Some(i))), 255 - i);
        assert!(intensity(Some(i)) >= 1);
    }
}
