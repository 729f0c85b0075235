use raytracer::dimensions::{check_dimensions, DimensionError};

#[test]
fn even_sides_are_accepted() {
    assert_eq!(check_dimensions(800, 450), Ok(()));
    assert_eq!(check_dimensions(2, 2), Ok(()));
    assert_eq!(check_dimensions(0, 0), Ok(()));
}

#[test]
fn odd_width_is_turned_down() {
    assert_eq!(check_dimensions(801, 450), Err(DimensionError::OddWidth));
    assert_eq!(check_dimensions(1, 2), Err(DimensionError::OddWidth));
}

#[test]
fn odd_height_is_turned_down() {
    assert_eq!(check_dimensions(800, 451), Err(DimensionError::OddHeight));
    assert_eq!(check_dimensions(u32::MAX - 1, u32::MAX), Err(DimensionError::OddHeight));
}

#[test]
fn width_is_looked_at_first() {
    assert_eq!(check_dimensions(3, 5), Err(DimensionError::OddWidth));
}

#[test]
fn messages_of_the_errors() {
    assert_eq!(DimensionError::OddWidth.message(), "image width must be even");
    assert_eq!(DimensionError::OddHeight.message(), "image height must be even");
}
