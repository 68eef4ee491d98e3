use euclider::render::{
    buffer_dimensions, checkerboard_dark, closest_index, first_containing, pixel_position,
    pixel_role, ray_offset_doubled, PixelRole,
};
use euclider::shape::Shape;

#[test]
fn buffer_is_window_divided_by_resolution() {
    assert_eq!(buffer_dimensions(800, 600, 8), (100, 75));
    assert_eq!(buffer_dimensions(801, 599, 2), (400, 299));
    assert_eq!(buffer_dimensions(5, 5, 1), (5, 5));
}

#[test]
fn pixels_are_stored_row_by_row() {
    assert_eq!(pixel_position(250, 100), (50, 2));
    assert_eq!(pixel_position(0, 7), (0, 0));
    assert_eq!(pixel_position(6, 7), (6, 0));
    assert_eq!(pixel_position(7, 7), (0, 1));
}

#[test]
fn debugging_marks_the_center() {
    assert_eq!(pixel_role(50, 37, 100, 75, true), PixelRole::Center);
    assert_eq!(pixel_role(49, 37, 100, 75, true), PixelRole::Marker);
    assert_eq!(pixel_role(51, 37, 100, 75, true), PixelRole::Marker);
    assert_eq!(pixel_role(50, 36, 100, 75, true), PixelRole::Marker);
    assert_eq!(pixel_role(50, 38, 100, 75, true), PixelRole::Marker);
    assert_eq!(pixel_role(49, 36, 100, 75, true), PixelRole::Scene);
    assert_eq!(pixel_role(50, 37, 100, 75, false), PixelRole::Scene);
    assert_eq!(pixel_role(0, 0, 1, 1, true), PixelRole::Center);
}

#[test]
fn checkerboard_squares() {
    assert!(checkerboard_dark(0, 0));
    assert!(checkerboard_dark(7, 7));
    assert!(!checkerboard_dark(8, 0));
    assert!(checkerboard_dark(8, 8));
    assert!(checkerboard_dark(-1, 0));
    assert!(!checkerboard_dark(-8, 0));
    assert!(!checkerboard_dark(-9, 3));
}

#[test]
fn ray_offsets_are_centered() {
    assert_eq!(ray_offset_doubled(0, 4), -3);
    assert_eq!(ray_offset_doubled(3, 4), 3);
    assert_eq!(ray_offset_doubled(1, 3), 0);
    assert_eq!(ray_offset_doubled(0, 1), 0);
}

#[test]
fn closest_hit_is_the_first_least() {
    assert_eq!(closest_index(&vec![None, Some(5), Some(3), Some(3)]), Some(2));
    assert_eq!(closest_index(&vec![Some(0), Some(0)]), Some(0));
    assert_eq!(closest_index(&vec![None, None]), None);
    assert_eq!(closest_index(&vec![]), None);
}

struct Above(i32);

impl Shape<i32> for Above {
    fn contains(&self, point: i32) -> bool {
        point > self.0
    }

    fn is_point_inside(&self, point: &i32) -> bool {
        *point > self.0
    }
}

#[test]
fn material_is_that_of_the_first_entity_containing_the_point() {
    let shapes = vec![None, Some(Above(10)), Some(Above(0))];
    assert_eq!(first_containing(&shapes, &5), Some(2));
    assert_eq!(first_containing(&shapes, &50), Some(1));
    assert_eq!(first_containing(&shapes, &-5), None);
}
