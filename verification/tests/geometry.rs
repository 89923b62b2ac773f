use hecras::geometry::{check_points, SectionError};

#[test]
fn points_of_a_rectangle_are_accepted() {
    assert_eq!(check_points(4, 4), Ok(()));
    assert_eq!(check_points(2, 2), Ok(()));
}

#[test]
fn mismatched_point_counts_are_refused() {
    assert_eq!(check_points(4, 3), Err(SectionError::LengthMismatch));
    // a mismatch is reported before a shortage
    assert_eq!(check_points(1, 0), Err(SectionError::LengthMismatch));
}

#[test]
fn a_single_point_is_refused() {
    assert_eq!(check_points(1, 1), Err(SectionError::TooFewPoints));
    assert_eq!(check_points(0, 0), Err(SectionError::TooFewPoints));
}
