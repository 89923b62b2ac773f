use hecras::steady::{check_reach_lengths, reach_length_at, ReachLengthError};

#[test]
fn reach_lengths_one_fewer_than_sections() {
    assert_eq!(check_reach_lengths(20, 19), Ok(()));
    assert_eq!(check_reach_lengths(3, 2), Ok(()));
}

#[test]
fn wrong_number_of_reach_lengths_is_refused() {
    assert_eq!(
        check_reach_lengths(3, 3),
        Err(ReachLengthError { expected: 2, got: 3 })
    );
    assert_eq!(
        check_reach_lengths(5, 0),
        Err(ReachLengthError { expected: 4, got: 0 })
    );
}

#[test]
fn fewer_than_two_sections_need_no_reach_length() {
    assert_eq!(check_reach_lengths(1, 7), Ok(()));
    assert_eq!(check_reach_lengths(0, 0), Ok(()));
}

#[test]
fn missing_reach_lengths_count_as_zero() {
    let lengths = vec![100.0_f64, 250.0];
    assert_eq!(reach_length_at(&lengths, 0, 0.0), 100.0);
    assert_eq!(reach_length_at(&lengths, 1, 0.0), 250.0);
    assert_eq!(reach_length_at(&lengths, 2, 0.0), 0.0);
    assert_eq!(reach_length_at(&[] as &[f64], 0, 0.0), 0.0);
}
