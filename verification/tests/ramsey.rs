use rs_calcg::{ramsey, RamseyError};

#[test]
fn ramsey_of_one_and_anything_is_one() {
    for s in 1..40 {
        assert_eq!(ramsey(1, s), Ok(1));
        assert_eq!(ramsey(s, 1), Ok(1));
    }
    assert_eq!(ramsey(1, 1000), Ok(1));
}

#[test]
fn ramsey_of_two_and_two() {
    assert_eq!(ramsey(2, 2), Ok(2));
}

#[test]
fn ramsey_of_two_and_three() {
    assert_eq!(ramsey(2, 3), Ok(3));
    assert_eq!(ramsey(3, 2), Ok(3));
}

#[test]
fn ramsey_of_two_and_more() {
    assert_eq!(ramsey(2, 4), Ok(4));
    assert_eq!(ramsey(2, 5), Ok(5));
}

#[test]
fn ramsey_of_three_and_three() {
    assert_eq!(ramsey(3, 3), Ok(6));
}

#[test]
fn ramsey_refuses_a_size_of_zero() {
    assert_eq!(ramsey(0, 3), Err(RamseyError::InvalidSize));
    assert_eq!(ramsey(3, 0), Err(RamseyError::InvalidSize));
    assert_eq!(ramsey(0, 0), Err(RamseyError::InvalidSize));
}

#[test]
fn ramsey_beyond_the_capacity() {
    assert_eq!(ramsey(64, 64), Err(RamseyError::CapacityExceeded));
    assert_eq!(ramsey(1000, 70), Err(RamseyError::CapacityExceeded));
}
