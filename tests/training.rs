use ml_basics::training::{class_signs, split_lengths};

#[test]
fn split_is_four_fifths() {
    assert_eq!(split_lengths(10), (8, 2));
    assert_eq!(split_lengths(7), (5, 2));
    assert_eq!(split_lengths(0), (0, 0));
    assert_eq!(split_lengths(1), (0, 1));
    assert_eq!(split_lengths(50), (40, 10));
}

#[test]
fn split_of_largest_size_does_not_overflow() {
    let n = usize::MAX;
    let teach = ((n as u128) * 4 / 5) as usize;
    assert_eq!(split_lengths(n), (teach, n - teach));
}

#[test]
fn class_one_is_positive() {
    assert_eq!(class_signs(&vec![1, 0, -1, 2, 1]), vec![1, -1, -1, -1, 1]);
    assert_eq!(class_signs(&vec![]), Vec::<i8>::new());
}
