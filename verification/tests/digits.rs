use sudoku_solver::digits::{all_digits, all_distinct};

#[test]
fn all_digits_accepts_zero_to_nine() {
    assert_eq!(all_digits(&[0, 1, 2, 3, 4, 5, 6, 7, 8, 9]), true);
    assert_eq!(all_digits(&[]), true);
}

#[test]
fn all_digits_rejects_ten() {
    assert_eq!(all_digits(&[0, 1, 10]), false);
    assert_eq!(all_digits(&[255]), false);
}

#[test]
fn all_distinct_lets_zero_repeat() {
    assert_eq!(all_distinct(&[0, 0, 3, 0, 9, 0]), true);
    assert_eq!(all_distinct(&[]), true);
    assert_eq!(all_distinct(&[1, 2, 3, 4, 5, 6, 7, 8, 9]), true);
}

#[test]
fn all_distinct_rejects_repeated_digit() {
    assert_eq!(all_distinct(&[4, 0, 4]), false);
    assert_eq!(all_distinct(&[1, 2, 3, 4, 5, 6, 7, 8, 1]), false);
    assert_eq!(all_distinct(&[200, 200]), false);
}
