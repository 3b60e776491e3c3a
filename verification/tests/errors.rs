use sudoku_solver::error::{ErrorKind, SudokuError};

#[test]
fn message_of_each_error() {
    assert_eq!(
        SudokuError::TooLong { limit: 81 }.message(),
        "Input array length for a quadrant cannot be greater than 81!"
    );
    assert_eq!(
        SudokuError::TooShort { limit: 9 }.message(),
        "Input array length for a quadrant cannot be smaller than 9!"
    );
    assert_eq!(
        SudokuError::Insufficient.message(),
        "Insufficient input length to obtain a slice for a quadrant"
    );
    assert_eq!(
        SudokuError::OutOfRange.message(),
        "Input contained numbers out of Sudoku range"
    );
    assert_eq!(
        SudokuError::DuplicateDigit.message(),
        "There were duplicate numbers in this input"
    );
    assert_eq!(
        SudokuError::DuplicateInQuadrant { index: 7 }.message(),
        "Duplicate number in quadrant 7"
    );
    assert_eq!(
        SudokuError::DuplicateInRow { index: 4 }.message(),
        "Duplicate number in row 4"
    );
    assert_eq!(
        SudokuError::DuplicateInColumn { index: 9 }.message(),
        "Duplicate number in column 9"
    );
    assert_eq!(
        SudokuError::InvalidCell {
            value: 3,
            row: 1,
            col: 8
        }
        .message(),
        "Invalid cell number: 3 at (row 1 / col 8)"
    );
    assert_eq!(
        SudokuError::QuadrantIndex { index: 0 }.message(),
        "Index: 0 out of bounds!"
    );
    assert_eq!(SudokuError::BoardIndex.message(), "Index out of bounds!");
}

#[test]
fn message_writes_numbers_in_decimal() {
    assert_eq!(
        SudokuError::QuadrantIndex { index: 255 }.message(),
        "Index: 255 out of bounds!"
    );
    assert_eq!(
        SudokuError::QuadrantIndex { index: 10 }.message(),
        "Index: 10 out of bounds!"
    );
    assert_eq!(
        SudokuError::TooLong { limit: 1000 }.message(),
        "Input array length for a quadrant cannot be greater than 1000!"
    );
    assert_eq!(
        SudokuError::TooShort { limit: 0 }.message(),
        "Input array length for a quadrant cannot be smaller than 0!"
    );
    assert_eq!(
        SudokuError::InvalidCell {
            value: 120,
            row: 907,
            col: 65
        }
        .message(),
        "Invalid cell number: 120 at (row 907 / col 65)"
    );
}

#[test]
fn kind_of_each_error() {
    assert_eq!(SudokuError::TooLong { limit: 81 }.kind(), ErrorKind::Length);
    assert_eq!(SudokuError::TooShort { limit: 81 }.kind(), ErrorKind::Length);
    assert_eq!(SudokuError::Insufficient.kind(), ErrorKind::Length);
    assert_eq!(SudokuError::OutOfRange.kind(), ErrorKind::Range);
    assert_eq!(SudokuError::DuplicateDigit.kind(), ErrorKind::Duplicate);
    assert_eq!(
        SudokuError::DuplicateInQuadrant { index: 1 }.kind(),
        ErrorKind::Duplicate
    );
    assert_eq!(
        SudokuError::DuplicateInRow { index: 1 }.kind(),
        ErrorKind::Duplicate
    );
    assert_eq!(
        SudokuError::DuplicateInColumn { index: 1 }.kind(),
        ErrorKind::Duplicate
    );
    assert_eq!(
        SudokuError::InvalidCell {
            value: 1,
            row: 1,
            col: 1
        }
        .kind(),
        ErrorKind::Duplicate
    );
    assert_eq!(
        SudokuError::QuadrantIndex { index: 4 }.kind(),
        ErrorKind::Index
    );
    assert_eq!(SudokuError::BoardIndex.kind(), ErrorKind::Index);
}
