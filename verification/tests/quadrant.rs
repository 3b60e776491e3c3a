use sudoku_solver::error::{ErrorKind, SudokuError};
use sudoku_solver::quadrant::Quadrant;

fn descending() -> Quadrant {
    Quadrant::new(vec![9, 8, 7, 6, 5, 4, 3, 2, 1]).unwrap()
}

#[test]
fn quadrant_validate_input_length_ok() {
    let input = vec![9, 8, 7, 6, 5, 4, 3, 2, 1];

    assert_eq!(Quadrant::validate_input_length(&input).unwrap(), ());
}

#[test]
fn validate_input_length_err_length_longer() {
    let input = vec![9, 8, 7, 6, 5, 4, 3, 2, 1, 5];

    assert_eq!(
        Quadrant::validate_input_length(&input).unwrap_err().message(),
        "Input array length for a quadrant cannot be greater than 9!"
    );
}

#[test]
fn validate_input_length_length_shorter() {
    let input = vec![9, 8, 7, 6, 5, 4, 3, 2];

    assert_eq!(
        Quadrant::validate_input_length(&input).unwrap_err().message(),
        "Input array length for a quadrant cannot be smaller than 9!"
    );
}

#[test]
fn quadrant_validate_input_content_ok() {
    let input = vec![1, 2, 3, 4, 5, 6, 7, 8, 9];

    //  Validation ok
    assert_eq!(Quadrant::validate_input_content(&input).unwrap(), ())
}

#[test]
fn quadrant_validate_input_content_ok_contains_zeroes() {
    let input = vec![1, 0, 3, 4, 5, 0, 7, 8, 9];

    //  Validation ok
    assert_eq!(Quadrant::validate_input_content(&input).unwrap(), ())
}

#[test]
fn quadrant_validate_input_content_err_bigger_number() {
    let input = vec![1, 2, 3, 4, 5, 15, 7, 8, 9];

    assert_eq!(
        Quadrant::validate_input_content(&input).unwrap_err().message(),
        "Input contained numbers out of Sudoku range"
    )
}

#[test]
fn validate_input_content_err_duplicates() {
    let input = vec![1, 2, 3, 4, 5, 5, 7, 8, 9];

    assert_eq!(
        Quadrant::validate_input_content(&input).unwrap_err().message(),
        "There were duplicate numbers in this input"
    )
}

#[test]
fn map_input_to_quad_ok() {
    let input = vec![9, 8, 7, 6, 5, 4, 3, 2, 1];

    let expected = Quadrant {
        c1: 9,
        c2: 8,
        c3: 7,
        c4: 6,
        c5: 5,
        c6: 4,
        c7: 3,
        c8: 2,
        c9: 1,
    };

    assert_eq!(Quadrant::map_input_to_quadrant(input), expected);
}

#[test]
fn new_quad_ok() {
    let input = vec![9, 8, 7, 6, 5, 4, 3, 2, 1];

    let expected = Quadrant {
        c1: 9,
        c2: 8,
        c3: 7,
        c4: 6,
        c5: 5,
        c6: 4,
        c7: 3,
        c8: 2,
        c9: 1,
    };

    assert_eq!(Quadrant::new(input).unwrap(), expected);
}

#[test]
fn new_quad_err_length_longer() {
    let input = vec![9, 8, 7, 6, 5, 4, 3, 2, 1, 5];

    assert_eq!(
        Quadrant::new(input).unwrap_err().message(),
        "Input array length for a quadrant cannot be greater than 9!"
    );
}

#[test]
fn new_quad_err_length_shorter() {
    let input = vec![9, 8, 7, 6, 5, 4, 3, 2];

    assert_eq!(
        Quadrant::new(input).unwrap_err().message(),
        "Input array length for a quadrant cannot be smaller than 9!"
    );
}

#[test]
fn new_quad_err_invalid_number() {
    let input = vec![9, 8, 7, 6, 5, 4, 3, 12, 1];

    assert_eq!(
        Quadrant::new(input).unwrap_err().message(),
        "Input contained numbers out of Sudoku range"
    );
}

#[test]
fn new_quad_err_duplicate_numbers() {
    let input = vec![9, 8, 1, 6, 5, 4, 3, 2, 1];

    assert_eq!(
        Quadrant::new(input).unwrap_err().message(),
        "There were duplicate numbers in this input"
    );
}

#[test]
fn is_number_available_ok_not_available() {
    let input = vec![9, 8, 7, 6, 5, 4, 3, 2, 1];
    let quad = Quadrant::new(input).unwrap();

    assert_eq!(quad.is_number_available_in_quad(7), false);
}

#[test]
fn is_number_available_ok_is_available() {
    let input = vec![9, 0, 7, 0, 5, 4, 3, 0, 1];
    let quad = Quadrant::new(input).unwrap();

    assert_eq!(quad.is_number_available_in_quad(8), true);
}

#[test]
fn is_number_available_ok_is_zero() {
    let input = vec![9, 0, 7, 0, 5, 4, 3, 0, 1];
    let quad = Quadrant::new(input).unwrap();

    assert_eq!(quad.is_number_available_in_quad(0), true);
}

#[test]
fn quadrant_get_row_array_ok_1() {
    let quad = descending();

    assert_eq!(quad.get_row_array(1).unwrap(), vec![9, 8, 7]);
}

#[test]
fn quadrant_get_row_array_ok_2() {
    let quad = descending();

    assert_eq!(quad.get_row_array(2).unwrap(), vec![6, 5, 4]);
}

#[test]
fn quadrant_get_row_array_ok_3() {
    let quad = descending();

    assert_eq!(quad.get_row_array(3).unwrap(), vec![3, 2, 1]);
}

#[test]
fn quadrant_get_row_array_err() {
    let quad = descending();

    assert_eq!(
        quad.get_row_array(5).unwrap_err().message(),
        "Index: 5 out of bounds!"
    );
}

#[test]
fn quadrant_get_col_array_ok_1() {
    let quad = descending();

    assert_eq!(quad.get_col_array(1).unwrap(), vec![9, 6, 3]);
}

#[test]
fn quadrant_get_col_array_ok_2() {
    let quad = descending();

    assert_eq!(quad.get_col_array(2).unwrap(), vec![8, 5, 2]);
}

#[test]
fn quadrant_get_col_array_ok_3() {
    let quad = descending();

    assert_eq!(quad.get_col_array(3).unwrap(), vec![7, 4, 1]);
}

#[test]
fn quadrant_get_col_array_err() {
    let quad = descending();

    assert_eq!(
        quad.get_col_array(5).unwrap_err().message(),
        "Index: 5 out of bounds!"
    );
}

#[test]
fn quadrant_index_zero_is_out_of_bounds() {
    let quad = descending();

    assert_eq!(
        quad.get_row_array(0).unwrap_err(),
        SudokuError::QuadrantIndex { index: 0 }
    );
    assert_eq!(
        quad.get_col_array(4).unwrap_err(),
        SudokuError::QuadrantIndex { index: 4 }
    );
    assert_eq!(quad.get_col_array(0).unwrap_err().kind(), ErrorKind::Index);
}

#[test]
fn quadrant_length_is_checked_before_content() {
    let input = vec![9, 9, 15, 6, 5, 4, 3, 2];

    assert_eq!(
        Quadrant::new(input).unwrap_err(),
        SudokuError::TooShort { limit: 9 }
    );
}

#[test]
fn quadrant_range_is_checked_before_duplicates() {
    let input = vec![9, 9, 15, 6, 5, 4, 3, 2, 1];

    assert_eq!(Quadrant::new(input).unwrap_err(), SudokuError::OutOfRange);
}

#[test]
fn quadrant_zeroes_may_repeat() {
    let input = vec![0, 0, 0, 0, 0, 0, 0, 0, 0];

    assert_eq!(Quadrant::new(input).unwrap(), Quadrant::default());
}

#[test]
fn quadrant_map_uses_first_nine() {
    let input = vec![1, 2, 3, 4, 5, 6, 7, 8, 9, 7, 7];
    let quad = Quadrant::map_input_to_quadrant(input);

    assert_eq!(quad.get_row_array(3).unwrap(), vec![7, 8, 9]);
}

#[test]
fn quadrant_cells_by_offset() {
    let mut quad = descending();

    assert_eq!(quad.get_cell(0), 9);
    assert_eq!(quad.get_cell(4), 5);
    assert_eq!(quad.get_cell(8), 1);

    quad.set_cell(4, 0);

    assert_eq!(quad.get_cell(4), 0);
    assert_eq!(quad.get_row_array(2).unwrap(), vec![6, 0, 4]);
    assert_eq!(quad.get_col_array(2).unwrap(), vec![8, 0, 2]);
    assert_eq!(quad.is_number_available_in_quad(5), true);
}
