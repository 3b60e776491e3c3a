use sudoku_solver::error::{ErrorKind, SudokuError};
use sudoku_solver::quadrant::Quadrant;
use sudoku_solver::sudoku::Sudoku;

#[test]
fn mod_validate_input_length_ok() {
    let input = vec![1; 81];

    assert_eq!(Sudoku::validate_input_length(&input).unwrap(), ());
}

#[test]
fn validate_input_length_err_longer() {
    let input = vec![1; 87];

    assert_eq!(
        Sudoku::validate_input_length(&input)
            .unwrap_err()
            .message(),
        "Input array length for a quadrant cannot be greater than 81!"
    );
}

#[test]
fn validate_input_length_err_shorter() {
    let input = vec![1; 70];

    assert_eq!(
        Sudoku::validate_input_length(&input)
            .unwrap_err()
            .message(),
        "Input array length for a quadrant cannot be smaller than 81!"
    );
}

#[test]
fn mod_validate_input_content_ok() {
    let input = vec![1, 2, 3, 4, 5, 6, 7, 8, 9, 1, 2, 3, 4, 5, 6, 7, 8, 9];

    //  Validation ok
    assert_eq!(Sudoku::validate_input_content(&input).unwrap(), ())
}

#[test]
fn mod_validate_input_content_ok_contains_zeroes() {
    let input = vec![1, 2, 3, 4, 5, 0, 7, 8, 9, 1, 0, 3, 4, 5, 6, 0, 8, 9];

    //  Validation ok
    assert_eq!(Sudoku::validate_input_content(&input).unwrap(), ())
}

#[test]
fn mod_validate_input_content_err_bigger_number() {
    let input = vec![1, 2, 3, 4, 5, 15, 7, 8, 9, 1, 2, 3, 4, 5, 6, 7, 8, 9];

    //  Validation ok
    assert_eq!(
        Sudoku::validate_input_content(&input)
            .unwrap_err()
            .message(),
        "Input contained numbers out of Sudoku range"
    )
}

#[test]
fn validate_input_content_err_negative_number() {
    let input = vec![1, 2, 3, 4, 5, -15, 7, 8, 9, 1, 2, 3, 4, -5, 6, 7, 8, 9];

    //  Validation ok
    assert_eq!(
        Sudoku::validate_input_content(&input)
            .unwrap_err()
            .message(),
        "Input contained numbers out of Sudoku range"
    )
}

#[test]
fn new_sudoku_ok() {
    let input = build_sudoku_static();

    let expected_sudoku = build_sudoku_static_struct();

    assert_eq!(Sudoku::new(input).unwrap(), expected_sudoku);
}

#[test]
fn new_sudoku_ok_contains_zeroes() {
    let input = build_sudoku_static_with_zeroes();

    let expected_sudoku = build_sudoku_static_struct_with_zeroes();

    assert_eq!(Sudoku::new(input).unwrap(), expected_sudoku);
}

#[test]
fn new_sudoku_err_more_elements_than_allowed() {
    let mut input = vec![];
    for _ in 0..10 {
        let sub_slice = vec![1, 2, 3, 4, 5, 6, 7, 8, 9];
        input.extend(sub_slice);
    }

    assert_eq!(
        Sudoku::new(input).unwrap_err().message(),
        "Input array length for a quadrant cannot be greater than 81!"
    );
}

#[test]
fn new_sudoku_err_fewer_elements_than_allowed() {
    let mut input = vec![];
    for _ in 0..8 {
        let sub_slice = vec![1, 2, 3, 4, 5, 6, 7, 8, 9];
        input.extend(sub_slice);
    }

    assert_eq!(
        Sudoku::new(input).unwrap_err().message(),
        "Input array length for a quadrant cannot be smaller than 81!"
    );
}

#[test]
fn new_sudoku_err_numbers_bigger_than_9() {
    let mut input = vec![];
    for _ in 0..9 {
        let sub_slice = vec![1, 2, 3, 4, 15, 6, 7, 8, 9];
        input.extend(sub_slice);
    }

    assert_eq!(
        Sudoku::new(input).unwrap_err().message(),
        "Input contained numbers out of Sudoku range"
    );
}

#[test]
fn new_sudoku_err_negative_numbers() {
    let mut input = vec![];
    for _ in 0..9 {
        let sub_slice = vec![1, 2, -3, 4, 5, 6, -7, 8, 9];
        input.extend(sub_slice);
    }

    assert_eq!(
        Sudoku::new(input).unwrap_err().message(),
        "Input contained numbers out of Sudoku range"
    );
}

#[test]
fn mod_get_row_array_ok_1() {
    let input = build_sudoku_static();

    let sudoku = Sudoku::new(input).unwrap();

    assert_eq!(
        sudoku.get_row_array(1).unwrap(),
        vec![8, 2, 7, 1, 5, 4, 3, 9, 6]
    );
}

#[test]
fn mod_get_row_array_ok_2() {
    let input = build_sudoku_static();

    let sudoku = Sudoku::new(input).unwrap();

    assert_eq!(
        sudoku.get_row_array(5).unwrap(),
        vec![4, 7, 2, 5, 1, 3, 6, 8, 9]
    );
}

#[test]
fn mod_get_row_array_ok_3() {
    let input = build_sudoku_static();

    let sudoku = Sudoku::new(input).unwrap();

    assert_eq!(
        sudoku.get_row_array(9).unwrap(),
        vec![2, 3, 9, 8, 4, 1, 5, 6, 7]
    );
}

#[test]
fn mod_get_row_array_err() {
    let input = build_sudoku_static();

    let sudoku = Sudoku::new(input).unwrap();

    assert_eq!(
        sudoku.get_row_array(10).unwrap_err().message(),
        "Index out of bounds!"
    );
}

#[test]
fn mod_get_col_array_ok_1() {
    let input = build_sudoku_static();

    let sudoku = Sudoku::new(input).unwrap();

    assert_eq!(
        sudoku.get_col_array(1).unwrap(),
        vec![8, 9, 3, 5, 4, 6, 7, 1, 2]
    );
}

#[test]
fn mod_get_col_array_ok_2() {
    let input = build_sudoku_static();

    let sudoku = Sudoku::new(input).unwrap();

    assert_eq!(
        sudoku.get_col_array(5).unwrap(),
        vec![5, 2, 8, 6, 1, 7, 3, 9, 4]
    );
}

#[test]
fn mod_get_col_array_ok_3() {
    let input = build_sudoku_static();

    let sudoku = Sudoku::new(input).unwrap();

    assert_eq!(
        sudoku.get_col_array(9).unwrap(),
        vec![6, 8, 2, 1, 9, 5, 4, 3, 7]
    );
}

#[test]
fn mod_get_col_array_err() {
    let input = build_sudoku_static();

    let sudoku = Sudoku::new(input).unwrap();

    assert_eq!(
        sudoku.get_col_array(10).unwrap_err().message(),
        "Index out of bounds!"
    );
}

#[test]
fn parse_input_into_sudoku_ok() {
    let mut input = build_sudoku_static()
        .into_iter()
        .map(|item| item as u8)
        .collect::<Vec<u8>>();
    let parsed = Sudoku::parse_input_into_sudoku(&mut input);

    assert_eq!(parsed.unwrap(), build_sudoku_static_struct());
}

#[test]
fn parse_input_into_sudoku_ok_zeroes() {
    let mut input = build_sudoku_static_with_zeroes()
        .into_iter()
        .map(|item| item as u8)
        .collect::<Vec<u8>>();
    let parsed = Sudoku::parse_input_into_sudoku(&mut input);

    assert_eq!(parsed.unwrap(), build_sudoku_static_struct_with_zeroes());
}

fn build_sudoku_static() -> Vec<i32> {
    vec![
        8, 2, 7,  1, 5, 4,  3, 9, 6,
        9, 6, 5,  3, 2, 7,  1, 4, 8,
        3, 4, 1,  6, 8, 9,  7, 5, 2,

        5, 9, 3,  4, 6, 8,  2, 7, 1,
        4, 7, 2,  5, 1, 3,  6, 8, 9,
        6, 1, 8,  9, 7, 2,  4, 3, 5,

        7, 8, 6,  2, 3, 5,  9, 1, 4,
        1, 5, 4,  7, 9, 6,  8, 2, 3,
        2, 3, 9,  8, 4, 1,  5, 6, 7
    ]
}

fn build_sudoku_static_struct() -> Sudoku {
    Sudoku {
        q1: Quadrant {
            c1: 8,
            c2: 2,
            c3: 7,
            c4: 9,
            c5: 6,
            c6: 5,
            c7: 3,
            c8: 4,
            c9: 1,
        },
        q2: Quadrant {
            c1: 1,
            c2: 5,
            c3: 4,
            c4: 3,
            c5: 2,
            c6: 7,
            c7: 6,
            c8: 8,
            c9: 9,
        },
        q3: Quadrant {
            c1: 3,
            c2: 9,
            c3: 6,
            c4: 1,
            c5: 4,
            c6: 8,
            c7: 7,
            c8: 5,
            c9: 2,
        },
        q4: Quadrant {
            c1: 5,
            c2: 9,
            c3: 3,
            c4: 4,
            c5: 7,
            c6: 2,
            c7: 6,
            c8: 1,
            c9: 8,
        },
        q5: Quadrant {
            c1: 4,
            c2: 6,
            c3: 8,
            c4: 5,
            c5: 1,
            c6: 3,
            c7: 9,
            c8: 7,
            c9: 2,
        },
        q6: Quadrant {
            c1: 2,
            c2: 7,
            c3: 1,
            c4: 6,
            c5: 8,
            c6: 9,
            c7: 4,
            c8: 3,
            c9: 5,
        },
        q7: Quadrant {
            c1: 7,
            c2: 8,
            c3: 6,
            c4: 1,
            c5: 5,
            c6: 4,
            c7: 2,
            c8: 3,
            c9: 9,
        },
        q8: Quadrant {
            c1: 2,
            c2: 3,
            c3: 5,
            c4: 7,
            c5: 9,
            c6: 6,
            c7: 8,
            c8: 4,
            c9: 1,
        },
        q9: Quadrant {
            c1: 9,
            c2: 1,
            c3: 4,
            c4: 8,
            c5: 2,
            c6: 3,
            c7: 5,
            c8: 6,
            c9: 7,
        },
    }
}

fn build_sudoku_static_with_zeroes() -> Vec<i32> {
    vec![
        5, 3, 0, 0, 7, 0, 0, 0, 0,
        6, 0, 0, 1, 9, 5, 0, 0, 0,
        0, 9, 8, 0, 0, 0, 0, 6, 0,
        8, 0, 0, 0, 6, 0, 0, 0, 3,
        4, 0, 0, 8, 0, 3, 0, 0, 1,
        7, 0, 0, 0, 2, 0, 0, 0, 6,
        0, 6, 0, 0, 0, 0, 2, 8, 0,
        0, 0, 0, 4, 1, 9, 0, 0, 5,
        0, 0, 0, 0, 8, 0, 0, 7, 9,
    ]
}

fn build_sudoku_static_struct_with_zeroes() -> Sudoku {
    Sudoku {
        q1: Quadrant {
            c1: 5,
            c2: 3,
            c3: 0,
            c4: 6,
            c5: 0,
            c6: 0,
            c7: 0,
            c8: 9,
            c9: 8,
        },
        q2: Quadrant {
            c1: 0,
            c2: 7,
            c3: 0,
            c4: 1,
            c5: 9,
            c6: 5,
            c7: 0,
            c8: 0,
            c9: 0,
        },
        q3: Quadrant {
            c1: 0,
            c2: 0,
            c3: 0,
            c4: 0,
            c5: 0,
            c6: 0,
            c7: 0,
            c8: 6,
            c9: 0,
        },
        q4: Quadrant {
            c1: 8,
            c2: 0,
            c3: 0,
            c4: 4,
            c5: 0,
            c6: 0,
            c7: 7,
            c8: 0,
            c9: 0,
        },
        q5: Quadrant {
            c1: 0,
            c2: 6,
            c3: 0,
            c4: 8,
            c5: 0,
            c6: 3,
            c7: 0,
            c8: 2,
            c9: 0,
        },
        q6: Quadrant {
            c1: 0,
            c2: 0,
            c3: 3,
            c4: 0,
            c5: 0,
            c6: 1,
            c7: 0,
            c8: 0,
            c9: 6,
        },
        q7: Quadrant {
            c1: 0,
            c2: 6,
            c3: 0,
            c4: 0,
            c5: 0,
            c6: 0,
            c7: 0,
            c8: 0,
            c9: 0,
        },
        q8: Quadrant {
            c1: 0,
            c2: 0,
            c3: 0,
            c4: 4,
            c5: 1,
            c6: 9,
            c7: 0,
            c8: 8,
            c9: 0,
        },
        q9: Quadrant {
            c1: 2,
            c2: 8,
            c3: 0,
            c4: 0,
            c5: 0,
            c6: 5,
            c7: 0,
            c8: 7,
            c9: 9,
        },
    }
}

fn empty_input() -> Vec<i32> {
    vec![0; 81]
}

fn with_cells(cells: &[(usize, usize, i32)]) -> Vec<i32> {
    let mut input = empty_input();
    for (row, col, value) in cells {
        input[(row - 1) * 9 + (col - 1)] = *value;
    }
    input
}

#[test]
fn construction_rejects_80_and_82_elements() {
    let short = Sudoku::new(vec![0; 80]).unwrap_err();
    let long = Sudoku::new(vec![0; 82]).unwrap_err();

    assert_eq!(short, SudokuError::TooShort { limit: 81 });
    assert_eq!(long, SudokuError::TooLong { limit: 81 });
    assert_eq!(short.kind(), ErrorKind::Length);
    assert_eq!(long.kind(), ErrorKind::Length);
}

#[test]
fn construction_rejects_empty_input() {
    assert_eq!(
        Sudoku::new(vec![]).unwrap_err(),
        SudokuError::TooShort { limit: 81 }
    );
}

#[test]
fn construction_rejects_ten_and_minus_one() {
    let ten = Sudoku::new(with_cells(&[(5, 5, 10)])).unwrap_err();
    let negative = Sudoku::new(with_cells(&[(9, 9, -1)])).unwrap_err();

    assert_eq!(ten, SudokuError::OutOfRange);
    assert_eq!(negative, SudokuError::OutOfRange);
    assert_eq!(ten.kind(), ErrorKind::Range);
    assert_eq!(negative.kind(), ErrorKind::Range);
}

#[test]
fn construction_checks_length_before_range() {
    let mut input = vec![0; 82];
    input[3] = 12;

    assert_eq!(
        Sudoku::new(input).unwrap_err(),
        SudokuError::TooLong { limit: 81 }
    );
}

#[test]
fn construction_rejects_two_fives_in_row_one() {
    let error = Sudoku::new(with_cells(&[(1, 1, 5), (1, 4, 5)])).unwrap_err();

    assert_eq!(error, SudokuError::DuplicateInRow { index: 1 });
    assert_eq!(error.kind(), ErrorKind::Duplicate);
    assert_eq!(error.message(), "Duplicate number in row 1");
}

#[test]
fn construction_rejects_two_nines_in_row_one() {
    let near = Sudoku::new(with_cells(&[(1, 1, 9), (1, 2, 9)])).unwrap_err();
    let far = Sudoku::new(with_cells(&[(1, 1, 9), (1, 9, 9)])).unwrap_err();

    assert_eq!(near, SudokuError::DuplicateInQuadrant { index: 1 });
    assert_eq!(near.message(), "Duplicate number in quadrant 1");
    assert_eq!(far, SudokuError::DuplicateInRow { index: 1 });
    assert_eq!(near.kind(), ErrorKind::Duplicate);
    assert_eq!(far.kind(), ErrorKind::Duplicate);
}

#[test]
fn construction_rejects_filled_grid_with_repeats() {
    let mut input = build_sudoku_static();
    input[8] = 8;

    let error = Sudoku::new(input).unwrap_err();

    assert_eq!(error.kind(), ErrorKind::Duplicate);
    assert_eq!(error, SudokuError::DuplicateInQuadrant { index: 3 });
}

#[test]
fn construction_rejects_repeat_in_column() {
    let error = Sudoku::new(with_cells(&[(2, 7, 4), (8, 7, 4)])).unwrap_err();

    assert_eq!(error, SudokuError::DuplicateInColumn { index: 7 });
    assert_eq!(error.kind(), ErrorKind::Duplicate);
    assert_eq!(error.message(), "Duplicate number in column 7");
}

#[test]
fn construction_reports_column_before_later_row() {
    let input = with_cells(&[(1, 1, 3), (4, 1, 3), (2, 2, 6), (2, 8, 6)]);

    assert_eq!(
        Sudoku::new(input).unwrap_err(),
        SudokuError::DuplicateInColumn { index: 1 }
    );
}

#[test]
fn construction_reports_row_before_its_column() {
    let input = with_cells(&[(3, 3, 3), (7, 3, 3), (3, 9, 3)]);

    assert_eq!(
        Sudoku::new(input).unwrap_err(),
        SudokuError::DuplicateInRow { index: 3 }
    );
}

#[test]
fn construction_reports_quadrant_before_row() {
    let input = with_cells(&[(1, 1, 2), (1, 9, 2), (8, 8, 7), (9, 9, 7)]);

    assert_eq!(
        Sudoku::new(input).unwrap_err(),
        SudokuError::DuplicateInQuadrant { index: 9 }
    );
}

#[test]
fn construction_twice_gives_equal_boards() {
    let first = Sudoku::new(build_sudoku_static_with_zeroes()).unwrap();
    let second = Sudoku::new(build_sudoku_static_with_zeroes()).unwrap();

    assert_eq!(first, second);
}

#[test]
fn construction_of_zeroes_is_default() {
    assert_eq!(Sudoku::new(empty_input()).unwrap(), Sudoku::default());
}

#[test]
fn rows_give_back_the_input() {
    let input = build_sudoku_static_with_zeroes();
    let sudoku = Sudoku::new(input.clone()).unwrap();

    let mut read = vec![];
    for row in 1..=9 {
        for digit in sudoku.get_row_array(row).unwrap() {
            read.push(digit as i32);
        }
    }

    assert_eq!(read, input);
}

#[test]
fn columns_give_back_the_input() {
    let input = build_sudoku_static();
    let sudoku = Sudoku::new(input.clone()).unwrap();

    for col in 1..=9usize {
        let column = sudoku.get_col_array(col as u8).unwrap();
        for row in 1..=9usize {
            assert_eq!(column[row - 1] as i32, input[(row - 1) * 9 + (col - 1)]);
        }
    }
}

#[test]
fn quadrants_are_regions_not_rows() {
    let sudoku = Sudoku::new(build_sudoku_static()).unwrap();

    assert_eq!(sudoku.q1.get_row_array(1).unwrap(), vec![8, 2, 7]);
    assert_eq!(sudoku.q1.get_row_array(2).unwrap(), vec![9, 6, 5]);
    assert_eq!(sudoku.q6.get_col_array(3).unwrap(), vec![1, 9, 5]);
    assert_eq!(sudoku.get_quadrant(5), sudoku.q6);
    assert_eq!(sudoku.get_quadrant(0), sudoku.q1);
    assert_eq!(sudoku.get_quadrant(8), sudoku.q9);
}

#[test]
fn board_index_zero_is_out_of_bounds() {
    let sudoku = Sudoku::new(build_sudoku_static()).unwrap();

    assert_eq!(sudoku.get_row_array(0).unwrap_err(), SudokuError::BoardIndex);
    assert_eq!(sudoku.get_col_array(0).unwrap_err(), SudokuError::BoardIndex);
    assert_eq!(
        sudoku.get_col_array(200).unwrap_err().kind(),
        ErrorKind::Index
    );
}

#[test]
fn map_input_to_u8_keeps_digits() {
    assert_eq!(
        Sudoku::map_input_to_u8(vec![0, 1, 5, 9, 200, 255]),
        vec![0, 1, 5, 9, 200, 255]
    );
    assert_eq!(Sudoku::map_input_to_u8(vec![]), Vec::<u8>::new());
}

#[test]
fn map_input_to_u8_cuts_to_eight_bits() {
    assert_eq!(Sudoku::map_input_to_u8(vec![256, 261, -1]), vec![0, 5, 255]);
}

#[test]
fn parse_input_into_sudoku_needs_81_digits() {
    let mut few = vec![1, 2, 3, 4, 5, 6, 7, 8];
    let mut eighty = vec![0; 80];

    assert_eq!(
        Sudoku::parse_input_into_sudoku(&mut few)
            .unwrap_err()
            .message(),
        "Insufficient input length to obtain a slice for a quadrant"
    );
    assert_eq!(
        Sudoku::parse_input_into_sudoku(&mut eighty).unwrap_err(),
        SudokuError::Insufficient
    );
    assert_eq!(SudokuError::Insufficient.kind(), ErrorKind::Length);
}

#[test]
fn parse_input_into_sudoku_uses_first_81_and_keeps_input() {
    let mut input: Vec<u8> = build_sudoku_static()
        .into_iter()
        .map(|item| item as u8)
        .collect();
    input.push(8);
    input.push(8);
    let before = input.clone();

    let parsed = Sudoku::parse_input_into_sudoku(&mut input).unwrap();

    assert_eq!(parsed, build_sudoku_static_struct());
    assert_eq!(input, before);
}

#[test]
fn parse_input_into_sudoku_checks_quadrants_only() {
    let mut input: Vec<u8> = with_cells(&[(1, 1, 5), (1, 4, 5)])
        .into_iter()
        .map(|item| item as u8)
        .collect();

    let parsed = Sudoku::parse_input_into_sudoku(&mut input).unwrap();

    assert_eq!(parsed.get_row_array(1).unwrap(), vec![5, 0, 0, 5, 0, 0, 0, 0, 0]);
    assert_eq!(
        parsed.validate_no_duplicates_in_row_and_col().unwrap_err(),
        SudokuError::DuplicateInRow { index: 1 }
    );
}

#[test]
fn parse_input_into_sudoku_reports_first_flawed_quadrant() {
    let mut input: Vec<u8> = with_cells(&[(1, 1, 5), (2, 2, 5), (2, 5, 12)])
        .into_iter()
        .map(|item| item as u8)
        .collect();

    assert_eq!(
        Sudoku::parse_input_into_sudoku(&mut input).unwrap_err(),
        SudokuError::DuplicateInQuadrant { index: 1 }
    );

    input[0] = 0;

    assert_eq!(
        Sudoku::parse_input_into_sudoku(&mut input).unwrap_err(),
        SudokuError::OutOfRange
    );
}

#[test]
fn validate_no_duplicates_accepts_valid_board() {
    let sudoku = build_sudoku_static_struct();

    assert_eq!(sudoku.validate_no_duplicates_in_row_and_col(), Ok(()));
}

#[test]
fn cells_by_row_and_column() {
    let mut sudoku = Sudoku::new(build_sudoku_static()).unwrap();

    assert_eq!(sudoku.get_cell(1, 1), 8);
    assert_eq!(sudoku.get_cell(1, 9), 6);
    assert_eq!(sudoku.get_cell(5, 4), 5);
    assert_eq!(sudoku.get_cell(9, 1), 2);
    assert_eq!(sudoku.get_cell(9, 9), 7);
    assert_eq!(sudoku.is_cell_empty(4, 6), false);

    sudoku.set_cell(4, 6, 0);

    assert_eq!(sudoku.is_cell_empty(4, 6), true);
    assert_eq!(sudoku.get_cell(4, 6), 0);
    assert_eq!(sudoku.q5.c3, 0);
    assert_eq!(
        sudoku.get_row_array(4).unwrap(),
        vec![5, 9, 3, 4, 6, 0, 2, 7, 1]
    );
    assert_eq!(
        sudoku.get_col_array(6).unwrap(),
        vec![4, 7, 9, 0, 3, 2, 5, 6, 1]
    );

    sudoku.set_cell(4, 6, 8);

    assert_eq!(sudoku, build_sudoku_static_struct());
}

#[test]
fn set_quadrant_replaces_one_quadrant() {
    let mut sudoku = Sudoku::default();
    let quad = Quadrant::new(vec![1, 2, 3, 4, 5, 6, 7, 8, 9]).unwrap();

    sudoku.set_quadrant(4, quad);

    assert_eq!(sudoku.q5, quad);
    assert_eq!(sudoku.q4, Quadrant::default());
    assert_eq!(
        sudoku.get_row_array(5).unwrap(),
        vec![0, 0, 0, 4, 5, 6, 0, 0, 0]
    );
}

#[test]
fn construction_names_the_quadrant_of_two_neighbouring_fives() {
    let mut input = vec![0; 81];
    input[0] = 5;
    input[1] = 5;

    let error = Sudoku::new(input).unwrap_err();

    assert_eq!(error, SudokuError::DuplicateInQuadrant { index: 1 });
    assert_eq!(error.kind(), ErrorKind::Duplicate);
    assert_eq!(error.message(), "Duplicate number in quadrant 1");
}

#[test]
fn construction_names_each_quadrant() {
    for quadrant in 1..=9usize {
        let row = 3 * ((quadrant - 1) / 3) + 1;
        let col = 3 * ((quadrant - 1) % 3) + 1;
        let input = with_cells(&[(row, col, 4), (row + 1, col + 1, 4)]);

        assert_eq!(
            Sudoku::new(input).unwrap_err(),
            SudokuError::DuplicateInQuadrant {
                index: quadrant as u8
            }
        );
    }
}

#[test]
fn construction_names_the_first_quadrant_with_a_repeat() {
    let input = with_cells(&[(9, 9, 1), (8, 8, 1), (5, 5, 2), (4, 6, 2)]);

    assert_eq!(
        Sudoku::new(input).unwrap_err(),
        SudokuError::DuplicateInQuadrant { index: 5 }
    );
}

#[test]
fn quadrant_on_its_own_names_no_quadrant() {
    assert_eq!(
        Quadrant::new(vec![5, 5, 0, 0, 0, 0, 0, 0, 0]).unwrap_err(),
        SudokuError::DuplicateDigit
    );
    assert_eq!(SudokuError::DuplicateDigit.kind(), ErrorKind::Duplicate);
}
