//! The search: depth first, cell by cell in row-major order, digits in
//! ascending order.

use vstd::prelude::*;

use crate::completion::{
    completes, conflicting, count_empty, first_empty, lemma_completes_placed, lemma_conflicting,
    lemma_count_empty_update, lemma_full_is_least, lemma_invalid_excluded, lemma_least_step,
    lemma_no_conflicts, lemma_search_of_valid, placement_valid, search_outcome,
};
use crate::digits::input_in_range;
use crate::error::{
    first_failure, lemma_first_failure_at, lemma_first_failure_origin, lemma_no_failure, verdict,
    SudokuError,
};
use crate::grid::{
    cell_index, column_of, consistent, extends, full, lemma_cell, lemma_consistent, row_of,
    solved, valid_grid,
};
use crate::sudoku::Sudoku;

verus! {

/// Finds the first empty cell of the board, reading row by row, and gives
/// its row and column, both counted from 1; `None` where no cell is empty.
pub fn find_next_empty_cell(sudoku: &Sudoku) -> (found: Option<(usize, usize)>)
    ensures
        match found {
            Some((row, col)) => 1 <= row <= 9 && 1 <= col <= 9 && first_empty(
                sudoku@,
                cell_index(row - 1, col - 1),
            ),
            None => full(sudoku@),
        },
{
    let mut row: usize = 1;
    while row <= 9
        invariant
            1 <= row <= 10,
            forall|j: int| 0 <= j < 9 * (row - 1) ==> #[trigger] sudoku@[j] != 0,
        decreases 10 - row,
    {
        let mut col: usize = 1;
        while col <= 9
            invariant
                1 <= row <= 9,
                1 <= col <= 10,
                forall|j: int| 0 <= j < 9 * (row - 1) + (col - 1) ==> #[trigger] sudoku@[j] != 0,
            decreases 10 - col,
        {
            if sudoku.is_cell_empty(row, col) {
                return Some((row, col));
            }
            col += 1;
        }
        row += 1;
    }
    None
}

/// Tells whether `number` may be placed in the cell at row `row` and column
/// `col`, both counted from 1: `0` always may; another number may where it
/// occurs neither in that row, nor in that column, nor in the quadrant of the
/// cell.
pub fn is_number_valid(sudoku: &Sudoku, number: u8, cell: (usize, usize)) -> (valid: bool)
    requires
        1 <= cell.0 <= 9,
        1 <= cell.1 <= 9,
    ensures
        valid == placement_valid(sudoku@, number, cell.0 - 1, cell.1 - 1),
{
    if number == 0 {
        return true;
    }
    let (row, col) = cell;
    let ghost g = sudoku@;
    let ghost r = row - 1;
    let ghost c = col - 1;

    //  Check validity in row
    let mut index: usize = 1;
    while index <= 9
        invariant
            1 <= index <= 10,
            1 <= row <= 9,
            row == cell.0,
            number != 0,
            g == sudoku@,
            r == row - 1,
            forall|i: int| 0 <= i < index - 1 ==> row_of(g, r)[i] != number,
        decreases 10 - index,
    {
        if sudoku.get_cell(row, index) == number {
            assert(row_of(g, r)[index - 1] == number);
            return false;
        }
        index += 1;
    }

    //  Check validity in column
    let mut index: usize = 1;
    while index <= 9
        invariant
            1 <= index <= 10,
            1 <= col <= 9,
            col == cell.1,
            number != 0,
            g == sudoku@,
            c == col - 1,
            forall|i: int| 0 <= i < index - 1 ==> column_of(g, c)[i] != number,
        decreases 10 - index,
    {
        if sudoku.get_cell(index, col) == number {
            assert(column_of(g, c)[index - 1] == number);
            return false;
        }
        index += 1;
    }

    //  Check validity in quadrant
    proof {
        lemma_cell(r, c);
    }
    let quad = sudoku.get_quadrant(3 * ((row - 1) / 3) + (col - 1) / 3);
    quad.is_number_available_in_quad(number)
}

/// The check of each cell of the grid, row by row: a cell fails where it
/// holds a digit that another cell of its row, column or quadrant holds too.
pub open spec fn cell_checks(g: Seq<u8>) -> Seq<Option<SudokuError>> {
    Seq::new(
        81,
        |k: int|
            if conflicting(g, k) {
                Some(
                    SudokuError::InvalidCell {
                        value: g[k],
                        row: (k / 9 + 1) as usize,
                        col: (k % 9 + 1) as usize,
                    },
                )
            } else {
                None
            },
    )
}

/// Checks the board cell by cell, row by row: each digit must differ from
/// the digits in the other cells of its row, column and quadrant. The first
/// cell that fails is reported. The board passes exactly where no digit
/// other than `0` occurs twice in a row, a column or a quadrant.
pub fn validate_input_locations(sudoku: &Sudoku) -> (r: Result<(), SudokuError>)
    ensures
        r == verdict(first_failure(cell_checks(sudoku@))),
        r is Ok <==> consistent(sudoku@),
{
    let ghost g = sudoku@;
    let ghost checks = cell_checks(g);
    let mut row: usize = 1;
    while row <= 9
        invariant
            1 <= row <= 10,
            g == sudoku@,
            checks == cell_checks(g),
            forall|j: int| 0 <= j < 9 * (row - 1) ==> #[trigger] checks[j] is None,
        decreases 10 - row,
    {
        let mut col: usize = 1;
        while col <= 9
            invariant
                1 <= row <= 9,
                1 <= col <= 10,
                g == sudoku@,
                checks == cell_checks(g),
                forall|j: int| 0 <= j < 9 * (row - 1) + (col - 1) ==> #[trigger] checks[j] is None,
            decreases 10 - col,
        {
            let ghost k = cell_index(row - 1, col - 1);
            proof {
                lemma_cell(row - 1, col - 1);
            }
            let value = sudoku.get_cell(row, col);
            if value != 0 {
                let mut temp_sudoku = *sudoku;
                temp_sudoku.set_cell(row, col, 0);
                proof {
                    lemma_conflicting(g, k);
                }
                if !is_number_valid(&temp_sudoku, value, (row, col)) {
                    proof {
                        lemma_first_failure_at(checks, k);
                        lemma_first_failure_origin(checks);
                        lemma_no_conflicts(g);
                    }
                    return Err(SudokuError::InvalidCell { value, row, col });
                }
            }
            assert(checks[k] is None);
            col += 1;
        }
        row += 1;
    }
    proof {
        lemma_no_failure(checks);
        lemma_no_conflicts(g);
        assert forall|k: int| 0 <= k < 81 implies !#[trigger] conflicting(g, k) by {
            assert(checks[k] is None);
        }
    }
    Ok(())
}

/// Builds the board from 81 digits, the grid read row by row, and checks it
/// once more cell by cell. A board that was built passes that check, so the
/// outcome is that of building it.
pub fn init_input(input: Vec<i32>) -> (r: Result<Sudoku, SudokuError>)
    ensures
        r == Sudoku::built_from(input@),
        r is Ok <==> input@.len() == 81 && input_in_range(input@) && valid_grid(
            Sudoku::digits_of(input@),
        ),
        r is Ok ==> r->Ok_0@ == Sudoku::digits_of(input@) && r->Ok_0.wf(),
{
    //  Build sudoku from input
    let sudoku = Sudoku::new(input)?;

    //  Validate locations in case they're wrong
    proof {
        lemma_consistent(sudoku@);
    }
    validate_input_locations(&sudoku)?;

    Ok(sudoku)
}

/// Fills the empty cells of the board so that no digit occurs twice in a
/// row, a column or a quadrant, and tells whether that could be done.
///
/// The cells are filled in row-major order, each with the smallest digit
/// that leads to a completion: where one exists, the board ends as the first
/// completion in the order of grids read row by row. Where none exists the
/// board is left as it was.
pub fn solve(sudoku: &mut Sudoku) -> (found: bool)
    ensures
        search_outcome(old(sudoku)@, final(sudoku)@, found),
        !found ==> *final(sudoku) == *old(sudoku),
        old(sudoku).wf() ==> (found <==> exists|t: Seq<u8>|
            solved(t) && #[trigger] extends(t, old(sudoku)@)),
        old(sudoku).wf() && found ==> solved(final(sudoku)@) && extends(
            final(sudoku)@,
            old(sudoku)@,
        ),
    decreases count_empty(old(sudoku)@),
{
    let ghost b = sudoku@;
    match find_next_empty_cell(sudoku) {
        None => {
            proof {
                lemma_full_is_least(b);
                if valid_grid(b) {
                    lemma_search_of_valid(b, b, true);
                }
            }
            true
        },
        Some((cell_row, cell_col)) => {
            let ghost k = cell_index(cell_row - 1, cell_col - 1);
            proof {
                lemma_cell(cell_row - 1, cell_col - 1);
            }
            let mut number: u8 = 1;
            while number <= 9
                invariant
                    1 <= number <= 10,
                    1 <= cell_row <= 9,
                    1 <= cell_col <= 9,
                    *sudoku == *old(sudoku),
                    b == sudoku@,
                    k == cell_index(cell_row - 1, cell_col - 1),
                    k / 9 == cell_row - 1,
                    k % 9 == cell_col - 1,
                    first_empty(b, k),
                    forall|t: Seq<u8>| #[trigger] completes(t, b) ==> t[k] >= number,
                decreases 10 - number,
            {
                if is_number_valid(sudoku, number, (cell_row, cell_col)) {
                    sudoku.set_cell(cell_row, cell_col, number);
                    proof {
                        lemma_count_empty_update(b, k, number);
                    }
                    if solve(sudoku) {
                        proof {
                            lemma_least_step(b, k, number, sudoku@);
                            if valid_grid(b) {
                                lemma_search_of_valid(b, sudoku@, true);
                            }
                        }
                        return true;
                    }
                    sudoku.set_cell(cell_row, cell_col, 0);
                    proof {
                        assert(sudoku@ =~= b);
                        sudoku.lemma_view_of();
                        old(sudoku).lemma_view_of();
                        assert forall|t: Seq<u8>| #[trigger] completes(t, b) implies t[k]
                            != number by {
                            if t[k] == number {
                                lemma_completes_placed(b, k, number, t);
                            }
                        }
                    }
                } else {
                    proof {
                        assert forall|t: Seq<u8>| #[trigger] completes(t, b) implies t[k]
                            != number by {
                            lemma_invalid_excluded(b, k, number, t);
                        }
                    }
                }
                number += 1;
            }
            proof {
                assert forall|t: Seq<u8>| !#[trigger] completes(t, b) by {
                    if completes(t, b) {
                        assert(t[k] >= 10);
                    }
                }
                if valid_grid(b) {
                    lemma_search_of_valid(b, b, false);
                }
            }
            false
        },
    }
}

/// Builds the board from 81 digits, the grid read row by row with `0` for an
/// empty cell, and searches for its completion. Gives the board as the
/// search left it, and whether it was completed; or the reason for which
/// the input was rejected.
pub fn solve_sudoku(sudoku: Vec<i32>) -> (r: Result<(Sudoku, bool), SudokuError>)
    ensures
        match r {
            Err(e) => Sudoku::built_from(sudoku@) == Err::<Sudoku, SudokuError>(e),
            Ok((board, found)) => {
                &&& Sudoku::built_from(sudoku@) is Ok
                &&& search_outcome(Sudoku::digits_of(sudoku@), board@, found)
                &&& found <==> exists|t: Seq<u8>|
                    solved(t) && #[trigger] extends(t, Sudoku::digits_of(sudoku@))
                &&& found ==> solved(board@) && extends(board@, Sudoku::digits_of(sudoku@))
            },
        },
{
    let mut board = init_input(sudoku)?;
    let found = solve(&mut board);
    Ok((board, found))
}

} // verus!
