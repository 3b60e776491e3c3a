//! The board: nine quadrants, three rows of three.

use vstd::prelude::*;

use crate::completion::{
    lemma_clearing_keeps_valid, lemma_placement_keeps_valid, placement_valid,
};
use crate::digits::{all_distinct, digits_in_range, input_in_range, no_repeats};
use crate::error::{
    first_failure, lemma_first_failure_at, lemma_first_failure_origin, lemma_no_failure, verdict,
    SudokuError,
};
use crate::grid::{
    cell_index, column_of, empty_grid, lemma_cell, lemma_cell_digits, lemma_column_of_quadrants,
    lemma_empty_grid_solvable, lemma_quadrant_cell, lemma_quadrant_coordinates,
    lemma_row_of_quadrants, lemma_two_digits, quadrant_cell, quadrant_column, quadrant_index,
    quadrant_of, quadrant_row,
    quadrant_offset, row_of, valid_grid,
};
use crate::quadrant::Quadrant;

verus! {

/// The nine quadrants of the board, named row by row from `q1` to `q9`:
/// `q1`, `q2`, `q3` make up the top three rows of the grid, left to right.
#[derive(Debug, Copy, Clone, PartialEq, Eq, Structural)]
pub struct Sudoku {
    pub q1: Quadrant,
    pub q2: Quadrant,
    pub q3: Quadrant,
    pub q4: Quadrant,
    pub q5: Quadrant,
    pub q6: Quadrant,
    pub q7: Quadrant,
    pub q8: Quadrant,
    pub q9: Quadrant,
}

impl View for Sudoku {
    type V = Seq<u8>;

    /// The grid read row by row: 81 digits.
    open spec fn view(&self) -> Seq<u8> {
        Seq::new(81, |k: int| self.cell_at(k))
    }
}

impl Default for Sudoku {
    /// The board whose cells are all empty.
    fn default() -> (board: Self)
        ensures
            board@ == empty_grid(),
            board.wf(),
    {
        let empty = Quadrant::default();
        let board = Sudoku {
            q1: empty,
            q2: empty,
            q3: empty,
            q4: empty,
            q5: empty,
            q6: empty,
            q7: empty,
            q8: empty,
            q9: empty,
        };
        proof {
            reveal(Sudoku::cell_at);
            assert forall|k: int| 0 <= k < 81 implies board@[k] == 0u8 by {
                lemma_quadrant_coordinates(k);
                assert(board.quadrants()[quadrant_index(k)] == empty);
            }
            assert(board@ =~= empty_grid());
            lemma_empty_grid_solvable();
        }
        board
    }
}

impl Sudoku {
    /// The nine quadrants in order.
    pub open spec fn quadrants(self) -> Seq<Quadrant> {
        seq![self.q1, self.q2, self.q3, self.q4, self.q5, self.q6, self.q7, self.q8, self.q9]
    }

    /// The digit at index `k` of the grid read row by row: a cell of the
    /// quadrant that the index lies in.
    #[verifier::opaque]
    pub open spec fn cell_at(self, k: int) -> u8 {
        self.quadrants()[quadrant_index(k)]@[quadrant_offset(k)]
    }

    /// The board obeys the rules: every cell holds a digit, and no digit
    /// other than `0` occurs twice in a row, a column or a quadrant.
    pub open spec fn wf(self) -> bool {
        valid_grid(self@)
    }

    /// The board whose grid is the first 81 elements of `g`.
    pub open spec fn of(g: Seq<u8>) -> Sudoku
        recommends
            g.len() >= 81,
    {
        Sudoku {
            q1: Quadrant::of(quadrant_of(g, 0)),
            q2: Quadrant::of(quadrant_of(g, 1)),
            q3: Quadrant::of(quadrant_of(g, 2)),
            q4: Quadrant::of(quadrant_of(g, 3)),
            q5: Quadrant::of(quadrant_of(g, 4)),
            q6: Quadrant::of(quadrant_of(g, 5)),
            q7: Quadrant::of(quadrant_of(g, 6)),
            q8: Quadrant::of(quadrant_of(g, 7)),
            q9: Quadrant::of(quadrant_of(g, 8)),
        }
    }

    /// The input as digits, each element cut to its low eight bits.
    pub open spec fn digits_of(input: Seq<i32>) -> Seq<u8> {
        Seq::new(input.len(), |i: int| input[i] as u8)
    }

    /// What is wrong with the number of elements, if anything.
    pub open spec fn length_failure(len: nat) -> Option<SudokuError> {
        if len > 81 {
            Some(SudokuError::TooLong { limit: 81 })
        } else if len < 81 {
            Some(SudokuError::TooShort { limit: 81 })
        } else {
            None
        }
    }

    /// What is wrong with the elements themselves, if anything.
    pub open spec fn content_failure(input: Seq<i32>) -> Option<SudokuError> {
        if !input_in_range(input) {
            Some(SudokuError::OutOfRange)
        } else {
            None
        }
    }

    /// The check of quadrant `q` of the grid, counted from 0: a value that
    /// is no digit is reported before a repeated digit, and a repeated digit
    /// is reported with the number of the quadrant, counted from 1.
    pub open spec fn quadrant_failure(g: Seq<u8>, q: int) -> Option<SudokuError> {
        if !digits_in_range(quadrant_of(g, q)) {
            Some(SudokuError::OutOfRange)
        } else if !no_repeats(quadrant_of(g, q)) {
            Some(SudokuError::DuplicateInQuadrant { index: (q + 1) as u8 })
        } else {
            None
        }
    }

    /// The check of each quadrant of the grid, in order.
    pub open spec fn quadrant_checks(g: Seq<u8>) -> Seq<Option<SudokuError>> {
        Seq::new(9, |q: int| Self::quadrant_failure(g, q))
    }

    /// The check of row `u` and column `u` of the grid, the row first.
    pub open spec fn line_failure(g: Seq<u8>, u: int) -> Option<SudokuError> {
        if !no_repeats(row_of(g, u)) {
            Some(SudokuError::DuplicateInRow { index: (u + 1) as u8 })
        } else if !no_repeats(column_of(g, u)) {
            Some(SudokuError::DuplicateInColumn { index: (u + 1) as u8 })
        } else {
            None
        }
    }

    /// The checks of the rows and columns of the grid: row 1, column 1,
    /// row 2, column 2 and so on.
    pub open spec fn line_checks(g: Seq<u8>) -> Seq<Option<SudokuError>> {
        Seq::new(9, |u: int| Self::line_failure(g, u))
    }

    /// The outcome of cutting `cells` into quadrants: the first 81 elements
    /// are used, and the quadrants are checked in order. The failure of the
    /// first quadrant that fails is the outcome; a repeated digit is reported
    /// with the number of that quadrant.
    pub open spec fn parsed_from(cells: Seq<u8>) -> Result<Sudoku, SudokuError> {
        if cells.len() < 81 {
            Err(SudokuError::Insufficient)
        } else {
            match first_failure(Self::quadrant_checks(cells)) {
                Some(e) => Err(e),
                None => Ok(Self::of(cells)),
            }
        }
    }

    /// The outcome of building a board from `input`: the length is checked
    /// first, then the range of the elements, then each quadrant, then the
    /// rows and columns. A repeated digit is reported with the number,
    /// counted from 1, of the quadrant, row or column that holds it twice.
    pub open spec fn built_from(input: Seq<i32>) -> Result<Sudoku, SudokuError> {
        match Self::length_failure(input.len()) {
            Some(e) => Err(e),
            None => match Self::content_failure(input) {
                Some(e) => Err(e),
                None => match Self::parsed_from(Self::digits_of(input)) {
                    Err(e) => Err(e),
                    Ok(sudoku) => match first_failure(Self::line_checks(sudoku@)) {
                        Some(e) => Err(e),
                        None => Ok(sudoku),
                    },
                },
            },
        }
    }

    /// The grid of the board made from `g` is `g`, as far as it was used.
    pub proof fn lemma_of_view(g: Seq<u8>)
        requires
            g.len() >= 81,
        ensures
            Self::of(g)@ == g.take(81),
    {
        reveal(Sudoku::cell_at);
        let board = Self::of(g);
        assert forall|k: int| 0 <= k < 81 implies board@[k] == g[k] by {
            lemma_quadrant_coordinates(k);
            let q = quadrant_index(k);
            let cells = quadrant_of(g, q);
            assert(board.quadrants()[q] == Quadrant::of(cells));
            assert(Quadrant::of(cells)@ =~= cells);
        }
        assert(board@ =~= g.take(81));
    }

    /// Among digits, the quadrants all pass exactly where none of them holds
    /// a digit other than `0` twice.
    pub proof fn lemma_quadrant_checks(g: Seq<u8>)
        requires
            g.len() == 81,
            digits_in_range(g),
        ensures
            first_failure(Self::quadrant_checks(g)) is None <==> forall|q: int|
                0 <= q < 9 ==> no_repeats(#[trigger] quadrant_of(g, q)),
    {
        let checks = Self::quadrant_checks(g);
        assert forall|q: int| 0 <= q < 9 implies digits_in_range(#[trigger] quadrant_of(g, q)) by {
            assert forall|i: int| 0 <= i < 9 implies #[trigger] quadrant_of(g, q)[i] <= 9 by {
                lemma_quadrant_cell(q, i);
            }
        }
        if forall|q: int| 0 <= q < 9 ==> no_repeats(#[trigger] quadrant_of(g, q)) {
            assert forall|q: int| 0 <= q < 9 implies #[trigger] checks[q] is None by {
                assert(no_repeats(quadrant_of(g, q)));
            }
            lemma_no_failure(checks);
        }
        if first_failure(checks) is None {
            lemma_first_failure_origin(checks);
            assert forall|q: int| 0 <= q < 9 implies no_repeats(#[trigger] quadrant_of(g, q)) by {
                assert(checks[q] is None);
            }
        }
    }

    /// Among 81 digits of which a quadrant holds a digit other than `0`
    /// twice, building fails with the number, counted from 1, of the first
    /// such quadrant.
    pub proof fn lemma_built_from_repeat_in_quadrant(input: Seq<i32>, q: int)
        requires
            input.len() == 81,
            input_in_range(input),
            0 <= q < 9,
            !no_repeats(quadrant_of(Self::digits_of(input), q)),
            forall|p: int| 0 <= p < q ==> no_repeats(#[trigger] quadrant_of(Self::digits_of(input), p)),
        ensures
            Self::built_from(input) == Err::<Sudoku, SudokuError>(
                SudokuError::DuplicateInQuadrant { index: (q + 1) as u8 },
            ),
    {
        let g = Self::digits_of(input);
        let checks = Self::quadrant_checks(g);
        assert forall|p: int| 0 <= p < 9 implies digits_in_range(#[trigger] quadrant_of(g, p)) by {
            assert forall|i: int| 0 <= i < 9 implies #[trigger] quadrant_of(g, p)[i] <= 9 by {
                lemma_quadrant_cell(p, i);
                assert(0 <= input[quadrant_cell(p, i)] <= 9);
            }
        }
        assert forall|p: int| 0 <= p < q implies #[trigger] checks[p] is None by {
            assert(no_repeats(quadrant_of(g, p)));
        }
        assert(digits_in_range(quadrant_of(g, q)));
        lemma_first_failure_at(checks, q);
    }

    /// When building fails for a repeated digit, and with which number:
    /// with that of the first quadrant that holds a digit other than `0`
    /// twice; where no quadrant does, with that of the first row or column
    /// that does, row `n` coming before column `n` and column `n` before row
    /// `n + 1`.
    pub proof fn lemma_built_from_duplicate(input: Seq<i32>, index: u8)
        ensures
            Self::built_from(input) == Err::<Sudoku, SudokuError>(
                SudokuError::DuplicateInQuadrant { index },
            ) <==> {
                &&& input.len() == 81
                &&& input_in_range(input)
                &&& 1 <= index <= 9
                &&& !no_repeats(quadrant_of(Self::digits_of(input), index - 1))
                &&& forall|p: int|
                    0 <= p < index - 1 ==> no_repeats(
                        #[trigger] quadrant_of(Self::digits_of(input), p),
                    )
            },
            Self::built_from(input) == Err::<Sudoku, SudokuError>(
                SudokuError::DuplicateInRow { index },
            ) <==> {
                &&& input.len() == 81
                &&& input_in_range(input)
                &&& forall|q: int|
                    0 <= q < 9 ==> no_repeats(#[trigger] quadrant_of(Self::digits_of(input), q))
                &&& 1 <= index <= 9
                &&& !no_repeats(row_of(Self::digits_of(input), index - 1))
                &&& forall|u: int|
                    0 <= u < index - 1 ==> #[trigger] Self::line_failure(
                        Self::digits_of(input),
                        u,
                    ) is None
            },
            Self::built_from(input) == Err::<Sudoku, SudokuError>(
                SudokuError::DuplicateInColumn { index },
            ) <==> {
                &&& input.len() == 81
                &&& input_in_range(input)
                &&& forall|q: int|
                    0 <= q < 9 ==> no_repeats(#[trigger] quadrant_of(Self::digits_of(input), q))
                &&& 1 <= index <= 9
                &&& no_repeats(row_of(Self::digits_of(input), index - 1))
                &&& !no_repeats(column_of(Self::digits_of(input), index - 1))
                &&& forall|u: int|
                    0 <= u < index - 1 ==> #[trigger] Self::line_failure(
                        Self::digits_of(input),
                        u,
                    ) is None
            },
    {
        let g = Self::digits_of(input);
        if input.len() == 81 && input_in_range(input) {
            let quadrants = Self::quadrant_checks(g);
            let lines = Self::line_checks(g);
            assert(Self::of(g)@ == g) by {
                Self::lemma_of_view(g);
                assert(g.take(81) =~= g);
            }
            assert(digits_in_range(g)) by {
                assert forall|i: int| 0 <= i < 81 implies #[trigger] g[i] <= 9 by {
                    assert(0 <= input[i] <= 9);
                }
            }
            Self::lemma_quadrant_checks(g);
            lemma_first_failure_origin(quadrants);
            lemma_first_failure_origin(lines);
            if 1 <= index <= 9 && !no_repeats(quadrant_of(g, index - 1)) && forall|p: int|
                0 <= p < index - 1 ==> no_repeats(#[trigger] quadrant_of(g, p)) {
                Self::lemma_built_from_repeat_in_quadrant(input, index - 1);
            }
            if first_failure(quadrants) is Some {
                let at = choose|at: int|
                    0 <= at < quadrants.len() && #[trigger] quadrants[at] == first_failure(
                        quadrants,
                    ) && forall|i: int| 0 <= i < at ==> #[trigger] quadrants[i] is None;
                assert forall|p: int| 0 <= p < at implies no_repeats(
                    #[trigger] quadrant_of(g, p),
                ) by {
                    assert(quadrants[p] is None);
                    assert forall|i: int| 0 <= i < 9 implies #[trigger] quadrant_of(g, p)[i]
                        <= 9 by {
                        lemma_quadrant_cell(p, i);
                    }
                }
                assert(!no_repeats(quadrant_of(g, at)) || !digits_in_range(quadrant_of(g, at)));
            } else {
                if 1 <= index <= 9 && forall|u: int|
                    0 <= u < index - 1 ==> #[trigger] Self::line_failure(g, u) is None {
                    if Self::line_failure(g, index - 1) is Some {
                        assert forall|u: int| 0 <= u < index - 1 implies #[trigger] lines[u] is None by {
                            assert(Self::line_failure(g, u) is None);
                        }
                        lemma_first_failure_at(lines, index - 1);
                    }
                }
                if first_failure(lines) is Some {
                    let at = choose|at: int|
                        0 <= at < lines.len() && #[trigger] lines[at] == first_failure(lines)
                            && forall|i: int| 0 <= i < at ==> #[trigger] lines[i] is None;
                    assert forall|u: int| 0 <= u < at implies #[trigger] Self::line_failure(
                        g,
                        u,
                    ) is None by {
                        assert(lines[u] is None);
                    }
                }
            }
        }
    }

    /// The rows and columns all pass exactly where none of them holds a
    /// digit other than `0` twice.
    pub proof fn lemma_line_checks(g: Seq<u8>)
        ensures
            first_failure(Self::line_checks(g)) is None <==> (forall|r: int|
                0 <= r < 9 ==> no_repeats(#[trigger] row_of(g, r))) && (forall|c: int|
                0 <= c < 9 ==> no_repeats(#[trigger] column_of(g, c))),
    {
        let checks = Self::line_checks(g);
        if (forall|r: int| 0 <= r < 9 ==> no_repeats(#[trigger] row_of(g, r))) && (forall|c: int|
            0 <= c < 9 ==> no_repeats(#[trigger] column_of(g, c))) {
            assert forall|u: int| 0 <= u < 9 implies #[trigger] checks[u] is None by {
                assert(no_repeats(row_of(g, u)));
                assert(no_repeats(column_of(g, u)));
            }
            lemma_no_failure(checks);
        }
        if first_failure(checks) is None {
            lemma_first_failure_origin(checks);
            assert forall|r: int| 0 <= r < 9 implies no_repeats(#[trigger] row_of(g, r)) by {
                assert(checks[r] is None);
            }
            assert forall|c: int| 0 <= c < 9 implies no_repeats(#[trigger] column_of(g, c)) by {
                assert(checks[c] is None);
            }
        }
    }

    /// Building succeeds on exactly the inputs of 81 digits that obey the
    /// rules, and the board built holds the input, digit by digit.
    pub proof fn lemma_built_from(input: Seq<i32>)
        ensures
            Self::built_from(input) is Ok <==> input.len() == 81 && input_in_range(input)
                && valid_grid(Self::digits_of(input)),
            Self::built_from(input) is Ok ==> Self::built_from(input)->Ok_0@ == Self::digits_of(
                input,
            ),
    {
        let g = Self::digits_of(input);
        if input.len() == 81 && input_in_range(input) {
            assert(Self::of(g)@ == g) by {
                Self::lemma_of_view(g);
                assert(g.take(81) =~= g);
            }
            assert(digits_in_range(g)) by {
                assert forall|i: int| 0 <= i < 81 implies #[trigger] g[i] <= 9 by {
                    assert(0 <= input[i] <= 9);
                }
            }
            Self::lemma_quadrant_checks(g);
            Self::lemma_line_checks(g);
        }
    }

    /// An input of 81 zeros is accepted, and gives the empty board.
    pub proof fn lemma_built_from_zeros(input: Seq<i32>)
        requires
            input.len() == 81,
            forall|i: int| 0 <= i < 81 ==> #[trigger] input[i] == 0,
        ensures
            Self::built_from(input) is Ok,
            Self::built_from(input)->Ok_0@ == empty_grid(),
    {
        assert(Self::digits_of(input) =~= empty_grid());
        lemma_empty_grid_solvable();
        Self::lemma_built_from(input);
    }

    /// A board is the board made from its grid: boards with one grid are equal.
    pub proof fn lemma_view_of(self)
        ensures
            Self::of(self@) == self,
    {
        assert(Quadrant::of(quadrant_of(self@, 0)) == self.q1) by {
            self.lemma_quadrant(0);
            self.q1.lemma_view_of();
        }
        assert(Quadrant::of(quadrant_of(self@, 1)) == self.q2) by {
            self.lemma_quadrant(1);
            self.q2.lemma_view_of();
        }
        assert(Quadrant::of(quadrant_of(self@, 2)) == self.q3) by {
            self.lemma_quadrant(2);
            self.q3.lemma_view_of();
        }
        assert(Quadrant::of(quadrant_of(self@, 3)) == self.q4) by {
            self.lemma_quadrant(3);
            self.q4.lemma_view_of();
        }
        assert(Quadrant::of(quadrant_of(self@, 4)) == self.q5) by {
            self.lemma_quadrant(4);
            self.q5.lemma_view_of();
        }
        assert(Quadrant::of(quadrant_of(self@, 5)) == self.q6) by {
            self.lemma_quadrant(5);
            self.q6.lemma_view_of();
        }
        assert(Quadrant::of(quadrant_of(self@, 6)) == self.q7) by {
            self.lemma_quadrant(6);
            self.q7.lemma_view_of();
        }
        assert(Quadrant::of(quadrant_of(self@, 7)) == self.q8) by {
            self.lemma_quadrant(7);
            self.q8.lemma_view_of();
        }
        assert(Quadrant::of(quadrant_of(self@, 8)) == self.q9) by {
            self.lemma_quadrant(8);
            self.q9.lemma_view_of();
        }
    }

    /// Boards with the same grid are the same board.
    pub proof fn lemma_same_grid_same_board(self, other: Sudoku)
        requires
            self@ == other@,
        ensures
            self == other,
    {
        self.lemma_view_of();
        other.lemma_view_of();
    }

    /// The rows of a board that was built give back the input from which it
    /// was built, and so do its columns.
    pub proof fn lemma_round_trip(input: Seq<i32>, board: Sudoku)
        requires
            Self::built_from(input) == Ok::<Sudoku, SudokuError>(board),
        ensures
            input.len() == 81,
            board@.len() == 81,
            forall|k: int| 0 <= k < 81 ==> #[trigger] board@[k] == input[k],
            forall|r: int, i: int|
                0 <= r < 9 && 0 <= i < 9 ==> #[trigger] row_of(board@, r)[i] == input[cell_index(
                    r,
                    i,
                )],
            forall|c: int, i: int|
                0 <= c < 9 && 0 <= i < 9 ==> #[trigger] column_of(board@, c)[i] == input[cell_index(
                    i,
                    c,
                )],
    {
        Self::lemma_built_from(input);
        assert forall|k: int| 0 <= k < 81 implies #[trigger] board@[k] == input[k] by {
            assert(0 <= input[k] <= 9);
        }
        assert forall|r: int, c: int| 0 <= r < 9 && 0 <= c < 9 implies board@[cell_index(r, c)]
            == input[cell_index(r, c)] by {
            lemma_cell(r, c);
        }
    }

    /// The quadrant `q` of the board is the quadrant `q` of its grid.
    pub proof fn lemma_quadrant(self, q: int)
        requires
            0 <= q < 9,
        ensures
            self.quadrants()[q]@ == quadrant_of(self@, q),
    {
        reveal(Sudoku::cell_at);
        assert forall|i: int| 0 <= i < 9 implies self.quadrants()[q]@[i] == quadrant_of(
            self@,
            q,
        )[i] by {
            lemma_quadrant_cell(q, i);
        }
        assert(self.quadrants()[q]@ =~= quadrant_of(self@, q));
    }

    /// The quadrant at `index`, quadrants counted row by row from 0 to 8.
    pub fn get_quadrant(&self, index: usize) -> (q: Quadrant)
        requires
            index < 9,
        ensures
            q == self.quadrants()[index as int],
            q@ == quadrant_of(self@, index as int),
    {
        proof {
            self.lemma_quadrant(index as int);
        }
        match index {
            0 => self.q1,
            1 => self.q2,
            2 => self.q3,
            3 => self.q4,
            4 => self.q5,
            5 => self.q6,
            6 => self.q7,
            7 => self.q8,
            _ => self.q9,
        }
    }

    /// Builds a board from 81 digits, the grid read row by row, `0` for an
    /// empty cell. The input is accepted where it has 81 elements, each a
    /// digit, and no digit other than `0` occurs twice in a quadrant, a row
    /// or a column; the board then holds the input. A repeated digit is
    /// reported with the number of the first quadrant that holds one twice,
    /// else of the first row or column that does.
    pub fn new(input: Vec<i32>) -> (r: Result<Self, SudokuError>)
        ensures
            r == Self::built_from(input@),
            r is Ok <==> input@.len() == 81 && input_in_range(input@) && valid_grid(
                Self::digits_of(input@),
            ),
            r is Ok ==> r->Ok_0@ == Self::digits_of(input@) && r->Ok_0.wf(),
    {
        proof {
            Self::lemma_built_from(input@);
        }
        Self::validate_input_length(input.as_slice())?;
        Self::validate_input_content(input.as_slice())?;
        let mut mapped_input = Self::map_input_to_u8(input);
        let sudoku = Self::parse_input_into_sudoku(&mut mapped_input)?;
        sudoku.validate_no_duplicates_in_row_and_col()?;
        Ok(sudoku)
    }

    /// Accepts exactly 81 elements.
    pub fn validate_input_length(input: &[i32]) -> (r: Result<(), SudokuError>)
        ensures
            r == verdict(Self::length_failure(input@.len())),
    {
        if input.len() > 81 {
            return Err(SudokuError::TooLong { limit: 81 });
        }
        if input.len() < 81 {
            return Err(SudokuError::TooShort { limit: 81 });
        }
        Ok(())
    }

    /// Accepts elements that all lie in `0..=9`.
    pub fn validate_input_content(input: &[i32]) -> (r: Result<(), SudokuError>)
        ensures
            r == verdict(Self::content_failure(input@)),
    {
        let mut idx: usize = 0;
        while idx < input.len()
            invariant
                idx <= input.len(),
                input_in_range(input@.take(idx as int)),
            decreases input.len() - idx,
        {
            if input[idx] > 9 || input[idx] < 0 {
                return Err(SudokuError::OutOfRange);
            }
            idx += 1;
        }
        assert(input@.take(idx as int) == input@);
        Ok(())
    }

    /// Turns each element into a digit, keeping its low eight bits: an
    /// element in `0..=255` keeps its value.
    pub fn map_input_to_u8(input: Vec<i32>) -> (digits: Vec<u8>)
        ensures
            digits@ == Self::digits_of(input@),
            forall|i: int|
                0 <= i < input@.len() && 0 <= input@[i] <= 255 ==> #[trigger] digits@[i]
                    == input@[i],
    {
        let mut digits: Vec<u8> = Vec::new();
        let mut idx: usize = 0;
        while idx < input.len()
            invariant
                idx <= input.len(),
                digits@ == Self::digits_of(input@.take(idx as int)),
            decreases input.len() - idx,
        {
            let digit = #[verifier::truncate]
            (input[idx] as u8);
            digits.push(digit);
            idx += 1;
            assert(digits@ =~= Self::digits_of(input@.take(idx as int)));
        }
        assert(input@.take(idx as int) == input@);
        digits
    }

    /// The cells of the quadrant at `index`, row by row: three runs of three
    /// neighbours, nine elements apart in the input.
    fn quadrant_cells(input: &Vec<u8>, index: usize) -> (cells: Vec<u8>)
        requires
            input.len() >= 81,
            index < 9,
        ensures
            cells@ == quadrant_of(input@, index as int),
    {
        let base: usize = 27 * (index / 3) + 3 * (index % 3);
        let mut cells: Vec<u8> = Vec::new();
        let mut inner: usize = 0;
        while inner < 3
            invariant
                inner <= 3,
                input.len() >= 81,
                index < 9,
                base == 27 * (index / 3) + 3 * (index % 3),
                cells@ == quadrant_of(input@, index as int).take(3 * inner),
            decreases 3 - inner,
        {
            proof {
                lemma_quadrant_cell(index as int, 3 * inner);
                lemma_quadrant_cell(index as int, 3 * inner + 1);
                lemma_quadrant_cell(index as int, 3 * inner + 2);
            }
            cells.push(input[base + inner * 9]);
            cells.push(input[base + inner * 9 + 1]);
            cells.push(input[base + inner * 9 + 2]);
            inner += 1;
            assert(cells@ =~= quadrant_of(input@, index as int).take(3 * inner));
        }
        assert(quadrant_of(input@, index as int).take(9) == quadrant_of(input@, index as int));
        cells
    }

    /// Cuts the first 81 digits, a grid read row by row, into nine quadrants
    /// and checks each of them; a repeated digit is reported with the number
    /// of its quadrant, counted from 1. The input is left as it was.
    pub fn parse_input_into_sudoku(input: &mut Vec<u8>) -> (r: Result<Self, SudokuError>)
        ensures
            final(input)@ == old(input)@,
            r == Self::parsed_from(old(input)@),
            r is Ok ==> r->Ok_0@ == old(input)@.take(81),
    {
        if input.len() < 81 {
            return Err(SudokuError::Insufficient);
        }
        let ghost checks = Self::quadrant_checks(input@);
        let mut quads: Vec<Quadrant> = Vec::new();
        let mut index: usize = 0;
        while index < 9
            invariant
                index <= 9,
                input@ == old(input)@,
                input.len() >= 81,
                checks == Self::quadrant_checks(input@),
                quads.len() == index,
                forall|q: int| 0 <= q < index ==> #[trigger] checks[q] is None,
                forall|q: int|
                    0 <= q < index ==> #[trigger] quads@[q] == Quadrant::of(quadrant_of(input@, q)),
            decreases 9 - index,
        {
            let cells = Self::quadrant_cells(input, index);
            match Quadrant::new(cells) {
                Ok(quad) => {
                    quads.push(quad);
                },
                Err(e) => {
                    let failure = match e {
                        SudokuError::DuplicateDigit => SudokuError::DuplicateInQuadrant {
                            index: (index + 1) as u8,
                        },
                        _ => e,
                    };
                    proof {
                        assert(checks[index as int] == Some(failure));
                        lemma_first_failure_at(checks, index as int);
                    }
                    return Err(failure);
                },
            }
            index += 1;
        }
        proof {
            lemma_no_failure(checks);
            Self::lemma_of_view(input@);
        }
        Ok(
            Sudoku {
                q1: quads[0],
                q2: quads[1],
                q3: quads[2],
                q4: quads[3],
                q5: quads[4],
                q6: quads[5],
                q7: quads[6],
                q8: quads[7],
                q9: quads[8],
            },
        )
    }

    /// Checks that no digit other than `0` occurs twice in a row or a column:
    /// row 1, column 1, row 2, column 2 and so on, up to the first that fails.
    pub fn validate_no_duplicates_in_row_and_col(&self) -> (r: Result<(), SudokuError>)
        ensures
            r == verdict(first_failure(Self::line_checks(self@))),
    {
        let ghost checks = Self::line_checks(self@);
        let mut index: u8 = 1;
        while index < 10
            invariant
                1 <= index <= 10,
                checks == Self::line_checks(self@),
                forall|u: int| 0 <= u < index - 1 ==> #[trigger] checks[u] is None,
            decreases 10 - index,
        {
            let row = self.get_row_array(index)?;
            if !all_distinct(row.as_slice()) {
                proof {
                    lemma_first_failure_at(checks, index - 1);
                }
                return Err(SudokuError::DuplicateInRow { index });
            }
            let col = self.get_col_array(index)?;
            if !all_distinct(col.as_slice()) {
                proof {
                    lemma_first_failure_at(checks, index - 1);
                }
                return Err(SudokuError::DuplicateInColumn { index });
            }
            index += 1;
        }
        proof {
            lemma_no_failure(checks);
        }
        Ok(())
    }

    /// The digit in the cell at row `row` and column `col`, both counted
    /// from 1 to 9; `0` where the cell is empty.
    pub fn get_cell(&self, row: usize, col: usize) -> (value: u8)
        requires
            1 <= row <= 9,
            1 <= col <= 9,
        ensures
            value == self@[cell_index(row - 1, col - 1)],
    {
        let r = row - 1;
        let c = col - 1;
        proof {
            lemma_cell(r as int, c as int);
        }
        let quad = self.get_quadrant(3 * (r / 3) + c / 3);
        quad.get_cell(3 * (r % 3) + c % 3)
    }

    /// Tells whether the cell at row `row` and column `col`, both counted
    /// from 1 to 9, is empty.
    pub fn is_cell_empty(&self, row: usize, col: usize) -> (empty: bool)
        requires
            1 <= row <= 9,
            1 <= col <= 9,
        ensures
            empty == (self@[cell_index(row - 1, col - 1)] == 0),
    {
        self.get_cell(row, col) == 0
    }

    /// Puts `quad` in place of the quadrant at `index`, quadrants counted row
    /// by row from 0 to 8.
    pub fn set_quadrant(&mut self, index: usize, quad: Quadrant)
        requires
            index < 9,
        ensures
            final(self).quadrants() == old(self).quadrants().update(index as int, quad),
    {
        match index {
            0 => { self.q1 = quad; },
            1 => { self.q2 = quad; },
            2 => { self.q3 = quad; },
            3 => { self.q4 = quad; },
            4 => { self.q5 = quad; },
            5 => { self.q6 = quad; },
            6 => { self.q7 = quad; },
            7 => { self.q8 = quad; },
            _ => { self.q9 = quad; },
        }
        assert(self.quadrants() =~= old(self).quadrants().update(index as int, quad));
    }

    /// A change of one cell of one quadrant changes that cell of the grid
    /// and no other.
    pub proof fn lemma_quadrant_update(self, after: Sudoku, q: int, offset: int, value: u8)
        requires
            0 <= q < 9,
            0 <= offset < 9,
            after.quadrants() == self.quadrants().update(
                q,
                Quadrant::of(self.quadrants()[q]@.update(offset, value)),
            ),
        ensures
            after@ == self@.update(quadrant_cell(q, offset), value),
    {
        reveal(Sudoku::cell_at);
        let k = quadrant_cell(q, offset);
        let changed = self@.update(k, value);
        lemma_quadrant_cell(q, offset);
        Quadrant::lemma_of_view(self.quadrants()[q]@.update(offset, value));
        assert forall|j: int| 0 <= j < 81 implies after@[j] == changed[j] by {
            lemma_quadrant_coordinates(j);
        }
        assert(after@ =~= changed);
    }

    /// A change of the cell in row `r` and column `c`, both counted from 0,
    /// through its quadrant: what it does to the grid, and when a board that
    /// obeys the rules still does.
    pub proof fn lemma_cell_update(self, after: Sudoku, r: int, c: int, value: u8)
        requires
            0 <= r < 9,
            0 <= c < 9,
            after.quadrants() == self.quadrants().update(
                3 * (r / 3) + c / 3,
                Quadrant::of(
                    self.quadrants()[3 * (r / 3) + c / 3]@.update(3 * (r % 3) + c % 3, value),
                ),
            ),
        ensures
            after@ == self@.update(cell_index(r, c), value),
            self.wf() && value == 0 ==> after.wf(),
            self.wf() && value <= 9 && self@[cell_index(r, c)] == 0 && placement_valid(
                self@,
                value,
                r,
                c,
            ) ==> after.wf(),
    {
        let k = cell_index(r, c);
        lemma_two_digits(r);
        lemma_two_digits(c);
        lemma_cell_digits(r / 3, r % 3, c / 3, c % 3);
        self.lemma_quadrant_update(after, 3 * (r / 3) + c / 3, 3 * (r % 3) + c % 3, value);
        if self.wf() && value == 0 {
            lemma_clearing_keeps_valid(self@, k);
        }
        if self.wf() && value <= 9 && self@[k] == 0 && placement_valid(self@, value, r, c) {
            lemma_placement_keeps_valid(self@, k, value);
        }
    }

    /// Puts `value` in the cell at row `row` and column `col`, both counted
    /// from 1 to 9, and leaves every other cell as it was. A board that obeys
    /// the rules still does where the cell is cleared, and where a digit that
    /// may be placed in an empty cell is placed there.
    pub fn set_cell(&mut self, row: usize, col: usize, value: u8)
        requires
            1 <= row <= 9,
            1 <= col <= 9,
        ensures
            final(self)@ == old(self)@.update(cell_index(row - 1, col - 1), value),
            old(self).wf() && value == 0 ==> final(self).wf(),
            old(self).wf() && value <= 9 && old(self)@[cell_index(row - 1, col - 1)] == 0
                && placement_valid(old(self)@, value, row - 1, col - 1) ==> final(self).wf(),
    {
        let r = row - 1;
        let c = col - 1;
        let index = 3 * (r / 3) + c / 3;
        let offset = 3 * (r % 3) + c % 3;
        let mut quad = self.get_quadrant(index);
        quad.set_cell(offset, value);
        self.set_quadrant(index, quad);
        proof {
            quad.lemma_view_of();
            old(self).lemma_cell_update(*self, r as int, c as int, value);
        }
    }

    /// The row `row_index` of the board, rows counted from 1 to 9: the rows
    /// of three neighbouring quadrants, left to right.
    pub fn get_row_array(&self, row_index: u8) -> (r: Result<Vec<u8>, SudokuError>)
        ensures
            1 <= row_index <= 9 ==> r is Ok && r->Ok_0@ == row_of(self@, row_index - 1),
            !(1 <= row_index <= 9) ==> r == Err::<Vec<u8>, SudokuError>(SudokuError::BoardIndex),
    {
        if row_index < 1 || row_index > 9 {
            return Err(SudokuError::BoardIndex);
        }
        let band: usize = ((row_index - 1) / 3) as usize;
        let local: u8 = (row_index - 1) % 3 + 1;
        let first: usize = 3 * band;
        let left = self.get_quadrant(first);
        let middle = self.get_quadrant(first + 1);
        let right = self.get_quadrant(first + 2);
        let mut vec = left.get_row_array(local)?;
        let mut more = middle.get_row_array(local)?;
        vec.append(&mut more);
        let mut more = right.get_row_array(local)?;
        vec.append(&mut more);
        assert(vec@ == quadrant_row(quadrant_of(self@, first as int), local - 1) + quadrant_row(
            quadrant_of(self@, first + 1),
            local - 1,
        ) + quadrant_row(quadrant_of(self@, first + 2), local - 1));
        assert(row_index - 1 == 3 * band + (local - 1));
        assert(vec@ == row_of(self@, row_index - 1)) by {
            lemma_row_of_quadrants(self@, band as int, local - 1);
        }
        Ok(vec)
    }

    /// The column `col_index` of the board, columns counted from 1 to 9: the
    /// columns of three quadrants, one above the other, top to bottom.
    pub fn get_col_array(&self, col_index: u8) -> (r: Result<Vec<u8>, SudokuError>)
        ensures
            1 <= col_index <= 9 ==> r is Ok && r->Ok_0@ == column_of(self@, col_index - 1),
            !(1 <= col_index <= 9) ==> r == Err::<Vec<u8>, SudokuError>(SudokuError::BoardIndex),
    {
        if col_index < 1 || col_index > 9 {
            return Err(SudokuError::BoardIndex);
        }
        let stack: usize = ((col_index - 1) / 3) as usize;
        let local: u8 = (col_index - 1) % 3 + 1;
        let top = self.get_quadrant(stack);
        let middle = self.get_quadrant(stack + 3);
        let bottom = self.get_quadrant(stack + 6);
        let mut vec = top.get_col_array(local)?;
        let mut more = middle.get_col_array(local)?;
        vec.append(&mut more);
        let mut more = bottom.get_col_array(local)?;
        vec.append(&mut more);
        assert(vec@ == quadrant_column(quadrant_of(self@, stack as int), local - 1)
            + quadrant_column(quadrant_of(self@, stack + 3), local - 1) + quadrant_column(
            quadrant_of(self@, stack + 6),
            local - 1,
        ));
        assert(col_index - 1 == 3 * stack + (local - 1));
        assert(vec@ == column_of(self@, col_index - 1)) by {
            lemma_column_of_quadrants(self@, stack as int, local - 1);
        }
        Ok(vec)
    }
}

} // verus!
