//! A quadrant: one of the nine 3×3 regions of the board.

use vstd::prelude::*;

use crate::digits::{all_digits, all_distinct, digits_in_range, no_repeats};
use crate::error::{verdict, SudokuError};
use crate::grid::{quadrant_column, quadrant_row};

verus! {

/// Nine cells, three rows of three, named row by row from `c1` to `c9`.
#[derive(Debug, Copy, Clone, PartialEq, Eq, Structural)]
pub struct Quadrant {
    pub c1: u8,
    pub c2: u8,
    pub c3: u8,
    pub c4: u8,
    pub c5: u8,
    pub c6: u8,
    pub c7: u8,
    pub c8: u8,
    pub c9: u8,
}

impl View for Quadrant {
    type V = Seq<u8>;

    /// The nine cells, row by row.
    open spec fn view(&self) -> Seq<u8> {
        seq![self.c1, self.c2, self.c3, self.c4, self.c5, self.c6, self.c7, self.c8, self.c9]
    }
}

impl Default for Quadrant {
    /// The quadrant whose cells are all empty.
    fn default() -> (q: Self)
        ensures
            q@ == Seq::new(9, |i: int| 0u8),
            q.wf(),
    {
        let q = Quadrant { c1: 0, c2: 0, c3: 0, c4: 0, c5: 0, c6: 0, c7: 0, c8: 0, c9: 0 };
        assert(q@ =~= Seq::new(9, |i: int| 0u8));
        q
    }
}

impl Quadrant {
    /// The quadrant that holds the first nine elements of `cells`.
    pub open spec fn of(cells: Seq<u8>) -> Quadrant
        recommends
            cells.len() >= 9,
    {
        Quadrant {
            c1: cells[0],
            c2: cells[1],
            c3: cells[2],
            c4: cells[3],
            c5: cells[4],
            c6: cells[5],
            c7: cells[6],
            c8: cells[7],
            c9: cells[8],
        }
    }

    /// A quadrant is the quadrant made from its cells: quadrants with the
    /// same cells are equal.
    pub proof fn lemma_view_of(self)
        ensures
            Self::of(self@) == self,
    {
    }

    /// The cells of the quadrant made from nine cells are those cells.
    pub proof fn lemma_of_view(cells: Seq<u8>)
        requires
            cells.len() == 9,
        ensures
            Self::of(cells)@ == cells,
    {
        assert(Self::of(cells)@ =~= cells);
    }

    /// Every cell holds a digit, and no digit other than `0` occurs twice.
    pub open spec fn wf(self) -> bool {
        digits_in_range(self@) && no_repeats(self@)
    }

    /// What is wrong with the number of elements, if anything.
    pub open spec fn length_failure(len: nat) -> Option<SudokuError> {
        if len > 9 {
            Some(SudokuError::TooLong { limit: 9 })
        } else if len < 9 {
            Some(SudokuError::TooShort { limit: 9 })
        } else {
            None
        }
    }

    /// What is wrong with the elements, if anything: a value that is no digit
    /// is reported before a repeated digit.
    pub open spec fn content_failure(cells: Seq<u8>) -> Option<SudokuError> {
        if !digits_in_range(cells) {
            Some(SudokuError::OutOfRange)
        } else if !no_repeats(cells) {
            Some(SudokuError::DuplicateDigit)
        } else {
            None
        }
    }

    /// The outcome of building a quadrant from `cells`: the length is checked
    /// first, then the elements.
    pub open spec fn built_from(cells: Seq<u8>) -> Result<Quadrant, SudokuError> {
        match Self::length_failure(cells.len()) {
            Some(e) => Err(e),
            None => match Self::content_failure(cells) {
                Some(e) => Err(e),
                None => Ok(Self::of(cells)),
            },
        }
    }

    /// Builds a quadrant from exactly nine digits, given row by row.
    pub fn new(input: Vec<u8>) -> (r: Result<Self, SudokuError>)
        ensures
            r == Self::built_from(input@),
            r is Ok ==> r->Ok_0@ == input@ && r->Ok_0.wf(),
    {
        match Self::validate_input_length(input.as_slice()) {
            Err(e) => { return Err(e); },
            Ok(()) => {},
        }
        match Self::validate_input_content(input.as_slice()) {
            Err(e) => { return Err(e); },
            Ok(()) => {},
        }
        let ghost cells = input@;
        let q = Self::map_input_to_quadrant(input);
        assert(cells.subrange(0, 9) == cells);
        Ok(q)
    }

    /// Accepts exactly nine elements.
    pub fn validate_input_length(input: &[u8]) -> (r: Result<(), SudokuError>)
        ensures
            r == verdict(Self::length_failure(input@.len())),
    {
        if input.len() > 9 {
            return Err(SudokuError::TooLong { limit: 9 });
        }
        if input.len() < 9 {
            return Err(SudokuError::TooShort { limit: 9 });
        }
        Ok(())
    }

    /// Accepts digits among which none but `0` occurs twice.
    pub fn validate_input_content(input: &[u8]) -> (r: Result<(), SudokuError>)
        ensures
            r == verdict(Self::content_failure(input@)),
    {
        if !all_digits(input) {
            return Err(SudokuError::OutOfRange);
        }
        if !all_distinct(input) {
            return Err(SudokuError::DuplicateDigit);
        }
        Ok(())
    }

    /// Lays the first nine elements out as a quadrant, row by row.
    pub fn map_input_to_quadrant(input: Vec<u8>) -> (q: Self)
        requires
            input.len() >= 9,
        ensures
            q == Self::of(input@),
            q@ == input@.subrange(0, 9),
    {
        let q = Quadrant {
            c1: input[0],
            c2: input[1],
            c3: input[2],
            c4: input[3],
            c5: input[4],
            c6: input[5],
            c7: input[6],
            c8: input[7],
            c9: input[8],
        };
        assert(q@ =~= input@.subrange(0, 9));
        q
    }

    /// Tells whether `num` may still be placed in this quadrant: it is `0`, or
    /// no cell holds it.
    pub fn is_number_available_in_quad(self, num: u8) -> (free: bool)
        ensures
            free == (num == 0 || !self@.contains(num)),
    {
        if num == 0 {
            return true;
        }
        let free = self.c1 != num && self.c2 != num && self.c3 != num && self.c4 != num && self.c5
            != num && self.c6 != num && self.c7 != num && self.c8 != num && self.c9 != num;
        proof {
            if !free {
                let i = if self.c1 == num {
                    0int
                } else if self.c2 == num {
                    1
                } else if self.c3 == num {
                    2
                } else if self.c4 == num {
                    3
                } else if self.c5 == num {
                    4
                } else if self.c6 == num {
                    5
                } else if self.c7 == num {
                    6
                } else if self.c8 == num {
                    7
                } else {
                    8
                };
                assert(self@[i] == num);
            }
        }
        free
    }

    /// The row `row_index` of the quadrant, rows counted from 1 to 3.
    pub fn get_row_array(&self, row_index: u8) -> (r: Result<Vec<u8>, SudokuError>)
        ensures
            1 <= row_index <= 3 ==> r is Ok && r->Ok_0@ == quadrant_row(self@, row_index - 1),
            !(1 <= row_index <= 3) ==> r == Err::<Vec<u8>, SudokuError>(
                SudokuError::QuadrantIndex { index: row_index },
            ),
    {
        let row = match row_index {
            1 => vec![self.c1, self.c2, self.c3],
            2 => vec![self.c4, self.c5, self.c6],
            3 => vec![self.c7, self.c8, self.c9],
            _ => { return Err(SudokuError::QuadrantIndex { index: row_index }); },
        };
        assert(row@ =~= quadrant_row(self@, row_index - 1)) by {
            reveal(quadrant_row);
        }
        Ok(row)
    }

    /// The column `col_index` of the quadrant, columns counted from 1 to 3.
    pub fn get_col_array(&self, col_index: u8) -> (r: Result<Vec<u8>, SudokuError>)
        ensures
            1 <= col_index <= 3 ==> r is Ok && r->Ok_0@ == quadrant_column(self@, col_index - 1),
            !(1 <= col_index <= 3) ==> r == Err::<Vec<u8>, SudokuError>(
                SudokuError::QuadrantIndex { index: col_index },
            ),
    {
        let col = match col_index {
            1 => vec![self.c1, self.c4, self.c7],
            2 => vec![self.c2, self.c5, self.c8],
            3 => vec![self.c3, self.c6, self.c9],
            _ => { return Err(SudokuError::QuadrantIndex { index: col_index }); },
        };
        assert(col@ =~= quadrant_column(self@, col_index - 1)) by {
            reveal(quadrant_column);
        }
        Ok(col)
    }

    /// The cell at `offset`, cells counted row by row from 0 to 8.
    pub fn get_cell(&self, offset: usize) -> (value: u8)
        requires
            offset < 9,
        ensures
            value == self@[offset as int],
    {
        match offset {
            0 => self.c1,
            1 => self.c2,
            2 => self.c3,
            3 => self.c4,
            4 => self.c5,
            5 => self.c6,
            6 => self.c7,
            7 => self.c8,
            _ => self.c9,
        }
    }

    /// Puts `value` in the cell at `offset`, cells counted row by row from 0 to 8.
    pub fn set_cell(&mut self, offset: usize, value: u8)
        requires
            offset < 9,
        ensures
            final(self)@ == old(self)@.update(offset as int, value),
    {
        match offset {
            0 => { self.c1 = value; },
            1 => { self.c2 = value; },
            2 => { self.c3 = value; },
            3 => { self.c4 = value; },
            4 => { self.c5 = value; },
            5 => { self.c6 = value; },
            6 => { self.c7 = value; },
            7 => { self.c8 = value; },
            _ => { self.c9 = value; },
        }
        assert(self@ =~= old(self)@.update(offset as int, value));
    }
}

} // verus!
