//! The ways in which building or reading a board can fail.

use vstd::prelude::*;

verus! {

/// The broad class an error belongs to.
#[derive(Debug, Clone, Copy, PartialEq, Eq, Structural)]
pub enum ErrorKind {
    /// The input does not have the number of elements a board or quadrant needs.
    Length,
    /// An element lies outside `0..=9`.
    Range,
    /// A digit other than `0` occurs twice in a row, a column or a quadrant.
    Duplicate,
    /// A row or column index does not name a row or column.
    Index,
}

/// Why an input was rejected.
#[derive(Debug, Clone, Copy, PartialEq, Eq, Structural)]
pub enum SudokuError {
    /// More than `limit` elements were given.
    TooLong { limit: usize },
    /// Fewer than `limit` elements were given.
    TooShort { limit: usize },
    /// The digits at hand do not fill nine quadrants.
    Insufficient,
    /// Some element lies outside `0..=9`.
    OutOfRange,
    /// A digit other than `0` occurs twice among the cells given for a
    /// quadrant that is built on its own.
    DuplicateDigit,
    /// A digit other than `0` occurs twice in quadrant `index` of the board
    /// (counted from 1, row by row).
    DuplicateInQuadrant { index: u8 },
    /// A digit other than `0` occurs twice in row `index` (counted from 1).
    DuplicateInRow { index: u8 },
    /// A digit other than `0` occurs twice in column `index` (counted from 1).
    DuplicateInColumn { index: u8 },
    /// The cell at (`row`, `col`), both counted from 1, holds `value`, which
    /// another cell of its row, column or quadrant holds too.
    InvalidCell { value: u8, row: usize, col: usize },
    /// `index` names no row or column of a quadrant.
    QuadrantIndex { index: u8 },
    /// The index names no row or column of the board.
    BoardIndex,
}

/// The character that writes the digit `d`.
pub open spec fn digit_char(d: int) -> char {
    if d == 0 {
        '0'
    } else if d == 1 {
        '1'
    } else if d == 2 {
        '2'
    } else if d == 3 {
        '3'
    } else if d == 4 {
        '4'
    } else if d == 5 {
        '5'
    } else if d == 6 {
        '6'
    } else if d == 7 {
        '7'
    } else if d == 8 {
        '8'
    } else {
        '9'
    }
}

/// `n` written in decimal, without leading zeros.
pub open spec fn decimal(n: nat) -> Seq<char>
    decreases n,
{
    if n < 10 {
        seq![digit_char(n as int)]
    } else {
        decimal(n / 10) + seq![digit_char((n % 10) as int)]
    }
}

/// The digit `d` as text.
fn digit_text(d: usize) -> (text: &'static str)
    requires
        d < 10,
    ensures
        text@ == seq![digit_char(d as int)],
{
    proof {
        reveal_strlit("0");
        reveal_strlit("1");
        reveal_strlit("2");
        reveal_strlit("3");
        reveal_strlit("4");
        reveal_strlit("5");
        reveal_strlit("6");
        reveal_strlit("7");
        reveal_strlit("8");
        reveal_strlit("9");
    }
    let text = match d {
        0 => "0",
        1 => "1",
        2 => "2",
        3 => "3",
        4 => "4",
        5 => "5",
        6 => "6",
        7 => "7",
        8 => "8",
        _ => "9",
    };
    assert(text@ =~= seq![digit_char(d as int)]);
    text
}

/// `n` written in decimal, without leading zeros.
fn decimal_text(n: usize) -> (text: String)
    ensures
        text@ == decimal(n as nat),
    decreases n,
{
    if n < 10 {
        String::from_str(digit_text(n))
    } else {
        let mut text = decimal_text(n / 10);
        text.append(digit_text(n % 10));
        text
    }
}

impl SudokuError {
    /// The text of the message that tells of this error.
    pub open spec fn message_text(self) -> Seq<char> {
        match self {
            SudokuError::TooLong { limit } => "Input array length for a quadrant cannot be greater than "@
                + decimal(limit as nat) + "!"@,
            SudokuError::TooShort { limit } => "Input array length for a quadrant cannot be smaller than "@
                + decimal(limit as nat) + "!"@,
            SudokuError::Insufficient => "Insufficient input length to obtain a slice for a quadrant"@,
            SudokuError::OutOfRange => "Input contained numbers out of Sudoku range"@,
            SudokuError::DuplicateDigit => "There were duplicate numbers in this input"@,
            SudokuError::DuplicateInQuadrant { index } => "Duplicate number in quadrant "@
                + decimal(index as nat),
            SudokuError::DuplicateInRow { index } => "Duplicate number in row "@ + decimal(
                index as nat,
            ),
            SudokuError::DuplicateInColumn { index } => "Duplicate number in column "@ + decimal(
                index as nat,
            ),
            SudokuError::InvalidCell { value, row, col } => "Invalid cell number: "@ + decimal(
                value as nat,
            ) + " at (row "@ + decimal(row as nat) + " / col "@ + decimal(col as nat) + ")"@,
            SudokuError::QuadrantIndex { index } => "Index: "@ + decimal(index as nat)
                + " out of bounds!"@,
            SudokuError::BoardIndex => "Index out of bounds!"@,
        }
    }

    /// The message that tells of this error.
    pub fn message(&self) -> (text: String)
        ensures
            text@ == self.message_text(),
    {
        match self {
            SudokuError::TooLong { limit } => {
                let mut text = String::from_str(
                    "Input array length for a quadrant cannot be greater than ",
                );
                text.append(decimal_text(*limit).as_str());
                text.append("!");
                text
            },
            SudokuError::TooShort { limit } => {
                let mut text = String::from_str(
                    "Input array length for a quadrant cannot be smaller than ",
                );
                text.append(decimal_text(*limit).as_str());
                text.append("!");
                text
            },
            SudokuError::Insufficient => String::from_str(
                "Insufficient input length to obtain a slice for a quadrant",
            ),
            SudokuError::OutOfRange => String::from_str(
                "Input contained numbers out of Sudoku range",
            ),
            SudokuError::DuplicateDigit => String::from_str(
                "There were duplicate numbers in this input",
            ),
            SudokuError::DuplicateInQuadrant { index } => {
                let mut text = String::from_str("Duplicate number in quadrant ");
                text.append(decimal_text(*index as usize).as_str());
                text
            },
            SudokuError::DuplicateInRow { index } => {
                let mut text = String::from_str("Duplicate number in row ");
                text.append(decimal_text(*index as usize).as_str());
                text
            },
            SudokuError::DuplicateInColumn { index } => {
                let mut text = String::from_str("Duplicate number in column ");
                text.append(decimal_text(*index as usize).as_str());
                text
            },
            SudokuError::InvalidCell { value, row, col } => {
                let mut text = String::from_str("Invalid cell number: ");
                text.append(decimal_text(*value as usize).as_str());
                text.append(" at (row ");
                text.append(decimal_text(*row).as_str());
                text.append(" / col ");
                text.append(decimal_text(*col).as_str());
                text.append(")");
                text
            },
            SudokuError::QuadrantIndex { index } => {
                let mut text = String::from_str("Index: ");
                text.append(decimal_text(*index as usize).as_str());
                text.append(" out of bounds!");
                text
            },
            SudokuError::BoardIndex => String::from_str("Index out of bounds!"),
        }
    }

    /// The class of this error.
    pub open spec fn kind_of(self) -> ErrorKind {
        match self {
            SudokuError::TooLong { .. } => ErrorKind::Length,
            SudokuError::TooShort { .. } => ErrorKind::Length,
            SudokuError::Insufficient => ErrorKind::Length,
            SudokuError::OutOfRange => ErrorKind::Range,
            SudokuError::DuplicateDigit => ErrorKind::Duplicate,
            SudokuError::DuplicateInQuadrant { .. } => ErrorKind::Duplicate,
            SudokuError::DuplicateInRow { .. } => ErrorKind::Duplicate,
            SudokuError::DuplicateInColumn { .. } => ErrorKind::Duplicate,
            SudokuError::InvalidCell { .. } => ErrorKind::Duplicate,
            SudokuError::QuadrantIndex { .. } => ErrorKind::Index,
            SudokuError::BoardIndex => ErrorKind::Index,
        }
    }

    /// The class of this error.
    pub fn kind(&self) -> (k: ErrorKind)
        ensures
            k == self.kind_of(),
    {
        match self {
            SudokuError::TooLong { .. } => ErrorKind::Length,
            SudokuError::TooShort { .. } => ErrorKind::Length,
            SudokuError::Insufficient => ErrorKind::Length,
            SudokuError::OutOfRange => ErrorKind::Range,
            SudokuError::DuplicateDigit => ErrorKind::Duplicate,
            SudokuError::DuplicateInQuadrant { .. } => ErrorKind::Duplicate,
            SudokuError::DuplicateInRow { .. } => ErrorKind::Duplicate,
            SudokuError::DuplicateInColumn { .. } => ErrorKind::Duplicate,
            SudokuError::InvalidCell { .. } => ErrorKind::Duplicate,
            SudokuError::QuadrantIndex { .. } => ErrorKind::Index,
            SudokuError::BoardIndex => ErrorKind::Index,
        }
    }
}

/// `Ok` where no check failed, else the error of the check that did.
pub open spec fn verdict(failure: Option<SudokuError>) -> Result<(), SudokuError> {
    match failure {
        Some(e) => Err(e),
        None => Ok(()),
    }
}

/// The outcome of checks made one after the other, each `None` where it
/// passed: the failure of the first check that failed.
pub open spec fn first_failure(checks: Seq<Option<SudokuError>>) -> Option<SudokuError>
    decreases checks.len(),
{
    if checks.len() == 0 {
        None
    } else if checks[0] is Some {
        checks[0]
    } else {
        first_failure(checks.skip(1))
    }
}

/// Where the checks before `at` passed and the one at `at` failed, its
/// failure is the outcome.
pub proof fn lemma_first_failure_at(checks: Seq<Option<SudokuError>>, at: int)
    requires
        0 <= at < checks.len(),
        checks[at] is Some,
        forall|i: int| 0 <= i < at ==> #[trigger] checks[i] is None,
    ensures
        first_failure(checks) == checks[at],
    decreases at,
{
    if at > 0 {
        assert(checks[0] is None);
        let rest = checks.skip(1);
        assert forall|i: int| 0 <= i < at - 1 implies #[trigger] rest[i] is None by {
            assert(checks[i + 1] is None);
        }
        lemma_first_failure_at(rest, at - 1);
    }
}

/// Where every check passed, there is no failure.
pub proof fn lemma_no_failure(checks: Seq<Option<SudokuError>>)
    requires
        forall|i: int| 0 <= i < checks.len() ==> #[trigger] checks[i] is None,
    ensures
        first_failure(checks) is None,
    decreases checks.len(),
{
    if checks.len() > 0 {
        assert(checks[0] is None);
        let rest = checks.skip(1);
        assert forall|i: int| 0 <= i < rest.len() implies #[trigger] rest[i] is None by {
            assert(checks[i + 1] is None);
        }
        lemma_no_failure(rest);
    }
}

/// A failure is the failure of some check, before which every check passed;
/// and without a failure every check passed.
pub proof fn lemma_first_failure_origin(checks: Seq<Option<SudokuError>>)
    ensures
        first_failure(checks) is Some ==> exists|at: int|
            0 <= at < checks.len() && #[trigger] checks[at] == first_failure(checks) && forall|
                i: int,
            | 0 <= i < at ==> #[trigger] checks[i] is None,
        first_failure(checks) is None ==> forall|i: int|
            0 <= i < checks.len() ==> #[trigger] checks[i] is None,
    decreases checks.len(),
{
    if checks.len() > 0 {
        if checks[0] is Some {
            assert(checks[0] == first_failure(checks));
        } else {
            let rest = checks.skip(1);
            lemma_first_failure_origin(rest);
            if first_failure(rest) is Some {
                let at = choose|at: int|
                    0 <= at < rest.len() && #[trigger] rest[at] == first_failure(rest) && forall|
                        i: int,
                    | 0 <= i < at ==> #[trigger] rest[i] is None;
                assert(checks[at + 1] == first_failure(checks));
                assert forall|i: int| 0 <= i < at + 1 implies #[trigger] checks[i] is None by {
                    if i > 0 {
                        assert(rest[i - 1] is None);
                    }
                }
            } else {
                assert forall|i: int| 0 <= i < checks.len() implies #[trigger] checks[i] is None by {
                    if i > 0 {
                        assert(rest[i - 1] is None);
                    }
                }
            }
        }
    }
}

} // verus!
