//! The geometry of the 9×9 grid, over its row-major reading.
//!
//! A grid is a sequence of 81 digits: the cell in row `r` and column `c`,
//! both counted from 0, stands at index `9 * r + c`. Rows, columns and
//! quadrants are numbered from 0 to 8 here; quadrants are numbered row by
//! row, as the cells inside each of them are.

use vstd::arithmetic::div_mod::lemma_fundamental_div_mod_converse;
use vstd::prelude::*;
use vstd::set_lib::{lemma_len_subset, lemma_subset_equality};

use crate::digits::{digits_in_range, no_repeats};

verus! {

/// The index of the cell in row `r` and column `c`.
pub open spec fn cell_index(r: int, c: int) -> int {
    9 * r + c
}

/// The quadrant that the cell at index `k` lies in.
pub open spec fn quadrant_index(k: int) -> int {
    3 * (k / 27) + (k % 9) / 3
}

/// The place of the cell at index `k` inside its quadrant.
pub open spec fn quadrant_offset(k: int) -> int {
    3 * ((k / 9) % 3) + k % 3
}

/// The index of the cell at `offset` in quadrant `q`.
pub open spec fn quadrant_cell(q: int, offset: int) -> int {
    27 * (q / 3) + 9 * (offset / 3) + 3 * (q % 3) + offset % 3
}

/// Row `r` of the grid, left to right.
pub open spec fn row_of(g: Seq<u8>, r: int) -> Seq<u8> {
    Seq::new(9, |i: int| g[cell_index(r, i)])
}

/// Column `c` of the grid, top to bottom.
pub open spec fn column_of(g: Seq<u8>, c: int) -> Seq<u8> {
    Seq::new(9, |i: int| g[cell_index(i, c)])
}

/// Quadrant `q` of the grid, row by row.
pub open spec fn quadrant_of(g: Seq<u8>, q: int) -> Seq<u8> {
    Seq::new(9, |i: int| g[quadrant_cell(q, i)])
}

/// Row `local` of a quadrant, left to right, rows counted from 0 to 2.
#[verifier::opaque]
pub open spec fn quadrant_row(cells: Seq<u8>, local: int) -> Seq<u8> {
    seq![cells[3 * local], cells[3 * local + 1], cells[3 * local + 2]]
}

/// Column `local` of a quadrant, top to bottom, columns counted from 0 to 2.
#[verifier::opaque]
pub open spec fn quadrant_column(cells: Seq<u8>, local: int) -> Seq<u8> {
    seq![cells[local], cells[local + 3], cells[local + 6]]
}

/// The cells at `j` and `k` are two cells of one row, one column or one
/// quadrant.
pub open spec fn peers(j: int, k: int) -> bool {
    j != k && (j / 9 == k / 9 || j % 9 == k % 9 || quadrant_index(j) == quadrant_index(k))
}

/// No digit other than `0` stands in two cells of one row, column or quadrant.
pub open spec fn consistent(g: Seq<u8>) -> bool {
    forall|j: int, k: int|
        0 <= j < 81 && 0 <= k < 81 && peers(j, k) && g[j] != 0 ==> #[trigger] g[j] != #[trigger] g[k]
}

/// A grid that obeys the rules: 81 digits, and no digit other than `0`
/// occurs twice in a row, a column or a quadrant.
pub open spec fn valid_grid(g: Seq<u8>) -> bool {
    &&& g.len() == 81
    &&& digits_in_range(g)
    &&& forall|r: int| 0 <= r < 9 ==> no_repeats(#[trigger] row_of(g, r))
    &&& forall|c: int| 0 <= c < 9 ==> no_repeats(#[trigger] column_of(g, c))
    &&& forall|q: int| 0 <= q < 9 ==> no_repeats(#[trigger] quadrant_of(g, q))
}

/// No cell of the grid is empty.
pub open spec fn full(g: Seq<u8>) -> bool {
    forall|k: int| 0 <= k < g.len() ==> #[trigger] g[k] != 0
}

/// A solved grid: it obeys the rules and no cell is empty.
pub open spec fn solved(g: Seq<u8>) -> bool {
    valid_grid(g) && full(g)
}

/// `t` keeps every digit of `b`: it differs from `b` in empty cells of `b`
/// only.
pub open spec fn extends(t: Seq<u8>, b: Seq<u8>) -> bool {
    t.len() == b.len() && forall|k: int| 0 <= k < b.len() && b[k] != 0 ==> #[trigger] t[k] == b[k]
}

/// The nine elements are the digits from 1 to 9 in some order: each of them
/// occurs, and no two places hold the same.
pub open spec fn each_digit_once(s: Seq<u8>) -> bool {
    &&& s.len() == 9
    &&& s.no_duplicates()
    &&& forall|d: u8| 1 <= d <= 9 ==> #[trigger] s.contains(d)
}

/// The digit that a solved grid made by shifting rows holds at index `k`:
/// each row is the row `1, 2, .., 9` shifted, by three from one row of a
/// band to the next and by one from one band to the next.
pub open spec fn shifted_digit(k: int) -> u8 {
    ((3 * ((k / 9) % 3) + (k / 9) / 3 + k % 9) % 9 + 1) as u8
}

/// The grid made by shifting rows.
pub open spec fn shifted_grid() -> Seq<u8> {
    Seq::new(81, |k: int| shifted_digit(k))
}

/// The grid whose cells are all empty.
pub open spec fn empty_grid() -> Seq<u8> {
    Seq::new(81, |k: int| 0u8)
}

/// The four base-3 digits of a cell's index: `band` and `local_row` give its
/// row, `stack` and `local_col` its column; `band` and `stack` give its
/// quadrant, `local_row` and `local_col` its place there.
pub proof fn lemma_cell_digits(band: int, local_row: int, stack: int, local_col: int)
    requires
        0 <= band < 3,
        0 <= local_row < 3,
        0 <= stack < 3,
        0 <= local_col < 3,
    ensures
        ({
            let k = 27 * band + 9 * local_row + 3 * stack + local_col;
            &&& 0 <= k < 81
            &&& k / 9 == 3 * band + local_row
            &&& k % 9 == 3 * stack + local_col
            &&& quadrant_index(k) == 3 * band + stack
            &&& quadrant_offset(k) == 3 * local_row + local_col
            &&& quadrant_cell(3 * band + stack, 3 * local_row + local_col) == k
        }),
{
    let k = 27 * band + 9 * local_row + 3 * stack + local_col;
    lemma_fundamental_div_mod_converse(k, 27, band, 9 * local_row + 3 * stack + local_col);
    lemma_fundamental_div_mod_converse(k, 9, 3 * band + local_row, 3 * stack + local_col);
    lemma_fundamental_div_mod_converse(k, 3, 9 * band + 3 * local_row + stack, local_col);
    lemma_fundamental_div_mod_converse(3 * band + local_row, 3, band, local_row);
    lemma_fundamental_div_mod_converse(3 * stack + local_col, 3, stack, local_col);
    lemma_fundamental_div_mod_converse(3 * band + stack, 3, band, stack);
    lemma_fundamental_div_mod_converse(3 * local_row + local_col, 3, local_row, local_col);
}

/// Every number from 0 to 8 is `3 * (n / 3) + n % 3`, with both digits
/// below 3.
pub proof fn lemma_two_digits(n: int)
    requires
        0 <= n < 9,
    ensures
        0 <= n / 3 < 3,
        0 <= n % 3 < 3,
        n == 3 * (n / 3) + n % 3,
{
}

/// Quadrant and offset name each cell once: they are the inverse of
/// `quadrant_cell`.
pub proof fn lemma_quadrant_coordinates(k: int)
    requires
        0 <= k < 81,
    ensures
        0 <= quadrant_index(k) < 9,
        0 <= quadrant_offset(k) < 9,
        quadrant_cell(quadrant_index(k), quadrant_offset(k)) == k,
        k == cell_index(k / 9, k % 9),
        0 <= k / 9 < 9,
        0 <= k % 9 < 9,
{
    let row = k / 9;
    let col = k % 9;
    lemma_two_digits(row);
    lemma_two_digits(col);
    lemma_cell_digits(row / 3, row % 3, col / 3, col % 3);
}

/// The cell at `offset` in quadrant `q` lies in quadrant `q`, at `offset`.
pub proof fn lemma_quadrant_cell(q: int, offset: int)
    requires
        0 <= q < 9,
        0 <= offset < 9,
    ensures
        0 <= quadrant_cell(q, offset) < 81,
        quadrant_index(quadrant_cell(q, offset)) == q,
        quadrant_offset(quadrant_cell(q, offset)) == offset,
{
    lemma_two_digits(q);
    lemma_two_digits(offset);
    lemma_cell_digits(q / 3, offset / 3, q % 3, offset % 3);
}

/// The cell in row `r` and column `c`: its index, quadrant and offset.
pub proof fn lemma_cell(r: int, c: int)
    requires
        0 <= r < 9,
        0 <= c < 9,
    ensures
        0 <= cell_index(r, c) < 81,
        cell_index(r, c) / 9 == r,
        cell_index(r, c) % 9 == c,
        quadrant_index(cell_index(r, c)) == 3 * (r / 3) + c / 3,
        quadrant_offset(cell_index(r, c)) == 3 * (r % 3) + c % 3,
        quadrant_cell(3 * (r / 3) + c / 3, 3 * (r % 3) + c % 3) == cell_index(r, c),
{
    lemma_two_digits(r);
    lemma_two_digits(c);
    lemma_cell_digits(r / 3, r % 3, c / 3, c % 3);
}

/// The cell `i` of row `3 * band + local` lies in quadrant `3 * band + i / 3`,
/// in its row `local`.
pub proof fn lemma_row_cell(band: int, local: int, i: int)
    requires
        0 <= band < 3,
        0 <= local < 3,
        0 <= i < 9,
    ensures
        quadrant_cell(3 * band + i / 3, 3 * local + i % 3) == cell_index(3 * band + local, i),
{
    lemma_two_digits(i);
    lemma_cell_digits(band, local, i / 3, i % 3);
}

/// The cell `i` of column `3 * stack + local` lies in quadrant
/// `stack + 3 * (i / 3)`, in its column `local`.
pub proof fn lemma_column_cell(stack: int, local: int, i: int)
    requires
        0 <= stack < 3,
        0 <= local < 3,
        0 <= i < 9,
    ensures
        quadrant_cell(stack + 3 * (i / 3), 3 * (i % 3) + local) == cell_index(
            i,
            3 * stack + local,
        ),
{
    lemma_two_digits(i);
    lemma_cell_digits(i / 3, i % 3, stack, local);
}

/// A row of the grid is made of one row of each of three neighbouring
/// quadrants, left to right.
pub proof fn lemma_row_of_quadrants(g: Seq<u8>, band: int, local: int)
    requires
        0 <= band < 3,
        0 <= local < 3,
    ensures
        row_of(g, 3 * band + local) == quadrant_row(quadrant_of(g, 3 * band), local)
            + quadrant_row(quadrant_of(g, 3 * band + 1), local) + quadrant_row(
            quadrant_of(g, 3 * band + 2),
            local,
        ),
{
    reveal(quadrant_row);
    let row = row_of(g, 3 * band + local);
    let joined = quadrant_row(quadrant_of(g, 3 * band), local) + quadrant_row(
        quadrant_of(g, 3 * band + 1),
        local,
    ) + quadrant_row(quadrant_of(g, 3 * band + 2), local);
    assert forall|i: int| 0 <= i < 9 implies row[i] == joined[i] by {
        lemma_row_cell(band, local, i);
        assert(joined[i] == quadrant_of(g, 3 * band + i / 3)[3 * local + i % 3]);
    }
    assert(row =~= joined);
}

/// A column of the grid is made of one column of each of three quadrants,
/// one above the other, top to bottom.
pub proof fn lemma_column_of_quadrants(g: Seq<u8>, stack: int, local: int)
    requires
        0 <= stack < 3,
        0 <= local < 3,
    ensures
        column_of(g, 3 * stack + local) == quadrant_column(quadrant_of(g, stack), local)
            + quadrant_column(quadrant_of(g, stack + 3), local) + quadrant_column(
            quadrant_of(g, stack + 6),
            local,
        ),
{
    reveal(quadrant_column);
    let col = column_of(g, 3 * stack + local);
    let joined = quadrant_column(quadrant_of(g, stack), local) + quadrant_column(
        quadrant_of(g, stack + 3),
        local,
    ) + quadrant_column(quadrant_of(g, stack + 6), local);
    assert forall|i: int| 0 <= i < 9 implies col[i] == joined[i] by {
        lemma_column_cell(stack, local, i);
        assert(joined[i] == quadrant_of(g, stack + 3 * (i / 3))[3 * (i % 3) + local]);
    }
    assert(col =~= joined);
}

/// Two ways to say that a grid of 81 cells has no conflict: cell by cell, or
/// row by row, column by column and quadrant by quadrant.
pub proof fn lemma_consistent(g: Seq<u8>)
    requires
        g.len() == 81,
    ensures
        consistent(g) <==> {
            &&& forall|r: int| 0 <= r < 9 ==> no_repeats(#[trigger] row_of(g, r))
            &&& forall|c: int| 0 <= c < 9 ==> no_repeats(#[trigger] column_of(g, c))
            &&& forall|q: int| 0 <= q < 9 ==> no_repeats(#[trigger] quadrant_of(g, q))
        },
{
    if consistent(g) {
        assert forall|r: int| 0 <= r < 9 implies no_repeats(#[trigger] row_of(g, r)) by {
            let row = row_of(g, r);
            assert forall|i: int, j: int| 0 <= i < j < 9 && row[i] != 0 implies #[trigger] row[i]
                != #[trigger] row[j] by {
                lemma_cell(r, i);
                lemma_cell(r, j);
                assert(peers(cell_index(r, i), cell_index(r, j)));
                assert(g[cell_index(r, i)] != g[cell_index(r, j)]);
            }
        }
        assert forall|c: int| 0 <= c < 9 implies no_repeats(#[trigger] column_of(g, c)) by {
            let col = column_of(g, c);
            assert forall|i: int, j: int| 0 <= i < j < 9 && col[i] != 0 implies #[trigger] col[i]
                != #[trigger] col[j] by {
                lemma_cell(i, c);
                lemma_cell(j, c);
                assert(peers(cell_index(i, c), cell_index(j, c)));
                assert(g[cell_index(i, c)] != g[cell_index(j, c)]);
            }
        }
        assert forall|q: int| 0 <= q < 9 implies no_repeats(#[trigger] quadrant_of(g, q)) by {
            let quad = quadrant_of(g, q);
            assert forall|i: int, j: int|
                0 <= i < j < 9 && quad[i] != 0 implies #[trigger] quad[i] != #[trigger] quad[j] by {
                lemma_quadrant_cell(q, i);
                lemma_quadrant_cell(q, j);
                assert(peers(quadrant_cell(q, i), quadrant_cell(q, j)));
                assert(g[quadrant_cell(q, i)] != g[quadrant_cell(q, j)]);
            }
        }
    }
    if (forall|r: int| 0 <= r < 9 ==> no_repeats(#[trigger] row_of(g, r))) && (forall|c: int|
        0 <= c < 9 ==> no_repeats(#[trigger] column_of(g, c))) && (forall|q: int|
        0 <= q < 9 ==> no_repeats(#[trigger] quadrant_of(g, q))) {
        assert forall|j: int, k: int|
            0 <= j < 81 && 0 <= k < 81 && peers(j, k) && g[j] != 0 implies #[trigger] g[j]
            != #[trigger] g[k] by {
            lemma_quadrant_coordinates(j);
            lemma_quadrant_coordinates(k);
            if j / 9 == k / 9 {
                let row = row_of(g, j / 9);
                assert(no_repeats(row));
                lemma_unequal_in_unit(row, j % 9, k % 9);
            } else if j % 9 == k % 9 {
                let col = column_of(g, j % 9);
                assert(no_repeats(col));
                lemma_unequal_in_unit(col, j / 9, k / 9);
            } else {
                let quad = quadrant_of(g, quadrant_index(j));
                assert(no_repeats(quad));
                lemma_unequal_in_unit(quad, quadrant_offset(j), quadrant_offset(k));
            }
        }
    }
}

/// Among digits without repeats, a digit other than `0` differs from the
/// digit at any other place.
pub proof fn lemma_unequal_in_unit(s: Seq<u8>, i: int, j: int)
    requires
        no_repeats(s),
        0 <= i < s.len(),
        0 <= j < s.len(),
        i != j,
        s[i] != 0,
    ensures
        s[i] != s[j],
{
    if i < j {
        assert(s[i] != s[j]);
    } else if s[j] != 0 {
        assert(s[j] != s[i]);
    }
}

/// Nine digits from 1 to 9 without repeats are all the digits from 1 to 9.
pub proof fn lemma_nine_digits(s: Seq<u8>)
    requires
        s.len() == 9,
        no_repeats(s),
        forall|i: int| 0 <= i < 9 ==> 1 <= #[trigger] s[i] <= 9,
    ensures
        each_digit_once(s),
{
    assert forall|i: int, j: int| 0 <= i < 9 && 0 <= j < 9 && i != j implies s[i] != s[j] by {
        lemma_unequal_in_unit(s, i, j);
    }
    s.unique_seq_to_set();
    let digits: Set<u8> = set![1u8, 2u8, 3u8, 4u8, 5u8, 6u8, 7u8, 8u8, 9u8];
    assert(digits.finite() && digits.len() == 9);
    assert forall|d: u8| s.to_set().contains(d) implies digits.contains(d) by {
        let i = choose|i: int| 0 <= i < 9 && s[i] == d;
        assert(1 <= s[i] <= 9);
    }
    lemma_len_subset(s.to_set(), digits);
    lemma_subset_equality(s.to_set(), digits);
    assert forall|d: u8| 1 <= d <= 9 implies #[trigger] s.contains(d) by {
        assert(digits.contains(d));
        assert(s.to_set().contains(d));
    }
}

/// In a solved grid every row, every column and every quadrant holds each
/// digit from 1 to 9 exactly once.
pub proof fn lemma_solved_units(g: Seq<u8>)
    requires
        solved(g),
    ensures
        forall|r: int| 0 <= r < 9 ==> each_digit_once(#[trigger] row_of(g, r)),
        forall|c: int| 0 <= c < 9 ==> each_digit_once(#[trigger] column_of(g, c)),
        forall|q: int| 0 <= q < 9 ==> each_digit_once(#[trigger] quadrant_of(g, q)),
{
    assert forall|r: int| 0 <= r < 9 implies each_digit_once(#[trigger] row_of(g, r)) by {
        let row = row_of(g, r);
        assert forall|i: int| 0 <= i < 9 implies 1 <= #[trigger] row[i] <= 9 by {
            lemma_cell(r, i);
            assert(g[cell_index(r, i)] != 0 && g[cell_index(r, i)] <= 9);
        }
        lemma_nine_digits(row);
    }
    assert forall|c: int| 0 <= c < 9 implies each_digit_once(#[trigger] column_of(g, c)) by {
        let col = column_of(g, c);
        assert forall|i: int| 0 <= i < 9 implies 1 <= #[trigger] col[i] <= 9 by {
            lemma_cell(i, c);
            assert(g[cell_index(i, c)] != 0 && g[cell_index(i, c)] <= 9);
        }
        lemma_nine_digits(col);
    }
    assert forall|q: int| 0 <= q < 9 implies each_digit_once(#[trigger] quadrant_of(g, q)) by {
        let quad = quadrant_of(g, q);
        assert forall|i: int| 0 <= i < 9 implies 1 <= #[trigger] quad[i] <= 9 by {
            lemma_quadrant_cell(q, i);
            assert(g[quadrant_cell(q, i)] != 0 && g[quadrant_cell(q, i)] <= 9);
        }
        lemma_nine_digits(quad);
    }
}

/// Numbers less than nine apart leave different remainders on division by
/// nine.
proof fn lemma_remainders_differ(x: int, y: int)
    requires
        x != y,
        -9 < x - y < 9,
    ensures
        x % 9 != y % 9,
{
    if x % 9 == y % 9 {
        assert(x == 9 * (x / 9) + x % 9);
        assert(y == 9 * (y / 9) + y % 9);
        assert(x - y == 9 * (x / 9 - y / 9));
    }
}

/// The digit of the grid made by shifting rows, by the four base-3 digits
/// of the cell's index.
proof fn lemma_shifted_digit(band: int, local_row: int, stack: int, local_col: int)
    requires
        0 <= band < 3,
        0 <= local_row < 3,
        0 <= stack < 3,
        0 <= local_col < 3,
    ensures
        shifted_digit(27 * band + 9 * local_row + 3 * stack + local_col) == (3 * local_row + band
            + 3 * stack + local_col) % 9 + 1,
{
    let k = 27 * band + 9 * local_row + 3 * stack + local_col;
    lemma_cell_digits(band, local_row, stack, local_col);
    lemma_fundamental_div_mod_converse(k / 9, 3, band, local_row);
}

/// Two cells of one row, one column or one quadrant are shifted by
/// different amounts, less than nine apart.
proof fn lemma_shifts_differ(
    band: int,
    local_row: int,
    stack: int,
    local_col: int,
    other_band: int,
    other_local_row: int,
    other_stack: int,
    other_local_col: int,
)
    requires
        0 <= band < 3 && 0 <= local_row < 3 && 0 <= stack < 3 && 0 <= local_col < 3,
        0 <= other_band < 3 && 0 <= other_local_row < 3 && 0 <= other_stack < 3 && 0
            <= other_local_col < 3,
        band != other_band || local_row != other_local_row || stack != other_stack || local_col
            != other_local_col,
        (band == other_band && local_row == other_local_row) || (stack == other_stack && local_col
            == other_local_col) || (band == other_band && stack == other_stack),
    ensures
        (3 * local_row + band + 3 * stack + local_col) % 9 != (3 * other_local_row + other_band + 3
            * other_stack + other_local_col) % 9,
{
    lemma_remainders_differ(
        3 * local_row + band + 3 * stack + local_col,
        3 * other_local_row + other_band + 3 * other_stack + other_local_col,
    );
}

/// Two peers hold different digits in the grid made by shifting rows.
proof fn lemma_shifted_peers(j: int, k: int)
    requires
        0 <= j < 81,
        0 <= k < 81,
        peers(j, k),
    ensures
        shifted_digit(j) != shifted_digit(k),
{
    lemma_quadrant_coordinates(j);
    lemma_quadrant_coordinates(k);
    let (rj, cj) = (j / 9, j % 9);
    let (rk, ck) = (k / 9, k % 9);
    lemma_two_digits(rj);
    lemma_two_digits(cj);
    lemma_two_digits(rk);
    lemma_two_digits(ck);
    lemma_cell_digits(rj / 3, rj % 3, cj / 3, cj % 3);
    lemma_cell_digits(rk / 3, rk % 3, ck / 3, ck % 3);
    lemma_shifted_digit(rj / 3, rj % 3, cj / 3, cj % 3);
    lemma_shifted_digit(rk / 3, rk % 3, ck / 3, ck % 3);
    lemma_shifts_differ(rj / 3, rj % 3, cj / 3, cj % 3, rk / 3, rk % 3, ck / 3, ck % 3);
}

/// The grid made by shifting rows is solved.
pub proof fn lemma_shifted_grid_solved()
    ensures
        solved(shifted_grid()),
{
    let g = shifted_grid();
    assert forall|j: int, k: int|
        0 <= j < 81 && 0 <= k < 81 && peers(j, k) && g[j] != 0 implies #[trigger] g[j]
        != #[trigger] g[k] by {
        lemma_shifted_peers(j, k);
    }
    lemma_consistent(g);
    assert forall|k: int| 0 <= k < 81 implies 1 <= #[trigger] g[k] <= 9 by {
        let shift = 3 * ((k / 9) % 3) + (k / 9) / 3 + k % 9;
        assert(0 <= shift % 9 < 9);
    }
}

/// The empty grid can be solved: some solved grid keeps its digits, of
/// which it has none.
pub proof fn lemma_empty_grid_solvable()
    ensures
        valid_grid(empty_grid()),
        exists|t: Seq<u8>| solved(t) && #[trigger] extends(t, empty_grid()),
{
    lemma_shifted_grid_solved();
    assert(extends(shifted_grid(), empty_grid()));
    assert forall|j: int, k: int|
        0 <= j < 81 && 0 <= k < 81 && peers(j, k) && empty_grid()[j] != 0 implies
        #[trigger] empty_grid()[j] != #[trigger] empty_grid()[k] by {}
    lemma_consistent(empty_grid());
}

} // verus!
