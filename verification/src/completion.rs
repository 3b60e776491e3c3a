//! What it means to complete a grid, and which completion a search in
//! row-major order with ascending digits finds.

use vstd::prelude::*;

use crate::grid::{
    cell_index, column_of, consistent, empty_grid, extends, full, lemma_cell, lemma_consistent,
    lemma_empty_grid_solvable, lemma_quadrant_cell, lemma_quadrant_coordinates, peers,
    quadrant_cell, quadrant_index, quadrant_of, quadrant_offset, row_of, solved, valid_grid,
};

verus! {

/// `number` may be placed in row `r` and column `c`: it is `0`, or it occurs
/// neither in that row, nor in that column, nor in the quadrant of the cell.
pub open spec fn placement_valid(g: Seq<u8>, number: u8, r: int, c: int) -> bool {
    number == 0 || (!row_of(g, r).contains(number) && !column_of(g, c).contains(number)
        && !quadrant_of(g, quadrant_index(cell_index(r, c))).contains(number))
}

/// The cell at `k` is the first empty cell of the grid, read row by row.
pub open spec fn first_empty(g: Seq<u8>, k: int) -> bool {
    &&& 0 <= k < 81
    &&& g[k] == 0
    &&& forall|j: int| 0 <= j < k ==> #[trigger] g[j] != 0
}

/// The number of empty cells.
pub open spec fn count_empty(g: Seq<u8>) -> nat
    decreases g.len(),
{
    if g.len() == 0 {
        0
    } else {
        count_empty(g.drop_last()) + if g.last() == 0 {
            1nat
        } else {
            0nat
        }
    }
}

/// `t` completes `b`: it keeps the digits of `b`, and fills each empty cell
/// of `b` with a digit from 1 to 9 that no other cell of that cell's row,
/// column or quadrant holds.
pub open spec fn completes(t: Seq<u8>, b: Seq<u8>) -> bool {
    &&& t.len() == 81
    &&& b.len() == 81
    &&& forall|k: int| 0 <= k < 81 && b[k] != 0 ==> #[trigger] t[k] == b[k]
    &&& forall|k: int| 0 <= k < 81 && b[k] == 0 ==> 1 <= #[trigger] t[k] <= 9
    &&& forall|j: int, k: int|
        0 <= j < 81 && 0 <= k < 81 && b[k] == 0 && peers(j, k) ==> #[trigger] t[j] != #[trigger] t[k]
}

/// `s` and `t` differ, and `k` is the first cell, read row by row, in which
/// they do.
pub open spec fn first_difference(s: Seq<u8>, t: Seq<u8>, k: int) -> bool {
    &&& 0 <= k < 81
    &&& s[k] != t[k]
    &&& forall|j: int| 0 <= j < k ==> #[trigger] s[j] == t[j]
}

/// `s` comes no later than `t` in the order of grids read row by row: they
/// are equal, or `s` holds the smaller digit in the first cell in which they
/// differ.
pub open spec fn lex_le(s: Seq<u8>, t: Seq<u8>) -> bool {
    s == t || exists|k: int| #[trigger] first_difference(s, t, k) && s[k] < t[k]
}

/// `s` is the first of the completions of `b`, in the order of grids read
/// row by row.
pub open spec fn least_completion(s: Seq<u8>, b: Seq<u8>) -> bool {
    completes(s, b) && forall|t: Seq<u8>| #[trigger] completes(t, b) ==> lex_le(s, t)
}

/// What a search leaves behind: where it reports success, the first
/// completion of the grid it started from; else that grid unchanged, which
/// then has no completion.
pub open spec fn search_outcome(before: Seq<u8>, after: Seq<u8>, found: bool) -> bool {
    if found {
        least_completion(after, before)
    } else {
        after == before && forall|t: Seq<u8>| !#[trigger] completes(t, before)
    }
}

/// The cell at `k` holds a digit that another cell of its row, column or
/// quadrant holds too.
pub open spec fn conflicting(g: Seq<u8>, k: int) -> bool {
    g[k] != 0 && exists|j: int| 0 <= j < 81 && peers(j, k) && #[trigger] g[j] == g[k]
}

/// A grid has no more empty cells than cells: a search that fills one empty
/// cell at each step goes no deeper than 81 steps.
pub proof fn lemma_count_empty_bound(g: Seq<u8>)
    ensures
        count_empty(g) <= g.len(),
    decreases g.len(),
{
    if g.len() > 0 {
        lemma_count_empty_bound(g.drop_last());
    }
}

/// Filling an empty cell leaves one empty cell fewer.
pub proof fn lemma_count_empty_update(g: Seq<u8>, k: int, value: u8)
    requires
        0 <= k < g.len(),
        g[k] == 0,
        value != 0,
    ensures
        count_empty(g.update(k, value)) + 1 == count_empty(g),
    decreases g.len(),
{
    let changed = g.update(k, value);
    if k == g.len() - 1 {
        assert(changed.drop_last() =~= g.drop_last());
    } else {
        assert(changed.drop_last() =~= g.drop_last().update(k, value));
        lemma_count_empty_update(g.drop_last(), k, value);
    }
}

/// A digit other than `0` may be placed in a cell that does not hold it
/// exactly where no other cell of its row, column or quadrant holds it.
pub proof fn lemma_placement_valid(g: Seq<u8>, number: u8, k: int)
    requires
        g.len() == 81,
        0 <= k < 81,
        number != 0,
        g[k] != number,
    ensures
        placement_valid(g, number, k / 9, k % 9) <==> forall|j: int|
            0 <= j < 81 && peers(j, k) ==> #[trigger] g[j] != number,
{
    let r = k / 9;
    let c = k % 9;
    let q = quadrant_index(k);
    lemma_quadrant_coordinates(k);
    if placement_valid(g, number, r, c) {
        assert forall|j: int| 0 <= j < 81 && peers(j, k) implies #[trigger] g[j] != number by {
            lemma_quadrant_coordinates(j);
            if j / 9 == r {
                assert(row_of(g, r)[j % 9] == g[j]);
            } else if j % 9 == c {
                assert(column_of(g, c)[j / 9] == g[j]);
            } else {
                assert(quadrant_of(g, q)[quadrant_offset(j)] == g[j]);
            }
        }
    } else {
        if row_of(g, r).contains(number) {
            let i = choose|i: int| 0 <= i < 9 && row_of(g, r)[i] == number;
            lemma_cell(r, i);
            assert(peers(cell_index(r, i), k));
            assert(g[cell_index(r, i)] == number);
        } else if column_of(g, c).contains(number) {
            let i = choose|i: int| 0 <= i < 9 && column_of(g, c)[i] == number;
            lemma_cell(i, c);
            assert(peers(cell_index(i, c), k));
            assert(g[cell_index(i, c)] == number);
        } else {
            let i = choose|i: int| 0 <= i < 9 && quadrant_of(g, q)[i] == number;
            lemma_quadrant_cell(q, i);
            assert(peers(quadrant_cell(q, i), k));
            assert(g[quadrant_cell(q, i)] == number);
        }
    }
}

/// A grid that obeys the rules still does once a digit that may be placed
/// in an empty cell is placed there.
pub proof fn lemma_placement_keeps_valid(g: Seq<u8>, k: int, number: u8)
    requires
        valid_grid(g),
        0 <= k < 81,
        g[k] == 0,
        number <= 9,
        placement_valid(g, number, k / 9, k % 9),
    ensures
        valid_grid(g.update(k, number)),
{
    let placed = g.update(k, number);
    if number == 0 {
        assert(placed =~= g);
    } else {
        lemma_consistent(g);
        lemma_placement_valid(g, number, k);
        assert forall|i: int, j: int|
            0 <= i < 81 && 0 <= j < 81 && peers(i, j) && placed[i] != 0 implies #[trigger] placed[i]
            != #[trigger] placed[j] by {
            if i == k {
                assert(g[j] != number);
            } else if j == k {
                assert(g[i] != number);
            } else {
                assert(g[i] != g[j]);
            }
        }
        lemma_consistent(placed);
        assert forall|i: int| 0 <= i < 81 implies #[trigger] placed[i] <= 9 by {
            if i != k {
                assert(g[i] <= 9);
            }
        }
    }
}

/// A grid that obeys the rules still does once a cell is cleared.
pub proof fn lemma_clearing_keeps_valid(g: Seq<u8>, k: int)
    requires
        valid_grid(g),
        0 <= k < 81,
    ensures
        valid_grid(g.update(k, 0)),
{
    let cleared = g.update(k, 0);
    lemma_consistent(g);
    assert forall|i: int, j: int|
        0 <= i < 81 && 0 <= j < 81 && peers(i, j) && cleared[i] != 0 implies #[trigger] cleared[i]
        != #[trigger] cleared[j] by {
        if j != k {
            assert(g[i] != g[j]);
        }
    }
    lemma_consistent(cleared);
    assert forall|i: int| 0 <= i < 81 implies #[trigger] cleared[i] <= 9 by {
        if i != k {
            assert(g[i] <= 9);
        }
    }
}

/// A grid without an empty cell is its own completion, and its only one.
pub proof fn lemma_full_is_least(b: Seq<u8>)
    requires
        b.len() == 81,
        full(b),
    ensures
        least_completion(b, b),
{
    assert forall|t: Seq<u8>| #[trigger] completes(t, b) implies lex_le(b, t) by {
        assert(t =~= b);
    }
}

/// No completion puts in an empty cell a digit that may not be placed there.
pub proof fn lemma_invalid_excluded(b: Seq<u8>, k: int, number: u8, t: Seq<u8>)
    requires
        0 <= k < 81,
        b[k] == 0,
        number != 0,
        !placement_valid(b, number, k / 9, k % 9),
        completes(t, b),
    ensures
        t[k] != number,
{
    lemma_placement_valid(b, number, k);
    let j = choose|j: int| 0 <= j < 81 && peers(j, k) && b[j] == number;
    assert(t[j] == b[j]);
    assert(t[j] != t[k]);
}

/// A completion that holds `number` in an empty cell completes the grid
/// with `number` placed in that cell.
pub proof fn lemma_completes_placed(b: Seq<u8>, k: int, number: u8, t: Seq<u8>)
    requires
        0 <= k < 81,
        b[k] == 0,
        completes(t, b),
        t[k] == number,
    ensures
        completes(t, b.update(k, number)),
{
    let placed = b.update(k, number);
    assert forall|i: int| 0 <= i < 81 && placed[i] != 0 implies #[trigger] t[i] == placed[i] by {
        if i != k {
            assert(t[i] == b[i]);
        }
    }
    assert forall|i: int| 0 <= i < 81 && placed[i] == 0 implies 1 <= #[trigger] t[i] <= 9 by {
        assert(b[i] == 0);
    }
    assert forall|j: int, i: int|
        0 <= j < 81 && 0 <= i < 81 && placed[i] == 0 && peers(j, i) implies #[trigger] t[j]
        != #[trigger] t[i] by {
        assert(b[i] == 0);
    }
}

/// A completion of the grid with a digit validly placed in an empty cell
/// completes the grid itself, and holds that digit in that cell.
pub proof fn lemma_completes_unplaced(b: Seq<u8>, k: int, number: u8, t: Seq<u8>)
    requires
        b.len() == 81,
        0 <= k < 81,
        b[k] == 0,
        1 <= number <= 9,
        placement_valid(b, number, k / 9, k % 9),
        completes(t, b.update(k, number)),
    ensures
        completes(t, b),
        t[k] == number,
{
    let placed = b.update(k, number);
    lemma_placement_valid(b, number, k);
    assert(t[k] == placed[k]);
    assert forall|i: int| 0 <= i < 81 && b[i] != 0 implies #[trigger] t[i] == b[i] by {
        assert(t[i] == placed[i]);
    }
    assert forall|i: int| 0 <= i < 81 && b[i] == 0 implies 1 <= #[trigger] t[i] <= 9 by {
        if i != k {
            assert(placed[i] == 0);
        }
    }
    assert forall|j: int, i: int|
        0 <= j < 81 && 0 <= i < 81 && b[i] == 0 && peers(j, i) implies #[trigger] t[j]
        != #[trigger] t[i] by {
        if i != k {
            assert(placed[i] == 0);
        } else if b[j] != 0 {
            assert(b[j] != number);
            assert(t[j] == placed[j]);
        } else {
            assert(placed[j] == 0);
            assert(peers(i, j));
            assert(t[i] != t[j]);
        }
    }
}

/// Where no completion holds a digit below `number` in the first empty
/// cell, the first completion with `number` validly placed there is the
/// first completion of all.
pub proof fn lemma_least_step(b: Seq<u8>, k: int, number: u8, s: Seq<u8>)
    requires
        b.len() == 81,
        first_empty(b, k),
        1 <= number <= 9,
        placement_valid(b, number, k / 9, k % 9),
        least_completion(s, b.update(k, number)),
        forall|t: Seq<u8>| #[trigger] completes(t, b) ==> t[k] >= number,
    ensures
        least_completion(s, b),
{
    lemma_completes_unplaced(b, k, number, s);
    assert forall|t: Seq<u8>| #[trigger] completes(t, b) implies lex_le(s, t) by {
        if t[k] == number {
            lemma_completes_placed(b, k, number, t);
        } else {
            assert forall|j: int| 0 <= j < k implies #[trigger] s[j] == t[j] by {
                assert(b[j] != 0);
                assert(s[j] == b[j]);
                assert(t[j] == b[j]);
            }
            assert(first_difference(s, t, k));
        }
    }
}

/// A grid has at most one first completion.
pub proof fn lemma_least_completion_unique(b: Seq<u8>, s: Seq<u8>, t: Seq<u8>)
    requires
        least_completion(s, b),
        least_completion(t, b),
    ensures
        s == t,
{
    assert(lex_le(s, t));
    assert(lex_le(t, s));
    if s != t {
        let i = choose|i: int| #[trigger] first_difference(s, t, i) && s[i] < t[i];
        let j = choose|j: int| #[trigger] first_difference(t, s, j) && t[j] < s[j];
        if i < j {
            assert(t[i] == s[i]);
        } else if j < i {
            assert(s[j] == t[j]);
        }
    }
}

/// The outcome of a search is settled by the grid it starts from: two
/// searches from one grid report the same and leave the same grid.
pub proof fn lemma_search_deterministic(
    before: Seq<u8>,
    first: Seq<u8>,
    first_found: bool,
    second: Seq<u8>,
    second_found: bool,
)
    requires
        search_outcome(before, first, first_found),
        search_outcome(before, second, second_found),
    ensures
        first_found == second_found,
        first == second,
{
    if first_found && second_found {
        lemma_least_completion_unique(before, first, second);
    }
}

/// For a grid that obeys the rules, the completions are the solved grids
/// that keep its digits.
pub proof fn lemma_completions_of_valid(b: Seq<u8>, t: Seq<u8>)
    requires
        valid_grid(b),
    ensures
        completes(t, b) <==> solved(t) && extends(t, b),
{
    lemma_consistent(b);
    if completes(t, b) {
        assert forall|k: int| 0 <= k < 81 implies #[trigger] t[k] != 0 && t[k] <= 9 by {
            if b[k] != 0 {
                assert(t[k] == b[k]);
                assert(b[k] <= 9);
            }
        }
        assert forall|j: int, k: int|
            0 <= j < 81 && 0 <= k < 81 && peers(j, k) && t[j] != 0 implies #[trigger] t[j]
            != #[trigger] t[k] by {
            if b[k] == 0 {
            } else if b[j] == 0 {
                assert(peers(k, j));
                assert(t[k] != t[j]);
            } else {
                assert(t[j] == b[j]);
                assert(t[k] == b[k]);
                assert(b[j] != b[k]);
            }
        }
        lemma_consistent(t);
    }
    if solved(t) && extends(t, b) {
        lemma_consistent(t);
        assert forall|k: int| 0 <= k < 81 && b[k] == 0 implies 1 <= #[trigger] t[k] <= 9 by {
            assert(t[k] != 0 && t[k] <= 9);
        }
        assert forall|j: int, k: int|
            0 <= j < 81 && 0 <= k < 81 && b[k] == 0 && peers(j, k) implies #[trigger] t[j]
            != #[trigger] t[k] by {
            assert(t[j] != 0);
        }
    }
}

/// A search from a grid that obeys the rules succeeds exactly where some
/// solved grid keeps the digits of that grid, and then leaves such a grid.
pub proof fn lemma_search_of_valid(before: Seq<u8>, after: Seq<u8>, found: bool)
    requires
        valid_grid(before),
        search_outcome(before, after, found),
    ensures
        found <==> exists|t: Seq<u8>| solved(t) && #[trigger] extends(t, before),
        found ==> solved(after) && extends(after, before),
{
    if found {
        lemma_completions_of_valid(before, after);
    } else {
        assert forall|t: Seq<u8>| !(solved(t) && #[trigger] extends(t, before)) by {
            lemma_completions_of_valid(before, t);
        }
    }
}

/// A search from the empty grid succeeds, and leaves a solved grid.
pub proof fn lemma_search_of_empty(after: Seq<u8>, found: bool)
    requires
        search_outcome(empty_grid(), after, found),
    ensures
        found,
        solved(after),
{
    lemma_empty_grid_solvable();
    lemma_search_of_valid(empty_grid(), after, found);
}

/// A grid of 81 cells is free of conflicting cells exactly where no digit
/// other than `0` occurs twice in a row, a column or a quadrant.
pub proof fn lemma_no_conflicts(g: Seq<u8>)
    requires
        g.len() == 81,
    ensures
        (forall|k: int| 0 <= k < 81 ==> !#[trigger] conflicting(g, k)) <==> consistent(g),
{
    if consistent(g) {
        assert forall|k: int| 0 <= k < 81 implies !#[trigger] conflicting(g, k) by {
            if conflicting(g, k) {
                let j = choose|j: int| 0 <= j < 81 && peers(j, k) && #[trigger] g[j] == g[k];
                assert(g[j] != g[k]);
            }
        }
    }
    if forall|k: int| 0 <= k < 81 ==> !#[trigger] conflicting(g, k) {
        assert forall|j: int, k: int|
            0 <= j < 81 && 0 <= k < 81 && peers(j, k) && g[j] != 0 implies #[trigger] g[j]
            != #[trigger] g[k] by {
            assert(!conflicting(g, k));
        }
    }
}

/// A cell that holds a digit is in conflict exactly where that digit could
/// not be placed again once the cell is cleared.
pub proof fn lemma_conflicting(g: Seq<u8>, k: int)
    requires
        g.len() == 81,
        0 <= k < 81,
        g[k] != 0,
    ensures
        conflicting(g, k) <==> !placement_valid(g.update(k, 0), g[k], k / 9, k % 9),
{
    let cleared = g.update(k, 0);
    lemma_placement_valid(cleared, g[k], k);
    if conflicting(g, k) {
        let j = choose|j: int| 0 <= j < 81 && peers(j, k) && #[trigger] g[j] == g[k];
        assert(cleared[j] == g[k]);
    }
    if !placement_valid(cleared, g[k], k / 9, k % 9) {
        let j = choose|j: int| 0 <= j < 81 && peers(j, k) && #[trigger] cleared[j] == g[k];
        assert(g[j] == g[k]);
    }
}

} // verus!
