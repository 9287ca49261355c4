use vstd::prelude::*;

use crate::games::mine_sweeper::internal::cell::Cell;

verus! {

// Counting cells of a grid that satisfy a predicate. The aggregate counters
// of the minefield (mines, revealed cells, placed flags) are each tied to one
// of these counts, so the lemmas here are what lets the field maintain them
// incrementally instead of rescanning the whole grid.

/// How many of the first `n` cells of `row` satisfy `p`.
pub open spec fn count_row(row: Seq<Cell>, p: spec_fn(Cell) -> bool, n: int) -> nat
    decreases n,
{
    if n <= 0 {
        0
    } else {
        count_row(row, p, n - 1) + (if p(row[n - 1]) {
            1nat
        } else {
            0nat
        })
    }
}

/// How many cells of the first `m` rows of `f` satisfy `p`.
pub open spec fn count_grid(f: Seq<Seq<Cell>>, p: spec_fn(Cell) -> bool, m: int) -> nat
    decreases m,
{
    if m <= 0 {
        0
    } else {
        count_grid(f, p, m - 1) + count_row(f[m - 1], p, f[m - 1].len() as int)
    }
}

pub open spec fn mine_pred() -> spec_fn(Cell) -> bool {
    |c: Cell| c.is_mine
}

pub open spec fn safe_pred() -> spec_fn(Cell) -> bool {
    |c: Cell| !c.is_mine
}

pub open spec fn revealed_safe_pred() -> spec_fn(Cell) -> bool {
    |c: Cell| c.is_revealed && !c.is_mine
}

pub open spec fn flagged_pred() -> spec_fn(Cell) -> bool {
    |c: Cell| c.is_flagged
}

/// Rows that agree on their first `n` cells have the same count there.
pub proof fn lemma_count_row_congruent(r1: Seq<Cell>, r2: Seq<Cell>, p: spec_fn(Cell) -> bool, n: int)
    requires
        forall|j: int| 0 <= j < n ==> r1[j] == r2[j],
    ensures
        count_row(r1, p, n) == count_row(r2, p, n),
    decreases n,
{
    if n > 0 {
        lemma_count_row_congruent(r1, r2, p, n - 1);
    }
}

/// Grids that agree on their first `m` rows have the same count there.
pub proof fn lemma_count_grid_congruent(f1: Seq<Seq<Cell>>, f2: Seq<Seq<Cell>>, p: spec_fn(Cell) -> bool, m: int)
    requires
        forall|i: int| 0 <= i < m ==> f1[i] == f2[i],
    ensures
        count_grid(f1, p, m) == count_grid(f2, p, m),
    decreases m,
{
    if m > 0 {
        lemma_count_grid_congruent(f1, f2, p, m - 1);
    }
}

/// Replacing the cell at `j` shifts the row count by the difference of the
/// two cells' predicate values.
pub proof fn lemma_count_row_update(row: Seq<Cell>, p: spec_fn(Cell) -> bool, n: int, j: int, c: Cell)
    requires
        0 <= j < n,
        n <= row.len(),
    ensures
        count_row(row.update(j, c), p, n) + (if p(row[j]) {
            1nat
        } else {
            0nat
        }) == count_row(row, p, n) + (if p(c) {
            1nat
        } else {
            0nat
        }),
    decreases n,
{
    if j == n - 1 {
        lemma_count_row_congruent(row.update(j, c), row, p, n - 1);
    } else {
        lemma_count_row_update(row, p, n - 1, j, c);
    }
}

/// Replacing the cell at `(x, y)` shifts the grid count by the difference of
/// the two cells' predicate values.
pub proof fn lemma_count_grid_update_cell(f: Seq<Seq<Cell>>, p: spec_fn(Cell) -> bool, m: int, x: int, y: int, c: Cell)
    requires
        0 <= y < m,
        m <= f.len(),
        0 <= x < f[y].len(),
    ensures
        count_grid(f.update(y, f[y].update(x, c)), p, m) + (if p(f[y][x]) {
            1nat
        } else {
            0nat
        }) == count_grid(f, p, m) + (if p(c) {
            1nat
        } else {
            0nat
        }),
    decreases m,
{
    let f2 = f.update(y, f[y].update(x, c));
    if y == m - 1 {
        lemma_count_grid_congruent(f2, f, p, m - 1);
        assert(f2[m - 1] == f[y].update(x, c));
        assert(f2[m - 1].len() == f[y].len());
        lemma_count_row_update(f[y], p, f[y].len() as int, x, c);
    } else {
        lemma_count_grid_update_cell(f, p, m - 1, x, y, c);
        assert(f2[m - 1] == f[m - 1]);
    }
}

/// A row count never exceeds the number of cells counted.
pub proof fn lemma_count_row_le_n(row: Seq<Cell>, p: spec_fn(Cell) -> bool, n: int)
    requires
        0 <= n,
    ensures
        count_row(row, p, n) <= n,
    decreases n,
{
    if n > 0 {
        lemma_count_row_le_n(row, p, n - 1);
    }
}

/// If `p` implies `q` cell by cell, the `p`-count is at most the `q`-count.
pub proof fn lemma_count_row_le_pred(row: Seq<Cell>, p: spec_fn(Cell) -> bool, q: spec_fn(Cell) -> bool, n: int)
    requires
        forall|j: int| 0 <= j < n ==> p(row[j]) ==> q(row[j]),
    ensures
        count_row(row, p, n) <= count_row(row, q, n),
    decreases n,
{
    if n > 0 {
        lemma_count_row_le_pred(row, p, q, n - 1);
    }
}

/// If `p` implies `q` cell by cell and the two counts are equal, then `q`
/// implies `p` on every counted cell.
pub proof fn lemma_count_row_eq_pred(row: Seq<Cell>, p: spec_fn(Cell) -> bool, q: spec_fn(Cell) -> bool, n: int)
    requires
        forall|j: int| 0 <= j < n ==> p(row[j]) ==> q(row[j]),
        count_row(row, p, n) == count_row(row, q, n),
    ensures
        forall|j: int| 0 <= j < n ==> q(row[j]) ==> p(row[j]),
    decreases n,
{
    if n > 0 {
        lemma_count_row_le_pred(row, p, q, n - 1);
        lemma_count_row_eq_pred(row, p, q, n - 1);
    }
}

/// If `p` implies `q` cell by cell, the `p`-count of a grid is at most the
/// `q`-count.
pub proof fn lemma_count_grid_le_pred(f: Seq<Seq<Cell>>, p: spec_fn(Cell) -> bool, q: spec_fn(Cell) -> bool, m: int)
    requires
        forall|i: int, j: int| 0 <= i < m && 0 <= j < f[i].len() ==> p(f[i][j]) ==> q(f[i][j]),
    ensures
        count_grid(f, p, m) <= count_grid(f, q, m),
    decreases m,
{
    if m > 0 {
        lemma_count_grid_le_pred(f, p, q, m - 1);
        lemma_count_row_le_pred(f[m - 1], p, q, f[m - 1].len() as int);
    }
}

/// If `p` implies `q` cell by cell and the two grid counts are equal, then
/// `q` implies `p` on every cell of the grid.
pub proof fn lemma_count_grid_eq_pred(f: Seq<Seq<Cell>>, p: spec_fn(Cell) -> bool, q: spec_fn(Cell) -> bool, m: int)
    requires
        forall|i: int, j: int| 0 <= i < m && 0 <= j < f[i].len() ==> p(f[i][j]) ==> q(f[i][j]),
        count_grid(f, p, m) == count_grid(f, q, m),
    ensures
        forall|i: int, j: int| 0 <= i < m && 0 <= j < f[i].len() ==> q(f[i][j]) ==> p(f[i][j]),
    decreases m,
{
    if m > 0 {
        lemma_count_grid_le_pred(f, p, q, m - 1);
        lemma_count_row_le_pred(f[m - 1], p, q, f[m - 1].len() as int);
        lemma_count_grid_eq_pred(f, p, q, m - 1);
        lemma_count_row_eq_pred(f[m - 1], p, q, f[m - 1].len() as int);
    }
}

/// A grid count never exceeds the number of cells counted, for rows of a
/// common length `s`.
pub proof fn lemma_count_grid_le(f: Seq<Seq<Cell>>, p: spec_fn(Cell) -> bool, m: int, s: int)
    requires
        0 <= m,
        0 <= s,
        forall|i: int| 0 <= i < m ==> (#[trigger] f[i]).len() == s,
    ensures
        count_grid(f, p, m) <= m * s,
    decreases m,
{
    if m > 0 {
        lemma_count_grid_le(f, p, m - 1, s);
        lemma_count_row_le_n(f[m - 1], p, s);
        assert(m * s == (m - 1) * s + s) by (nonlinear_arith);
    } else {
        assert(m * s == 0) by (nonlinear_arith)
            requires
                m == 0,
        ;
    }
}

/// A row where no cell satisfies `p` counts zero.
pub proof fn lemma_count_row_none(row: Seq<Cell>, p: spec_fn(Cell) -> bool, n: int)
    requires
        forall|j: int| 0 <= j < n ==> !p(row[j]),
    ensures
        count_row(row, p, n) == 0,
    decreases n,
{
    if n > 0 {
        lemma_count_row_none(row, p, n - 1);
    }
}

/// A grid where no cell satisfies `p` counts zero.
pub proof fn lemma_count_grid_none(f: Seq<Seq<Cell>>, p: spec_fn(Cell) -> bool, m: int)
    requires
        forall|i: int, j: int| 0 <= i < m && 0 <= j < f[i].len() ==> !p(f[i][j]),
    ensures
        count_grid(f, p, m) == 0,
    decreases m,
{
    if m > 0 {
        lemma_count_grid_none(f, p, m - 1);
        lemma_count_row_none(f[m - 1], p, f[m - 1].len() as int);
    }
}

/// Cells that satisfy `p` and cells that satisfy its negation `q` together
/// make up the whole row.
pub proof fn lemma_count_row_partition(row: Seq<Cell>, p: spec_fn(Cell) -> bool, q: spec_fn(Cell) -> bool, n: int)
    requires
        0 <= n,
        forall|j: int| 0 <= j < n ==> q(row[j]) == !p(row[j]),
    ensures
        count_row(row, p, n) + count_row(row, q, n) == n,
    decreases n,
{
    if n > 0 {
        lemma_count_row_partition(row, p, q, n - 1);
    }
}

/// Grid version of the partition argument, for rows of a common length `s`.
pub proof fn lemma_count_grid_partition(f: Seq<Seq<Cell>>, p: spec_fn(Cell) -> bool, q: spec_fn(Cell) -> bool, m: int, s: int)
    requires
        0 <= m,
        0 <= s,
        forall|i: int| 0 <= i < m ==> f[i].len() == s,
        forall|i: int, j: int| 0 <= i < m && 0 <= j < f[i].len() ==> q(f[i][j]) == !p(f[i][j]),
    ensures
        count_grid(f, p, m) + count_grid(f, q, m) == m * s,
    decreases m,
{
    if m > 0 {
        lemma_count_grid_partition(f, p, q, m - 1, s);
        assert(f[m - 1].len() == s);
        lemma_count_row_partition(f[m - 1], p, q, s);
        assert(m * s == (m - 1) * s + s) by (nonlinear_arith);
    } else {
        assert(m * s == 0) by (nonlinear_arith)
            requires
                m == 0,
        ;
    }
}

} // verus!
