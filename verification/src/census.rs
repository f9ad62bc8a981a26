//! Counting the cells of a grid that a set leaves free, in scan order:
//! column by column, each column from row 0 down.

use crate::topology::Cell;
use crate::topology::Topology;
use vstd::prelude::*;

verus! {

/// The number of cells `(x, 0)` to `(x, n - 1)` that are not in `taken`.
pub open spec fn free_in_column(taken: Set<Cell>, x: int, n: int) -> nat
    decreases n,
{
    if n <= 0 {
        0
    } else {
        free_in_column(taken, x, n - 1) + if taken.contains((x as usize, (n - 1) as usize)) {
            0nat
        } else {
            1nat
        }
    }
}

/// The number of cells in columns `0` to `n - 1`, each `rows` high, that are
/// not in `taken`.
pub open spec fn free_in_columns(taken: Set<Cell>, rows: int, n: int) -> nat
    decreases n,
{
    if n <= 0 {
        0
    } else {
        free_in_columns(taken, rows, n - 1) + free_in_column(taken, n - 1, rows)
    }
}

/// The number of cells of `grid` that are not in `taken`.
pub open spec fn free_cells(taken: Set<Cell>, grid: Topology) -> nat {
    free_in_columns(taken, grid.rows as int, grid.cols as int)
}

/// The number of cells not in `taken` that come before `cell` in scan order.
pub open spec fn free_before(taken: Set<Cell>, grid: Topology, cell: Cell) -> nat {
    free_in_columns(taken, grid.rows as int, cell.0 as int) + free_in_column(
        taken,
        cell.0 as int,
        cell.1 as int,
    )
}

/// A column holds no more free cells than cells.
pub proof fn lemma_free_in_column_bound(taken: Set<Cell>, x: int, n: int)
    requires
        0 <= n,
    ensures
        free_in_column(taken, x, n) <= n,
    decreases n,
{
    if n > 0 {
        lemma_free_in_column_bound(taken, x, n - 1);
    }
}

/// `n` columns hold no more free cells than `n * rows`.
pub proof fn lemma_free_in_columns_bound(taken: Set<Cell>, rows: int, n: int)
    requires
        0 <= n,
        0 <= rows,
    ensures
        free_in_columns(taken, rows, n) <= n * rows,
    decreases n,
{
    if n > 0 {
        lemma_free_in_columns_bound(taken, rows, n - 1);
        lemma_free_in_column_bound(taken, n - 1, rows);
        assert((n - 1) * rows + rows == n * rows) by (nonlinear_arith);
    } else {
        assert(0 * rows == 0) by (nonlinear_arith);
    }
}

/// The count grows with the number of rows counted.
pub proof fn lemma_free_in_column_monotone(taken: Set<Cell>, x: int, m: int, n: int)
    requires
        m <= n,
    ensures
        free_in_column(taken, x, m) <= free_in_column(taken, x, n),
    decreases n - m,
{
    if m < n {
        lemma_free_in_column_monotone(taken, x, m, n - 1);
    } else if n <= 0 {
    }
}

/// The count grows with the number of columns counted.
pub proof fn lemma_free_in_columns_monotone(taken: Set<Cell>, rows: int, m: int, n: int)
    requires
        m <= n,
    ensures
        free_in_columns(taken, rows, m) <= free_in_columns(taken, rows, n),
    decreases n - m,
{
    if m < n {
        lemma_free_in_columns_monotone(taken, rows, m, n - 1);
    } else if n <= 0 {
    }
}

/// A free cell of the column is counted.
pub proof fn lemma_free_cell_counts_in_column(taken: Set<Cell>, x: int, n: int, y: int)
    requires
        0 <= y < n,
        !taken.contains((x as usize, y as usize)),
    ensures
        free_in_column(taken, x, y) < free_in_column(taken, x, n),
{
    assert(free_in_column(taken, x, y + 1) == free_in_column(taken, x, y) + 1);
    lemma_free_in_column_monotone(taken, x, y + 1, n);
}

/// A free cell of the grid has fewer free cells before it than the grid
/// holds.
pub proof fn lemma_free_before_below_total(taken: Set<Cell>, grid: Topology, cell: Cell)
    requires
        grid.contains(cell),
        !taken.contains(cell),
    ensures
        free_before(taken, grid, cell) < free_cells(taken, grid),
{
    let rows = grid.rows as int;
    let x = cell.0 as int;
    lemma_free_cell_counts_in_column(taken, x, rows, cell.1 as int);
    assert(free_in_columns(taken, rows, x + 1) == free_in_columns(taken, rows, x) + free_in_column(
        taken,
        x,
        rows,
    ));
    lemma_free_in_columns_monotone(taken, rows, x + 1, grid.cols as int);
}

/// A column counts zero exactly when all of its cells are taken.
pub proof fn lemma_free_in_column_zero(taken: Set<Cell>, x: int, n: int)
    requires
        0 <= x <= usize::MAX,
        0 <= n <= usize::MAX + 1,
    ensures
        free_in_column(taken, x, n) == 0 <==> forall|c: Cell|
            c.0 == x && c.1 < n ==> #[trigger] taken.contains(c),
    decreases n,
{
    if n > 0 {
        lemma_free_in_column_zero(taken, x, n - 1);
        let last: Cell = (x as usize, (n - 1) as usize);
        if free_in_column(taken, x, n) == 0 {
            assert forall|c: Cell| c.0 == x && c.1 < n implies #[trigger] taken.contains(c) by {
                if c.1 == n - 1 {
                    assert(c == last);
                }
            }
        } else if free_in_column(taken, x, n - 1) == 0 {
            assert(last.0 == x && last.1 < n && !taken.contains(last));
        } else {
        }
    }
}

/// A grid counts zero exactly when all of its cells are taken.
pub proof fn lemma_free_cells_zero(taken: Set<Cell>, grid: Topology)
    ensures
        free_cells(taken, grid) == 0 <==> forall|c: Cell|
            #[trigger] grid.contains(c) ==> taken.contains(c),
{
    let rows = grid.rows as int;
    if free_cells(taken, grid) == 0 {
        assert forall|c: Cell| #[trigger] grid.contains(c) implies taken.contains(c) by {
            if !taken.contains(c) {
                lemma_free_before_below_total(taken, grid, c);
            }
        }
    } else {
        lemma_positive_count_has_free_column(taken, rows, grid.cols as int);
        let x = choose|x: int| 0 <= x < grid.cols && free_in_column(taken, x, rows) > 0;
        lemma_free_in_column_zero(taken, x, rows);
        let c = choose|c: Cell| c.0 == x && c.1 < rows && !taken.contains(c);
        assert(grid.contains(c) && !taken.contains(c));
    }
}

/// Where columns `0` to `n - 1` count more than zero, one of them does.
pub proof fn lemma_positive_count_has_free_column(taken: Set<Cell>, rows: int, n: int)
    requires
        free_in_columns(taken, rows, n) > 0,
    ensures
        exists|x: int| 0 <= x < n && free_in_column(taken, x, rows) > 0,
    decreases n,
{
    if n > 0 {
        if free_in_column(taken, n - 1, rows) > 0 {
        } else {
            lemma_positive_count_has_free_column(taken, rows, n - 1);
            let x = choose|x: int| 0 <= x < n - 1 && free_in_column(taken, x, rows) > 0;
            assert(0 <= x < n && free_in_column(taken, x, rows) > 0);
        }
    }
}

/// Two sets that agree on a column count the same in it.
pub proof fn lemma_free_in_column_agrees(a: Set<Cell>, b: Set<Cell>, x: int, n: int)
    requires
        0 <= x <= usize::MAX,
        n <= usize::MAX + 1,
        forall|c: Cell| c.0 == x && c.1 < n ==> #[trigger] a.contains(c) == b.contains(c),
    ensures
        free_in_column(a, x, n) == free_in_column(b, x, n),
    decreases n,
{
    if n > 0 {
        lemma_free_in_column_agrees(a, b, x, n - 1);
        let last: Cell = (x as usize, (n - 1) as usize);
        assert(a.contains(last) == b.contains(last));
    }
}

/// Two sets that agree on the first `n` columns count the same in them.
pub proof fn lemma_free_in_columns_agrees(a: Set<Cell>, b: Set<Cell>, rows: int, n: int)
    requires
        n <= usize::MAX + 1,
        rows <= usize::MAX + 1,
        forall|c: Cell| c.0 < n && c.1 < rows ==> #[trigger] a.contains(c) == b.contains(c),
    ensures
        free_in_columns(a, rows, n) == free_in_columns(b, rows, n),
    decreases n,
{
    if n > 0 {
        lemma_free_in_columns_agrees(a, b, rows, n - 1);
        lemma_free_in_column_agrees(a, b, n - 1, rows);
    }
}

/// Taking one more cell of a column lowers its count by one.
pub proof fn lemma_take_in_column(taken: Set<Cell>, cell: Cell, n: int)
    requires
        0 <= cell.1 < n <= usize::MAX + 1,
        !taken.contains(cell),
    ensures
        free_in_column(taken.insert(cell), cell.0 as int, n) + 1 == free_in_column(
            taken,
            cell.0 as int,
            n,
        ),
    decreases n,
{
    let x = cell.0 as int;
    if n - 1 == cell.1 {
        lemma_free_in_column_agrees(taken, taken.insert(cell), x, n - 1);
    } else {
        lemma_take_in_column(taken, cell, n - 1);
    }
}

/// Taking one more cell of a grid lowers its count by one.
pub proof fn lemma_take_cell(taken: Set<Cell>, grid: Topology, cell: Cell)
    requires
        grid.contains(cell),
        !taken.contains(cell),
    ensures
        free_cells(taken.insert(cell), grid) + 1 == free_cells(taken, grid),
{
    lemma_take_in_columns(taken, grid.rows as int, cell, grid.cols as int);
}

/// Taking one more cell among the first `n` columns lowers their count by
/// one.
pub proof fn lemma_take_in_columns(taken: Set<Cell>, rows: int, cell: Cell, n: int)
    requires
        0 <= cell.0 < n <= usize::MAX + 1,
        0 <= cell.1 < rows <= usize::MAX + 1,
        !taken.contains(cell),
    ensures
        free_in_columns(taken.insert(cell), rows, n) + 1 == free_in_columns(taken, rows, n),
    decreases n,
{
    let after = taken.insert(cell);
    if n - 1 == cell.0 {
        lemma_free_in_columns_agrees(taken, after, rows, n - 1);
        lemma_take_in_column(taken, cell, rows);
    } else {
        lemma_take_in_columns(taken, rows, cell, n - 1);
        lemma_free_in_column_agrees(taken, after, n - 1, rows);
    }
}

/// A column of which nothing is taken counts all its cells.
pub proof fn lemma_free_in_column_none_taken(x: int, n: int)
    requires
        0 <= n,
    ensures
        free_in_column(Set::empty(), x, n) == n,
    decreases n,
{
    if n > 0 {
        lemma_free_in_column_none_taken(x, n - 1);
    }
}

/// Columns of which nothing is taken count all their cells.
pub proof fn lemma_free_in_columns_none_taken(rows: int, n: int)
    requires
        0 <= n,
        0 <= rows,
    ensures
        free_in_columns(Set::empty(), rows, n) == n * rows,
    decreases n,
{
    if n > 0 {
        lemma_free_in_columns_none_taken(rows, n - 1);
        lemma_free_in_column_none_taken(n - 1, rows);
        assert((n - 1) * rows + rows == n * rows) by (nonlinear_arith);
    } else {
        assert(0 * rows == 0) by (nonlinear_arith);
    }
}

/// Cells of a grid, no two the same, leave free as many cells as the grid
/// has more than they are.
pub proof fn lemma_free_cells_beside(cells: Seq<Cell>, grid: Topology)
    requires
        cells.no_duplicates(),
        forall|i: int| 0 <= i < cells.len() ==> grid.contains(#[trigger] cells[i]),
    ensures
        free_cells(Set::new(|c: Cell| cells.contains(c)), grid) + cells.len() == grid.cols
            * grid.rows,
    decreases cells.len(),
{
    let taken = Set::new(|c: Cell| cells.contains(c));
    if cells.len() == 0 {
        assert(taken =~= Set::empty());
        lemma_free_in_columns_none_taken(grid.rows as int, grid.cols as int);
    } else {
        let short = cells.drop_last();
        let last = cells.last();
        let fewer = Set::new(|c: Cell| short.contains(c));
        assert forall|i: int| 0 <= i < short.len() implies grid.contains(#[trigger] short[i]) by {
            assert(short[i] == cells[i]);
        }
        assert(short.no_duplicates()) by {
            assert forall|i: int, j: int|
                0 <= i < short.len() && 0 <= j < short.len() && i != j implies short[i]
                != short[j] by {
                assert(short[i] == cells[i] && short[j] == cells[j]);
            }
        }
        lemma_free_cells_beside(short, grid);
        assert(!fewer.contains(last)) by {
            if short.contains(last) {
                let k = choose|k: int| 0 <= k < short.len() && short[k] == last;
                assert(cells[k] == cells[cells.len() - 1]);
            }
        }
        assert(taken =~= fewer.insert(last)) by {
            assert forall|c: Cell| taken.contains(c) == fewer.insert(last).contains(c) by {
                if cells.contains(c) {
                    let k = choose|k: int| 0 <= k < cells.len() && cells[k] == c;
                    if k < short.len() {
                        assert(short[k] == c);
                    }
                }
                if short.contains(c) {
                    let k = choose|k: int| 0 <= k < short.len() && short[k] == c;
                    assert(cells[k] == c);
                }
                if c == last {
                    assert(cells[cells.len() - 1] == c);
                }
            }
        }
        assert(grid.contains(cells[cells.len() - 1]));
        lemma_take_cell(fewer, grid, last);
    }
}

} // verus!
