//! Coordinate arithmetic on a grid whose edges wrap around.

use crate::direction::Direction;
use vstd::prelude::*;

verus! {

/// A cell `(x, y)`: column, then row.
pub type Cell = (usize, usize);

/// The shape of a grid: `cols` columns by `rows` rows, wrapping at all four
/// edges.
#[derive(Debug, Clone, Copy, PartialEq, Eq, Structural)]
pub struct Topology {
    pub cols: usize,
    pub rows: usize,
}

impl Topology {
    /// A grid has at least one cell.
    pub open spec fn wf(&self) -> bool {
        self.cols > 0 && self.rows > 0
    }

    /// Whether `cell` lies on the grid.
    pub open spec fn contains(&self, cell: Cell) -> bool {
        cell.0 < self.cols && cell.1 < self.rows
    }

    /// The cell one step from `cell` in `direction`: stepping below 0 lands
    /// on the last column or row, stepping past the last lands on 0.
    pub open spec fn spec_neighbor(&self, cell: Cell, direction: Direction) -> Cell {
        match direction {
            Direction::Up => (
                cell.0,
                if cell.1 == 0 {
                    (self.rows - 1) as usize
                } else {
                    (cell.1 - 1) as usize
                },
            ),
            Direction::Down => (
                cell.0,
                if cell.1 == self.rows - 1 {
                    0usize
                } else {
                    (cell.1 + 1) as usize
                },
            ),
            Direction::Right => (
                if cell.0 == self.cols - 1 {
                    0usize
                } else {
                    (cell.0 + 1) as usize
                },
                cell.1,
            ),
            Direction::Left => (
                if cell.0 == 0 {
                    (self.cols - 1) as usize
                } else {
                    (cell.0 - 1) as usize
                },
                cell.1,
            ),
        }
    }

    /// Whether one step in some direction leads from `a` to `b`.
    pub open spec fn adjacent(&self, a: Cell, b: Cell) -> bool {
        ||| self.spec_neighbor(a, Direction::Up) == b
        ||| self.spec_neighbor(a, Direction::Down) == b
        ||| self.spec_neighbor(a, Direction::Right) == b
        ||| self.spec_neighbor(a, Direction::Left) == b
    }

    /// Returns the cell one step from `cell` in `direction`.
    #[verifier::when_used_as_spec(spec_neighbor)]
    pub fn neighbor(&self, cell: Cell, direction: Direction) -> (next: Cell)
        requires
            self.wf(),
            self.contains(cell),
        ensures
            next == self.spec_neighbor(cell, direction),
            self.contains(next),
    {
        let (x, y) = cell;
        match direction {
            Direction::Up => if y == 0 {
                (x, self.rows - 1)
            } else {
                (x, y - 1)
            },
            Direction::Down => if y == self.rows - 1 {
                (x, 0)
            } else {
                (x, y + 1)
            },
            Direction::Right => if x == self.cols - 1 {
                (0, y)
            } else {
                (x + 1, y)
            },
            Direction::Left => if x == 0 {
                (self.cols - 1, y)
            } else {
                (x - 1, y)
            },
        }
    }
}

/// Returns whether `a` and `b` are the same cell.
pub fn same_cell(a: Cell, b: Cell) -> (r: bool)
    ensures
        r == (a == b),
{
    a.0 == b.0 && a.1 == b.1
}

/// A step never leaves the grid.
pub proof fn lemma_neighbor_in_grid(grid: Topology, cell: Cell, direction: Direction)
    requires
        grid.wf(),
        grid.contains(cell),
    ensures
        grid.contains(grid.spec_neighbor(cell, direction)),
{
}

/// A step is the direction's unit vector added to the cell, modulo the
/// grid's dimensions.
pub proof fn lemma_neighbor_adds_vector(grid: Topology, cell: Cell, direction: Direction)
    requires
        grid.wf(),
        grid.contains(cell),
    ensures
        grid.spec_neighbor(cell, direction).0 == (cell.0 + direction.spec_vector().0) % (
        grid.cols as int),
        grid.spec_neighbor(cell, direction).1 == (cell.1 + direction.spec_vector().1) % (
        grid.rows as int),
{
    let w = grid.cols as int;
    let h = grid.rows as int;
    let x = cell.0 as int;
    let y = cell.1 as int;
    vstd::arithmetic::div_mod::lemma_small_mod(x as nat, w as nat);
    vstd::arithmetic::div_mod::lemma_small_mod(y as nat, h as nat);
    vstd::arithmetic::div_mod::lemma_mod_self_0(w);
    vstd::arithmetic::div_mod::lemma_mod_self_0(h);
    if x + 1 < w {
        vstd::arithmetic::div_mod::lemma_small_mod((x + 1) as nat, w as nat);
    }
    if y + 1 < h {
        vstd::arithmetic::div_mod::lemma_small_mod((y + 1) as nat, h as nat);
    }
    if x > 0 {
        vstd::arithmetic::div_mod::lemma_small_mod((x - 1) as nat, w as nat);
    } else {
        vstd::arithmetic::div_mod::lemma_small_mod((w - 1) as nat, w as nat);
        vstd::arithmetic::div_mod::lemma_mod_add_multiples_vanish(-1, w);
    }
    if y > 0 {
        vstd::arithmetic::div_mod::lemma_small_mod((y - 1) as nat, h as nat);
    } else {
        vstd::arithmetic::div_mod::lemma_small_mod((h - 1) as nat, h as nat);
        vstd::arithmetic::div_mod::lemma_mod_add_multiples_vanish(-1, h);
    }
}

/// Stepping back undoes a step.
pub proof fn lemma_step_back(grid: Topology, cell: Cell, direction: Direction)
    requires
        grid.wf(),
        grid.contains(cell),
    ensures
        grid.spec_neighbor(grid.spec_neighbor(cell, direction), direction.spec_opposite()) == cell,
{
}

/// `get_direction` finds a direction that leads to any neighbour it is
/// given.
pub proof fn lemma_get_direction_leads_back(grid: Topology, cell: Cell, direction: Direction)
    requires
        grid.wf(),
        grid.contains(cell),
    ensures
        grid.spec_neighbor(
            cell,
            Direction::spec_get_direction(cell, grid.spec_neighbor(cell, direction), grid),
        ) == grid.spec_neighbor(cell, direction),
{
}

} // verus!
