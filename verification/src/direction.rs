//! The four directions of travel on the grid.

use crate::topology::Cell;
use crate::topology::Topology;
use vstd::prelude::*;

verus! {

/// A direction of travel. `Up` decreases `y`, `Right` increases `x`.
#[derive(Debug, Clone, Copy, PartialEq, Eq, Structural, Hash)]
pub enum Direction {
    Up,
    Down,
    Right,
    Left,
}

/// The order in which a search tries the four directions.
pub open spec fn expansion_order() -> Seq<Direction> {
    seq![Direction::Up, Direction::Down, Direction::Right, Direction::Left]
}

impl Direction {
    /// The direction pointing the other way.
    pub open spec fn spec_opposite(&self) -> Direction {
        match *self {
            Direction::Up => Direction::Down,
            Direction::Down => Direction::Up,
            Direction::Right => Direction::Left,
            Direction::Left => Direction::Right,
        }
    }

    /// The place of this direction in expansion order, from 0.
    pub open spec fn place(self) -> nat {
        match self {
            Direction::Up => 0,
            Direction::Down => 1,
            Direction::Right => 2,
            Direction::Left => 3,
        }
    }

    /// The unit displacement `(dx, dy)` of one step in this direction.
    pub open spec fn spec_vector(self) -> (i32, i32) {
        match self {
            Direction::Up => (0i32, -1i32),
            Direction::Down => (0i32, 1i32),
            Direction::Right => (1i32, 0i32),
            Direction::Left => (-1i32, 0i32),
        }
    }

    /// The direction that leads from `source` to `destination` on `grid`: the
    /// first one in expansion order whose neighbour of `source` is
    /// `destination`, and `Right` where the two cells are not neighbours.
    pub open spec fn spec_get_direction(
        source: Cell,
        destination: Cell,
        grid: Topology,
    ) -> Direction {
        if grid.spec_neighbor(source, Direction::Up) == destination {
            Direction::Up
        } else if grid.spec_neighbor(source, Direction::Down) == destination {
            Direction::Down
        } else if grid.spec_neighbor(source, Direction::Right) == destination {
            Direction::Right
        } else if grid.spec_neighbor(source, Direction::Left) == destination {
            Direction::Left
        } else {
            Direction::Right
        }
    }

    /// Returns the direction pointing the other way.
    #[verifier::when_used_as_spec(spec_opposite)]
    pub fn opposite(&self) -> (r: Direction)
        ensures
            r == self.spec_opposite(),
    {
        match self {
            Direction::Up => Direction::Down,
            Direction::Down => Direction::Up,
            Direction::Right => Direction::Left,
            Direction::Left => Direction::Right,
        }
    }

    /// Returns the direction of the step from `source` to `destination`.
    ///
    /// The displacement is taken modulo the grid's dimensions, so a step
    /// across an edge reads like any other: on a grid twenty wide, going
    /// from column 0 to column 19 is one step `Left`.
    pub fn get_direction(source: Cell, destination: Cell, grid: &Topology) -> (r: Direction)
        requires
            grid.wf(),
            grid.contains(source),
            grid.contains(destination),
        ensures
            r == Direction::spec_get_direction(source, destination, *grid),
    {
        let dx = wrapped_offset(source.0, destination.0, grid.cols);
        let dy = wrapped_offset(source.1, destination.1, grid.rows);
        proof {
            lemma_wrapped_offset(source.0, destination.0, grid.cols);
            lemma_wrapped_offset(source.1, destination.1, grid.rows);
        }
        let one_x: usize = if grid.cols == 1 { 0 } else { 1 };
        let one_y: usize = if grid.rows == 1 { 0 } else { 1 };
        if dx == 0 && dy == grid.rows - 1 {
            Direction::Up
        } else if dx == 0 && dy == one_y {
            Direction::Down
        } else if dy == 0 && dx == one_x {
            Direction::Right
        } else if dy == 0 && dx == grid.cols - 1 {
            Direction::Left
        } else {
            Direction::Right
        }
    }

    /// Returns the unit displacement `(dx, dy)` of one step in this direction.
    pub fn get_vector(self) -> (v: (i32, i32))
        ensures
            v == self.spec_vector(),
    {
        match self {
            Direction::Up => (0, -1),
            Direction::Down => (0, 1),
            Direction::Right => (1, 0),
            Direction::Left => (-1, 0),
        }
    }

    /// Returns the four directions in the order in which a search tries them.
    pub fn iter() -> (all: [Direction; 4])
        ensures
            all@ == expansion_order(),
    {
        [Direction::Up, Direction::Down, Direction::Right, Direction::Left]
    }
}

/// `(to - from) mod size`, for coordinates below `size`.
pub open spec fn spec_wrapped_offset(from: usize, to: usize, size: usize) -> int {
    (to - from) % (size as int)
}

/// Returns the displacement from `from` to `to` modulo `size`.
pub fn wrapped_offset(from: usize, to: usize, size: usize) -> (d: usize)
    requires
        from < size,
        to < size,
    ensures
        d == spec_wrapped_offset(from, to, size),
        d < size,
{
    proof {
        lemma_wrapped_offset(from, to, size);
    }
    if to >= from {
        to - from
    } else {
        size - (from - to)
    }
}

/// The displacement modulo the size is the difference where that is not
/// negative, and the difference plus the size where it is.
pub proof fn lemma_wrapped_offset(from: usize, to: usize, size: usize)
    requires
        from < size,
        to < size,
    ensures
        spec_wrapped_offset(from, to, size) == if to >= from {
            to - from
        } else {
            to - from + size
        },
{
    if to >= from {
        vstd::arithmetic::div_mod::lemma_small_mod((to - from) as nat, size as nat);
    } else {
        vstd::arithmetic::div_mod::lemma_small_mod((to - from + size) as nat, size as nat);
        vstd::arithmetic::div_mod::lemma_mod_add_multiples_vanish(to - from, size as int);
    }
}

/// The direction between two cells depends on their displacement modulo
/// the grid's dimensions and on nothing else: a step across an edge reads
/// like the same step anywhere.
pub proof fn lemma_direction_reads_offsets(grid: Topology, a: Cell, b: Cell, c: Cell, d: Cell)
    requires
        grid.wf(),
        grid.contains(a),
        grid.contains(b),
        grid.contains(c),
        grid.contains(d),
        spec_wrapped_offset(a.0, b.0, grid.cols) == spec_wrapped_offset(c.0, d.0, grid.cols),
        spec_wrapped_offset(a.1, b.1, grid.rows) == spec_wrapped_offset(c.1, d.1, grid.rows),
    ensures
        Direction::spec_get_direction(a, b, grid) == Direction::spec_get_direction(c, d, grid),
{
    lemma_wrapped_offset(a.0, b.0, grid.cols);
    lemma_wrapped_offset(c.0, d.0, grid.cols);
    lemma_wrapped_offset(a.1, b.1, grid.rows);
    lemma_wrapped_offset(c.1, d.1, grid.rows);
}

/// `opposite` undoes itself.
pub proof fn lemma_opposite_is_involution(d: Direction)
    ensures
        d.spec_opposite().spec_opposite() == d,
        d.spec_opposite() != d,
{
}

} // verus!
