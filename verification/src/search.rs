//! A model of breadth-first search, and why its answer is the first route.
//!
//! The search of `crate::bfs` is followed here step by step as a value of
//! `Search`. `inv` holds at every step; from it alone follows that the chain
//! of parents of any cell that the search has seen is the first route to
//! that cell.

use crate::direction::Direction;
use crate::route::before;
use crate::route::ends_at;
use crate::route::is_first_route;
use crate::route::is_route;
use crate::route::is_walk;
use crate::route::lemma_precedes_chains;
use crate::route::lemma_precedes_push;
use crate::route::lemma_walk_prefix;
use crate::route::lemma_walk_push;
use crate::route::parts_at;
use crate::route::precedes;
use crate::route::rank;
use crate::route::reachable;
use crate::topology::Cell;
use crate::topology::Topology;
use vstd::prelude::*;

verus! {

/// How far a search has come.
pub struct Search {
    /// The cells seen so far, in the order in which they were seen; the
    /// first is the start.
    pub order: Seq<Cell>,
    /// For each cell seen, the place in `order` of the cell it was seen
    /// from.
    pub from: Seq<int>,
    /// For each cell seen, the number of steps that lead to it.
    pub depth: Seq<nat>,
    /// How many cells of `order` have had all four neighbours looked at.
    pub done: int,
    /// How many neighbours of the cell `order[done]` have been looked at.
    pub tried: int,
}

impl Search {
    /// The number of cells seen.
    pub open spec fn len(self) -> int {
        self.order.len() as int
    }

    /// The cells seen.
    pub open spec fn seen(self) -> Set<Cell> {
        Set::new(|c: Cell| self.order.contains(c))
    }

    /// A search that has seen its start and nothing else.
    pub open spec fn begin(start: Cell) -> Search {
        Search { order: seq![start], from: seq![0int], depth: seq![0nat], done: 0, tried: 0 }
    }

    /// The search after it has looked at one more neighbour of
    /// `order[done]` and seen it for the first time.
    pub open spec fn discover(self, cell: Cell) -> Search {
        Search {
            order: self.order.push(cell),
            from: self.from.push(self.done),
            depth: self.depth.push(self.depth[self.done] + 1),
            done: self.done,
            tried: self.tried + 1,
        }
    }

    /// The search after it has looked at one more neighbour of
    /// `order[done]` and left it.
    pub open spec fn pass(self) -> Search {
        Search { tried: self.tried + 1, ..self }
    }

    /// The search after it has looked at all neighbours of `order[done]`.
    pub open spec fn finish(self) -> Search {
        Search { done: self.done + 1, tried: 0, ..self }
    }

    /// The chain of parents that leads to `order[j]`, from the cell after
    /// the start to `order[j]` itself.
    pub open spec fn trail(self, j: int) -> Seq<Cell>
        decreases j,
    {
        if j <= 0 || !(0 <= self.from[j] < j) {
            Seq::empty()
        } else {
            self.trail(self.from[j]).push(self.order[j])
        }
    }
}

/// The three sequences of `s` run side by side from the start.
pub open spec fn shaped(s: Search, start: Cell) -> bool {
    &&& s.order.len() >= 1
    &&& s.from.len() == s.order.len()
    &&& s.depth.len() == s.order.len()
    &&& s.order[0] == start
    &&& s.from[0] == 0
    &&& s.depth[0] == 0
    &&& 0 <= s.done <= s.len()
    &&& 0 <= s.tried <= 4
    &&& (s.done == s.len() ==> s.tried == 0)
}

/// `order[i]` hangs on an earlier cell that has been or is being expanded,
/// one step away and one step nearer to the start.
pub open spec fn linked(grid: Topology, blocked: Set<Cell>, s: Search, i: int) -> bool {
    &&& 0 <= s.from[i] < i
    &&& s.from[i] <= s.done
    &&& grid.adjacent(s.order[s.from[i]], s.order[i])
    &&& !blocked.contains(s.order[i])
    &&& s.depth[i] == s.depth[s.from[i]] + 1
    &&& (s.from[i] == s.done ==> rank(grid, s.order[s.done], s.order[i]) < s.tried)
}

/// `cell` has been seen, no deeper than one step below `order[i]` and from
/// no later cell than `order[i]`.
pub open spec fn found(s: Search, cell: Cell, i: int) -> bool {
    exists|j: int|
        0 <= j < s.len() && #[trigger] s.order[j] == cell && s.depth[j] <= s.depth[i] + 1 && (j == 0
            || s.from[j] <= i)
}

/// The neighbour of `order[i]` in direction `d` needs no more attention.
pub open spec fn settled(
    grid: Topology,
    blocked: Set<Cell>,
    s: Search,
    i: int,
    d: Direction,
) -> bool {
    blocked.contains(grid.spec_neighbor(s.order[i], d)) || found(
        s,
        grid.spec_neighbor(s.order[i], d),
        i,
    )
}

/// `order[i]` was seen before `order[j]` for a reason: from an earlier
/// cell, or from the same cell by an earlier step.
pub open spec fn in_turn(grid: Topology, s: Search, i: int, j: int) -> bool {
    s.from[i] < s.from[j] || (s.from[i] == s.from[j] && rank(
        grid,
        s.order[s.from[i]],
        s.order[i],
    ) < rank(grid, s.order[s.from[j]], s.order[j]))
}

/// What holds of a search at every step.
pub open spec fn inv(grid: Topology, blocked: Set<Cell>, start: Cell, s: Search) -> bool {
    &&& grid.wf()
    &&& shaped(s, start)
    &&& forall|i: int| 0 <= i < s.len() ==> grid.contains(#[trigger] s.order[i])
    &&& s.order.no_duplicates()
    &&& forall|i: int| 1 <= i < s.len() ==> #[trigger] linked(grid, blocked, s, i)
    &&& forall|i: int, j: int|
        #![trigger s.depth[i], s.depth[j]]
        0 <= i <= j < s.len() ==> s.depth[i] <= s.depth[j]
    &&& forall|i: int|
        0 <= i < s.len() && s.done < s.len() ==> #[trigger] s.depth[i] <= s.depth[s.done] + 1
    &&& forall|i: int, d: Direction|
        0 <= i < s.len() && (i < s.done || (i == s.done && d.place() < s.tried))
            ==> #[trigger] settled(grid, blocked, s, i, d)
    &&& forall|i: int, j: int| 1 <= i < j < s.len() ==> #[trigger] in_turn(grid, s, i, j)
}

/// A search holds `inv` when it begins.
pub proof fn lemma_begin(grid: Topology, blocked: Set<Cell>, start: Cell)
    requires
        grid.wf(),
        grid.contains(start),
    ensures
        inv(grid, blocked, start, Search::begin(start)),
{
}

/// The step to a neighbour has a rank no higher than the place of the
/// direction taken.
pub proof fn lemma_rank_of_step(grid: Topology, from: Cell, d: Direction)
    ensures
        rank(grid, from, grid.spec_neighbor(from, d)) <= d.place(),
{
}

/// What `found` says survives when the search sees another cell.
proof fn lemma_found_survives(s: Search, cell: Cell, i: int, next: Cell)
    requires
        found(s, cell, i),
        0 <= i < s.len(),
        s.from.len() == s.order.len(),
        s.depth.len() == s.order.len(),
    ensures
        found(s.discover(next), cell, i),
{
    let j = choose|j: int|
        0 <= j < s.len() && #[trigger] s.order[j] == cell && s.depth[j] <= s.depth[i] + 1 && (j == 0
            || s.from[j] <= i);
    let t = s.discover(next);
    assert(t.order[j] == cell);
    assert(t.depth[j] == s.depth[j]);
    assert(t.depth[i] == s.depth[i]);
    assert(t.from[j] == s.from[j]);
}

/// `inv` survives when the search sees a new cell.
pub proof fn lemma_discover(
    grid: Topology,
    blocked: Set<Cell>,
    start: Cell,
    s: Search,
    d: Direction,
)
    requires
        inv(grid, blocked, start, s),
        s.done < s.len(),
        s.tried == d.place(),
        !blocked.contains(grid.spec_neighbor(s.order[s.done], d)),
        !s.order.contains(grid.spec_neighbor(s.order[s.done], d)),
    ensures
        inv(grid, blocked, start, s.discover(grid.spec_neighbor(s.order[s.done], d))),
{
    let u = s.order[s.done];
    let n = grid.spec_neighbor(u, d);
    let t = s.discover(n);
    let last = s.len();
    assert(grid.contains(u));
    assert forall|i: int| 0 <= i < t.len() implies grid.contains(#[trigger] t.order[i]) by {
        if i < last {
            assert(t.order[i] == s.order[i]);
        }
    }
    assert forall|i: int, j: int| 0 <= i < t.len() && 0 <= j < t.len() && i != j implies t.order[i]
        != t.order[j] by {
        if i < last && j < last {
            assert(s.order[i] != s.order[j]);
        } else if i < last {
            assert(s.order[i] != n);
        } else {
            assert(s.order[j] != n);
        }
    }
    lemma_rank_of_step(grid, u, d);
    assert forall|i: int| 1 <= i < t.len() implies #[trigger] linked(grid, blocked, t, i) by {
        if i < last {
            assert(linked(grid, blocked, s, i));
        }
    }
    assert forall|i: int, j: int|
        #![trigger t.depth[i], t.depth[j]]
        0 <= i <= j < t.len() implies t.depth[i] <= t.depth[j] by {
        if j < last {
            assert(s.depth[i] <= s.depth[j]);
        } else if i < last {
            assert(s.depth[i] <= s.depth[s.done] + 1);
        }
    }
    assert forall|i: int| 0 <= i < t.len() && t.done < t.len() implies #[trigger] t.depth[i]
        <= t.depth[t.done] + 1 by {
        if i < last {
            assert(s.depth[i] <= s.depth[s.done] + 1);
        }
    }
    assert forall|i: int, e: Direction|
        0 <= i < t.len() && (i < t.done || (i == t.done && e.place() < t.tried))
            implies #[trigger] settled(grid, blocked, t, i, e) by {
        assert(t.order[i] == s.order[i]);
        if i == s.done && e.place() == s.tried {
            assert(e == d);
            assert(t.order[last] == n);
            assert(found(t, n, i));
        } else {
            assert(settled(grid, blocked, s, i, e));
            if !blocked.contains(grid.spec_neighbor(s.order[i], e)) {
                lemma_found_survives(s, grid.spec_neighbor(s.order[i], e), i, n);
            }
        }
    }
    assert(rank(grid, u, n) == s.tried) by {
        lemma_unseen_neighbour_is_new(grid, blocked, start, s, Direction::Up, n);
        lemma_unseen_neighbour_is_new(grid, blocked, start, s, Direction::Down, n);
        lemma_unseen_neighbour_is_new(grid, blocked, start, s, Direction::Right, n);
        lemma_unseen_neighbour_is_new(grid, blocked, start, s, Direction::Left, n);
    }
    assert forall|i: int, j: int| 1 <= i < j < t.len() implies #[trigger] in_turn(
        grid,
        t,
        i,
        j,
    ) by {
        assert(linked(grid, blocked, s, i));
        assert(t.order[i] == s.order[i]);
        assert(t.order[s.from[i]] == s.order[s.from[i]]);
        if j < last {
            assert(linked(grid, blocked, s, j));
            assert(in_turn(grid, s, i, j));
            assert(t.order[j] == s.order[j]);
            assert(t.order[s.from[j]] == s.order[s.from[j]]);
        } else {
            assert(t.from[j] == s.done);
            assert(t.order[j] == n);
            assert(t.order[s.done] == u);
        }
    }
}

/// A cell that is neither blocked nor seen is not the neighbour of
/// `order[done]` in a direction already tried.
proof fn lemma_unseen_neighbour_is_new(
    grid: Topology,
    blocked: Set<Cell>,
    start: Cell,
    s: Search,
    e: Direction,
    cell: Cell,
)
    requires
        inv(grid, blocked, start, s),
        s.done < s.len(),
        !blocked.contains(cell),
        !s.order.contains(cell),
    ensures
        e.place() < s.tried ==> grid.spec_neighbor(s.order[s.done], e) != cell,
{
    if e.place() < s.tried {
        assert(settled(grid, blocked, s, s.done, e));
    }
}

/// `inv` survives when the search looks at a neighbour that is blocked or
/// was seen before.
pub proof fn lemma_pass(grid: Topology, blocked: Set<Cell>, start: Cell, s: Search, d: Direction)
    requires
        inv(grid, blocked, start, s),
        s.done < s.len(),
        s.tried == d.place(),
        blocked.contains(grid.spec_neighbor(s.order[s.done], d)) || s.order.contains(
            grid.spec_neighbor(s.order[s.done], d),
        ),
    ensures
        inv(grid, blocked, start, s.pass()),
{
    let u = s.order[s.done];
    let n = grid.spec_neighbor(u, d);
    let t = s.pass();
    assert forall|i: int| 1 <= i < t.len() implies #[trigger] linked(grid, blocked, t, i) by {
        assert(linked(grid, blocked, s, i));
    }
    assert forall|i: int, e: Direction|
        0 <= i < t.len() && (i < t.done || (i == t.done && e.place() < t.tried))
            implies #[trigger] settled(grid, blocked, t, i, e) by {
        if i == s.done && e.place() == s.tried {
            assert(e == d);
            if !blocked.contains(n) {
                let j = choose|j: int| 0 <= j < s.order.len() && s.order[j] == n;
                assert(s.depth[j] <= s.depth[s.done] + 1);
                if j > 0 {
                    assert(linked(grid, blocked, s, j));
                }
                assert(t.order[j] == n);
                assert(found(t, n, i));
            }
        } else {
            assert(settled(grid, blocked, s, i, e));
            if !blocked.contains(grid.spec_neighbor(s.order[i], e)) {
                let c = grid.spec_neighbor(s.order[i], e);
                let j = choose|j: int|
                    0 <= j < s.len() && #[trigger] s.order[j] == c && s.depth[j] <= s.depth[i] + 1
                        && (j == 0 || s.from[j] <= i);
                assert(t.order[j] == c);
                assert(found(t, c, i));
            }
        }
    }
    assert forall|i: int, j: int| 1 <= i < j < t.len() implies #[trigger] in_turn(
        grid,
        t,
        i,
        j,
    ) by {
        assert(in_turn(grid, s, i, j));
    }
}

/// `inv` survives when the search turns to the next cell.
pub proof fn lemma_finish(grid: Topology, blocked: Set<Cell>, start: Cell, s: Search)
    requires
        inv(grid, blocked, start, s),
        s.done < s.len(),
        s.tried == 4,
    ensures
        inv(grid, blocked, start, s.finish()),
{
    let t = s.finish();
    assert forall|i: int| 1 <= i < t.len() implies #[trigger] linked(grid, blocked, t, i) by {
        assert(linked(grid, blocked, s, i));
    }
    assert forall|i: int| 0 <= i < t.len() && t.done < t.len() implies #[trigger] t.depth[i]
        <= t.depth[t.done] + 1 by {
        assert(s.depth[i] <= s.depth[s.done] + 1);
        assert(s.depth[s.done] <= s.depth[t.done]);
    }
    assert forall|i: int, e: Direction|
        0 <= i < t.len() && (i < t.done || (i == t.done && e.place() < t.tried))
            implies #[trigger] settled(grid, blocked, t, i, e) by {
        assert(e.place() < 4);
        assert(settled(grid, blocked, s, i, e));
        if !blocked.contains(grid.spec_neighbor(s.order[i], e)) {
            let c = grid.spec_neighbor(s.order[i], e);
            let j = choose|j: int|
                0 <= j < s.len() && #[trigger] s.order[j] == c && s.depth[j] <= s.depth[i] + 1 && (j
                    == 0 || s.from[j] <= i);
            assert(t.order[j] == c);
            assert(found(t, c, i));
        }
    }
    assert forall|i: int, j: int| 1 <= i < j < t.len() implies #[trigger] in_turn(
        grid,
        t,
        i,
        j,
    ) by {
        assert(in_turn(grid, s, i, j));
    }
}

/// The chain of parents of a cell is a walk to it, as long as its depth.
pub proof fn lemma_trail(grid: Topology, blocked: Set<Cell>, start: Cell, s: Search, j: int)
    requires
        inv(grid, blocked, start, s),
        0 <= j < s.len(),
    ensures
        is_walk(grid, blocked, start, s.trail(j)),
        s.trail(j).len() == s.depth[j],
        ends_at(start, s.trail(j)) == s.order[j],
    decreases j,
{
    if j > 0 {
        assert(linked(grid, blocked, s, j));
        lemma_trail(grid, blocked, start, s, s.from[j]);
        lemma_walk_push(grid, blocked, start, s.trail(s.from[j]), s.order[j]);
    }
}

/// Of two cells equally deep, the one seen first has the chain of parents
/// that comes first.
pub proof fn lemma_trails_in_turn(
    grid: Topology,
    blocked: Set<Cell>,
    start: Cell,
    s: Search,
    i: int,
    j: int,
)
    requires
        inv(grid, blocked, start, s),
        0 <= i < j < s.len(),
        s.depth[i] == s.depth[j],
    ensures
        precedes(grid, start, s.trail(i), s.trail(j)),
    decreases j,
{
    assert(linked(grid, blocked, s, j));
    if i == 0 {
        assert(s.depth[j] >= 1);
    } else {
        assert(linked(grid, blocked, s, i));
        assert(in_turn(grid, s, i, j));
        let p = s.from[i];
        let q = s.from[j];
        if p < q {
            lemma_trails_in_turn(grid, blocked, start, s, p, q);
            lemma_precedes_push(grid, start, s.trail(p), s.trail(q), s.order[i], s.order[j]);
        } else {
            let t = s.trail(p);
            lemma_trail(grid, blocked, start, s, p);
            let k = t.len() as int;
            assert(t.push(s.order[i]).take(k) =~= t);
            assert(t.push(s.order[j]).take(k) =~= t);
            assert(before(start, t.push(s.order[i]), k) == s.order[p]);
            assert(parts_at(grid, start, s.trail(i), s.trail(j), k));
        }
    }
}

/// Whether the chain of parents of `order[j]` is `walk` or comes before it.
pub open spec fn leads(grid: Topology, start: Cell, s: Search, j: int, walk: Seq<Cell>) -> bool {
    s.trail(j) == walk || precedes(grid, start, s.trail(j), walk)
}

/// Whether `order[j]` is where `walk` ends, no deeper than `walk` is long,
/// and, if as deep, has the chain of parents that is `walk` or comes before
/// it.
pub open spec fn meets(grid: Topology, start: Cell, s: Search, j: int, walk: Seq<Cell>) -> bool {
    &&& 0 <= j < s.len()
    &&& s.order[j] == ends_at(start, walk)
    &&& s.depth[j] <= walk.len()
    &&& (s.depth[j] == walk.len() ==> leads(grid, start, s, j, walk))
}

/// One more step after a walk that `order[i]` meets, to a cell `order[j]`
/// seen from no later cell than `order[i]`.
proof fn lemma_meets_step(
    grid: Topology,
    blocked: Set<Cell>,
    start: Cell,
    s: Search,
    i: int,
    j: int,
    walk: Seq<Cell>,
)
    requires
        inv(grid, blocked, start, s),
        walk.len() >= 1,
        meets(grid, start, s, i, walk.drop_last()),
        1 <= j < s.len(),
        s.order[j] == walk.last(),
        s.from[j] <= i,
        s.depth[j] == walk.len(),
    ensures
        leads(grid, start, s, j, walk),
{
    let short = walk.drop_last();
    let c = walk.last();
    assert(walk =~= short.push(c));
    assert(linked(grid, blocked, s, j));
    let p = s.from[j];
    assert(s.depth[p] <= s.depth[i]);
    assert(s.depth[i] == short.len());
    if p < i {
        lemma_trails_in_turn(grid, blocked, start, s, p, i);
        if s.trail(i) != short {
            lemma_precedes_chains(grid, start, s.trail(p), s.trail(i), short);
        }
        lemma_precedes_push(grid, start, s.trail(p), short, c, c);
    } else {
        if s.trail(i) != short {
            lemma_precedes_push(grid, start, s.trail(i), short, c, c);
        }
    }
}

/// Where every cell less deep than a walk is long has been expanded, the
/// search has seen the walk's end and knows a way there that is no worse.
pub proof fn lemma_walk_is_found(
    grid: Topology,
    blocked: Set<Cell>,
    start: Cell,
    s: Search,
    walk: Seq<Cell>,
) -> (j: int)
    requires
        inv(grid, blocked, start, s),
        is_walk(grid, blocked, start, walk),
        forall|i: int| 0 <= i < s.len() && #[trigger] s.depth[i] < walk.len() ==> i < s.done,
    ensures
        meets(grid, start, s, j, walk),
    decreases walk.len(),
{
    if walk.len() == 0 {
        assert(s.trail(0) =~= walk);
        0
    } else {
        let short = walk.drop_last();
        let c = walk.last();
        lemma_walk_prefix(grid, blocked, start, walk, walk.len() - 1);
        let i = lemma_walk_is_found(grid, blocked, start, s, short);
        assert(s.depth[i] < walk.len());
        assert(i < s.done);
        assert(before(start, walk, walk.len() - 1) == s.order[i]);
        assert(grid.adjacent(s.order[i], c) && !blocked.contains(c));
        let d = lemma_step_direction(grid, s.order[i], c);
        assert(settled(grid, blocked, s, i, d));
        let j = choose|j: int|
            0 <= j < s.len() && #[trigger] s.order[j] == c && s.depth[j] <= s.depth[i] + 1 && (j
                == 0 || s.from[j] <= i);
        if s.depth[j] == walk.len() {
            lemma_meets_step(grid, blocked, start, s, i, j, walk);
        }
        j
    }
}

/// A direction that leads from a cell to a cell next to it.
pub proof fn lemma_step_direction(grid: Topology, a: Cell, b: Cell) -> (d: Direction)
    requires
        grid.adjacent(a, b),
    ensures
        grid.spec_neighbor(a, d) == b,
{
    if grid.spec_neighbor(a, Direction::Up) == b {
        Direction::Up
    } else if grid.spec_neighbor(a, Direction::Down) == b {
        Direction::Down
    } else if grid.spec_neighbor(a, Direction::Right) == b {
        Direction::Right
    } else {
        Direction::Left
    }
}

/// The chain of parents of a cell that the search has seen is no longer
/// than any walk to that cell, and comes before any other of its length.
pub proof fn lemma_trail_is_first(
    grid: Topology,
    blocked: Set<Cell>,
    start: Cell,
    s: Search,
    j: int,
    walk: Seq<Cell>,
)
    requires
        inv(grid, blocked, start, s),
        1 <= j < s.len(),
        is_walk(grid, blocked, start, walk),
        walk.len() >= 1,
        walk.last() == s.order[j],
    ensures
        s.depth[j] <= walk.len(),
        s.depth[j] == walk.len() ==> leads(grid, start, s, j, walk),
{
    assert(linked(grid, blocked, s, j));
    let p = s.from[j];
    if walk.len() <= s.depth[j] {
        let short = walk.drop_last();
        let c = walk.last();
        lemma_walk_prefix(grid, blocked, start, walk, walk.len() - 1);
        assert forall|i: int| 0 <= i < s.len() && #[trigger] s.depth[i] < short.len() implies i
            < s.done by {
            if i >= p {
                assert(s.depth[p] <= s.depth[i]);
            }
        }
        let i = lemma_walk_is_found(grid, blocked, start, s, short);
        assert(before(start, walk, walk.len() - 1) == s.order[i]);
        let d = lemma_step_direction(grid, s.order[i], c);
        if i < p {
            assert(settled(grid, blocked, s, i, d));
            let k = choose|k: int|
                0 <= k < s.len() && #[trigger] s.order[k] == c && s.depth[k] <= s.depth[i] + 1 && (k
                    == 0 || s.from[k] <= i);
            assert(k == j);
            assert(false);
        }
        assert(s.depth[p] <= s.depth[i]);
        lemma_meets_step(grid, blocked, start, s, i, j, walk);
    }
}

/// Where the search has expanded every cell it has seen, it has seen every
/// cell that a walk can reach.
pub proof fn lemma_exhausted(
    grid: Topology,
    blocked: Set<Cell>,
    start: Cell,
    s: Search,
    goal: Cell,
)
    requires
        inv(grid, blocked, start, s),
        s.done == s.len(),
        !s.order.contains(goal),
    ensures
        !reachable(grid, blocked, start, goal),
{
    if reachable(grid, blocked, start, goal) {
        let walk = choose|walk: Seq<Cell>| is_route(grid, blocked, start, goal, walk);
        let j = lemma_walk_is_found(grid, blocked, start, s, walk);
        assert(s.order[j] == goal);
    }
}

/// The chain of parents of a cell that the search has seen is the first
/// route to it.
pub proof fn lemma_trail_is_first_route(
    grid: Topology,
    blocked: Set<Cell>,
    start: Cell,
    s: Search,
    j: int,
)
    requires
        inv(grid, blocked, start, s),
        1 <= j < s.len(),
    ensures
        is_first_route(grid, blocked, start, s.order[j], s.trail(j)),
{
    lemma_trail(grid, blocked, start, s, j);
    assert(linked(grid, blocked, s, j));
    let goal = s.order[j];
    assert forall|other: Seq<Cell>| #[trigger]
        is_route(grid, blocked, start, goal, other) implies {
        &&& s.trail(j).len() <= other.len()
        &&& s.trail(j).len() == other.len() ==> s.trail(j) == other || precedes(
            grid,
            start,
            s.trail(j),
            other,
        )
    } by {
        lemma_trail_is_first(grid, blocked, start, s, j, other);
    }
}

} // verus!
