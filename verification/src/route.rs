//! What a route is, and which route a search is to find.

use crate::direction::Direction;
use crate::topology::Cell;
use crate::topology::Topology;
use vstd::prelude::*;

verus! {

/// The cell from which `walk[i]` is entered: `start` for the first cell,
/// else the cell before it.
pub open spec fn before(start: Cell, walk: Seq<Cell>, i: int) -> Cell {
    if i <= 0 {
        start
    } else {
        walk[i - 1]
    }
}

/// The cell where `walk` ends: `start` for the empty walk.
pub open spec fn ends_at(start: Cell, walk: Seq<Cell>) -> Cell {
    before(start, walk, walk.len() as int)
}

/// Whether `walk` leads away from `start` one step at a time, over cells
/// that are not `blocked`. `start` itself is not part of the walk.
pub open spec fn is_walk(grid: Topology, blocked: Set<Cell>, start: Cell, walk: Seq<Cell>) -> bool {
    forall|i: int|
        0 <= i < walk.len() ==> {
            &&& grid.adjacent(before(start, walk, i), #[trigger] walk[i])
            &&& !blocked.contains(walk[i])
        }
}

/// Whether `walk` is a route from `start` to `goal`: a walk of at least one
/// step that ends on `goal`.
pub open spec fn is_route(
    grid: Topology,
    blocked: Set<Cell>,
    start: Cell,
    goal: Cell,
    walk: Seq<Cell>,
) -> bool {
    &&& walk.len() > 0
    &&& walk.last() == goal
    &&& is_walk(grid, blocked, start, walk)
}

/// Whether some route leads from `start` to `goal`.
pub open spec fn reachable(grid: Topology, blocked: Set<Cell>, start: Cell, goal: Cell) -> bool {
    exists|walk: Seq<Cell>| is_route(grid, blocked, start, goal, walk)
}

/// The place of the step from `from` to `to` in expansion order: 0 for
/// `Up`, 1 for `Down`, 2 for `Right`, 3 for `Left`, taking the first
/// direction that leads there, and 4 where none does.
pub open spec fn rank(grid: Topology, from: Cell, to: Cell) -> nat {
    if grid.spec_neighbor(from, Direction::Up) == to {
        0
    } else if grid.spec_neighbor(from, Direction::Down) == to {
        1
    } else if grid.spec_neighbor(from, Direction::Right) == to {
        2
    } else if grid.spec_neighbor(from, Direction::Left) == to {
        3
    } else {
        4
    }
}

/// Whether `p` comes before `q` among walks from `start`: where they first
/// part, `p` takes the step that expansion order tries first.
pub open spec fn precedes(grid: Topology, start: Cell, p: Seq<Cell>, q: Seq<Cell>) -> bool {
    exists|k: int| parts_at(grid, start, p, q, k)
}

/// Whether `p` and `q` agree on their first `k` cells and `p` then takes
/// the earlier step.
pub open spec fn parts_at(grid: Topology, start: Cell, p: Seq<Cell>, q: Seq<Cell>, k: int) -> bool {
    &&& 0 <= k < p.len()
    &&& k < q.len()
    &&& p.take(k) == q.take(k)
    &&& rank(grid, before(start, p, k), p[k]) < rank(grid, before(start, p, k), q[k])
}

/// Whether `walk` is the route that a search settles on: no route is
/// shorter, and among the routes of its length none comes before it.
pub open spec fn is_first_route(
    grid: Topology,
    blocked: Set<Cell>,
    start: Cell,
    goal: Cell,
    walk: Seq<Cell>,
) -> bool {
    &&& is_route(grid, blocked, start, goal, walk)
    &&& forall|other: Seq<Cell>| #[trigger]
        is_route(grid, blocked, start, goal, other) ==> {
            &&& walk.len() <= other.len()
            &&& walk.len() == other.len() ==> walk == other || precedes(grid, start, walk, other)
        }
}

/// A walk without its last step is a walk.
pub proof fn lemma_walk_prefix(
    grid: Topology,
    blocked: Set<Cell>,
    start: Cell,
    walk: Seq<Cell>,
    n: int,
)
    requires
        is_walk(grid, blocked, start, walk),
        0 <= n <= walk.len(),
    ensures
        is_walk(grid, blocked, start, walk.take(n)),
{
    let short = walk.take(n);
    assert forall|i: int| 0 <= i < short.len() implies {
        &&& grid.adjacent(before(start, short, i), #[trigger] short[i])
        &&& !blocked.contains(short[i])
    } by {
        assert(short[i] == walk[i]);
        assert(before(start, short, i) == before(start, walk, i));
    }
}

/// A walk with one more step, over a free neighbour of its end, is a walk.
pub proof fn lemma_walk_push(
    grid: Topology,
    blocked: Set<Cell>,
    start: Cell,
    walk: Seq<Cell>,
    next: Cell,
)
    requires
        is_walk(grid, blocked, start, walk),
        grid.adjacent(ends_at(start, walk), next),
        !blocked.contains(next),
    ensures
        is_walk(grid, blocked, start, walk.push(next)),
        ends_at(start, walk.push(next)) == next,
{
    let long = walk.push(next);
    assert forall|i: int| 0 <= i < long.len() implies {
        &&& grid.adjacent(before(start, long, i), #[trigger] long[i])
        &&& !blocked.contains(long[i])
    } by {
        if i < walk.len() {
            assert(long[i] == walk[i]);
            assert(before(start, long, i) == before(start, walk, i));
        }
    }
}

/// Two walks cannot each come before the other.
pub proof fn lemma_precedes_is_one_way(grid: Topology, start: Cell, p: Seq<Cell>, q: Seq<Cell>)
    requires
        precedes(grid, start, p, q),
    ensures
        !precedes(grid, start, q, p),
        p != q,
{
    let k = choose|k: int| parts_at(grid, start, p, q, k);
    assert(p.take(k) =~= q.take(k));
    assert(before(start, p, k) == before(start, q, k)) by {
        if k > 0 {
            assert(p.take(k)[k - 1] == q.take(k)[k - 1]);
        }
    }
    if precedes(grid, start, q, p) {
        let m = choose|m: int| parts_at(grid, start, q, p, m);
        assert(before(start, q, m) == before(start, p, m)) by {
            if m > 0 {
                assert(q.take(m)[m - 1] == p.take(m)[m - 1]);
            }
        }
        if m < k {
            assert(p.take(k)[m] == q.take(k)[m]);
        } else if k < m {
            assert(q.take(m)[k] == p.take(m)[k]);
        } else {
        }
    }
}

/// Coming before carries over a walk in the middle.
pub proof fn lemma_precedes_chains(
    grid: Topology,
    start: Cell,
    p: Seq<Cell>,
    q: Seq<Cell>,
    r: Seq<Cell>,
)
    requires
        precedes(grid, start, p, q),
        precedes(grid, start, q, r),
    ensures
        precedes(grid, start, p, r),
{
    let k = choose|k: int| parts_at(grid, start, p, q, k);
    let m = choose|m: int| parts_at(grid, start, q, r, m);
    assert(before(start, p, k) == before(start, q, k)) by {
        if k > 0 {
            assert(p.take(k)[k - 1] == q.take(k)[k - 1]);
        }
    }
    assert(before(start, q, m) == before(start, r, m)) by {
        if m > 0 {
            assert(q.take(m)[m - 1] == r.take(m)[m - 1]);
        }
    }
    if k < m {
        assert(q.take(m)[k] == r.take(m)[k]);
        assert(p.take(k) =~= r.take(k)) by {
            assert forall|i: int| 0 <= i < k implies p[i] == r[i] by {
                assert(p.take(k)[i] == q.take(k)[i]);
                assert(q.take(m)[i] == r.take(m)[i]);
            }
        }
        assert(parts_at(grid, start, p, r, k));
    } else if m < k {
        assert(p.take(k)[m] == q.take(k)[m]);
        assert(before(start, p, m) == before(start, q, m)) by {
            if m > 0 {
                assert(p.take(k)[m - 1] == q.take(k)[m - 1]);
            }
        }
        assert(p.take(m) =~= r.take(m)) by {
            assert forall|i: int| 0 <= i < m implies p[i] == r[i] by {
                assert(p.take(k)[i] == q.take(k)[i]);
                assert(q.take(m)[i] == r.take(m)[i]);
            }
        }
        assert(parts_at(grid, start, p, r, m));
    } else {
        assert(p.take(k) =~= r.take(k)) by {
            assert forall|i: int| 0 <= i < k implies p[i] == r[i] by {
                assert(p.take(k)[i] == q.take(k)[i]);
                assert(q.take(m)[i] == r.take(m)[i]);
            }
        }
        assert(parts_at(grid, start, p, r, k));
    }
}

/// Coming before survives one more step on both walks.
pub proof fn lemma_precedes_push(
    grid: Topology,
    start: Cell,
    p: Seq<Cell>,
    q: Seq<Cell>,
    a: Cell,
    b: Cell,
)
    requires
        precedes(grid, start, p, q),
    ensures
        precedes(grid, start, p.push(a), q.push(b)),
{
    let k = choose|k: int| parts_at(grid, start, p, q, k);
    assert(p.push(a).take(k) =~= p.take(k));
    assert(q.push(b).take(k) =~= q.take(k));
    assert(before(start, p.push(a), k) == before(start, p, k));
    assert(parts_at(grid, start, p.push(a), q.push(b), k));
}

/// A search settles on at most one route.
pub proof fn lemma_first_route_is_unique(
    grid: Topology,
    blocked: Set<Cell>,
    start: Cell,
    goal: Cell,
    p: Seq<Cell>,
    q: Seq<Cell>,
)
    requires
        is_first_route(grid, blocked, start, goal, p),
        is_first_route(grid, blocked, start, goal, q),
    ensures
        p == q,
{
    assert(is_route(grid, blocked, start, goal, q));
    assert(is_route(grid, blocked, start, goal, p));
    if p != q {
        lemma_precedes_is_one_way(grid, start, p, q);
    }
}

} // verus!
