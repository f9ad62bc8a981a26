//! Distance on the wrapped grid, and what it says of a plan where nothing
//! but the head is in the way.

use crate::bfs::is_plan;
use crate::direction::Direction;
use crate::game::GameView;
use crate::route::before;
use crate::route::ends_at;
use crate::route::is_route;
use crate::route::is_walk;
use crate::route::lemma_walk_prefix;
use crate::route::reachable;
use crate::search::lemma_step_direction;
use crate::topology::Cell;
use crate::topology::Topology;
use vstd::prelude::*;

verus! {

/// The distance between coordinates `a` and `b` on an axis of `size` cells
/// that wraps: the shorter of the two ways round.
pub open spec fn axis_distance(a: int, b: int, size: int) -> int {
    let apart = if a >= b {
        a - b
    } else {
        b - a
    };
    if apart <= size - apart {
        apart
    } else {
        size - apart
    }
}

/// The least number of steps between `a` and `b` on `grid` when nothing is
/// in the way: `min(|dx|, W - |dx|) + min(|dy|, H - |dy|)`.
pub open spec fn toroidal_distance(grid: Topology, a: Cell, b: Cell) -> int {
    axis_distance(a.0 as int, b.0 as int, grid.cols as int) + axis_distance(
        a.1 as int,
        b.1 as int,
        grid.rows as int,
    )
}

/// One step changes the distance to any cell by at most one.
pub proof fn lemma_step_is_one(grid: Topology, a: Cell, d: Direction, goal: Cell)
    requires
        grid.wf(),
        grid.contains(a),
        grid.contains(goal),
    ensures
        toroidal_distance(grid, a, goal) <= toroidal_distance(
            grid,
            grid.spec_neighbor(a, d),
            goal,
        ) + 1,
        toroidal_distance(grid, grid.spec_neighbor(a, d), goal) <= toroidal_distance(
            grid,
            a,
            goal,
        ) + 1,
{
}

/// From any cell but the goal, some step leads one nearer to the goal.
pub proof fn lemma_closer_step(grid: Topology, from: Cell, goal: Cell) -> (d: Direction)
    requires
        grid.wf(),
        grid.contains(from),
        grid.contains(goal),
        from != goal,
    ensures
        toroidal_distance(grid, grid.spec_neighbor(from, d), goal) == toroidal_distance(
            grid,
            from,
            goal,
        ) - 1,
{
    let w = grid.cols as int;
    let h = grid.rows as int;
    if from.0 != goal.0 {
        let ahead = if goal.0 >= from.0 {
            goal.0 - from.0
        } else {
            goal.0 - from.0 + w
        };
        if ahead <= w - ahead {
            Direction::Right
        } else {
            Direction::Left
        }
    } else {
        let ahead = if goal.1 >= from.1 {
            goal.1 - from.1
        } else {
            goal.1 - from.1 + h
        };
        if ahead <= h - ahead {
            Direction::Down
        } else {
            Direction::Up
        }
    }
}

/// A walk brings its end no nearer to a goal than it is long.
pub proof fn lemma_walk_is_no_shortcut(
    grid: Topology,
    blocked: Set<Cell>,
    start: Cell,
    goal: Cell,
    walk: Seq<Cell>,
)
    requires
        grid.wf(),
        grid.contains(start),
        grid.contains(goal),
        is_walk(grid, blocked, start, walk),
    ensures
        grid.contains(ends_at(start, walk)),
        toroidal_distance(grid, start, goal) <= walk.len() + toroidal_distance(
            grid,
            ends_at(start, walk),
            goal,
        ),
    decreases walk.len(),
{
    if walk.len() > 0 {
        let n = walk.len() - 1;
        let short = walk.take(n);
        lemma_walk_prefix(grid, blocked, start, walk, n);
        lemma_walk_is_no_shortcut(grid, blocked, start, goal, short);
        let from = ends_at(start, short);
        assert(from == before(start, walk, n)) by {
            if n > 0 {
                assert(short[n - 1] == walk[n - 1]);
            }
        }
        assert(grid.adjacent(from, walk[n]));
        let d = lemma_step_direction(grid, from, walk[n]);
        lemma_step_is_one(grid, from, d, goal);
    }
}

/// Where every blocked cell is at least as far from the goal as `from` is,
/// a walk as long as the distance leads from `from` to the goal.
pub proof fn lemma_direct_walk(grid: Topology, blocked: Set<Cell>, from: Cell, goal: Cell) -> (walk:
    Seq<Cell>)
    requires
        grid.wf(),
        grid.contains(from),
        grid.contains(goal),
        forall|c: Cell| #[trigger]
            blocked.contains(c) ==> toroidal_distance(grid, c, goal) >= toroidal_distance(
                grid,
                from,
                goal,
            ),
    ensures
        is_walk(grid, blocked, from, walk),
        walk.len() == toroidal_distance(grid, from, goal),
        ends_at(from, walk) == goal,
    decreases toroidal_distance(grid, from, goal),
{
    if from == goal {
        Seq::empty()
    } else {
        let d = lemma_closer_step(grid, from, goal);
        let next = grid.spec_neighbor(from, d);
        let rest = lemma_direct_walk(grid, blocked, next, goal);
        let walk = seq![next] + rest;
        assert forall|i: int| 0 <= i < walk.len() implies {
            &&& grid.adjacent(before(from, walk, i), #[trigger] walk[i])
            &&& !blocked.contains(walk[i])
        } by {
            if i > 0 {
                assert(walk[i] == rest[i - 1]);
                assert(before(from, walk, i) == before(next, rest, i - 1)) by {
                    if i > 1 {
                        assert(walk[i - 1] == rest[i - 2]);
                    }
                }
            }
        }
        assert(ends_at(from, walk) == goal) by {
            if rest.len() > 0 {
                assert(walk[walk.len() - 1] == rest[rest.len() - 1]);
            }
        }
        walk
    }
}

/// Where the snake is its head alone, the plan is as long as the toroidal
/// distance from the head to the fruit. (A fruit under the head is at
/// distance 0, and the plan for it is empty.)
pub proof fn lemma_open_grid_plan_length(world: GameView, path: Seq<Cell>)
    requires
        world.valid(),
        world.body.len() == 1,
        is_plan(world, path),
    ensures
        path.len() == toroidal_distance(world.grid, world.head(), world.fruit),
{
    let grid = world.grid;
    let blocked = world.occupied();
    let head = world.head();
    let goal = world.fruit;
    assert(grid.contains(world.body[0]));
    assert(blocked.contains(head)) by {
        assert(world.body[0] == head);
    }
    if goal == head {
        assert forall|walk: Seq<Cell>| !is_route(grid, blocked, head, goal, walk) by {
            if walk.len() > 0 && walk.last() == goal {
                assert(blocked.contains(walk[walk.len() - 1]));
            }
        }
    } else {
        assert forall|c: Cell| #[trigger] blocked.contains(c) implies toroidal_distance(
            grid,
            c,
            goal,
        ) >= toroidal_distance(grid, head, goal) by {
            let k = choose|k: int| 0 <= k < world.body.len() && world.body[k] == c;
            assert(c == head);
        }
        let direct = lemma_direct_walk(grid, blocked, head, goal);
        assert(direct.len() > 0);
        assert(is_route(grid, blocked, head, goal, direct));
        assert(reachable(grid, blocked, head, goal));
        assert(is_route(grid, blocked, head, goal, path));
        lemma_walk_is_no_shortcut(grid, blocked, head, goal, path);
    }
}

} // verus!
