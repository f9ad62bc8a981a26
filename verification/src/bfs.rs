//! The planner: a breadth-first search from the snake's head to the fruit,
//! and the autopilot that follows what it found.

use crate::census::free_cells;
use crate::census::lemma_take_cell;
use crate::direction::expansion_order;
use crate::direction::Direction;
use crate::game::Game;
use crate::game::GameView;
use crate::route::before;
use crate::route::is_first_route;
use crate::route::is_route;
use crate::route::lemma_first_route_is_unique;
use crate::route::reachable;
use crate::search::inv;
use crate::search::lemma_begin;
use crate::search::lemma_discover;
use crate::search::lemma_exhausted;
use crate::search::lemma_finish;
use crate::search::lemma_pass;
use crate::search::lemma_step_direction;
use crate::search::lemma_trail_is_first_route;
use crate::search::linked;
use crate::search::Search;
use crate::topology::same_cell;
use crate::topology::Cell;
use crate::topology::Topology;
use std::collections::VecDeque;
use vstd::prelude::*;

verus! {

/// What a `Bfs` stands for.
pub struct BfsView {
    /// The shape of the grid that the planner last worked on.
    pub grid: Topology,
    /// The cells still to be entered, next first. Empty where there is no
    /// route or the route has been used up.
    pub path: Seq<Cell>,
}

/// Whether `path` is what planning on `world` gives: the first route from
/// the head to the fruit over cells that the snake leaves free, or no cell
/// where there is no such route.
pub open spec fn is_plan(world: GameView, path: Seq<Cell>) -> bool {
    if reachable(world.grid, world.occupied(), world.head(), world.fruit) {
        is_first_route(world.grid, world.occupied(), world.head(), world.fruit, path)
    } else {
        path.len() == 0
    }
}

/// Whether `cell` is a step from the head of `world`: on the grid and next
/// to the head.
pub open spec fn is_next_step(world: GameView, cell: Cell) -> bool {
    &&& world.grid.contains(cell)
    &&& world.grid.adjacent(world.head(), cell)
}

/// Whether the path `held` can be followed on `world`: it is not used up,
/// and its next cell is a step from the head.
pub open spec fn is_held(world: GameView, held: Seq<Cell>) -> bool {
    held.len() > 0 && is_next_step(world, held[0])
}

/// Whether `route` is what the autopilot follows on `world` when it holds
/// `held`: `held` itself where that can be followed, else a fresh plan.
pub open spec fn is_followed(world: GameView, held: Seq<Cell>, route: Seq<Cell>) -> bool {
    if is_held(world, held) {
        route == held
    } else {
        is_plan(world, route)
    }
}

/// Whether the autopilot, holding `held` on `world` and following `route`,
/// has done its part: with a route, the first cell has left the path and the
/// snake is turned towards it; without one, nothing has changed. The first
/// cell of a fresh plan is free of the snake.
pub open spec fn is_steered(
    world: GameView,
    held: Seq<Cell>,
    route: Seq<Cell>,
    steered: Option<Direction>,
    path_after: Seq<Cell>,
    world_after: GameView,
) -> bool {
    &&& is_followed(world, held, route)
    &&& match steered {
        Some(d) => {
            &&& route.len() > 0
            &&& d == Direction::spec_get_direction(world.head(), route[0], world.grid)
            &&& world.grid.spec_neighbor(world.head(), d) == route[0]
            &&& !is_held(world, held) ==> !world.body.contains(route[0])
            &&& path_after == route.drop_first()
            &&& world_after == (GameView { direction: d, ..world })
        },
        None => {
            &&& route.len() == 0
            &&& path_after.len() == 0
            &&& world_after == world
        },
    }
}

/// The planner. Its grids are scratch space, made anew for every plan;
/// what it keeps from one tick to the next is the path.
pub struct Bfs {
    rows: usize,
    cols: usize,
    grid: Vec<Vec<bool>>,
    source: Vec<Vec<Cell>>,
    visited: Vec<Vec<bool>>,
    queue: VecDeque<Cell>,
    path: VecDeque<Cell>,
}

impl View for Bfs {
    type V = BfsView;

    closed spec fn view(&self) -> BfsView {
        BfsView { grid: Topology { cols: self.cols, rows: self.rows }, path: self.path@ }
    }
}

/// Returns a grid of `cols` columns by `rows` rows with no cell marked.
fn blank_marks(cols: usize, rows: usize) -> (marks: Vec<Vec<bool>>)
    ensures
        marks@.len() == cols,
        forall|x: int| 0 <= x < cols ==> (#[trigger] marks@[x])@.len() == rows,
        forall|x: int, y: int| 0 <= x < cols && 0 <= y < rows ==> !marks@[x]@[y],
{
    let mut marks: Vec<Vec<bool>> = Vec::new();
    let mut x: usize = 0;
    while x < cols
        invariant
            x <= cols,
            marks@.len() == x,
            forall|i: int| 0 <= i < x ==> (#[trigger] marks@[i])@.len() == rows,
            forall|i: int, j: int| 0 <= i < x && 0 <= j < rows ==> !marks@[i]@[j],
        decreases cols - x,
    {
        let mut column: Vec<bool> = Vec::new();
        let mut y: usize = 0;
        while y < rows
            invariant
                y <= rows,
                column@.len() == y,
                forall|j: int| 0 <= j < y ==> !column@[j],
            decreases rows - y,
        {
            column.push(false);
            y += 1;
        }
        marks.push(column);
        x += 1;
    }
    marks
}

/// Returns a grid of `cols` columns by `rows` rows that holds the origin in
/// every cell.
fn blank_sources(cols: usize, rows: usize) -> (cells: Vec<Vec<Cell>>)
    ensures
        cells@.len() == cols,
        forall|x: int| 0 <= x < cols ==> (#[trigger] cells@[x])@.len() == rows,
{
    let mut cells: Vec<Vec<Cell>> = Vec::new();
    let mut x: usize = 0;
    while x < cols
        invariant
            x <= cols,
            cells@.len() == x,
            forall|i: int| 0 <= i < x ==> (#[trigger] cells@[i])@.len() == rows,
        decreases cols - x,
    {
        let mut column: Vec<Cell> = Vec::new();
        let mut y: usize = 0;
        while y < rows
            invariant
                y <= rows,
                column@.len() == y,
            decreases rows - y,
        {
            column.push((0, 0));
            y += 1;
        }
        cells.push(column);
        x += 1;
    }
    cells
}

impl Bfs {
    /// The three grids have the planner's own shape.
    closed spec fn sized(&self) -> bool {
        &&& self.grid@.len() == self.cols
        &&& self.source@.len() == self.cols
        &&& self.visited@.len() == self.cols
        &&& forall|x: int| 0 <= x < self.cols ==> (#[trigger] self.grid@[x])@.len() == self.rows
        &&& forall|x: int| 0 <= x < self.cols ==> (#[trigger] self.source@[x])@.len() == self.rows
        &&& forall|x: int| 0 <= x < self.cols ==> (#[trigger] self.visited@[x])@.len() == self.rows
    }

    /// The grids say what `blocked` and the search `s` say: which cells are
    /// blocked, which were seen, and from where.
    closed spec fn mirrors(&self, blocked: Set<Cell>, s: Search) -> bool {
        &&& self.sized()
        &&& forall|c: Cell| #[trigger]
            self@.grid.contains(c) ==> self.grid@[c.0 as int]@[c.1 as int] == blocked.contains(c)
        &&& forall|c: Cell| #[trigger]
            self@.grid.contains(c) ==> self.visited@[c.0 as int]@[c.1 as int] == s.order.contains(
                c,
            )
        &&& forall|i: int|
            1 <= i < s.len() ==> self.source@[(#[trigger] s.order[i]).0 as int]@[s.order[i].1
                as int] == s.order[s.from[i]]
    }

    /// Creates a planner for a grid of `rows` by `cols` cells, with no path.
    pub fn new(rows: usize, cols: usize) -> (bfs: Bfs)
        ensures
            bfs@ == (BfsView { grid: Topology { cols, rows }, path: Seq::empty() }),
    {
        Bfs::fresh(rows, cols)
    }

    /// Makes the planner's state anew: no cell blocked, none seen, nothing
    /// queued, no path.
    fn fresh(rows: usize, cols: usize) -> (bfs: Bfs)
        ensures
            bfs@ == (BfsView { grid: Topology { cols, rows }, path: Seq::empty() }),
            bfs.sized(),
            forall|c: Cell| #[trigger]
                bfs@.grid.contains(c) ==> !bfs.grid@[c.0 as int]@[c.1 as int]
                    && !bfs.visited@[c.0 as int]@[c.1 as int],
            bfs.queue@.len() == 0,
    {
        Bfs {
            rows: rows,
            cols: cols,
            grid: blank_marks(cols, rows),
            source: blank_sources(cols, rows),
            visited: blank_marks(cols, rows),
            queue: VecDeque::new(),
            path: VecDeque::new(),
        }
    }

    /// Returns the cells still to be entered, next first.
    pub fn path(&self) -> (cells: Vec<Cell>)
        ensures
            cells@ == self@.path,
    {
        let mut cells: Vec<Cell> = Vec::new();
        let mut i: usize = 0;
        while i < self.path.len()
            invariant
                i <= self.path@.len(),
                cells@ == self.path@.take(i as int),
            decreases self.path@.len() - i,
        {
            cells.push(self.path[i]);
            assert(self.path@.take(i as int).push(self.path@[i as int]) =~= self.path@.take(i + 1));
            i += 1;
        }
        assert(self.path@.take(i as int) =~= self.path@);
        cells
    }

    /// Plans anew on `game`, on fresh scratch grids of the game's shape, and
    /// keeps the route found as the path. Returns whether there is a route.
    ///
    /// The search spreads from the head over free cells, trying `Up`,
    /// `Down`, `Right`, `Left` at each, and stops when it sees the fruit.
    /// The path is then the first route: the shortest, and among the
    /// shortest the one that takes the earlier step where two part. Where
    /// the search runs out of cells first there is no route, and the path
    /// is empty.
    pub fn update(&mut self, game: &Game) -> (found: bool)
        requires
            game.wf(),
        ensures
            final(self)@.grid == game@.grid,
            found == reachable(game@.grid, game@.occupied(), game@.head(), game@.fruit),
            is_plan(game@, final(self)@.path),
    {
        let topo = game.grid();
        let start = game.head();
        let goal = game.fruit();
        let ghost blocked = game@.occupied();
        *self = Bfs::fresh(topo.rows, topo.cols);
        let body = game.snake();
        let mut i: usize = 0;
        while i < body.len()
            invariant
                i <= body.len(),
                body@ == game@.body,
                game.wf(),
                self.sized(),
                self@ == (BfsView { grid: game@.grid, path: Seq::empty() }),
                self.queue@.len() == 0,
                forall|c: Cell| #[trigger]
                    self@.grid.contains(c) ==> self.grid@[c.0 as int]@[c.1 as int] == body@.take(
                        i as int,
                    ).contains(c),
                forall|c: Cell| #[trigger]
                    self@.grid.contains(c) ==> !self.visited@[c.0 as int]@[c.1 as int],
            decreases body.len() - i,
        {
            let cell = body[i];
            assert(game@.grid.contains(game@.body[i as int]));
            let ghost marked = body@.take(i as int);
            self.grid[cell.0][cell.1] = true;
            proof {
                let longer = body@.take(i + 1);
                assert(longer =~= marked.push(cell));
                assert forall|c: Cell| #[trigger] self@.grid.contains(c) implies self.grid@[c.0
                    as int]@[c.1 as int] == longer.contains(c) by {
                    if c == cell {
                        assert(longer[i as int] == c);
                    } else if marked.contains(c) {
                        let k = choose|k: int| 0 <= k < marked.len() && marked[k] == c;
                        assert(longer[k] == c);
                    } else if longer.contains(c) {
                        let k = choose|k: int| 0 <= k < longer.len() && longer[k] == c;
                        assert(marked[k] == c);
                    }
                }
            }
            i += 1;
        }
        proof {
            assert(body@.take(i as int) =~= body@);
            assert(self@.grid.contains(goal));
            assert forall|c: Cell| #[trigger] self@.grid.contains(c) implies self.grid@[c.0
                as int]@[c.1 as int] == blocked.contains(c) by {
                assert(blocked.contains(c) == game@.body.contains(c));
            }
        }
        if self.grid[goal.0][goal.1] {
            assert forall|walk: Seq<Cell>| !is_route(
                game@.grid,
                blocked,
                start,
                goal,
                walk,
            ) by {
                if walk.len() > 0 && walk.last() == goal {
                    assert(walk[walk.len() - 1] == goal);
                    assert(blocked.contains(goal));
                }
            }
            return false;
        }
        self.queue.push_back(start);
        self.source[start.0][start.1] = start;
        self.visited[start.0][start.1] = true;
        let ghost mut s = Search::begin(start);
        proof {
            lemma_begin(game@.grid, blocked, start);
            assert(self.queue@ =~= s.order.subrange(0, 1));
            assert forall|c: Cell| #[trigger] self@.grid.contains(c) implies self.visited@[c.0
                as int]@[c.1 as int] == s.order.contains(c) by {
                if c == start {
                    assert(s.order[0] == c);
                }
            }
        }
        while self.queue.len() > 0
            invariant
                game.wf(),
                topo == game@.grid,
                start == game@.head(),
                goal == game@.fruit,
                blocked == game@.occupied(),
                !blocked.contains(goal),
                self@ == (BfsView { grid: game@.grid, path: Seq::empty() }),
                inv(topo, blocked, start, s),
                s.tried == 0,
                self.mirrors(blocked, s),
                self.queue@ == s.order.subrange(s.done, s.len()),
                !s.order.contains(goal),
            decreases free_cells(s.seen(), topo) + self.queue@.len(),
        {
            let next = self.queue.pop_front();
            let cell = match next {
                Some(c) => c,
                None => start,
            };
            assert(cell == s.order[s.done]);
            assert(self.queue@ =~= s.order.subrange(s.done + 1, s.len()));
            let after = self.add_edges(cell, Ghost(blocked), Ghost(start), Ghost(s));
            proof {
                s = after@;
            }
            if self.visited[goal.0][goal.1] {
                let ghost g = choose|g: int| 0 <= g < s.order.len() && s.order[g] == goal;
                assert(g != 0) by {
                    assert(blocked.contains(start)) by {
                        assert(game@.body[0] == start);
                    }
                }
                self.get_path(start, goal, Ghost(blocked), Ghost(s), Ghost(g));
                proof {
                    lemma_trail_is_first_route(topo, blocked, start, s, g);
                }
                return true;
            }
        }
        proof {
            assert(s.done == s.len()) by {
                if s.done < s.len() {
                    assert(s.order.subrange(s.done, s.len())[0] == s.order[s.done]);
                }
            }
            lemma_exhausted(topo, blocked, start, s, goal);
        }
        false
    }

    /// Looks at the four neighbours of `source`, which has just left the
    /// queue, in expansion order. Each one that is neither blocked nor seen
    /// is marked as seen from `source` and joins the queue.
    fn add_edges(
        &mut self,
        source: Cell,
        Ghost(blocked): Ghost<Set<Cell>>,
        Ghost(start): Ghost<Cell>,
        Ghost(before): Ghost<Search>,
    ) -> (after: Ghost<Search>)
        requires
            inv(old(self)@.grid, blocked, start, before),
            before.done < before.len(),
            before.tried == 0,
            source == before.order[before.done],
            old(self).mirrors(blocked, before),
            old(self).queue@ == before.order.subrange(before.done + 1, before.len()),
        ensures
            final(self)@ == old(self)@,
            inv(final(self)@.grid, blocked, start, after@),
            after@.done == before.done + 1,
            after@.tried == 0,
            final(self).mirrors(blocked, after@),
            final(self).queue@ == after@.order.subrange(after@.done, after@.len()),
            free_cells(after@.seen(), final(self)@.grid) + final(self).queue@.len() == free_cells(
                before.seen(),
                old(self)@.grid,
            ) + old(self).queue@.len(),
    {
        let topo = Topology { cols: self.cols, rows: self.rows };
        let ghost mut s = before;
        let directions = Direction::iter();
        let mut k: usize = 0;
        while k < 4
            invariant
                k <= 4,
                directions@ == expansion_order(),
                topo == self@.grid,
                self@ == old(self)@,
                inv(topo, blocked, start, s),
                s.done == before.done,
                s.done < s.len(),
                s.tried == k,
                source == s.order[s.done],
                self.mirrors(blocked, s),
                self.queue@ == s.order.subrange(s.done + 1, s.len()),
                free_cells(s.seen(), topo) + self.queue@.len() == free_cells(before.seen(), topo)
                    + old(self).queue@.len(),
            decreases 4 - k,
        {
            let direction = directions[k];
            assert(direction == expansion_order()[k as int]);
            assert(direction.place() == k);
            assert(topo.contains(s.order[s.done]));
            let next = topo.neighbor(source, direction);
            if !self.visited[next.0][next.1] && !self.grid[next.0][next.1] {
                self.queue.push_back(next);
                self.source[next.0][next.1] = source;
                self.visited[next.0][next.1] = true;
                proof {
                    let t = s.discover(next);
                    lemma_discover(topo, blocked, start, s, direction);
                    assert(self.queue@ =~= t.order.subrange(t.done + 1, t.len()));
                    assert(t.seen() =~= s.seen().insert(next)) by {
                        assert forall|c: Cell| t.seen().contains(c) == s.seen().insert(
                            next,
                        ).contains(c) by {
                            if s.order.contains(c) {
                                let j = choose|j: int| 0 <= j < s.order.len() && s.order[j] == c;
                                assert(t.order[j] == c);
                            }
                            if c == next {
                                assert(t.order[s.len()] == c);
                            }
                            if t.order.contains(c) && c != next {
                                let j = choose|j: int| 0 <= j < t.order.len() && t.order[j] == c;
                                assert(s.order[j] == c);
                            }
                        }
                    }
                    lemma_take_cell(s.seen(), topo, next);
                    assert forall|c: Cell| #[trigger]
                        self@.grid.contains(c) implies self.visited@[c.0 as int]@[c.1 as int]
                        == t.order.contains(c) by {
                        assert(t.seen().contains(c) == s.seen().insert(next).contains(c));
                    }
                    assert forall|i: int| 1 <= i < t.len() implies self.source@[(
                    #[trigger] t.order[i]).0 as int]@[t.order[i].1 as int]
                        == t.order[t.from[i]] by {
                        if i < s.len() {
                            assert(t.order[i] == s.order[i]);
                            assert(linked(topo, blocked, s, i));
                            assert(s.order[i] != next);
                            assert(t.order[s.from[i]] == s.order[s.from[i]]);
                        } else {
                            assert(t.order[s.done] == source);
                        }
                    }
                    s = t;
                }
            } else {
                proof {
                    lemma_pass(topo, blocked, start, s, direction);
                    s = s.pass();
                }
            }
            k += 1;
        }
        proof {
            lemma_finish(topo, blocked, start, s);
            s = s.finish();
        }
        Ghost(s)
    }

    /// Walks the parents back from `goal` to `start` and keeps the cells
    /// passed, `goal` last, as the path.
    fn get_path(
        &mut self,
        start: Cell,
        goal: Cell,
        Ghost(blocked): Ghost<Set<Cell>>,
        Ghost(s): Ghost<Search>,
        Ghost(g): Ghost<int>,
    )
        requires
            inv(old(self)@.grid, blocked, start, s),
            old(self).mirrors(blocked, s),
            1 <= g < s.len(),
            s.order[g] == goal,
        ensures
            final(self)@ == (BfsView { path: s.trail(g), ..old(self)@ }),
    {
        self.path = VecDeque::new();
        let mut cell = goal;
        let ghost mut j = g;
        while !same_cell(cell, start)
            invariant
                inv(self@.grid, blocked, start, s),
                self.mirrors(blocked, s),
                self@.grid == old(self)@.grid,
                0 <= j < s.len(),
                s.order[j] == cell,
                s.trail(j) + self.path@ == s.trail(g),
            decreases j,
        {
            assert(j > 0);
            assert(linked(self@.grid, blocked, s, j));
            assert(self@.grid.contains(s.order[j]));
            let ghost shorter = self.path@;
            self.path.push_front(cell);
            cell = self.source[cell.0][cell.1];
            proof {
                assert(s.trail(s.from[j]) + self.path@ =~= s.trail(j) + shorter);
                j = s.from[j];
            }
        }
        proof {
            assert(j == 0);
            assert(s.trail(0) + self.path@ =~= self.path@);
        }
    }

    /// Plans anew on `game` and returns the route found: the cells from the
    /// one after the head to the fruit. Returns `None` where there is no
    /// route, which is not the same as a route that has been used up.
    pub fn plan(&mut self, game: &Game) -> (route: Option<Vec<Cell>>)
        requires
            game.wf(),
        ensures
            final(self)@.grid == game@.grid,
            route is Some <==> reachable(
                game@.grid,
                game@.occupied(),
                game@.head(),
                game@.fruit,
            ),
            route matches Some(cells) ==> cells@ == final(self)@.path && cells@.len() > 0,
            is_plan(game@, final(self)@.path),
    {
        if self.update(game) {
            Some(self.path())
        } else {
            None
        }
    }

    /// Steers `game` one step along the path, and returns the direction
    /// chosen.
    ///
    /// Where a path is held, its first cell leaves the path and the snake
    /// is turned towards it. Where none is held, because the path is used
    /// up or because its next cell is no step from the head, the planner
    /// plans anew, once, and the same is done with the fresh path. Where
    /// planning finds no route, the snake keeps its heading and `None` is
    /// returned; the next call plans again.
    pub fn update_direction(&mut self, game: &mut Game) -> (steered: Option<Direction>)
        requires
            old(game).wf(),
        ensures
            final(game).wf(),
            exists|route: Seq<Cell>| #[trigger]
                is_steered(
                    old(game)@,
                    old(self)@.path,
                    route,
                    steered,
                    final(self)@.path,
                    final(game)@,
                ),
    {
        let topo = game.grid();
        let head = game.head();
        let ghost held = self.path@;
        let ghost world = game@;
        assert(world == old(game)@);
        assert(held == old(self)@.path);
        let mut fresh = true;
        if self.path.len() > 0 {
            let next = self.path[0];
            if next.0 < topo.cols && next.1 < topo.rows {
                let d = Direction::get_direction(head, next, &topo);
                if same_cell(topo.neighbor(head, d), next) {
                    fresh = false;
                }
            }
        }
        if fresh {
            self.update(game);
        }
        let ghost route = self.path@;
        proof {
            if fresh {
                if is_held(world, held) {
                    assert(world.grid.spec_neighbor(
                        world.head(),
                        Direction::spec_get_direction(world.head(), held[0], world.grid),
                    ) == held[0]);
                    assert(false);
                }
            } else {
                assert(is_held(world, held));
            }
            assert(is_followed(world, held, route));
        }
        if self.path.len() == 0 {
            assert(is_steered(world, held, route, None, self@.path, game@));
            return None;
        }
        let next = self.path[0];
        proof {
            if fresh {
                assert(reachable(world.grid, world.occupied(), world.head(), world.fruit));
                assert(is_route(world.grid, world.occupied(), world.head(), world.fruit, route));
                assert(world.grid.adjacent(before(world.head(), route, 0), route[0]));
                assert(!world.occupied().contains(route[0]));
            }
            assert(world.grid.contains(world.body[0]));
        }
        let d = Direction::get_direction(head, next, &topo);
        self.path.pop_front();
        game.set_direction(d);
        proof {
            assert(self.path@ =~= route.drop_first());
            assert(world.grid.spec_neighbor(world.head(), d) == route[0]);
            assert(is_steered(world, held, route, Some(d), self@.path, game@));
        }
        Some(d)
    }
}

/// Planning twice on one world gives the same path, cell for cell.
pub proof fn lemma_plan_is_unique(world: GameView, p: Seq<Cell>, q: Seq<Cell>)
    requires
        is_plan(world, p),
        is_plan(world, q),
    ensures
        p == q,
{
    if reachable(world.grid, world.occupied(), world.head(), world.fruit) {
        lemma_first_route_is_unique(
            world.grid,
            world.occupied(),
            world.head(),
            world.fruit,
            p,
            q,
        );
    } else {
        assert(p =~= q);
    }
}

/// Every cell of a plan is on the grid and free of the snake, and each is
/// one step from the cell before it, the first from the head.
pub proof fn lemma_plan_is_clear(world: GameView, path: Seq<Cell>, i: int)
    requires
        world.valid(),
        is_plan(world, path),
        0 <= i < path.len(),
    ensures
        world.grid.contains(path[i]),
        !world.body.contains(path[i]),
        world.grid.adjacent(before(world.head(), path, i), path[i]),
        exists|d: Direction|
            world.grid.spec_neighbor(before(world.head(), path, i), d) == path[i],
    decreases i,
{
    assert(is_route(world.grid, world.occupied(), world.head(), world.fruit, path));
    assert(!world.occupied().contains(path[i]));
    let from = before(world.head(), path, i);
    assert(world.grid.adjacent(from, path[i]));
    let d = lemma_step_direction(world.grid, from, path[i]);
    if i == 0 {
        assert(world.grid.contains(world.body[0]));
    } else {
        lemma_plan_is_clear(world, path, i - 1);
    }
}

} // verus!
