//! The world: the snake, the fruit, and what one tick does to them.

use crate::bfs::is_plan;
use crate::bfs::Bfs;
use crate::census::free_before;
use crate::census::free_cells;
use crate::census::free_in_column;
use crate::census::free_in_columns;
use crate::census::lemma_free_before_below_total;
use crate::census::lemma_free_cells_beside;
use crate::census::lemma_free_cells_zero;
use crate::census::lemma_free_in_column_bound;
use crate::census::lemma_free_in_columns_bound;
use crate::direction::Direction;
use crate::graphics::Graphics;
use crate::graphics::GraphicsView;
use crate::random::random_below;
use crate::topology::same_cell;
use crate::topology::Cell;
use crate::topology::Topology;
use std::collections::VecDeque;
use vstd::prelude::*;

verus! {

/// What one tick did to the snake.
#[derive(Debug, Clone, Copy, PartialEq, Eq, Structural)]
pub enum TickEvent {
    /// The snake moved one cell and kept its length.
    Moved,
    /// The snake moved onto the fruit and is one cell longer.
    Grew,
    /// The snake would have run into itself; it was left as it was.
    Died,
}

/// The cell where every snake starts.
pub open spec fn origin() -> Cell {
    (0usize, 0usize)
}

/// What a `Game` stands for.
pub struct GameView {
    /// The shape of the grid.
    pub grid: Topology,
    /// The snake's cells, head first.
    pub body: Seq<Cell>,
    /// The cell that holds the fruit.
    pub fruit: Cell,
    /// The direction in which the snake is heading.
    pub direction: Direction,
}

impl GameView {
    /// The grid has room for a snake and a fruit and can be indexed; the
    /// snake is not empty, lies on the grid and crosses itself nowhere; the
    /// fruit lies on the grid.
    pub open spec fn valid(self) -> bool {
        &&& self.grid.wf()
        &&& 2 <= self.grid.cols * self.grid.rows <= usize::MAX
        &&& self.body.len() >= 1
        &&& forall|i: int| 0 <= i < self.body.len() ==> self.grid.contains(#[trigger] self.body[i])
        &&& self.body.no_duplicates()
        &&& self.grid.contains(self.fruit)
    }

    /// The snake's first cell.
    pub open spec fn head(self) -> Cell {
        self.body[0]
    }

    /// The cells that the snake covers.
    pub open spec fn occupied(self) -> Set<Cell> {
        Set::new(|c: Cell| self.body.contains(c))
    }

    /// Whether the fruit lies off the snake, as it does between ticks.
    pub open spec fn fruit_is_free(self) -> bool {
        !self.body.contains(self.fruit)
    }

    /// Whether the snake covers the whole grid.
    pub open spec fn full(self) -> bool {
        forall|c: Cell| #[trigger] self.grid.contains(c) ==> self.body.contains(c)
    }

    /// The cell that the head would enter when going in `direction`.
    pub open spec fn candidate(self, direction: Direction) -> Cell {
        self.grid.spec_neighbor(self.head(), direction)
    }

    /// What a tick in `direction` does.
    pub open spec fn event(self, direction: Direction) -> TickEvent {
        if self.body.contains(self.candidate(direction)) {
            TickEvent::Died
        } else if self.candidate(direction) == self.fruit {
            TickEvent::Grew
        } else {
            TickEvent::Moved
        }
    }

    /// The world after a tick in `direction`. A snake that would run into
    /// itself stays as it is; one that reaches the fruit keeps its tail.
    pub open spec fn advanced(self, direction: Direction) -> GameView {
        match self.event(direction) {
            TickEvent::Died => self,
            TickEvent::Grew => GameView {
                body: seq![self.candidate(direction)] + self.body,
                direction: direction,
                ..self
            },
            TickEvent::Moved => GameView {
                body: seq![self.candidate(direction)] + self.body.drop_last(),
                direction: direction,
                ..self
            },
        }
    }

    /// The world after the snake has died: one cell at the origin, heading
    /// right.
    pub open spec fn reset(self) -> GameView {
        GameView { body: seq![origin()], direction: Direction::Right, ..self }
    }

    /// Whether `after` is this world with the fruit put anew: on a free
    /// cell of the grid, or left where it was if the snake covers the grid.
    pub open spec fn respawned(self, after: GameView) -> bool {
        &&& after == (GameView { fruit: after.fruit, ..self })
        &&& if self.full() {
            after.fruit == self.fruit
        } else {
            self.grid.contains(after.fruit) && after.fruit_is_free()
        }
    }

    /// Whether `after` is this world one whole tick later: the snake has
    /// gone on in its heading; where it grew, the fruit has been put anew;
    /// where it died, it has been reset and the fruit put anew.
    pub open spec fn ticked(self, after: GameView) -> bool {
        match self.event(self.direction) {
            TickEvent::Moved => after == self.advanced(self.direction),
            TickEvent::Grew => self.advanced(self.direction).respawned(after),
            TickEvent::Died => self.reset().respawned(after),
        }
    }

    /// The heading after the player has asked for `requested`: a snake does
    /// not turn back on itself.
    pub open spec fn turned(self, requested: Direction) -> Direction {
        if requested == self.direction.spec_opposite() {
            self.direction
        } else {
            requested
        }
    }
}

/// The world of one game session.
pub struct Game {
    cols: usize,
    rows: usize,
    snake: VecDeque<Cell>,
    direction: Direction,
    fruit: Cell,
}

impl View for Game {
    type V = GameView;

    closed spec fn view(&self) -> GameView {
        GameView {
            grid: Topology { cols: self.cols, rows: self.rows },
            body: self.snake@,
            fruit: self.fruit,
            direction: self.direction,
        }
    }
}

impl Game {
    /// Every `Game` that this module hands out is well formed, and its
    /// methods keep it so.
    pub open spec fn wf(&self) -> bool {
        self@.valid()
    }

    /// Creates a world of `rows` by `cols` cells: a one-cell snake at the
    /// origin, heading right, and a fruit on a free cell.
    ///
    /// Returns `None` where the grid has fewer than two cells or more than
    /// can be indexed.
    pub fn new(rows: usize, cols: usize) -> (game: Option<Game>)
        ensures
            game is Some <==> 2 <= rows * cols <= usize::MAX,
            game matches Some(g) ==> {
                &&& g.wf()
                &&& g@.grid == (Topology { cols, rows })
                &&& g@.body == seq![origin()]
                &&& g@.direction == Direction::Right
                &&& g@.fruit_is_free()
            },
    {
        let cells = match cols.checked_mul(rows) {
            Some(n) => n,
            None => {
                assert(cols * rows == rows * cols) by (nonlinear_arith);
                return None;
            },
        };
        assert(cols * rows == rows * cols) by (nonlinear_arith);
        if cells < 2 {
            return None;
        }
        assert(cols > 0 && rows > 0) by (nonlinear_arith)
            requires
                cols * rows >= 2,
        ;
        let mut snake: VecDeque<Cell> = VecDeque::new();
        snake.push_back((0, 0));
        let mut g = Game { cols, rows, snake, direction: Direction::Right, fruit: (0, 0) };
        proof {
            let spare: Cell = if cols >= 2 {
                (1usize, 0usize)
            } else {
                (0usize, 1usize)
            };
            assert(cols >= 2 || rows >= 2) by (nonlinear_arith)
                requires
                    cols * rows >= 2,
                    cols > 0,
                    rows > 0,
            ;
            assert(g@.grid.contains(spare) && !g@.body.contains(spare));
        }
        g.respawn_fruit();
        assert(g@.body =~= seq![origin()]);
        Some(g)
    }

    /// Builds a world from its parts: the grid, the snake's cells head
    /// first, its heading, and the fruit.
    ///
    /// Returns `None` where the parts do not make a world: see
    /// `GameView::valid`.
    pub fn from_parts(
        rows: usize,
        cols: usize,
        snake: Vec<Cell>,
        direction: Direction,
        fruit: Cell,
    ) -> (game: Option<Game>)
        ensures
            game is Some <==> (GameView {
                grid: Topology { cols, rows },
                body: snake@,
                fruit,
                direction,
            }).valid(),
            game matches Some(g) ==> g@ == (GameView {
                grid: Topology { cols, rows },
                body: snake@,
                fruit,
                direction,
            }),
    {
        let ghost wanted = GameView {
            grid: Topology { cols, rows },
            body: snake@,
            fruit,
            direction,
        };
        let cells = match cols.checked_mul(rows) {
            Some(n) => n,
            None => {
                return None;
            },
        };
        if cells < 2 || snake.len() == 0 || fruit.0 >= cols || fruit.1 >= rows {
            assert(cols * rows >= 2 ==> cols > 0 && rows > 0) by (nonlinear_arith);
            return None;
        }
        assert(cols > 0 && rows > 0) by (nonlinear_arith)
            requires
                cols * rows >= 2,
        ;
        let mut g = Game { cols, rows, snake: VecDeque::new(), direction, fruit };
        let mut i: usize = 0;
        while i < snake.len()
            invariant
                i <= snake.len(),
                g.snake@ == snake@.take(i as int),
                g.cols == cols,
                g.rows == rows,
                g.fruit == fruit,
                g.direction == direction,
                forall|k: int| 0 <= k < i ==> wanted.grid.contains(#[trigger] snake@[k]),
                snake@.take(i as int).no_duplicates(),
                wanted == (GameView {
                    grid: Topology { cols, rows },
                    body: snake@,
                    fruit,
                    direction,
                }),
            decreases snake.len() - i,
        {
            let cell = snake[i];
            if cell.0 >= cols || cell.1 >= rows {
                assert(!wanted.grid.contains(wanted.body[i as int]));
                return None;
            }
            if g.occupies(cell) {
                let ghost j = choose|j: int| 0 <= j < i && snake@.take(i as int)[j] == cell;
                assert(wanted.body[j] == wanted.body[i as int]);
                return None;
            }
            g.snake.push_back(cell);
            proof {
                let shorter = snake@.take(i as int);
                let longer = snake@.take(i + 1);
                assert(shorter.push(cell) =~= longer);
                assert forall|a: int, b: int|
                    0 <= a < longer.len() && 0 <= b < longer.len() && a != b implies longer[a]
                    != longer[b] by {
                    if a < i && b < i {
                        assert(shorter[a] != shorter[b]);
                    } else if a == i {
                        assert(shorter[b] == longer[b]);
                    } else {
                        assert(shorter[a] == longer[a]);
                    }
                }
            }
            i += 1;
        }
        assert(snake@.take(i as int) =~= snake@);
        Some(g)
    }

    /// Returns whether this world is well formed. Every world made by
    /// `new` or `from_parts` is; the test is for callers that cannot take
    /// that on trust.
    pub fn is_valid(&self) -> (r: bool)
        ensures
            r == self.wf(),
    {
        let cells = match self.cols.checked_mul(self.rows) {
            Some(n) => n,
            None => {
                return false;
            },
        };
        if cells < 2 || self.snake.len() == 0 || self.fruit.0 >= self.cols || self.fruit.1
            >= self.rows {
            assert(self.cols * self.rows >= 2 ==> self.cols > 0 && self.rows > 0)
                by (nonlinear_arith);
            return false;
        }
        assert(self.cols > 0 && self.rows > 0) by (nonlinear_arith)
            requires
                self.cols * self.rows >= 2,
        ;
        let mut i: usize = 0;
        while i < self.snake.len()
            invariant
                i <= self.snake@.len(),
                forall|k: int| 0 <= k < i ==> self@.grid.contains(#[trigger] self.snake@[k]),
                forall|a: int, b: int| 0 <= a < b < i ==> self.snake@[a] != self.snake@[b],
            decreases self.snake@.len() - i,
        {
            let cell = self.snake[i];
            if cell.0 >= self.cols || cell.1 >= self.rows {
                assert(!self@.grid.contains(self@.body[i as int]));
                return false;
            }
            let mut j: usize = 0;
            while j < i
                invariant
                    j <= i < self.snake@.len(),
                    cell == self.snake@[i as int],
                    forall|a: int| 0 <= a < j ==> self.snake@[a] != cell,
                decreases i - j,
            {
                if same_cell(self.snake[j], cell) {
                    assert(self@.body[j as int] == self@.body[i as int]);
                    return false;
                }
                j += 1;
            }
            i += 1;
        }
        true
    }

    /// Returns the number of rows.
    pub fn rows(&self) -> (n: usize)
        ensures
            n == self@.grid.rows,
    {
        self.rows
    }

    /// Returns the number of columns.
    pub fn cols(&self) -> (n: usize)
        ensures
            n == self@.grid.cols,
    {
        self.cols
    }

    /// Returns the shape of the grid.
    pub fn grid(&self) -> (t: Topology)
        ensures
            t == self@.grid,
    {
        Topology { cols: self.cols, rows: self.rows }
    }

    /// Returns the snake's first cell.
    pub fn head(&self) -> (c: Cell)
        requires
            self.wf(),
        ensures
            c == self@.head(),
    {
        self.snake[0]
    }

    /// Returns the cell that holds the fruit.
    pub fn fruit(&self) -> (c: Cell)
        ensures
            c == self@.fruit,
    {
        self.fruit
    }

    /// Returns the direction in which the snake is heading.
    pub fn direction(&self) -> (d: Direction)
        ensures
            d == self@.direction,
    {
        self.direction
    }

    /// Returns the snake's length.
    pub fn len(&self) -> (n: usize)
        ensures
            n == self@.body.len(),
    {
        self.snake.len()
    }

    /// Returns the snake's cells, head first.
    pub fn snake(&self) -> (cells: Vec<Cell>)
        ensures
            cells@ == self@.body,
    {
        let mut cells: Vec<Cell> = Vec::new();
        let mut i: usize = 0;
        while i < self.snake.len()
            invariant
                i <= self.snake@.len(),
                cells@ == self.snake@.take(i as int),
            decreases self.snake@.len() - i,
        {
            cells.push(self.snake[i]);
            assert(self.snake@.take(i as int).push(self.snake@[i as int]) =~= self.snake@.take(
                i + 1,
            ));
            i += 1;
        }
        assert(self.snake@.take(i as int) =~= self.snake@);
        cells
    }

    /// Returns whether the snake covers `cell`.
    pub fn occupies(&self, cell: Cell) -> (r: bool)
        ensures
            r == self@.body.contains(cell),
    {
        let mut i: usize = 0;
        while i < self.snake.len()
            invariant
                i <= self.snake@.len(),
                forall|k: int| 0 <= k < i ==> self.snake@[k] != cell,
            decreases self.snake@.len() - i,
        {
            if same_cell(self.snake[i], cell) {
                return true;
            }
            i += 1;
        }
        false
    }

    /// Turns the snake towards `requested`, unless that would turn it back
    /// on itself: then the heading stays.
    pub fn update_direction(&mut self, requested: Direction)
        ensures
            final(self)@ == (GameView {
                direction: old(self)@.turned(requested),
                ..old(self)@
            }),
    {
        if requested != self.direction.opposite() {
            self.direction = requested;
        }
    }

    /// Sets the heading to `direction`, whatever it was.
    pub fn set_direction(&mut self, direction: Direction)
        ensures
            final(self)@ == (GameView { direction, ..old(self)@ }),
    {
        self.direction = direction;
    }

    /// Moves the snake one cell in `direction`.
    ///
    /// Where the cell ahead is one of the snake's own, the snake has died:
    /// the world is left as it was. Else the head enters that cell; on the
    /// fruit the snake keeps its tail and is one longer, and the fruit is
    /// due for `respawn_fruit`; off it the tail leaves its cell.
    pub fn advance(&mut self, direction: Direction) -> (event: TickEvent)
        requires
            old(self).wf(),
        ensures
            event == old(self)@.event(direction),
            final(self)@ == old(self)@.advanced(direction),
            final(self).wf(),
    {
        let grid = Topology { cols: self.cols, rows: self.rows };
        let ahead = grid.neighbor(self.snake[0], direction);
        if self.occupies(ahead) {
            return TickEvent::Died;
        }
        let ghost before = self.snake@;
        self.snake.push_front(ahead);
        self.direction = direction;
        if same_cell(ahead, self.fruit) {
            proof {
                lemma_grown_snake_fits(old(self)@, ahead);
            }
            TickEvent::Grew
        } else {
            self.snake.pop_back();
            assert(self.snake@ =~= seq![ahead] + before.drop_last());
            TickEvent::Moved
        }
    }

    /// Ends the dead snake: takes its cells away from the head on, then
    /// puts a one-cell snake at the origin, heading right. Returns the
    /// length that the snake had, which is the score.
    pub fn die_and_reset(&mut self) -> (score: usize)
        requires
            old(self).wf(),
        ensures
            score == old(self)@.body.len(),
            final(self)@ == old(self)@.reset(),
            final(self).wf(),
    {
        let score = self.snake.len();
        while self.snake.len() > 0
            invariant
                self.cols == old(self).cols,
                self.rows == old(self).rows,
                self.fruit == old(self).fruit,
            decreases self.snake@.len(),
        {
            self.snake.pop_front();
        }
        self.snake.push_front((0, 0));
        self.direction = Direction::Right;
        assert(self.snake@ =~= seq![origin()]);
        score
    }

    /// Returns the number of cells that the snake does not cover.
    pub fn count_free(&self) -> (n: usize)
        requires
            self.wf(),
        ensures
            n == free_cells(self@.occupied(), self@.grid),
            n == self@.grid.cols * self@.grid.rows - self@.body.len(),
            n == 0 <==> self@.full(),
    {
        let ghost taken = self@.occupied();
        let mut n: usize = 0;
        let mut x: usize = 0;
        while x < self.cols
            invariant
                self.wf(),
                taken == self@.occupied(),
                x <= self.cols,
                n == free_in_columns(taken, self.rows as int, x as int),
            decreases self.cols - x,
        {
            let ghost start = n;
            let mut y: usize = 0;
            while y < self.rows
                invariant
                    self.wf(),
                    taken == self@.occupied(),
                    x < self.cols,
                    y <= self.rows,
                    start == free_in_columns(taken, self.rows as int, x as int),
                    n == start + free_in_column(taken, x as int, y as int),
                decreases self.rows - y,
            {
                if !self.occupies((x, y)) {
                    proof {
                        lemma_free_in_columns_bound(taken, self.rows as int, x as int);
                        lemma_free_in_column_bound(taken, x as int, y as int);
                        assert(x * self.rows + y < self.cols * self.rows) by (nonlinear_arith)
                            requires
                                x < self.cols,
                                y < self.rows,
                        ;
                    }
                    n += 1;
                }
                y += 1;
            }
            x += 1;
        }
        proof {
            lemma_full_is_capacity(self@);
        }
        n
    }

    /// Returns the free cell that has exactly `k` free cells before it in
    /// scan order (column by column, each from row 0 down), or `None` where
    /// the snake leaves no more than `k` cells free.
    pub fn free_cell_at(&self, k: usize) -> (found: Option<Cell>)
        requires
            self.wf(),
        ensures
            found is Some <==> k < free_cells(self@.occupied(), self@.grid),
            found matches Some(c) ==> {
                &&& self@.grid.contains(c)
                &&& !self@.body.contains(c)
                &&& free_before(self@.occupied(), self@.grid, c) == k
            },
    {
        let ghost taken = self@.occupied();
        let mut passed: usize = 0;
        let mut x: usize = 0;
        while x < self.cols
            invariant
                self.wf(),
                taken == self@.occupied(),
                x <= self.cols,
                passed <= k,
                passed == free_in_columns(taken, self.rows as int, x as int),
            decreases self.cols - x,
        {
            let ghost start = passed;
            let mut y: usize = 0;
            while y < self.rows
                invariant
                    self.wf(),
                    taken == self@.occupied(),
                    x < self.cols,
                    y <= self.rows,
                    passed <= k,
                    start == free_in_columns(taken, self.rows as int, x as int),
                    passed == start + free_in_column(taken, x as int, y as int),
                decreases self.rows - y,
            {
                if !self.occupies((x, y)) {
                    if passed == k {
                        proof {
                            lemma_free_before_below_total(taken, self@.grid, (x, y));
                        }
                        return Some((x, y));
                    }
                    passed += 1;
                }
                y += 1;
            }
            x += 1;
        }
        None
    }

    /// Puts the fruit on a cell that the snake does not cover, drawn at
    /// random among all such cells, and returns that cell.
    ///
    /// Returns `None`, and leaves the fruit where it was, where the snake
    /// covers the whole grid.
    pub fn respawn_fruit(&mut self) -> (placed: Option<Cell>)
        requires
            old(self).wf(),
        ensures
            placed is None <==> old(self)@.full(),
            placed is Some <==> old(self)@.body.len() < old(self)@.grid.cols * old(
                self,
            )@.grid.rows,
            placed matches Some(c) ==> final(self)@ == (GameView { fruit: c, ..old(self)@ })
                && final(self)@.fruit_is_free(),
            placed is None ==> final(self)@ == old(self)@,
            final(self).wf(),
    {
        proof {
            lemma_full_is_capacity(self@);
        }
        let free = self.count_free();
        if free == 0 {
            return None;
        }
        let k = random_below(free);
        match self.free_cell_at(k) {
            Some(cell) => {
                self.fruit = cell;
                Some(cell)
            },
            None => None,
        }
    }

    /// Runs one whole tick: moves the snake in its heading and sees to what
    /// follows. A snake that grew gets a new fruit; a snake that died is
    /// reset and gets a new fruit; in both cases `bfs` plans anew on the
    /// world as it then is. A snake that only moved leaves `bfs` alone.
    pub fn update_snake(&mut self, bfs: &mut Bfs) -> (event: TickEvent)
        requires
            old(self).wf(),
        ensures
            final(self).wf(),
            event == old(self)@.event(old(self)@.direction),
            old(self)@.ticked(final(self)@),
            event == TickEvent::Moved ==> final(bfs)@ == old(bfs)@,
            event != TickEvent::Moved ==> final(bfs)@.grid == final(self)@.grid && is_plan(
                final(self)@,
                final(bfs)@.path,
            ),
    {
        let event = self.advance(self.direction);
        match event {
            TickEvent::Moved => {},
            TickEvent::Grew => {
                self.respawn_fruit();
                bfs.update(self);
            },
            TickEvent::Died => {
                self.die_and_reset();
                self.respawn_fruit();
                bfs.update(self);
            },
        }
        event
    }

    /// Paints the world on `graphics`: a black frame, the snake in white,
    /// the fruit in red. Returns whether the frame has room for the grid;
    /// where it has not, the frame is left as it was.
    pub fn next_frame(&self, graphics: &mut Graphics) -> (drawn: bool)
        requires
            self.wf(),
            old(graphics).wf(),
        ensures
            drawn == (self@.grid.cols * old(graphics)@.square_size <= old(graphics)@.width
                && self@.grid.rows * old(graphics)@.square_size <= old(graphics)@.height),
            drawn ==> final(graphics)@ == (GraphicsView {
                pixels: old(graphics)@.blank().with_plane(self@.body, self@.fruit),
                ..old(graphics)@
            }),
            !drawn ==> final(graphics)@ == old(graphics)@,
            final(graphics).wf(),
    {
        if !graphics.holds_grid(self.rows, self.cols) {
            return false;
        }
        proof {
            assert forall|n: int| 0 <= n < self.snake@.len() implies graphics@.holds(
                #[trigger] self.snake@[n],
            ) by {
                assert(self@.grid.contains(self@.body[n]));
            }
        }
        graphics.next_frame(&self.snake, self.fruit);
        true
    }

    /// Returns the pause before the next frame of a dying snake, given the
    /// pause before this one: four less, as long as that was more than ten.
    pub fn shrink_delay(delay: u128) -> (next: u128)
        ensures
            next == if delay > 10 {
                delay - 4
            } else {
                delay as int
            },
    {
        if delay > 10 {
            delay - 4
        } else {
            delay
        }
    }
}

/// The grid bounds the snake: a snake covers the whole grid exactly when it
/// is as long as the grid has cells, and is never longer.
pub proof fn lemma_full_is_capacity(world: GameView)
    requires
        world.valid(),
    ensures
        world.body.len() <= world.grid.cols * world.grid.rows,
        world.full() <==> world.body.len() == world.grid.cols * world.grid.rows,
        free_cells(world.occupied(), world.grid) == world.grid.cols * world.grid.rows
            - world.body.len(),
{
    lemma_free_cells_beside(world.body, world.grid);
    lemma_free_cells_zero(world.occupied(), world.grid);
    assert forall|c: Cell| world.occupied().contains(c) == world.body.contains(c) by {}
}

/// A step into a cell of the snake's own is death, whatever the grid and
/// however long the snake, and leaves the world as it was.
pub proof fn lemma_collision_is_death(world: GameView, direction: Direction)
    requires
        world.body.contains(world.candidate(direction)),
    ensures
        world.event(direction) == TickEvent::Died,
        world.advanced(direction) == world,
{
}

/// A tick keeps a world a world, and keeps the fruit off the snake unless
/// the snake has come to cover the whole grid.
pub proof fn lemma_tick_keeps_world(before: GameView, after: GameView)
    requires
        before.valid(),
        before.fruit_is_free(),
        before.ticked(after),
    ensures
        after.valid(),
        after.fruit_is_free() || after.full(),
{
    let d = before.direction;
    let ahead = before.candidate(d);
    assert(before.grid.contains(before.body[0]));
    match before.event(d) {
        TickEvent::Moved => {
            let kept = before.body.drop_last();
            let moved = seq![ahead] + kept;
            assert forall|i: int| 0 <= i < moved.len() implies before.grid.contains(
                #[trigger] moved[i],
            ) by {
                if i > 0 {
                    assert(moved[i] == before.body[i - 1]);
                }
            }
            assert forall|i: int, j: int|
                0 <= i < moved.len() && 0 <= j < moved.len() && i != j implies moved[i]
                != moved[j] by {
                if i > 0 {
                    assert(moved[i] == before.body[i - 1]);
                }
                if j > 0 {
                    assert(moved[j] == before.body[j - 1]);
                }
            }
            if moved.contains(before.fruit) {
                let k = choose|k: int| 0 <= k < moved.len() && moved[k] == before.fruit;
                assert(k > 0);
                assert(before.body[k - 1] == before.fruit);
            }
        },
        TickEvent::Grew => {
            lemma_grown_snake_fits(before, ahead);
        },
        TickEvent::Died => {
            let fresh = before.reset();
            assert(fresh.body[0] == origin());
            assert(fresh.body.len() == 1);
            assert(after.body =~= seq![origin()]);
        },
    }
}

/// A snake that has just grown still crosses itself nowhere.
proof fn lemma_grown_snake_fits(before: GameView, ahead: Cell)
    requires
        before.valid(),
        before.grid.contains(ahead),
        !before.body.contains(ahead),
    ensures
        (seq![ahead] + before.body).no_duplicates(),
        forall|i: int|
            0 <= i < (seq![ahead] + before.body).len() ==> before.grid.contains(
                #[trigger] (seq![ahead] + before.body)[i],
            ),
{
    let grown = seq![ahead] + before.body;
    assert forall|i: int, j: int|
        0 <= i < grown.len() && 0 <= j < grown.len() && i != j implies grown[i] != grown[j] by {
        if i == 0 {
            assert(grown[j] == before.body[j - 1]);
        } else if j == 0 {
            assert(grown[i] == before.body[i - 1]);
        } else {
            assert(grown[i] == before.body[i - 1]);
            assert(grown[j] == before.body[j - 1]);
        }
    }
    assert forall|i: int| 0 <= i < grown.len() implies before.grid.contains(
        #[trigger] grown[i],
    ) by {
        if i > 0 {
            assert(grown[i] == before.body[i - 1]);
        }
    }
}

} // verus!
