//! The frame: a buffer of pixels on which the snake and the fruit are
//! painted as squares. Showing the buffer in a window is left to the
//! caller.

use crate::topology::Cell;
use std::collections::VecDeque;
use vstd::prelude::*;

verus! {

/// The colour of the snake.
pub const WHITE: u32 = 16777215;

/// The colour of the fruit.
pub const RED: u32 = 16711680;

/// The colour of the ground.
pub const BLACK: u32 = 0;

/// The index of the pixel `i` rows below and `j` columns right of the pixel
/// `corner`, in a buffer `width` pixels wide.
pub open spec fn pixel_at(corner: int, width: int, i: int, j: int) -> int {
    corner + i * width + j
}

/// What a `Graphics` stands for.
pub struct GraphicsView {
    /// The pixels, row by row.
    pub pixels: Seq<u32>,
    /// The number of pixels in a row.
    pub width: nat,
    /// The number of rows of pixels.
    pub height: nat,
    /// The side of the square that stands for one cell.
    pub square_size: nat,
}

impl GraphicsView {
    /// The buffer holds `width` by `height` pixels.
    pub open spec fn valid(self) -> bool {
        self.pixels.len() == self.width * self.height
    }

    /// Whether the square of `cell` lies on the frame.
    pub open spec fn holds(self, cell: Cell) -> bool {
        &&& (cell.0 + 1) * self.square_size <= self.width
        &&& (cell.1 + 1) * self.square_size <= self.height
    }

    /// The index of the top left pixel of the square of `cell`.
    pub open spec fn corner(self, cell: Cell) -> int {
        self.square_size * cell.0 + self.square_size * self.width * cell.1
    }

    /// Whether painting the square at `corner` stays inside the buffer.
    pub open spec fn square_fits(self, corner: int) -> bool {
        self.square_size < 4 || corner + (self.square_size - 3) * self.width + (self.square_size
            - 3) < self.pixels.len()
    }

    /// Whether pixel `k` is painted with the square at `corner`: the
    /// square's inside, which leaves out its first row and column and its
    /// last two.
    pub open spec fn in_square(self, corner: int, k: int) -> bool {
        exists|i: int, j: int|
            1 <= i < self.square_size - 2 && 1 <= j < self.square_size - 2 && k
                == #[trigger] pixel_at(corner, self.width as int, i, j)
    }

    /// Whether pixel `k` is painted with the square of one of `cells`.
    pub open spec fn covered(self, cells: Seq<Cell>, k: int) -> bool {
        exists|n: int| 0 <= n < cells.len() && self.in_square(self.corner(#[trigger] cells[n]), k)
    }

    /// The pixels after the square at `corner` has been painted in `color`.
    pub open spec fn with_square(self, corner: int, color: u32) -> Seq<u32> {
        Seq::new(
            self.pixels.len(),
            |k: int|
                if self.in_square(corner, k) {
                    color
                } else {
                    self.pixels[k]
                },
        )
    }

    /// The pixels after the snake has been painted in white and then the
    /// fruit in red.
    pub open spec fn with_plane(self, snake: Seq<Cell>, fruit: Cell) -> Seq<u32> {
        Seq::new(
            self.pixels.len(),
            |k: int|
                if self.in_square(self.corner(fruit), k) {
                    RED
                } else if self.covered(snake, k) {
                    WHITE
                } else {
                    self.pixels[k]
                },
        )
    }

    /// The same frame with every pixel black.
    pub open spec fn blank(self) -> GraphicsView {
        GraphicsView { pixels: Seq::new(self.pixels.len(), |k: int| BLACK), ..self }
    }
}

/// A frame of pixels.
pub struct Graphics {
    buffer: Vec<u32>,
    width: usize,
    height: usize,
    square_size: usize,
}

impl View for Graphics {
    type V = GraphicsView;

    closed spec fn view(&self) -> GraphicsView {
        GraphicsView {
            pixels: self.buffer@,
            width: self.width as nat,
            height: self.height as nat,
            square_size: self.square_size as nat,
        }
    }
}

/// Whether pixel `k` is painted with the part of the square at `corner`
/// that lies above row `i`, or in row `i` left of column `j`.
pub open spec fn in_part(view: GraphicsView, corner: int, i: int, j: int, k: int) -> bool {
    exists|a: int, b: int|
        1 <= a <= i && 1 <= b < view.square_size - 2 && (a < i || b < j) && k
            == #[trigger] pixel_at(corner, view.width as int, a, b)
}

impl Graphics {
    /// Every `Graphics` that this module hands out is well formed, and
    /// its methods keep it so.
    pub open spec fn wf(&self) -> bool {
        self@.valid()
    }

    /// Creates a black frame for a grid of `rows` by `cols` cells, each a
    /// square of `square_size` pixels.
    ///
    /// Returns `None` where the frame would have more pixels than can be
    /// indexed.
    pub fn new(rows: usize, cols: usize, square_size: usize) -> (frame: Option<Graphics>)
        ensures
            frame is Some <==> (cols * square_size) * (rows * square_size) <= usize::MAX && cols
                * square_size <= usize::MAX && rows * square_size <= usize::MAX,
            frame matches Some(g) ==> {
                &&& g.wf()
                &&& g@.width == cols * square_size
                &&& g@.height == rows * square_size
                &&& g@.square_size == square_size
                &&& forall|k: int| 0 <= k < g@.pixels.len() ==> g@.pixels[k] == BLACK
            },
    {
        let width = match cols.checked_mul(square_size) {
            Some(w) => w,
            None => {
                return None;
            },
        };
        let height = match rows.checked_mul(square_size) {
            Some(h) => h,
            None => {
                return None;
            },
        };
        let pixels = match width.checked_mul(height) {
            Some(n) => n,
            None => {
                return None;
            },
        };
        let mut buffer: Vec<u32> = Vec::new();
        let mut k: usize = 0;
        while k < pixels
            invariant
                k <= pixels,
                buffer@.len() == k,
                forall|n: int| 0 <= n < k ==> buffer@[n] == BLACK,
            decreases pixels - k,
        {
            buffer.push(BLACK);
            k += 1;
        }
        Some(Graphics { buffer, width, height, square_size })
    }

    /// Returns whether this frame is well formed. Every frame made by `new`
    /// is; the test is for callers that cannot take that on trust.
    pub fn is_valid(&self) -> (r: bool)
        ensures
            r == self.wf(),
    {
        let held = self.buffer.len();
        match self.width.checked_mul(self.height) {
            Some(n) => held == n,
            None => false,
        }
    }

    /// Returns the pixels, row by row.
    pub fn buffer(&self) -> (pixels: &Vec<u32>)
        ensures
            pixels@ == self@.pixels,
    {
        &self.buffer
    }

    /// Returns the number of pixels in a row.
    pub fn width(&self) -> (n: usize)
        ensures
            n == self@.width,
    {
        self.width
    }

    /// Returns the number of rows of pixels.
    pub fn height(&self) -> (n: usize)
        ensures
            n == self@.height,
    {
        self.height
    }

    /// Returns the side of the square that stands for one cell.
    pub fn square_size(&self) -> (n: usize)
        ensures
            n == self@.square_size,
    {
        self.square_size
    }

    /// Returns whether the frame has room for every cell of a grid of
    /// `rows` by `cols` cells.
    pub fn holds_grid(&self, rows: usize, cols: usize) -> (r: bool)
        ensures
            r == (cols * self@.square_size <= self@.width && rows * self@.square_size
                <= self@.height),
            r ==> forall|c: Cell| c.0 < cols && c.1 < rows ==> #[trigger] self@.holds(c),
    {
        let wide = match cols.checked_mul(self.square_size) {
            Some(w) => w <= self.width,
            None => false,
        };
        let high = match rows.checked_mul(self.square_size) {
            Some(h) => h <= self.height,
            None => false,
        };
        proof {
            if wide && high {
                assert forall|c: Cell| c.0 < cols && c.1 < rows implies #[trigger] self@.holds(
                    c,
                ) by {
                    lemma_product_grows(c.0 + 1, cols as int, self.square_size as int);
                    lemma_product_grows(c.1 + 1, rows as int, self.square_size as int);
                }
            }
        }
        wide && high
    }

    /// Paints every pixel black.
    pub fn clear(&mut self)
        ensures
            final(self)@ == old(self)@.blank(),
    {
        let n = self.buffer.len();
        let mut k: usize = 0;
        while k < n
            invariant
                k <= n,
                n == self.buffer@.len(),
                n == old(self).buffer@.len(),
                self.width == old(self).width,
                self.height == old(self).height,
                self.square_size == old(self).square_size,
                forall|m: int| 0 <= m < k ==> self.buffer@[m] == BLACK,
            decreases n - k,
        {
            self.buffer[k] = BLACK;
            k += 1;
        }
        assert(self.buffer@ =~= old(self)@.blank().pixels);
    }

    /// Paints a black frame with the snake and the fruit: see `draw_plane`.
    pub fn next_frame(&mut self, snake: &VecDeque<Cell>, fruit: Cell)
        requires
            old(self).wf(),
            forall|n: int| 0 <= n < snake@.len() ==> old(self)@.holds(#[trigger] snake@[n]),
            old(self)@.holds(fruit),
        ensures
            final(self)@ == (GraphicsView {
                pixels: old(self)@.blank().with_plane(snake@, fruit),
                ..old(self)@
            }),
            final(self).wf(),
    {
        self.clear();
        self.draw_plane(snake, fruit);
    }

    /// Paints the square of every cell of `snake` in white, then the square
    /// of `fruit` in red. The rest of the frame stays as it is.
    pub fn draw_plane(&mut self, snake: &VecDeque<Cell>, fruit: Cell)
        requires
            old(self).wf(),
            forall|n: int| 0 <= n < snake@.len() ==> old(self)@.holds(#[trigger] snake@[n]),
            old(self)@.holds(fruit),
        ensures
            final(self)@ == (GraphicsView {
                pixels: old(self)@.with_plane(snake@, fruit),
                ..old(self)@
            }),
            final(self).wf(),
    {
        let ghost before = self@;
        let mut n: usize = 0;
        while n < snake.len()
            invariant
                n <= snake@.len(),
                before == old(self)@,
                before.valid(),
                self@ == (GraphicsView { pixels: self@.pixels, ..before }),
                self@.pixels.len() == before.pixels.len(),
                forall|m: int| 0 <= m < snake@.len() ==> before.holds(#[trigger] snake@[m]),
                forall|k: int|
                    0 <= k < before.pixels.len() ==> self@.pixels[k] == if before.covered(
                        snake@.take(n as int),
                        k,
                    ) {
                        WHITE
                    } else {
                        before.pixels[k]
                    },
            decreases snake@.len() - n,
        {
            let cell = snake[n];
            assert(before.holds(snake@[n as int]));
            let corner = self.corner_of(cell);
            let ghost so_far = self@;
            self.buffer = self.draw_square(corner, WHITE);
            proof {
                let short = snake@.take(n as int);
                let long = snake@.take(n + 1);
                assert forall|k: int| 0 <= k < before.pixels.len() implies self@.pixels[k]
                    == if before.covered(long, k) {
                    WHITE
                } else {
                    before.pixels[k]
                } by {
                    assert(so_far.in_square(corner as int, k) == before.in_square(
                        before.corner(cell),
                        k,
                    ));
                    if before.in_square(before.corner(cell), k) {
                        assert(long[n as int] == cell);
                    }
                    if before.covered(short, k) {
                        let m = choose|m: int|
                            0 <= m < short.len() && before.in_square(
                                before.corner(#[trigger] short[m]),
                                k,
                            );
                        assert(long[m] == short[m]);
                    }
                    if before.covered(long, k) {
                        let m = choose|m: int|
                            0 <= m < long.len() && before.in_square(
                                before.corner(#[trigger] long[m]),
                                k,
                            );
                        if m < n {
                            assert(short[m] == long[m]);
                        }
                    }
                }
            }
            n += 1;
        }
        assert(snake@.take(n as int) =~= snake@);
        let corner = self.corner_of(fruit);
        let ghost so_far = self@;
        self.buffer = self.draw_square(corner, RED);
        proof {
            assert forall|k: int| 0 <= k < before.pixels.len() implies self@.pixels[k]
                == before.with_plane(snake@, fruit)[k] by {
                assert(so_far.in_square(corner as int, k) == before.in_square(
                    before.corner(fruit),
                    k,
                ));
            }
            assert(self@.pixels =~= before.with_plane(snake@, fruit));
        }
    }

    /// Returns the index of the top left pixel of the square of `cell`.
    fn corner_of(&self, cell: Cell) -> (corner: usize)
        requires
            self.wf(),
            self@.holds(cell),
        ensures
            corner == self@.corner(cell),
            self@.square_fits(corner as int),
    {
        let s = self.square_size;
        proof {
            assert(self.buffer@.len() == self.buffer.len());
            lemma_square_lies_in_frame(
                s as int,
                self.width as int,
                self.height as int,
                cell.0 as int,
                cell.1 as int,
            );
        }
        let across = s * cell.0;
        let row = s * self.width;
        let down = row * cell.1;
        across + down
    }

    /// Returns a copy of the pixels with the inside of the square at
    /// `corner` painted in `color`. The inside leaves out the square's
    /// first row and column and its last two; a square of fewer than four
    /// pixels a side has none.
    pub fn draw_square(&self, corner: usize, color: u32) -> (pixels: Vec<u32>)
        requires
            self.wf(),
            self@.square_fits(corner as int),
        ensures
            pixels@ == self@.with_square(corner as int, color),
    {
        let mut buffer = self.buffer.clone();
        assert(buffer@ =~= self.buffer@);
        if self.square_size < 4 {
            assert(buffer@ =~= self@.with_square(corner as int, color)) by {
                assert forall|k: int| !self@.in_square(corner as int, k) by {}
            }
            return buffer;
        }
        let limit = self.square_size - 2;
        let ghost view = self@;
        let ghost w = self.width as int;
        let mut i: usize = 1;
        while i < limit
            invariant
                1 <= i <= limit,
                limit == self.square_size - 2,
                self.square_size >= 4,
                view == self@,
                w == self.width,
                view.valid(),
                view.square_fits(corner as int),
                buffer@.len() == view.pixels.len(),
                forall|k: int|
                    0 <= k < buffer@.len() ==> buffer@[k] == if in_part(
                        view,
                        corner as int,
                        i as int,
                        1,
                        k,
                    ) {
                        color
                    } else {
                        view.pixels[k]
                    },
            decreases limit - i,
        {
            let mut j: usize = 1;
            while j < limit
                invariant
                    1 <= i < limit,
                    1 <= j <= limit,
                    limit == self.square_size - 2,
                    self.square_size >= 4,
                    view == self@,
                    w == self.width,
                    view.valid(),
                    view.square_fits(corner as int),
                    buffer@.len() == view.pixels.len(),
                    forall|k: int|
                        0 <= k < buffer@.len() ==> buffer@[k] == if in_part(
                            view,
                            corner as int,
                            i as int,
                            j as int,
                            k,
                        ) {
                            color
                        } else {
                            view.pixels[k]
                        },
                decreases limit - j,
            {
                proof {
                    assert(buffer@.len() == buffer.len());
                    lemma_product_grows(i as int, self.square_size - 3, w);
                    lemma_product_grows(0, i as int, w);
                }
                let at = i * self.width + j + corner;
                let ghost earlier = buffer@;
                buffer[at] = color;
                proof {
                    assert(at == pixel_at(corner as int, w, i as int, j as int));
                    assert forall|k: int| 0 <= k < buffer@.len() implies buffer@[k] == if in_part(
                        view,
                        corner as int,
                        i as int,
                        j + 1,
                        k,
                    ) {
                        color
                    } else {
                        view.pixels[k]
                    } by {
                        lemma_part_grows(view, corner as int, i as int, j as int, k);
                    }
                }
                j += 1;
            }
            proof {
                assert forall|k: int| 0 <= k < buffer@.len() implies buffer@[k] == if in_part(
                    view,
                    corner as int,
                    i + 1,
                    1,
                    k,
                ) {
                    color
                } else {
                    view.pixels[k]
                } by {
                    lemma_part_wraps(view, corner as int, i as int, k);
                }
            }
            i += 1;
        }
        proof {
            assert forall|k: int| 0 <= k < buffer@.len() implies buffer@[k] == view.with_square(
                corner as int,
                color,
            )[k] by {
                lemma_part_is_whole(view, corner as int, k);
            }
            assert(buffer@ =~= view.with_square(corner as int, color));
        }
        buffer
    }
}

/// What the square of cell `(x, y)` needs of a frame of `w` by `h` pixels
/// with squares of side `s`, where the frame holds the cell: every product
/// on the way to its corner is within the number of pixels, and the
/// square's inside ends before the frame does.
proof fn lemma_square_lies_in_frame(s: int, w: int, h: int, x: int, y: int)
    requires
        0 <= s,
        0 <= w,
        0 <= h,
        0 <= x,
        0 <= y,
        (x + 1) * s <= w,
        (y + 1) * s <= h,
    ensures
        0 <= s * x <= w,
        0 <= s * w <= w * h,
        0 <= s * w * y <= w * h,
        0 <= s * x + s * w * y <= w * h,
        s >= 4 ==> s * x + s * w * y + (s - 3) * w + (s - 3) < w * h,
{
    assert(s * x + s <= w && 0 <= s * x) by (nonlinear_arith)
        requires
            (x + 1) * s <= w,
            0 <= s,
            0 <= x,
    ;
    assert(s * y + s <= h && 0 <= s * y) by (nonlinear_arith)
        requires
            (y + 1) * s <= h,
            0 <= s,
            0 <= y,
    ;
    let sy = s * y;
    assert(s * w * y == sy * w) by (nonlinear_arith)
        requires
            sy == s * y,
    ;
    assert(sy * w + s * w <= h * w && 0 <= sy * w && 0 <= s * w) by (nonlinear_arith)
        requires
            sy + s <= h,
            0 <= sy,
            0 <= s,
            0 <= w,
    ;
    assert(w * h == h * w) by (nonlinear_arith);
    if s >= 1 {
        assert(s * w >= w) by (nonlinear_arith)
            requires
                s >= 1,
                0 <= w,
        ;
    } else {
        assert(s * x == 0 && sy * w == 0) by (nonlinear_arith)
            requires
                s == 0,
                sy == s * y,
        ;
    }
    if s >= 4 {
        assert((s - 3) * w == s * w - 3 * w) by (nonlinear_arith);
    }
}

/// A product grows with its first factor.
pub proof fn lemma_product_grows(a: int, b: int, c: int)
    requires
        a <= b,
        0 <= c,
    ensures
        a * c <= b * c,
{
    assert(a * c <= b * c) by (nonlinear_arith)
        requires
            a <= b,
            0 <= c,
    ;
}

/// The part painted after pixel `(i, j)` is the part painted before it and
/// that pixel.
proof fn lemma_part_grows(view: GraphicsView, corner: int, i: int, j: int, k: int)
    requires
        1 <= i,
        1 <= j < view.square_size - 2,
    ensures
        in_part(view, corner, i, j + 1, k) <==> in_part(view, corner, i, j, k) || k == pixel_at(
            corner,
            view.width as int,
            i,
            j,
        ),
{
    let w = view.width as int;
    if in_part(view, corner, i, j, k) {
        let (a, b) = choose|a: int, b: int|
            1 <= a <= i && 1 <= b < view.square_size - 2 && (a < i || b < j) && k
                == #[trigger] pixel_at(corner, w, a, b);
        assert(1 <= a <= i && 1 <= b < view.square_size - 2 && (a < i || b < j + 1) && k
            == pixel_at(corner, w, a, b));
    }
    if k == pixel_at(corner, w, i, j) {
        assert(1 <= i <= i && 1 <= j < view.square_size - 2 && (i < i || j < j + 1) && k
            == pixel_at(corner, w, i, j));
    }
    if in_part(view, corner, i, j + 1, k) {
        let (a, b) = choose|a: int, b: int|
            1 <= a <= i && 1 <= b < view.square_size - 2 && (a < i || b < j + 1) && k
                == #[trigger] pixel_at(corner, w, a, b);
        if a < i || b < j {
            assert(1 <= a <= i && 1 <= b < view.square_size - 2 && (a < i || b < j) && k
                == pixel_at(corner, w, a, b));
        }
    }
}

/// The part painted when row `i` is done is the part painted when row
/// `i + 1` begins.
proof fn lemma_part_wraps(view: GraphicsView, corner: int, i: int, k: int)
    requires
        1 <= i,
    ensures
        in_part(view, corner, i, view.square_size - 2, k) <==> in_part(view, corner, i + 1, 1, k),
{
    let w = view.width as int;
    let end = view.square_size - 2;
    if in_part(view, corner, i, end, k) {
        let (a, b) = choose|a: int, b: int|
            1 <= a <= i && 1 <= b < view.square_size - 2 && (a < i || b < end) && k
                == #[trigger] pixel_at(corner, w, a, b);
        assert(1 <= a <= i + 1 && 1 <= b < view.square_size - 2 && (a < i + 1 || b < 1) && k
            == pixel_at(corner, w, a, b));
    }
    if in_part(view, corner, i + 1, 1, k) {
        let (a, b) = choose|a: int, b: int|
            1 <= a <= i + 1 && 1 <= b < view.square_size - 2 && (a < i + 1 || b < 1) && k
                == #[trigger] pixel_at(corner, w, a, b);
        assert(1 <= a <= i && 1 <= b < view.square_size - 2 && (a < i || b < end) && k
            == pixel_at(corner, w, a, b));
    }
}

/// The part painted when the last row is done is the square's inside.
proof fn lemma_part_is_whole(view: GraphicsView, corner: int, k: int)
    requires
        view.square_size >= 3,
    ensures
        in_part(view, corner, view.square_size - 2, 1, k) <==> view.in_square(corner, k),
{
    let w = view.width as int;
    let end = view.square_size - 2;
    if in_part(view, corner, end, 1, k) {
        let (a, b) = choose|a: int, b: int|
            1 <= a <= end && 1 <= b < view.square_size - 2 && (a < end || b < 1) && k
                == #[trigger] pixel_at(corner, w, a, b);
        assert(1 <= a < view.square_size - 2 && 1 <= b < view.square_size - 2 && k == pixel_at(
            corner,
            w,
            a,
            b,
        ));
    }
    if view.in_square(corner, k) {
        let (a, b) = choose|a: int, b: int|
            1 <= a < view.square_size - 2 && 1 <= b < view.square_size - 2 && k
                == #[trigger] pixel_at(corner, w, a, b);
        assert(1 <= a <= end && 1 <= b < view.square_size - 2 && (a < end || b < 1) && k
            == pixel_at(corner, w, a, b));
    }
}

} // verus!
