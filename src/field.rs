use rand::distributions::IndependentSample;
use vstd::arithmetic::div_mod::{
    lemma_fundamental_div_mod, lemma_fundamental_div_mod_converse_mod, lemma_mod_multiples_basic,
    lemma_fundamental_div_mod_converse_div, lemma_mod_bound, lemma_small_mod,
};
use vstd::set_lib::{lemma_int_range, lemma_len_subset, set_int_range};
use vstd::prelude::*;

use crate::cell::{Cell, Direction};
use crate::point::{wrapped, Point, Size2D};

verus! {

/// The board: rows of cells, first indexed by `y`, then by `x`.
pub struct Field {
    inner: Vec<Vec<Cell>>,
}

/// A board with at least one row, rows of one common non-zero length, and a
/// cell count that fits the coordinate type.
pub open spec fn grid_wf(g: Seq<Seq<Cell>>) -> bool {
    &&& g.len() >= 1
    &&& g[0].len() >= 1
    &&& forall|y: int| 0 <= y < g.len() ==> (#[trigger] g[y]).len() == g[0].len()
    &&& g.len() * g[0].len() <= isize::MAX
}

pub open spec fn grid_width(g: Seq<Seq<Cell>>) -> int {
    g[0].len() as int
}

pub open spec fn grid_height(g: Seq<Seq<Cell>>) -> int {
    g.len() as int
}

pub open spec fn in_bounds(g: Seq<Seq<Cell>>, p: Point) -> bool {
    0 <= p.x < grid_width(g) && 0 <= p.y < grid_height(g)
}

/// The cell under an on-board point.
pub open spec fn cell_at(g: Seq<Seq<Cell>>, p: Point) -> Cell {
    g[p.y as int][p.x as int]
}

/// `(x, y)` brought onto the board.
pub open spec fn wrap_on(g: Seq<Seq<Cell>>, x: int, y: int) -> Point {
    wrapped(x, y, grid_width(g), grid_height(g))
}

/// The board with the cell under an on-board point replaced.
pub open spec fn with_cell(g: Seq<Seq<Cell>>, p: Point, c: Cell) -> Seq<Seq<Cell>> {
    g.update(p.y as int, g[p.y as int].update(p.x as int, c))
}

/// Where the segment at `p` moves next: `None` unless `p` holds a segment.
pub open spec fn successor(g: Seq<Seq<Cell>>, p: Point) -> Option<Point> {
    let q = wrap_on(g, p.x as int, p.y as int);
    match cell_at(g, q) {
        Cell::Snake(d) => Some(wrap_on(g, q.x + d.dx(), q.y + d.dy())),
        _ => None,
    }
}

proof fn lemma_dims(g: Seq<Seq<Cell>>)
    requires
        grid_wf(g),
    ensures
        1 <= grid_width(g) <= isize::MAX,
        1 <= grid_height(g) <= isize::MAX,
        grid_width(g) <= grid_width(g) * grid_height(g),
        grid_height(g) <= grid_width(g) * grid_height(g),
{
    let w = grid_width(g);
    let h = grid_height(g);
    assert(w <= w * h && h <= w * h) by (nonlinear_arith)
        requires
            1 <= w,
            1 <= h,
    ;
    assert(w * h <= isize::MAX) by (nonlinear_arith)
        requires
            h * w <= isize::MAX,
    ;
}

/// An on-board point is its own wrap.
pub proof fn lemma_wrap_on_board(g: Seq<Seq<Cell>>, p: Point)
    requires
        grid_wf(g),
        in_bounds(g, p),
    ensures
        wrap_on(g, p.x as int, p.y as int) == p,
{
    lemma_small_mod(p.x as nat, grid_width(g) as nat);
    lemma_small_mod(p.y as nat, grid_height(g) as nat);
}

/// A wrapped point is on the board.
pub proof fn lemma_wrap_in_bounds(g: Seq<Seq<Cell>>, x: int, y: int)
    requires
        grid_wf(g),
    ensures
        in_bounds(g, wrap_on(g, x, y)),
        wrap_on(g, x, y).x == x % grid_width(g),
        wrap_on(g, x, y).y == y % grid_height(g),
{
    lemma_dims(g);
    lemma_mod_bound(x, grid_width(g));
    lemma_mod_bound(y, grid_height(g));
}

/// Replacing one on-board cell keeps the board's shape and every other cell.
pub proof fn lemma_with_cell(g: Seq<Seq<Cell>>, p: Point, c: Cell)
    requires
        grid_wf(g),
        in_bounds(g, p),
    ensures
        grid_wf(with_cell(g, p, c)),
        grid_width(with_cell(g, p, c)) == grid_width(g),
        grid_height(with_cell(g, p, c)) == grid_height(g),
        forall|q: Point|
            in_bounds(g, q) ==> #[trigger] cell_at(with_cell(g, p, c), q) == if q == p {
                c
            } else {
                cell_at(g, q)
            },
{
    let n = with_cell(g, p, c);
    assert(g[p.y as int].len() == grid_width(g));
    assert forall|y: int| 0 <= y < n.len() implies (#[trigger] n[y]).len() == n[0].len() by {
        assert(g[y].len() == g[0].len());
    }
    assert forall|q: Point| in_bounds(g, q) implies #[trigger] cell_at(n, q) == if q == p {
        c
    } else {
        cell_at(g, q)
    } by {
        assert(g[q.y as int].len() == grid_width(g));
    }
}

/// For `r` in `[0, m)`: `r` is the remainder of `a` exactly when `m` divides `a - r`.
proof fn lemma_remainder_iff(a: int, r: int, m: int)
    requires
        0 <= r < m,
    ensures
        (r == a % m) <==> ((a - r) % m == 0),
{
    lemma_fundamental_div_mod(a, m);
    lemma_fundamental_div_mod(a - r, m);
    if r == a % m {
        lemma_mod_multiples_basic(a / m, m);
        assert(a - r == (a / m) * m) by (nonlinear_arith)
            requires
                a == m * (a / m) + r,
        ;
    }
    if (a - r) % m == 0 {
        let q = (a - r) / m;
        assert(a == q * m + r) by (nonlinear_arith)
            requires
                a - r == m * q + 0,
        ;
        lemma_fundamental_div_mod_converse_mod(a, m, q, r);
    }
}

/// A sequence of distinct on-board points is no longer than the board has cells.
pub proof fn lemma_cells_fit(g: Seq<Seq<Cell>>, s: Seq<Point>)
    requires
        grid_wf(g),
        s.no_duplicates(),
        forall|i: int| 0 <= i < s.len() ==> in_bounds(g, #[trigger] s[i]),
    ensures
        s.len() <= grid_width(g) * grid_height(g),
{
    let w = grid_width(g);
    let h = grid_height(g);
    let idx = s.map_values(|p: Point| p.y * w + p.x);
    assert forall|i: int, j: int| 0 <= i < idx.len() && 0 <= j < idx.len() && i != j implies idx[i]
        != idx[j] by {
        if idx[i] == idx[j] {
            let v = idx[i];
            lemma_fundamental_div_mod_converse_mod(v, w, s[i].y as int, s[i].x as int);
            lemma_fundamental_div_mod_converse_div(v, w, s[i].y as int, s[i].x as int);
            lemma_fundamental_div_mod_converse_mod(v, w, s[j].y as int, s[j].x as int);
            lemma_fundamental_div_mod_converse_div(v, w, s[j].y as int, s[j].x as int);
            assert(s[i] == s[j]);
        }
    }
    idx.unique_seq_to_set();
    assert forall|v: int| idx.to_set().contains(v) implies set_int_range(0, w * h).contains(v) by {
        let i = choose|i: int| 0 <= i < idx.len() && idx[i] == v;
        let p = s[i];
        assert(0 <= p.y * w + p.x < w * h) by (nonlinear_arith)
            requires
                0 <= p.x < w,
                0 <= p.y < h,
        ;
    }
    lemma_int_range(0, w * h);
    lemma_len_subset(idx.to_set(), set_int_range(0, w * h));
}

/// A row with an empty cell among its first `n` has one there.
proof fn lemma_row_has_empty(row: Seq<Cell>, n: int) -> (x: int)
    requires
        0 <= n <= row.len(),
        row_empties(row, n) > 0,
    ensures
        0 <= x < n,
        row[x] == Cell::Empty,
    decreases n,
{
    if row[n - 1] == Cell::Empty {
        n - 1
    } else {
        lemma_row_has_empty(row, n - 1)
    }
}

/// A board with a positive count of empty cells has an empty cell.
pub proof fn lemma_has_empty(g: Seq<Seq<Cell>>, n: int) -> (p: Point)
    requires
        grid_wf(g),
        0 <= n <= g.len(),
        rows_empties(g, n) > 0,
    ensures
        in_bounds(g, p),
        p.y < n,
        cell_at(g, p) == Cell::Empty,
    decreases n,
{
    lemma_dims(g);
    let row = g[n - 1];
    assert(row.len() == grid_width(g));
    if row_empties(row, row.len() as int) > 0 {
        let x = lemma_row_has_empty(row, row.len() as int);
        Point { x: x as isize, y: (n - 1) as isize }
    } else {
        lemma_has_empty(g, n - 1)
    }
}

/// Number of empty cells among the first `n` of a row.
pub open spec fn row_empties(row: Seq<Cell>, n: int) -> nat
    decreases n,
{
    if n <= 0 {
        0
    } else {
        row_empties(row, n - 1) + if row[n - 1] == Cell::Empty {
            1nat
        } else {
            0nat
        }
    }
}

/// Number of empty cells in the first `n` rows.
pub open spec fn rows_empties(g: Seq<Seq<Cell>>, n: int) -> nat
    decreases n,
{
    if n <= 0 {
        0
    } else {
        rows_empties(g, n - 1) + row_empties(g[n - 1], g[n - 1].len() as int)
    }
}

pub open spec fn empty_count(g: Seq<Seq<Cell>>) -> nat {
    rows_empties(g, g.len() as int)
}

/// Number of empty cells before `p`, in row-major order.
pub open spec fn empty_rank(g: Seq<Seq<Cell>>, p: Point) -> nat {
    rows_empties(g, p.y as int) + row_empties(g[p.y as int], p.x as int)
}


proof fn lemma_row_empties_mono(row: Seq<Cell>, a: int, b: int)
    requires
        0 <= a <= b,
    ensures
        row_empties(row, a) <= row_empties(row, b),
    decreases b - a,
{
    if a < b {
        lemma_row_empties_mono(row, a, b - 1);
    }
}

proof fn lemma_rows_empties_mono(g: Seq<Seq<Cell>>, a: int, b: int)
    requires
        0 <= a <= b,
    ensures
        rows_empties(g, a) <= rows_empties(g, b),
    decreases b - a,
{
    if a < b {
        lemma_rows_empties_mono(g, a, b - 1);
    }
}

/// An empty cell's rank is below the number of empty cells.
pub proof fn lemma_rank_below_count(g: Seq<Seq<Cell>>, p: Point)
    requires
        grid_wf(g),
        in_bounds(g, p),
        cell_at(g, p) == Cell::Empty,
    ensures
        empty_rank(g, p) < empty_count(g),
{
    let y = p.y as int;
    let x = p.x as int;
    assert(g[y].len() == grid_width(g));
    lemma_row_empties_mono(g[y], x + 1, g[y].len() as int);
    assert(rows_empties(g, y + 1) == rows_empties(g, y) + row_empties(g[y], g[y].len() as int));
    lemma_rows_empties_mono(g, y + 1, g.len() as int);
}

/// A row drawn between two bars.
pub open spec fn row_text(row: Seq<Cell>) -> Seq<char> {
    seq!['|'] + row.map_values(|c: Cell| c.glyph()) + seq!['|']
}

/// The top or bottom edge of a board `w` cells wide.
pub open spec fn border_text(w: nat) -> Seq<char> {
    seq!['+'] + Seq::new(w, |i: int| '-') + seq!['+']
}

/// The first `n` rows drawn, one line each, joined by line breaks.
pub open spec fn rows_text(g: Seq<Seq<Cell>>, n: int) -> Seq<char>
    decreases n,
{
    if n <= 0 {
        seq![]
    } else if n == 1 {
        row_text(g[0])
    } else {
        rows_text(g, n - 1) + seq!['\n'] + row_text(g[n - 1])
    }
}

/// The whole board drawn as text inside a frame, ending with a line break.
pub open spec fn board_text(g: Seq<Seq<Cell>>) -> Seq<char> {
    border_text(grid_width(g) as nat) + seq!['\n'] + rows_text(g, grid_height(g)) + seq!['\n']
        + border_text(grid_width(g) as nat) + seq!['\n']
}

/// Relies on rand's `Range::new(0, n)` sampled with `thread_rng()`: a number
/// drawn uniformly from `[0, n)`. `Range::new` panics unless `0 < n`.
#[verifier::external_body]
fn random_below(n: usize) -> (r: usize)
    requires
        0 < n,
    ensures
        r < n,
{
    rand::distributions::Range::new(0, n).ind_sample(&mut rand::thread_rng())
}

impl View for Field {
    type V = Seq<Seq<Cell>>;

    closed spec fn view(&self) -> Seq<Seq<Cell>> {
        self.inner@.map_values(|row: Vec<Cell>| row@)
    }
}

impl Size2D<usize> for Field {
    open spec fn spec_width(&self) -> usize {
        if self@.len() == 0 {
            0
        } else {
            self@[0].len() as usize
        }
    }

    open spec fn spec_height(&self) -> usize {
        self@.len() as usize
    }

    fn width(&self) -> (r: usize) {
        if self.inner.len() == 0 {
            0
        } else {
            self.inner[0].len()
        }
    }

    fn height(&self) -> (r: usize) {
        self.inner.len()
    }
}

impl Field {
    pub open spec fn wf(&self) -> bool {
        grid_wf(self@)
    }

    proof fn lemma_view(&self)
        ensures
            self@.len() == self.inner@.len(),
            forall|y: int| 0 <= y < self@.len() ==> #[trigger] self@[y] == self.inner@[y]@,
            self.wf() ==> 0 < self.spec_width() == grid_width(self@) <= isize::MAX,
            self.wf() ==> 0 < self.spec_height() == grid_height(self@) <= isize::MAX,
    {
        if self.wf() {
            lemma_dims(self@);
        }
    }

    /// A board of `width` by `height` empty cells.
    pub fn with_size(width: usize, height: usize) -> (r: Field)
        requires
            1 <= width,
            1 <= height,
            width * height <= isize::MAX,
        ensures
            r.wf(),
            grid_width(r@) == width,
            grid_height(r@) == height,
            forall|p: Point| in_bounds(r@, p) ==> cell_at(r@, p) == Cell::Empty,
    {
        let mut rows: Vec<Vec<Cell>> = Vec::with_capacity(height);
        let mut y: usize = 0;
        while y < height
            invariant
                y <= height,
                rows@.len() == y,
                forall|j: int|
                    0 <= j < y ==> (#[trigger] rows@[j])@ == Seq::new(width as nat, |i: int| Cell::Empty),
            decreases height - y,
        {
            let mut row: Vec<Cell> = Vec::with_capacity(width);
            let mut x: usize = 0;
            while x < width
                invariant
                    x <= width,
                    row@ == Seq::new(x as nat, |i: int| Cell::Empty),
                decreases width - x,
            {
                row.push(Cell::Empty);
                x = x + 1;
            }
            rows.push(row);
            y = y + 1;
        }
        let r = Field { inner: rows };
        proof {
            r.lemma_view();
        }
        assert(r@[0].len() == width);
        assert(height * width == width * height) by (nonlinear_arith);
        r
    }

    /// `(width, height)`.
    pub fn size(&self) -> (r: (usize, usize))
        requires
            self.wf(),
        ensures
            r.0 == grid_width(self@),
            r.1 == grid_height(self@),
    {
        proof {
            self.lemma_view();
        }
        (self.width(), self.height())
    }

    /// The rows of the board, top to bottom.
    pub fn rows(&self) -> (r: &Vec<Vec<Cell>>)
        ensures
            r@.len() == self@.len(),
            forall|y: int| 0 <= y < r@.len() ==> (#[trigger] r@[y])@ == self@[y],
    {
        &self.inner
    }

    /// The cell at column `x`, row `y`, both taken around the board.
    pub fn get(&self, x: usize, y: usize) -> (r: Cell)
        requires
            self.wf(),
        ensures
            r == cell_at(self@, wrap_on(self@, x as int, y as int)),
    {
        proof {
            self.lemma_view();
        }
        let p = Point { x: (x % self.width()) as isize, y: (y % self.height()) as isize };
        proof {
            lemma_small_mod((x % self.spec_width()) as nat, self.spec_width() as nat);
            lemma_small_mod((y % self.spec_height()) as nat, self.spec_height() as nat);
        }
        self.cell(p)
    }

    /// The cell under `p`, taken around the board.
    pub fn cell(&self, p: Point) -> (r: Cell)
        requires
            self.wf(),
        ensures
            r == cell_at(self@, wrap_on(self@, p.x as int, p.y as int)),
    {
        proof {
            self.lemma_view();
        }
        let q = p.wrap(self);
        assert(self.inner@[q.y as int]@ == self@[q.y as int]);
        self.inner[q.y as usize][q.x as usize]
    }

    /// Puts `c` under `p`, taken around the board.
    pub fn set_cell(&mut self, p: Point, c: Cell)
        requires
            old(self).wf(),
        ensures
            final(self).wf(),
            final(self)@ == with_cell(old(self)@, wrap_on(old(self)@, p.x as int, p.y as int), c),
    {
        proof {
            self.lemma_view();
        }
        let q = p.wrap(self);
        let ghost g = self@;
        assert(self.inner@[q.y as int]@ == self@[q.y as int]);
        self.inner[q.y as usize].set(q.x as usize, c);
        proof {
            self.lemma_view();
        }
        assert(self@ =~= with_cell(g, q, c));
    }

    /// Where the segment at `p` moves next, on the board; `None` unless `p`
    /// holds a segment.
    pub fn next_point(&self, p: Point) -> (r: Option<Point>)
        requires
            self.wf(),
        ensures
            r == successor(self@, p),
    {
        proof {
            self.lemma_view();
        }
        let q = p.wrap(self);
        proof {
            lemma_wrap_on_board(self@, q);
        }
        match self.cell(q).snake_direction() {
            Some(d) => Some(d.advance(q).wrap(self)),
            None => None,
        }
    }

    /// Lays a straight snake of `len` segments, all moving right, along row
    /// `row` (taken around the board), centred on the board. Returns its head
    /// (the rightmost segment) and its tail (the leftmost).
    pub fn init_snake(&mut self, len: usize, row: usize) -> (r: (Point, Point))
        requires
            old(self).wf(),
            len <= grid_width(old(self)@),
        ensures
            final(self).wf(),
            final(self)@.len() == old(self)@.len(),
            grid_width(final(self)@) == grid_width(old(self)@),
            r.0 == (Point {
                x: ((grid_width(old(self)@) + len as int) / 2 % grid_width(old(self)@)) as isize,
                y: (row as int % grid_height(old(self)@)) as isize,
            }),
            r.1 == wrap_on(old(self)@, r.0.x - len + 1, r.0.y as int),
            forall|p: Point|
                in_bounds(old(self)@, p) ==> #[trigger] cell_at(final(self)@, p) == if p.y == r.0.y && (
                r.0.x - p.x) % grid_width(old(self)@) < len {
                    Cell::Snake(Direction::Right)
                } else {
                    cell_at(old(self)@, p)
                },
    {
        proof {
            self.lemma_view();
        }
        let ghost g = self@;
        proof {
            lemma_dims(g);
        }
        let w = self.width();
        let h = self.height();
        let hx = ((w + len) / 2) % w;
        let y = row % h;
        let head = Point { x: hx as isize, y: y as isize };
        let mut i: usize = 0;
        while i < len
            invariant
                i <= len <= w,
                w == grid_width(g),
                h == grid_height(g),
                w <= isize::MAX,
                h <= isize::MAX,
                0 <= hx < w,
                0 <= y < h,
                grid_wf(g),
                self.wf(),
                self@.len() == g.len(),
                grid_width(self@) == w,
                forall|p: Point|
                    in_bounds(g, p) ==> #[trigger] cell_at(self@, p) == if p.y == y && (hx - p.x) % (
                    w as int) < i {
                        Cell::Snake(Direction::Right)
                    } else {
                        cell_at(g, p)
                    },
            decreases len - i,
        {
            let ghost before = self@;
            let target = Point { x: hx as isize - i as isize, y: y as isize };
            self.set_cell(target, Cell::Snake(Direction::Right));
            proof {
                lemma_wrap_on_board(g, Point { x: 0, y: y as isize });
                assert forall|p: Point| in_bounds(g, p) implies #[trigger] cell_at(self@, p) == if p.y
                    == y && (hx - p.x) % (w as int) < i + 1 {
                    Cell::Snake(Direction::Right)
                } else {
                    cell_at(g, p)
                } by {
                    lemma_remainder_iff(hx - i, p.x as int, w as int);
                    lemma_remainder_iff(hx - p.x, i as int, w as int);
                    assert(before[p.y as int].len() == w);
                    assert(cell_at(before, p) == cell_at(self@, p) || p == wrap_on(
                        before,
                        hx - i,
                        y as int,
                    ));
                }
            }
            i = i + 1;
        }
        let tail = Point { x: hx as isize - len as isize + 1, y: y as isize }.wrap(self);
        (head, tail)
    }

    /// The number of empty cells.
    pub fn count_empty(&self) -> (r: usize)
        requires
            self.wf(),
        ensures
            r == empty_count(self@),
    {
        proof {
            self.lemma_view();
        }
        let g = Ghost(self@);
        proof {
            lemma_dims(g@);
        }
        let w = self.width();
        let h = self.height();
        let mut count: usize = 0;
        let mut y: usize = 0;
        while y < h
            invariant
                grid_wf(g@),
                g@ == self@,
                w == grid_width(g@),
                h == grid_height(g@),
                w <= isize::MAX,
                h <= isize::MAX,
                y <= h,
                count == rows_empties(g@, y as int),
                count <= y * w,
            decreases h - y,
        {
            assert(self.inner@[y as int]@ == g@[y as int]);
            let mut x: usize = 0;
            while x < w
                invariant
                    grid_wf(g@),
                    g@ == self@,
                    self.inner@[y as int]@ == g@[y as int],
                    g@[y as int].len() == w,
                    w == grid_width(g@),
                    h == grid_height(g@),
                    w <= isize::MAX,
                    h <= isize::MAX,
                    y < h,
                    x <= w,
                    count == rows_empties(g@, y as int) + row_empties(g@[y as int], x as int),
                    count <= y * w + x,
                decreases w - x,
            {
                assert(y * w + x + 1 <= h * w) by (nonlinear_arith)
                    requires
                        x < w,
                        y < h,
                ;
                if self.inner[y][x] == Cell::Empty {
                    count = count + 1;
                }
                x = x + 1;
            }
            assert((y + 1) * w == y * w + w) by (nonlinear_arith);
            y = y + 1;
        }
        count
    }

    /// Turns the empty cell of rank `place` (counting empty cells in
    /// row-major order from zero) into food. Fails, changing nothing, when
    /// there are no more than `place` empty cells.
    pub fn place_food(&mut self, place: usize) -> (r: Result<(), ()>)
        requires
            old(self).wf(),
        ensures
            final(self).wf(),
            r is Ok <==> place < empty_count(old(self)@),
            r is Err ==> final(self)@ == old(self)@,
            r is Ok ==> exists|p: Point|
                in_bounds(old(self)@, p) && cell_at(old(self)@, p) == Cell::Empty && empty_rank(
                    old(self)@,
                    p,
                ) == place && final(self)@ == with_cell(old(self)@, p, Cell::Food),
    {
        proof {
            self.lemma_view();
        }
        let g = Ghost(self@);
        proof {
            lemma_dims(g@);
        }
        let w = self.width();
        let h = self.height();
        let mut seen: usize = 0;
        let mut y: usize = 0;
        while y < h
            invariant
                grid_wf(g@),
                g@ == self@,
                    g@ == old(self)@,
                w == grid_width(g@),
                h == grid_height(g@),
                w <= isize::MAX,
                h <= isize::MAX,
                y <= h,
                seen == rows_empties(g@, y as int),
                seen <= place,
            decreases h - y,
        {
            assert(self.inner@[y as int]@ == g@[y as int]);
            let mut x: usize = 0;
            while x < w
                invariant
                    grid_wf(g@),
                    g@ == self@,
                    g@ == old(self)@,
                    self.inner@[y as int]@ == g@[y as int],
                    g@[y as int].len() == w,
                    w == grid_width(g@),
                    h == grid_height(g@),
                    w <= isize::MAX,
                    h <= isize::MAX,
                    y < h,
                    x <= w,
                    seen == rows_empties(g@, y as int) + row_empties(g@[y as int], x as int),
                    seen <= place,
                decreases w - x,
            {
                if self.inner[y][x] == Cell::Empty {
                    if seen == place {
                        let p = Point { x: x as isize, y: y as isize };
                        proof {
                            lemma_wrap_on_board(g@, p);
                            lemma_rank_below_count(g@, p);
                        }
                        self.set_cell(p, Cell::Food);
                        assert(in_bounds(g@, p) && cell_at(g@, p) == Cell::Empty && empty_rank(g@, p)
                            == place && self@ == with_cell(g@, p, Cell::Food));
                        return Ok(());
                    }
                    seen = seen + 1;
                }
                x = x + 1;
            }
            y = y + 1;
        }
        Err(())
    }

    /// Drops one piece of food on an empty cell drawn uniformly at random.
    /// `snake_len` is the number of cells the snake covers; the draw ranges
    /// over at most the cells it leaves free. Fails, changing nothing, when no
    /// cell is empty or the snake covers the whole board.
    pub fn drop_food(&mut self, snake_len: usize) -> (r: Result<(), ()>)
        requires
            old(self).wf(),
        ensures
            final(self).wf(),
            r is Ok <==> (0 < empty_count(old(self)@) && snake_len < grid_width(old(self)@)
                * grid_height(old(self)@)),
            r is Err ==> final(self)@ == old(self)@,
            r is Ok ==> exists|p: Point|
                in_bounds(old(self)@, p) && cell_at(old(self)@, p) == Cell::Empty && final(self)@
                    == with_cell(old(self)@, p, Cell::Food),
    {
        proof {
            self.lemma_view();
        }
        let n_empty = self.count_empty();
        let total = self.width() * self.height();
        if snake_len >= total || n_empty == 0 {
            return Err(());
        }
        let room = total - snake_len;
        let n_free = if room < n_empty {
            room
        } else {
            n_empty
        };
        let place = random_below(n_free);
        self.place_food(place)
    }

    /// The board as text: a frame of `+`, `-` and `|` around one line per row,
    /// each cell shown by its symbol.
    pub fn render(&self) -> (r: Vec<char>)
        requires
            self.wf(),
        ensures
            r@ == board_text(self@),
    {
        proof {
            self.lemma_view();
        }
        let w = self.width();
        let h = self.height();
        let mut border: Vec<char> = Vec::new();
        border.push('+');
        let mut i: usize = 0;
        while i < w
            invariant
                i <= w,
                border@ == seq!['+'] + Seq::new(i as nat, |k: int| '-'),
            decreases w - i,
        {
            border.push('-');
            i = i + 1;
            assert(border@ =~= seq!['+'] + Seq::new(i as nat, |k: int| '-'));
        }
        border.push('+');
        assert(border@ =~= border_text(w as nat));
        let mut out: Vec<char> = Vec::new();
        out.extend_from_slice(border.as_slice());
        out.push('\n');
        let ghost head = out@;
        let mut y: usize = 0;
        while y < h
            invariant
                grid_wf(self@),
                w == grid_width(self@),
                h == grid_height(self@),
                y <= h,
                head == border_text(w as nat) + seq!['\n'],
                out@ == head + rows_text(self@, y as int),
            decreases h - y,
        {
            let ghost before = out@;
            if y > 0 {
                out.push('\n');
            }
            out.push('|');
            let row = &self.inner[y];
            assert(row@ == self@[y as int]);
            let mut x: usize = 0;
            let ghost start = out@;
            while x < row.len()
                invariant
                    x <= row@.len(),
                    out@ == start + row@.take(x as int).map_values(|c: Cell| c.glyph()),
                decreases row@.len() - x,
            {
                out.push(row[x].symbol());
                x = x + 1;
                assert(out@ =~= start + row@.take(x as int).map_values(|c: Cell| c.glyph()));
            }
            out.push('|');
            assert(row@.take(x as int) =~= row@);
            y = y + 1;
            if y == 1 {
                assert(out@ =~= head + rows_text(self@, 1));
            } else {
                assert(out@ =~= head + rows_text(self@, y as int));
            }
        }
        out.push('\n');
        out.extend_from_slice(border.as_slice());
        out.push('\n');
        assert(out@ =~= board_text(self@));
        out
    }
}

} // verus!
