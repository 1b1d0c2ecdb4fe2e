use vstd::arithmetic::div_mod::{lemma_fundamental_div_mod_converse_mod, lemma_small_mod};
use vstd::prelude::*;

use crate::cell::{Cell, Direction};
use crate::field::{
    board_text, cell_at, empty_count, grid_height, grid_wf, grid_width, in_bounds, lemma_cells_fit,
    lemma_has_empty, lemma_rank_below_count, lemma_with_cell, lemma_wrap_in_bounds, lemma_wrap_on_board, successor, with_cell, wrap_on, Field,
};
use crate::point::Point;

verus! {

const WIDTH: usize = 20;

const HEIGHT: usize = 10;

const INITIAL_LEN: usize = 5;

/// Where a game stands.
#[derive(Clone, Copy, Debug, PartialEq, Eq, Structural)]
pub enum GameState {
    GameOn,
    GamePaused,
    GameOver,
}

/// A game of snake: the board, the two ends of the snake, and the counters.
pub struct Game {
    field: Field,
    tail: Point,
    head: Point,
    score: usize,
    snake_len: usize,
    state: GameState,
    no_turn_back: Direction,
    body: Ghost<Seq<Point>>,
}

/// The abstract state of a game.
pub struct GameView {
    pub cells: Seq<Seq<Cell>>,
    pub head: Point,
    pub tail: Point,
    pub score: nat,
    pub snake_len: nat,
    pub state: GameState,
    /// The one direction a turn may not take.
    pub no_turn_back: Direction,
    /// The squares the snake covers, from its tail to its head.
    pub body: Seq<Point>,
}

impl GameView {
    /// The snake is a chain of `snake_len` distinct on-board squares from
    /// `tail` to `head`, each segment's direction leading to the next, and
    /// the snake squares of the board are exactly its squares.
    pub open spec fn inv(self) -> bool {
        &&& grid_wf(self.cells)
        &&& self.snake_len >= 1
        &&& self.body.len() == self.snake_len
        &&& self.body[0] == self.tail
        &&& self.body.last() == self.head
        &&& self.body.no_duplicates()
        &&& forall|i: int| 0 <= i < self.body.len() ==> in_bounds(self.cells, #[trigger] self.body[i])
        &&& forall|i: int|
            0 <= i < self.body.len() - 1 ==> successor(self.cells, #[trigger] self.body[i]) == Some(
                self.body[i + 1],
            )
        &&& forall|p: Point|
            in_bounds(self.cells, p) ==> ((#[trigger] cell_at(self.cells, p) is Snake)
                <==> self.body.contains(p))
        &&& self.score <= self.snake_len
    }

    /// The direction the head will move in.
    pub open spec fn head_dir(self) -> Direction {
        match cell_at(self.cells, self.head) {
            Cell::Snake(d) => d,
            _ => Direction::Right,
        }
    }

    /// The square the head moves onto at the next step.
    pub open spec fn next_head(self) -> Point {
        wrap_on(self.cells, self.head.x + self.head_dir().dx(), self.head.y + self.head_dir().dy())
    }

    /// The square the tail moves onto when the snake moves without growing.
    pub open spec fn next_tail(self) -> Point {
        match successor(self.cells, self.tail) {
            Some(p) => p,
            None => self.tail,
        }
    }

    /// The state after an ordinary move: the tail square empties, the head
    /// enters the next square.
    pub open spec fn advanced(self) -> GameView {
        GameView {
            cells: with_cell(
                with_cell(self.cells, self.tail, Cell::Empty),
                self.next_head(),
                Cell::Snake(self.head_dir()),
            ),
            head: self.next_head(),
            tail: self.next_tail(),
            no_turn_back: self.head_dir().reversed(),
            body: self.body.drop_first().push(self.next_head()),
            ..self
        }
    }

    /// The state after eating, before new food is dropped: the head enters the
    /// next square and the tail stays.
    pub open spec fn grown(self) -> GameView {
        GameView {
            cells: with_cell(self.cells, self.next_head(), Cell::Snake(self.head_dir())),
            head: self.next_head(),
            score: self.score + 1,
            snake_len: self.snake_len + 1,
            no_turn_back: self.head_dir().reversed(),
            body: self.body.push(self.next_head()),
            ..self
        }
    }

    /// `next` is this state with one piece of food dropped on an empty
    /// square, or unchanged when there is none.
    pub open spec fn fed(self, next: GameView) -> bool {
        &&& next == GameView { cells: next.cells, ..self }
        &&& if empty_count(self.cells) == 0 {
            next.cells == self.cells
        } else {
            exists|p: Point|
                in_bounds(self.cells, p) && cell_at(self.cells, p) == Cell::Empty && next.cells
                    == with_cell(self.cells, p, Cell::Food)
        }
    }

    /// `next` is a state that one step can lead to from this one.
    pub open spec fn stepped(self, next: GameView) -> bool {
        if self.state != GameState::GameOn {
            next == self
        } else {
            match cell_at(self.cells, self.next_head()) {
                Cell::Empty => next == self.advanced(),
                Cell::Snake(_) => if self.next_head() == self.tail {
                    next == self.advanced()
                } else {
                    next == GameView { state: GameState::GameOver, ..self }
                },
                Cell::Food => self.grown().fed(next),
            }
        }
    }

    /// A turn towards `dir` is refused.
    pub open spec fn turn_refused(self, dir: Direction) -> bool {
        self.state == GameState::GameOver || dir == self.no_turn_back
    }
}

/// An ordinary move keeps the snake a well-formed chain.
proof fn lemma_advance_inv(g: GameView)
    requires
        g.inv(),
        cell_at(g.cells, g.next_head()) == Cell::Empty || g.next_head() == g.tail,
    ensures
        g.advanced().inv(),
{
    let n = g.advanced();
    let np = g.next_head();
    let len = g.body.len() as int;
    let mid = with_cell(g.cells, g.tail, Cell::Empty);
    lemma_wrap_on_board(g.cells, g.head);
    lemma_wrap_on_board(g.cells, g.tail);
    assert(g.body[len - 1] == g.head);
    assert(g.body.contains(g.tail));
    lemma_wrap_in_bounds(g.cells, g.head.x + g.head_dir().dx(), g.head.y + g.head_dir().dy());
    lemma_with_cell(g.cells, g.tail, Cell::Empty);
    lemma_with_cell(mid, np, Cell::Snake(g.head_dir()));
    // The next square is not among the squares that stay.
    assert forall|i: int| 1 <= i < len implies g.body[i] != np by {
        if g.body[i] == np {
            if np == g.tail {
                assert(g.body[0] == g.body[i]);
            } else {
                assert(g.body.contains(np));
            }
        }
    }
    assert(n.body.len() == len);
    assert forall|i: int| 0 <= i < n.body.len() implies in_bounds(n.cells, #[trigger] n.body[i]) by {
        if i < len - 1 {
            assert(n.body[i] == g.body[i + 1]);
        }
    }
    assert forall|i: int| 0 <= i < n.body.len() - 1 implies successor(n.cells, #[trigger] n.body[i])
        == Some(n.body[i + 1]) by {
        assert(n.body[i] == g.body[i + 1]);
        let p = g.body[i + 1];
        lemma_wrap_on_board(g.cells, p);
        lemma_wrap_on_board(n.cells, p);
        assert(p != g.tail);
        assert(p != np);
        assert(cell_at(n.cells, p) == cell_at(g.cells, p));
        if i + 1 < len - 1 {
            assert(successor(g.cells, g.body[i + 1]) == Some(g.body[i + 2]));
            assert(n.body[i + 1] == g.body[i + 2]);
        } else {
            assert(p == g.head);
            assert(n.body[i + 1] == np);
        }
    }
    assert(n.body.no_duplicates()) by {
        assert forall|i: int, j: int| 0 <= i < n.body.len() && 0 <= j < n.body.len() && i != j implies n.body[i]
            != n.body[j] by {
            if i < len - 1 && j < len - 1 {
                assert(n.body[i] == g.body[i + 1] && n.body[j] == g.body[j + 1]);
            } else if i < len - 1 {
                assert(n.body[i] == g.body[i + 1]);
            } else if j < len - 1 {
                assert(n.body[j] == g.body[j + 1]);
            }
        }
    }
    assert forall|p: Point| in_bounds(n.cells, p) implies ((#[trigger] cell_at(n.cells, p) is Snake)
        <==> n.body.contains(p)) by {
        if p == np {
            assert(n.body[len - 1] == np);
        } else if p == g.tail {
            assert(cell_at(n.cells, p) == Cell::Empty);
            if n.body.contains(p) {
                let i = choose|i: int| 0 <= i < n.body.len() && n.body[i] == p;
                assert(n.body[i] == g.body[i + 1]);
                assert(g.body[0] == g.body[i + 1]);
            }
        } else {
            assert(cell_at(n.cells, p) == cell_at(g.cells, p));
            if g.body.contains(p) {
                let i = choose|i: int| 0 <= i < g.body.len() && g.body[i] == p;
                assert(i != 0);
                assert(n.body[i - 1] == p);
            }
            if n.body.contains(p) {
                let i = choose|i: int| 0 <= i < n.body.len() && n.body[i] == p;
                assert(n.body[i] == g.body[i + 1]);
            }
        }
    }
    if len >= 2 {
        assert(n.body[0] == g.body[1]);
        assert(successor(g.cells, g.body[0]) == Some(g.body[1]));
    } else {
        assert(g.tail == g.head);
        lemma_wrap_on_board(g.cells, g.head);
    }
}

/// Eating keeps the snake a well-formed chain, one square longer.
proof fn lemma_grow_inv(g: GameView)
    requires
        g.inv(),
        cell_at(g.cells, g.next_head()) == Cell::Food,
    ensures
        g.grown().inv(),
        g.snake_len + 1 <= grid_width(g.cells) * grid_height(g.cells),
{
    let n = g.grown();
    let np = g.next_head();
    let len = g.body.len() as int;
    lemma_wrap_on_board(g.cells, g.head);
    assert(g.body[len - 1] == g.head);
    lemma_wrap_in_bounds(g.cells, g.head.x + g.head_dir().dx(), g.head.y + g.head_dir().dy());
    lemma_with_cell(g.cells, np, Cell::Snake(g.head_dir()));
    assert(!g.body.contains(np));
    assert(n.body.no_duplicates()) by {
        assert forall|i: int, j: int| 0 <= i < n.body.len() && 0 <= j < n.body.len() && i != j implies n.body[i]
            != n.body[j] by {
            if i == len {
                assert(g.body.contains(n.body[j]) ==> n.body[j] != np);
            } else if j == len {
                assert(g.body.contains(n.body[i]));
            }
        }
    }
    assert forall|i: int| 0 <= i < n.body.len() implies in_bounds(n.cells, #[trigger] n.body[i]) by {}
    lemma_cells_fit(g.cells, n.body);
    assert forall|i: int| 0 <= i < n.body.len() - 1 implies successor(n.cells, #[trigger] n.body[i])
        == Some(n.body[i + 1]) by {
        let p = g.body[i];
        lemma_wrap_on_board(g.cells, p);
        assert(g.body.contains(p));
        assert(p != np);
        assert(cell_at(n.cells, p) == cell_at(g.cells, p));
        if i < len - 1 {
            assert(successor(g.cells, g.body[i]) == Some(g.body[i + 1]));
        }
    }
    assert forall|p: Point| in_bounds(n.cells, p) implies ((#[trigger] cell_at(n.cells, p) is Snake)
        <==> n.body.contains(p)) by {
        if p == np {
            assert(n.body[len] == np);
        } else {
            assert(cell_at(n.cells, p) == cell_at(g.cells, p));
            if g.body.contains(p) {
                let i = choose|i: int| 0 <= i < g.body.len() && g.body[i] == p;
                assert(n.body[i] == p);
            }
            if n.body.contains(p) {
                let i = choose|i: int| 0 <= i < n.body.len() && n.body[i] == p;
                assert(g.body[i] == p);
            }
        }
    }
}

/// While a square is empty, the snake does not cover the whole board.
proof fn lemma_room_for_food(g: GameView)
    requires
        g.inv(),
        empty_count(g.cells) > 0,
    ensures
        g.snake_len < grid_width(g.cells) * grid_height(g.cells),
{
    let p = lemma_has_empty(g.cells, g.cells.len() as int);
    let s = g.body.push(p);
    assert(!g.body.contains(p));
    assert forall|i: int| 0 <= i < s.len() implies in_bounds(g.cells, #[trigger] s[i]) by {}
    assert(s.no_duplicates()) by {
        assert forall|i: int, j: int| 0 <= i < s.len() && 0 <= j < s.len() && i != j implies s[i] != s[j] by {
            if i == g.body.len() {
                assert(g.body.contains(s[j]));
            } else if j == g.body.len() {
                assert(g.body.contains(s[i]));
            }
        }
    }
    lemma_cells_fit(g.cells, s);
}

/// The character of a decimal digit.
pub open spec fn digit_glyph(d: int) -> char {
    seq!['0', '1', '2', '3', '4', '5', '6', '7', '8', '9'][d]
}

/// `n` written in decimal.
pub open spec fn decimal(n: nat) -> Seq<char>
    decreases n,
{
    if n < 10 {
        seq![digit_glyph(n as int)]
    } else {
        decimal(n / 10) + seq![digit_glyph((n % 10) as int)]
    }
}

/// The game as text: a score line above the drawn board.
pub open spec fn game_text(g: GameView) -> Seq<char> {
    seq![' ', 's', 'c', 'o', 'r', 'e', ':', ' '] + decimal(g.score) + seq!['\n'] + board_text(g.cells)
        + seq!['\n']
}

fn digit(d: usize) -> (r: char)
    requires
        d < 10,
    ensures
        r == digit_glyph(d as int),
{
    match d {
        0 => '0',
        1 => '1',
        2 => '2',
        3 => '3',
        4 => '4',
        5 => '5',
        6 => '6',
        7 => '7',
        8 => '8',
        _ => '9',
    }
}

fn decimal_text(n: usize) -> (r: Vec<char>)
    ensures
        r@ == decimal(n as nat),
    decreases n,
{
    if n < 10 {
        let mut v: Vec<char> = Vec::new();
        v.push(digit(n));
        v
    } else {
        let mut v = decimal_text(n / 10);
        v.push(digit(n % 10));
        v
    }
}

/// The `n` squares met by following segment directions from `p`.
pub open spec fn walk(g: Seq<Seq<Cell>>, p: Point, n: nat) -> Seq<Point>
    decreases n,
{
    if n == 0 {
        seq![]
    } else {
        seq![p] + match successor(g, p) {
            Some(q) => walk(g, q, (n - 1) as nat),
            None => seq![],
        }
    }
}

proof fn lemma_walk_suffix(cells: Seq<Seq<Cell>>, body: Seq<Point>, k: int)
    requires
        0 <= k < body.len(),
        forall|i: int|
            0 <= i < body.len() - 1 ==> successor(cells, #[trigger] body[i]) == Some(body[i + 1]),
    ensures
        walk(cells, body[k], (body.len() - k) as nat) == body.subrange(k, body.len() as int),
    decreases body.len() - k,
{
    let len = body.len() as int;
    let p = body[k];
    if k < len - 1 {
        lemma_walk_suffix(cells, body, k + 1);
        assert(successor(cells, p) == Some(body[k + 1]));
        assert(walk(cells, p, (len - k) as nat) == seq![p] + walk(cells, body[k + 1], (len - k - 1) as nat));
        assert(body.subrange(k, len) =~= seq![p] + body.subrange(k + 1, len));
    } else {
        let rest = match successor(cells, p) {
            Some(q) => walk(cells, q, 0),
            None => seq![],
        };
        assert(rest =~= Seq::<Point>::empty());
        assert(walk(cells, p, 1) == seq![p] + rest);
        assert(body.subrange(k, len) =~= seq![p]);
    }
}

/// Following each segment's direction from the tail meets exactly
/// `snake_len` squares, the last of them the head and none before it; so
/// head and tail differ once the snake is longer than one square.
pub proof fn lemma_chain_reaches_head(g: GameView)
    requires
        g.inv(),
    ensures
        g.snake_len > 1 ==> g.head != g.tail,
        walk(g.cells, g.tail, g.snake_len) == g.body,
        walk(g.cells, g.tail, g.snake_len).len() == g.snake_len,
        walk(g.cells, g.tail, g.snake_len).last() == g.head,
        forall|i: int|
            0 <= i < g.snake_len - 1 ==> #[trigger] walk(g.cells, g.tail, g.snake_len)[i] != g.head,
{
    lemma_walk_suffix(g.cells, g.body, 0);
    assert(g.body[g.body.len() - 1] == g.head);
    assert(g.body.subrange(0, g.body.len() as int) =~= g.body);
    assert forall|i: int| 0 <= i < g.snake_len - 1 implies #[trigger] g.body[i] != g.head by {
        assert(g.body[g.body.len() - 1] == g.head);
    }
}

/// The opening position is a well-formed game.
proof fn lemma_initial_inv(g: GameView, c0: Seq<Seq<Cell>>, food: Point)
    requires
        grid_wf(c0),
        grid_width(c0) == 20,
        grid_height(c0) == 10,
        forall|p: Point|
            in_bounds(c0, p) ==> #[trigger] cell_at(c0, p) == if p.y == 5 && (12 - p.x) % 20 < 5 {
                Cell::Snake(Direction::Right)
            } else {
                Cell::Empty
            },
        in_bounds(c0, food),
        cell_at(c0, food) == Cell::Empty,
        g.cells == with_cell(c0, food, Cell::Food),
        g.head == (Point { x: 12, y: 5 }),
        g.tail == (Point { x: 8, y: 5 }),
        g.score == 0,
        g.snake_len == 5,
        g.body == Seq::new(5, |i: int| Point { x: (8 + i) as isize, y: 5 }),
    ensures
        g.inv(),
        forall|p: Point|
            in_bounds(g.cells, p) && g.body.contains(p) ==> cell_at(g.cells, p) == Cell::Snake(
                Direction::Right,
            ),
        forall|p: Point|
            in_bounds(g.cells, p) && p != food && !g.body.contains(p) ==> cell_at(g.cells, p)
                == Cell::Empty,
        cell_at(g.cells, food) == Cell::Food,
{
    let body = g.body;
    lemma_with_cell(c0, food, Cell::Food);
    assert forall|p: Point| #[trigger] in_bounds(c0, p) implies (cell_at(c0, p) is Snake
        <==> body.contains(p)) && (cell_at(c0, p) is Snake ==> cell_at(c0, p) == Cell::Snake(
        Direction::Right,
    )) by {
        if p.y == 5 && 8 <= p.x <= 12 {
            lemma_small_mod((12 - p.x) as nat, 20);
            assert(body[p.x - 8] == p);
        } else if p.y == 5 && p.x < 8 {
            lemma_small_mod((12 - p.x) as nat, 20);
        } else if p.y == 5 {
            lemma_fundamental_div_mod_converse_mod(12 - p.x, 20, -1, 32 - p.x);
        }
    }
    assert forall|i: int| 0 <= i < body.len() - 1 implies successor(g.cells, #[trigger] body[i])
        == Some(body[i + 1]) by {
        let q = body[i];
        assert(in_bounds(c0, q));
        lemma_wrap_on_board(c0, q);
        assert(body.contains(q));
        lemma_small_mod((9 + i) as nat, 20);
        lemma_small_mod(5, 10);
    }
    assert forall|i: int| 0 <= i < body.len() implies in_bounds(g.cells, #[trigger] body[i]) by {}
    assert(body.no_duplicates());
    assert(body[0] == g.tail);
    assert(body.last() == g.head);
}

/// Changing the head's direction keeps the snake a well-formed chain.
proof fn lemma_turn_inv(g: GameView, dir: Direction)
    requires
        g.inv(),
    ensures
        (GameView { cells: with_cell(g.cells, g.head, Cell::Snake(dir)), ..g }).inv(),
{
    let n = GameView { cells: with_cell(g.cells, g.head, Cell::Snake(dir)), ..g };
    let len = g.body.len() as int;
    assert(g.body[len - 1] == g.head);
    assert(g.body.contains(g.head));
    lemma_with_cell(g.cells, g.head, Cell::Snake(dir));
    assert forall|i: int| 0 <= i < n.body.len() - 1 implies successor(n.cells, #[trigger] n.body[i])
        == Some(n.body[i + 1]) by {
        let q = g.body[i];
        lemma_wrap_on_board(g.cells, q);
        assert(q != g.head);
    }
}

/// Dropping food on an empty square keeps the snake as it is.
proof fn lemma_food_inv(g: GameView, p: Point)
    requires
        g.inv(),
        in_bounds(g.cells, p),
        cell_at(g.cells, p) == Cell::Empty,
    ensures
        (GameView { cells: with_cell(g.cells, p, Cell::Food), ..g }).inv(),
{
    let n = GameView { cells: with_cell(g.cells, p, Cell::Food), ..g };
    lemma_with_cell(g.cells, p, Cell::Food);
    assert forall|i: int| 0 <= i < n.body.len() - 1 implies successor(n.cells, #[trigger] n.body[i])
        == Some(n.body[i + 1]) by {
        let q = g.body[i];
        lemma_wrap_on_board(g.cells, q);
        assert(g.body.contains(q));
    }
    assert forall|q: Point| in_bounds(n.cells, q) implies ((#[trigger] cell_at(n.cells, q) is Snake)
        <==> n.body.contains(q)) by {
        if q != p {
            assert(cell_at(n.cells, q) == cell_at(g.cells, q));
        }
    }
}

impl View for Game {
    type V = GameView;

    closed spec fn view(&self) -> GameView {
        GameView {
            cells: self.field@,
            head: self.head,
            tail: self.tail,
            score: self.score as nat,
            snake_len: self.snake_len as nat,
            state: self.state,
            no_turn_back: self.no_turn_back,
            body: self.body@,
        }
    }
}

impl Game {
    pub open spec fn wf(&self) -> bool {
        self@.inv()
    }

    /// Clears the tail square and moves the tail one segment on.
    fn move_tail(&mut self)
        requires
            old(self).wf(),
        ensures
            final(self).field.wf(),
            final(self)@ == (GameView {
                cells: with_cell(old(self)@.cells, old(self).tail, Cell::Empty),
                tail: old(self)@.next_tail(),
                ..old(self)@
            }),
    {
        let ghost g = self@;
        proof {
            assert(g.body[0] == g.tail);
            assert(g.body.contains(g.tail));
            lemma_wrap_on_board(g.cells, g.tail);
            lemma_with_cell(g.cells, g.tail, Cell::Empty);
        }
        let next = self.field.next_point(self.tail).unwrap();
        self.field.set_cell(self.tail, Cell::Empty);
        self.tail = next;
    }

    /// Moves the head onto `next`, which now carries `dir`.
    fn move_head(&mut self, dir: Direction, next: Point)
        requires
            old(self).field.wf(),
            in_bounds(old(self)@.cells, next),
        ensures
            final(self).field.wf(),
            final(self)@ == (GameView {
                cells: with_cell(old(self)@.cells, next, Cell::Snake(dir)),
                head: next,
                no_turn_back: dir.reversed(),
                ..old(self)@
            }),
    {
        proof {
            lemma_wrap_on_board(self@.cells, next);
            lemma_with_cell(self@.cells, next, Cell::Snake(dir));
        }
        self.field.set_cell(next, Cell::Snake(dir));
        self.head = next;
        self.no_turn_back = dir.opposite();
    }

    /// The whole snake moves one square on.
    fn advance(&mut self, dir: Direction, next: Point)
        requires
            old(self).wf(),
            dir == old(self)@.head_dir(),
            next == old(self)@.next_head(),
            cell_at(old(self)@.cells, next) == Cell::Empty || next == old(self)@.tail,
        ensures
            final(self).wf(),
            final(self)@ == old(self)@.advanced(),
    {
        let ghost g = self@;
        proof {
            lemma_advance_inv(g);
            lemma_wrap_in_bounds(g.cells, g.head.x + dir.dx(), g.head.y + dir.dy());
            lemma_with_cell(g.cells, g.tail, Cell::Empty);
        }
        self.move_tail();
        self.move_head(dir, next);
        self.body = Ghost(g.body.drop_first().push(next));
        assert(self@ == g.advanced());
    }

    /// The snake eats the food at `next` and grows onto it; new food is
    /// dropped where there is room.
    fn grow(&mut self, dir: Direction, next: Point)
        requires
            old(self).wf(),
            dir == old(self)@.head_dir(),
            next == old(self)@.next_head(),
            cell_at(old(self)@.cells, next) == Cell::Food,
        ensures
            final(self).wf(),
            old(self)@.grown().fed(final(self)@),
    {
        let ghost g = self@;
        proof {
            lemma_grow_inv(g);
            lemma_wrap_in_bounds(g.cells, g.head.x + dir.dx(), g.head.y + dir.dy());
        }
        self.move_head(dir, next);
        self.snake_len = self.snake_len + 1;
        self.score = self.score + 1;
        self.body = Ghost(g.body.push(next));
        assert(self@ == g.grown());
        let _ = self.drop_food();
    }

    /// Drops one piece of food on an empty square drawn at random. Fails,
    /// changing nothing, when no square is empty.
    pub fn drop_food(&mut self) -> (r: Result<(), ()>)
        requires
            old(self).wf(),
        ensures
            final(self).wf(),
            r is Ok <==> empty_count(old(self)@.cells) > 0,
            r is Err ==> final(self)@ == old(self)@,
            old(self)@.fed(final(self)@),
    {
        let ghost g = self@;
        proof {
            if empty_count(g.cells) > 0 {
                lemma_room_for_food(g);
            }
        }
        let dropped = self.field.drop_food(self.snake_len);
        proof {
            if dropped is Ok {
                let p = choose|p: Point|
                    in_bounds(g.cells, p) && cell_at(g.cells, p) == Cell::Empty && self@.cells
                        == with_cell(g.cells, p, Cell::Food);
                lemma_food_inv(g, p);
            }
        }
        dropped
    }

    /// Advances the game by one move; does nothing unless the game is on.
    /// The head moves one square in its direction, around the board. Onto an
    /// empty square, or onto the tail square that is vacated in the same
    /// move, the whole snake moves on. Onto food, the snake grows by one,
    /// the score rises by one, and new food is dropped if any square is
    /// empty. Onto any other part of the snake, the game is over. Returns
    /// the state after the step.
    pub fn step(&mut self) -> (r: GameState)
        requires
            old(self).wf(),
        ensures
            final(self).wf(),
            old(self)@.stepped(final(self)@),
            r == final(self)@.state,
    {
        if self.state != GameState::GameOn {
            return self.state;
        }
        let ghost g = self@;
        proof {
            assert(g.body[g.body.len() - 1] == g.head);
            assert(g.body.contains(g.head));
            lemma_wrap_on_board(g.cells, g.head);
        }
        let dir = self.field.cell(self.head).snake_direction().unwrap();
        let next = self.field.next_point(self.head).unwrap();
        proof {
            lemma_wrap_in_bounds(g.cells, g.head.x + dir.dx(), g.head.y + dir.dy());
            lemma_wrap_on_board(g.cells, next);
        }
        let next_cell = self.field.cell(next);
        match next_cell {
            Cell::Snake(_) if next != self.tail => {
                self.state = GameState::GameOver;
            },
            Cell::Empty | Cell::Snake(_) => {
                self.advance(dir, next);
            },
            Cell::Food => {
                self.grow(dir, next);
            },
        }
        self.state
    }

    /// A new game on a 20 by 10 board: a snake of five segments moving right
    /// along the middle row, and one piece of food.
    pub fn new() -> (r: Game)
        ensures
            r.wf(),
            grid_width(r@.cells) == 20,
            grid_height(r@.cells) == 10,
            r@.state == GameState::GameOn,
            r@.score == 0,
            r@.snake_len == 5,
            r@.head == (Point { x: 12, y: 5 }),
            r@.tail == (Point { x: 8, y: 5 }),
            r@.no_turn_back == Direction::Left,
            r@.body == Seq::new(5, |i: int| Point { x: (8 + i) as isize, y: 5 }),
            forall|p: Point|
                in_bounds(r@.cells, p) && r@.body.contains(p) ==> cell_at(r@.cells, p) == Cell::Snake(
                    Direction::Right,
                ),
            exists|f: Point|
                #![auto]
                in_bounds(r@.cells, f) && cell_at(r@.cells, f) == Cell::Food && forall|p: Point|
                    in_bounds(r@.cells, p) && p != f && !r@.body.contains(p) ==> cell_at(r@.cells, p)
                        == Cell::Empty,
    {
        let mut f = Field::with_size(WIDTH, HEIGHT);
        let (head, tail) = f.init_snake(INITIAL_LEN, HEIGHT / 2);
        let ghost c0 = f@;
        let ghost body = Seq::new(5, |i: int| Point { x: (8 + i) as isize, y: 5 });
        proof {
            let origin = Point { x: 0, y: 0 };
            assert(cell_at(c0, origin) == Cell::Empty);
            lemma_rank_below_count(c0, origin);
        }
        let dropped = f.drop_food(INITIAL_LEN);
        let ghost food = choose|p: Point|
            in_bounds(c0, p) && cell_at(c0, p) == Cell::Empty && f@ == with_cell(c0, p, Cell::Food);
        let game = Game {
            field: f,
            tail,
            head,
            score: 0,
            snake_len: INITIAL_LEN,
            state: GameState::GameOn,
            no_turn_back: Direction::Right.opposite(),
            body: Ghost(body),
        };
        proof {
            lemma_initial_inv(game@, c0, food);
        }
        game
    }

    /// Points the head towards `dir`, for the next step to take. Refused,
    /// changing nothing, once the game is over or when `dir` would turn the
    /// snake straight back into itself.
    pub fn turn(&mut self, dir: Direction) -> (r: Result<(), ()>)
        requires
            old(self).wf(),
        ensures
            final(self).wf(),
            r is Err <==> old(self)@.turn_refused(dir),
            r is Err ==> final(self)@ == old(self)@,
            r is Ok ==> final(self)@ == (GameView {
                cells: with_cell(old(self)@.cells, old(self)@.head, Cell::Snake(dir)),
                ..old(self)@
            }),
    {
        if self.state == GameState::GameOver {
            return Err(());
        }
        if self.no_turn_back == dir {
            return Err(());
        }
        let ghost g = self@;
        proof {
            assert(g.body[g.body.len() - 1] == g.head);
            lemma_wrap_on_board(g.cells, g.head);
            lemma_turn_inv(g, dir);
        }
        self.field.set_cell(self.head, Cell::Snake(dir));
        Ok(())
    }

    /// Ends the game.
    pub fn quit(&mut self)
        requires
            old(self).wf(),
        ensures
            final(self).wf(),
            final(self)@ == (GameView { state: GameState::GameOver, ..old(self)@ }),
    {
        self.state = GameState::GameOver;
    }

    pub fn state(&self) -> (r: GameState)
        ensures
            r == self@.state,
    {
        self.state
    }

    /// Pauses a running game; otherwise does nothing.
    pub fn pause(&mut self)
        requires
            old(self).wf(),
        ensures
            final(self).wf(),
            final(self)@ == if old(self)@.state == GameState::GameOn {
                GameView { state: GameState::GamePaused, ..old(self)@ }
            } else {
                old(self)@
            },
    {
        if self.state == GameState::GameOn {
            self.state = GameState::GamePaused;
        }
    }

    /// Resumes a paused game; otherwise does nothing.
    pub fn unpause(&mut self)
        requires
            old(self).wf(),
        ensures
            final(self).wf(),
            final(self)@ == if old(self)@.state == GameState::GamePaused {
                GameView { state: GameState::GameOn, ..old(self)@ }
            } else {
                old(self)@
            },
    {
        if self.state == GameState::GamePaused {
            self.state = GameState::GameOn;
        }
    }

    pub fn is_paused(&self) -> (r: bool)
        ensures
            r == (self@.state == GameState::GamePaused),
    {
        self.state == GameState::GamePaused
    }

    pub fn field(&self) -> (r: &Field)
        requires
            self.wf(),
        ensures
            r.wf(),
            r@ == self@.cells,
    {
        &self.field
    }

    pub fn score(&self) -> (r: usize)
        ensures
            r == self@.score,
    {
        self.score
    }

    pub fn head(&self) -> (r: Point)
        ensures
            r == self@.head,
    {
        self.head
    }

    pub fn tail(&self) -> (r: Point)
        ensures
            r == self@.tail,
    {
        self.tail
    }

    pub fn snake_len(&self) -> (r: usize)
        ensures
            r == self@.snake_len,
    {
        self.snake_len
    }

    /// The score line and the board, as text.
    pub fn render(&self) -> (r: Vec<char>)
        requires
            self.wf(),
        ensures
            r@ == game_text(self@),
    {
        let mut out: Vec<char> = Vec::new();
        out.push(' ');
        out.push('s');
        out.push('c');
        out.push('o');
        out.push('r');
        out.push('e');
        out.push(':');
        out.push(' ');
        let mut digits = decimal_text(self.score);
        out.append(&mut digits);
        out.push('\n');
        let mut board = self.field.render();
        out.append(&mut board);
        out.push('\n');
        assert(out@ =~= game_text(self@));
        out
    }

    /// The direction that the next turn may not take.
    pub fn no_turn_back(&self) -> (r: Direction)
        ensures
            r == self@.no_turn_back,
    {
        self.no_turn_back
    }

    /// The squares of the snake from its tail to its head, found by following
    /// each segment's direction on the board.
    pub fn walk_body(&self) -> (r: Vec<Point>)
        requires
            self.wf(),
        ensures
            r@ == self@.body,
            r@ == walk(self@.cells, self@.tail, self@.snake_len),
    {
        let ghost g = self@;
        let ghost len = g.body.len() as int;
        let mut out: Vec<Point> = Vec::new();
        let mut p = self.tail;
        out.push(p);
        let mut i: usize = 1;
        while p != self.head
            invariant
                g == self@,
                g.inv(),
                len == g.body.len(),
                1 <= i <= len,
                p == g.body[i - 1],
                out@ == g.body.take(i as int),
            decreases len - i,
        {
            proof {
                if i == len {
                    assert(g.body[len - 1] == g.head);
                }
            }
            p = self.field.next_point(p).unwrap();
            out.push(p);
            i = i + 1;
            assert(out@ =~= g.body.take(i as int));
        }
        proof {
            assert(g.body[len - 1] == g.head);
            assert(i - 1 == len - 1);
            assert(out@ =~= g.body);
            lemma_chain_reaches_head(g);
        }
        out
    }
}

/// Every state a step leads to from a well-formed game is well formed, so
/// following segment directions from its tail still meets exactly
/// `snake_len` squares, ending at its head.
pub proof fn lemma_step_keeps_chain(g: GameView, n: GameView)
    requires
        g.inv(),
        g.stepped(n),
    ensures
        n.inv(),
        walk(n.cells, n.tail, n.snake_len).len() == n.snake_len,
        walk(n.cells, n.tail, n.snake_len).last() == n.head,
        forall|i: int|
            0 <= i < n.snake_len - 1 ==> #[trigger] walk(n.cells, n.tail, n.snake_len)[i] != n.head,
{
    if g.state == GameState::GameOn {
        let np = g.next_head();
        lemma_wrap_on_board(g.cells, g.head);
        match cell_at(g.cells, np) {
            Cell::Empty => lemma_advance_inv(g),
            Cell::Snake(_) => {
                if np == g.tail {
                    lemma_advance_inv(g);
                }
            },
            Cell::Food => {
                lemma_grow_inv(g);
                let m = g.grown();
                if empty_count(m.cells) != 0 {
                    let p = choose|p: Point|
                        in_bounds(m.cells, p) && cell_at(m.cells, p) == Cell::Empty && n.cells
                            == with_cell(m.cells, p, Cell::Food);
                    lemma_food_inv(m, p);
                    assert(n == GameView { cells: with_cell(m.cells, p, Cell::Food), ..m });
                } else {
                    assert(n == m);
                }
            },
        }
    }
    lemma_chain_reaches_head(n);
}

/// Right after a step that moved the head, a turn straight back is refused.
pub proof fn lemma_no_reversal(g: GameView, n: GameView)
    requires
        g.inv(),
        g.state == GameState::GameOn,
        g.stepped(n),
        n.state != GameState::GameOver,
    ensures
        n.no_turn_back == g.head_dir().reversed(),
        n.turn_refused(g.head_dir().reversed()),
{
}

/// A step onto food lengthens the snake and raises the score by one each,
/// and leaves the tail where it was.
pub proof fn lemma_growth(g: GameView, n: GameView)
    requires
        g.inv(),
        g.state == GameState::GameOn,
        cell_at(g.cells, g.next_head()) == Cell::Food,
        g.stepped(n),
    ensures
        n.snake_len == g.snake_len + 1,
        n.score == g.score + 1,
        n.tail == g.tail,
        n.head == g.next_head(),
        n.state == GameState::GameOn,
{
}

/// A step into the snake anywhere but its tail ends the game and changes
/// nothing else, and any later step changes nothing at all.
pub proof fn lemma_collision(g: GameView, n: GameView, m: GameView)
    requires
        g.inv(),
        g.state == GameState::GameOn,
        cell_at(g.cells, g.next_head()) is Snake,
        g.next_head() != g.tail,
        g.stepped(n),
        n.stepped(m),
    ensures
        n.state == GameState::GameOver,
        n.cells == g.cells,
        n.head == g.head,
        n.tail == g.tail,
        n.snake_len == g.snake_len,
        n.score == g.score,
        m == n,
{
}

/// A step onto the tail square moves the snake on exactly as a step onto an
/// empty square does: the tail leaves as the head arrives, and the game
/// goes on.
pub proof fn lemma_tail_follow(g: GameView, n: GameView)
    requires
        g.inv(),
        g.state == GameState::GameOn,
        cell_at(g.cells, g.next_head()) is Snake,
        g.next_head() == g.tail,
        g.stepped(n),
    ensures
        n == g.advanced(),
        n.state == GameState::GameOn,
        n.snake_len == g.snake_len,
        n.head == g.tail,
        n.inv(),
{
    lemma_advance_inv(g);
}

} // verus!
