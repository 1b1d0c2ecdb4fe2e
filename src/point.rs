use vstd::arithmetic::div_mod::{lemma_fundamental_div_mod, lemma_mod_multiples_basic};
use vstd::prelude::*;

verus! {

/// A position on the board. Coordinates may leave the board after a move;
/// `wrap` brings them back onto it.
#[derive(Clone, Copy, Debug, PartialEq, Eq, Structural)]
pub struct Point {
    pub x: isize,
    pub y: isize,
}

/// The point `(x, y)` on a torus `width` cells wide and `height` cells high.
pub open spec fn wrapped(x: int, y: int, width: int, height: int) -> Point {
    Point { x: (x % width) as isize, y: (y % height) as isize }
}

/// Something with a width and a height.
pub trait Size2D<T> {
    spec fn spec_width(&self) -> T;

    spec fn spec_height(&self) -> T;

    fn width(&self) -> (r: T)
        ensures
            r == self.spec_width(),
    ;

    fn height(&self) -> (r: T)
        ensures
            r == self.spec_height(),
    ;
}

/// A pair read as `(width, height)`.
impl<T: Copy> Size2D<T> for (T, T) {
    open spec fn spec_width(&self) -> T {
        self.0
    }

    open spec fn spec_height(&self) -> T {
        self.1
    }

    fn width(&self) -> (r: T) {
        self.0
    }

    fn height(&self) -> (r: T) {
        self.1
    }
}

/// `v` reduced into `[0, bound)`: the mathematical remainder, never negative.
pub fn modulus(v: isize, bound: usize) -> (r: isize)
    requires
        0 < bound <= isize::MAX,
    ensures
        r == v as int % bound as int,
        0 <= r < bound,
        (r - v) % (bound as int) == 0,
{
    let b = bound as isize;
    let r = v.checked_rem_euclid(b).unwrap();
    proof {
        let q = v as int / b as int;
        lemma_fundamental_div_mod(v as int, b as int);
        lemma_mod_multiples_basic(-q, b as int);
        assert(r - v == (-q) * b) by (nonlinear_arith)
            requires
                v == b * q + r,
        ;
    }
    r
}

impl Point {
    /// This point brought onto a board of the given size.
    pub fn wrap<S: Size2D<usize>>(&self, around: &S) -> (r: Point)
        requires
            0 < around.spec_width() <= isize::MAX,
            0 < around.spec_height() <= isize::MAX,
        ensures
            r == wrapped(self.x as int, self.y as int, around.spec_width() as int, around.spec_height() as int),
            0 <= r.x < around.spec_width(),
            0 <= r.y < around.spec_height(),
    {
        Point { x: modulus(self.x, around.width()), y: modulus(self.y, around.height()) }
    }
}

impl From<(isize, isize)> for Point {
    fn from(t: (isize, isize)) -> (r: Point)
        ensures
            r == (Point { x: t.0, y: t.1 }),
    {
        Point { x: t.0, y: t.1 }
    }
}

impl vstd::std_specs::convert::FromSpecImpl<(isize, isize)> for Point {
    open spec fn obeys_from_spec() -> bool {
        true
    }

    open spec fn from_spec(t: (isize, isize)) -> Point {
        Point { x: t.0, y: t.1 }
    }
}

} // verus!
