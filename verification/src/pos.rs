//! A grid position (or direction) with `y`/`x` coordinates, used by the
//! grid-walking solvers: bounds checks, the four orthogonal neighbours, and
//! quarter-turn rotations of unit directions.

use vstd::prelude::*;

verus! {

/// A position on a grid, or a step direction; `y` grows downwards.
#[derive(Debug, Clone, Copy, PartialEq, Eq, Hash, Structural)]
pub struct Pos {
    pub y: isize,
    pub x: isize,
}

/// True when exactly one coordinate is zero: the direction of a single
/// orthogonal step, scaled by any non-zero amount.
pub open spec fn single_dir(p: Pos) -> bool {
    (p.y == 0 && p.x != 0) || (p.x == 0 && p.y != 0)
}

impl Pos {
    /// Builds the position `(y, x)`.
    pub fn new(y: isize, x: isize) -> (r: Pos)
        ensures
            r == (Pos { y, x }),
    {
        Pos { y, x }
    }

    /// The unit step towards smaller `y`.
    pub fn up() -> (r: Pos)
        ensures
            r.y == -1 && r.x == 0,
    {
        Pos { y: -1, x: 0 }
    }

    /// The unit step towards larger `y`.
    pub fn down() -> (r: Pos)
        ensures
            r == (Pos { y: 1, x: 0 }),
    {
        Pos { y: 1, x: 0 }
    }

    /// The unit step towards smaller `x`.
    pub fn left() -> (r: Pos)
        ensures
            r.y == 0 && r.x == -1,
    {
        Pos { y: 0, x: -1 }
    }

    /// The unit step towards larger `x`.
    pub fn right() -> (r: Pos)
        ensures
            r == (Pos { y: 0, x: 1 }),
    {
        Pos { y: 0, x: 1 }
    }

    /// True when the position lies on a grid of the given size.
    pub fn check_bounds(&self, size: &Pos) -> (r: bool)
        ensures
            r == (0 <= self.x < size.x && 0 <= self.y < size.y),
    {
        self.x >= 0 && self.x < size.x && self.y >= 0 && self.y < size.y
    }

    /// The sum of two positions, coordinate by coordinate.
    pub fn plus(&self, rhs: &Pos) -> (r: Pos)
        requires
            isize::MIN <= self.y + rhs.y <= isize::MAX,
            isize::MIN <= self.x + rhs.x <= isize::MAX,
        ensures
            r.y == self.y + rhs.y,
            r.x == self.x + rhs.x,
    {
        Pos { y: self.y + rhs.y, x: self.x + rhs.x }
    }

    /// The four orthogonal neighbours, in the order left, up, right, down.
    pub fn orthogonal_neighbors(&self) -> (r: [Pos; 4])
        requires
            isize::MIN < self.y < isize::MAX,
            isize::MIN < self.x < isize::MAX,
        ensures
            r@.len() == 4,
            r@[0].y == self.y && r@[0].x == self.x - 1,
            r@[1].y == self.y - 1 && r@[1].x == self.x,
            r@[2].y == self.y && r@[2].x == self.x + 1,
            r@[3].y == self.y + 1 && r@[3].x == self.x,
    {
        [
            self.plus(&Pos::left()),
            self.plus(&Pos::up()),
            self.plus(&Pos::right()),
            self.plus(&Pos::down()),
        ]
    }

    /// Rotates a single-step direction a quarter turn counter-clockwise
    /// (with `y` growing downwards): `(y, x)` becomes `(-x, y)`.
    pub fn ccw(&self) -> (r: Pos)
        requires
            single_dir(*self),
            self.x != isize::MIN,
        ensures
            r.y == -self.x,
            r.x == self.y,
    {
        if self.y == 0 {
            Pos { y: -self.x, x: 0 }
        } else {
            Pos { y: 0, x: self.y }
        }
    }

    /// Rotates a single-step direction a quarter turn clockwise (with `y`
    /// growing downwards): `(y, x)` becomes `(x, -y)`.
    pub fn cw(&self) -> (r: Pos)
        requires
            single_dir(*self),
            self.y != isize::MIN,
        ensures
            r.y == self.x,
            r.x == -self.y,
    {
        if self.y == 0 {
            Pos { y: self.x, x: 0 }
        } else {
            Pos { y: 0, x: -self.y }
        }
    }

    /// The step in the opposite direction.
    pub fn opposite(&self) -> (r: Pos)
        requires
            self.y != isize::MIN,
            self.x != isize::MIN,
        ensures
            r.y == -self.y,
            r.x == -self.x,
    {
        Pos { y: -self.y, x: -self.x }
    }
}

} // verus!
