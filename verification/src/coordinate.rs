//! Lattice points and their arithmetic.

use vstd::prelude::*;
use rand::rngs::StdRng;
use crate::direction::Direction;
use crate::random::draw_usize;

verus! {

/// A point of the integer lattice. Coordinates are signed so that a point one
/// step outside a board can be formed before it is tested against the bounds.
#[derive(Copy, Clone, PartialEq, Eq, Structural, Debug)]
pub struct Coordinate {
    pub x: isize,
    pub y: isize,
}

impl Coordinate {
    /// Whether one step towards `dir` stays within the machine's integers.
    pub open spec fn can_move(self, dir: Direction) -> bool {
        &&& isize::MIN <= self.x + dir.dx() <= isize::MAX
        &&& isize::MIN <= self.y + dir.dy() <= isize::MAX
    }

    /// The point one step towards `dir`; the two markers do not move.
    pub open spec fn spec_move_towards(self, dir: Direction) -> Coordinate {
        Coordinate { x: (self.x + dir.dx()) as isize, y: (self.y + dir.dy()) as isize }
    }

    /// Whether the vector from `self` to `other` fits the machine's integers.
    pub open spec fn can_subtract(self, other: Coordinate) -> bool {
        &&& isize::MIN <= other.x - self.x <= isize::MAX
        &&& isize::MIN <= other.y - self.y <= isize::MAX
    }

    /// The vector that leads from `self` to `other`.
    pub open spec fn spec_difference(self, other: Coordinate) -> Coordinate {
        Coordinate { x: (other.x - self.x) as isize, y: (other.y - self.y) as isize }
    }

    /// Whether the point lies in the rectangle `[0, self.x) x [0, self.y)`
    /// spanned by `self` taken as a pair of sizes.
    pub open spec fn spans(self, p: Coordinate) -> bool {
        0 <= p.x < self.x && 0 <= p.y < self.y
    }

    /// Returns the point one step towards `dir`.
    pub fn move_towards(&self, dir: Direction) -> (result: Coordinate)
        requires
            self.can_move(dir),
        ensures
            result == self.spec_move_towards(dir),
            result.x == self.x + dir.dx(),
            result.y == self.y + dir.dy(),
    {
        match dir {
            Direction::Left => Coordinate { x: self.x - 1, y: self.y },
            Direction::Right => Coordinate { x: self.x + 1, y: self.y },
            Direction::Up => Coordinate { x: self.x, y: self.y - 1 },
            Direction::Down => Coordinate { x: self.x, y: self.y + 1 },
            Direction::End => Coordinate { x: self.x, y: self.y },
            Direction::Null => Coordinate { x: self.x, y: self.y },
        }
    }

    /// The point of the rectangle spanned by `self` that the raw pair `(a, b)`
    /// falls on when each number is reduced modulo the matching size.
    pub open spec fn spec_reduce(self, a: usize, b: usize) -> Coordinate {
        Coordinate { x: (a as int % self.x as int) as isize, y: (b as int % self.y as int) as isize }
    }

    /// Reduces the raw pair `(a, b)` into the rectangle spanned by `self`.
    pub fn reduce(&self, a: usize, b: usize) -> (result: Coordinate)
        requires
            self.x > 0,
            self.y > 0,
        ensures
            result == self.spec_reduce(a, b),
            self.spans(result),
    {
        let x: usize = a % (self.x as usize);
        let y: usize = b % (self.y as usize);
        Coordinate { x: x as isize, y: y as isize }
    }

    /// Draws a point of the rectangle `[0, self.x) x [0, self.y)`: two numbers
    /// are drawn from `rng`, first for `x`, then for `y`, and reduced.
    pub fn random(&self, rng: &mut StdRng) -> (result: Coordinate)
        requires
            self.x > 0,
            self.y > 0,
        ensures
            self.spans(result),
    {
        let a: usize = draw_usize(rng);
        let b: usize = draw_usize(rng);
        self.reduce(a, b)
    }

    /// Returns the vector that leads from `self` to `other`.
    pub fn difference(&self, other: Coordinate) -> (result: Coordinate)
        requires
            self.can_subtract(other),
        ensures
            result == self.spec_difference(other),
            result.x == other.x - self.x,
            result.y == other.y - self.y,
    {
        Coordinate { x: other.x - self.x, y: other.y - self.y }
    }
}

/// A step and the opposite step cancel.
pub proof fn lemma_move_back(p: Coordinate, d: Direction)
    requires
        p.can_move(d),
    ensures
        p.spec_move_towards(d).can_move(d.spec_invert()),
        p.spec_move_towards(d).spec_move_towards(d.spec_invert()) == p,
{
}

} // verus!
