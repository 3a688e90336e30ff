//! The board: a grid of directions that holds the snake's body as a chain.

use vstd::prelude::*;
use crate::direction::Direction;
use crate::coordinate::Coordinate;
use rand::rngs::StdRng;
use vstd::arithmetic::div_mod::lemma_small_mod;
use vstd::arithmetic::div_mod::lemma_mod_add_multiples_vanish;

verus! {

/// A grid of `dimension.x` columns and `dimension.y` rows of directions.
pub struct Field {
    dimension: Coordinate,
    directions: Vec<Vec<Direction>>,
}

impl View for Field {
    type V = Seq<Seq<Direction>>;

    /// The rows of the grid, top row first.
    closed spec fn view(&self) -> Seq<Seq<Direction>> {
        Seq::new(self.directions@.len(), |i: int| self.directions@[i]@)
    }
}

impl Field {
    /// The sizes of the grid: `x` is the width, `y` the height.
    pub closed spec fn dim(self) -> Coordinate {
        self.dimension
    }

    /// The grid is rectangular and of the sizes it claims: the view has
    /// `dim().y` rows of `dim().x` cells each.
    pub open spec fn wf(self) -> bool {
        &&& 0 <= self.dim().x
        &&& 0 <= self.dim().y
        &&& self@.len() == self.dim().y
        &&& forall|i: int| 0 <= i < self@.len() ==> (#[trigger] self@[i]).len() == self.dim().x
    }

    /// Whether `p` addresses a cell of the grid.
    pub open spec fn contains(self, p: Coordinate) -> bool {
        self.dim().spans(p)
    }

    /// The content of the cell at `p`.
    pub open spec fn cell(self, p: Coordinate) -> Direction
        recommends
            self.contains(p),
    {
        self@[p.y as int][p.x as int]
    }

    /// The cell that the chain reaches from `p` in one step.
    pub open spec fn spec_next(self, p: Coordinate) -> Coordinate {
        p.spec_move_towards(self.cell(p))
    }

    /// The cell that the chain reaches from `start` in `n` steps.
    pub open spec fn walk(self, start: Coordinate, n: nat) -> Coordinate
        decreases n,
    {
        if n == 0 {
            start
        } else {
            self.spec_next(self.walk(start, (n - 1) as nat))
        }
    }

    /// The cell before the one that the chain reaches from `start` in `n`
    /// steps, and `start` itself if `n` is zero.
    pub open spec fn before_end(self, start: Coordinate, n: nat) -> Coordinate {
        if n == 0 {
            start
        } else {
            self.walk(start, (n - 1) as nat)
        }
    }

    /// The chain from `start` stays on the grid, passes `n` cells that hold a
    /// cardinal step, and then stands on a cell that holds the end marker.
    pub open spec fn ends_after(self, start: Coordinate, n: nat) -> bool {
        &&& forall|i: nat| i <= n ==> self.contains(#[trigger] self.walk(start, i))
        &&& forall|i: nat| i < n ==> self.cell(#[trigger] self.walk(start, i)).spec_valid()
        &&& self.cell(self.walk(start, n)) == Direction::End
    }

    /// The grid holds one snake of `len` cells with its head at `head`: the
    /// chain from `head` ends on its last cell, and every cell off the chain
    /// is free.
    pub open spec fn is_snake(self, head: Coordinate, len: nat) -> bool {
        &&& self.wf()
        &&& len >= 1
        &&& self.ends_after(head, (len - 1) as nat)
        &&& forall|p: Coordinate|
            self.contains(p) && #[trigger] self.cell(p) != Direction::Null ==> exists|i: nat|
                i < len && self.walk(head, i) == p
    }

    /// Whether no cell of the grid is free.
    pub open spec fn is_full(self) -> bool {
        forall|p: Coordinate| self.contains(p) ==> #[trigger] self.cell(p) != Direction::Null
    }

    /// Whether `self` is `before` with the last cell of the chain of `n` steps
    /// from `start` taken away: that cell is free, the cell before it holds
    /// the end marker, and no other cell has changed. A chain of no steps
    /// loses its only cell.
    pub open spec fn is_tail_drop_of(self, before: Field, start: Coordinate, n: nat) -> bool {
        let tail = before.walk(start, n);
        let pred = before.before_end(start, n);
        &&& self.wf()
        &&& self.dim() == before.dim()
        &&& self.cell(tail) == Direction::Null
        &&& pred != tail ==> self.cell(pred) == Direction::End
        &&& forall|q: Coordinate|
            #![trigger self.cell(q)]
            #![trigger before.cell(q)]
            before.contains(q) && q != tail && q != pred ==> self.cell(q) == before.cell(q)
    }

    /// The cell that a scan from `offset` looks at in column `x` of its row
    /// `y`: the scan goes row by row and wraps around on both axes.
    pub open spec fn scan_cell(self, offset: Coordinate, x: int, y: int) -> Coordinate {
        Coordinate {
            x: ((x + offset.x) % (self.dim().x as int)) as isize,
            y: ((y + offset.y) % (self.dim().y as int)) as isize,
        }
    }

    /// Whether step `(x, y)` of the scan from `offset` is the first to look at
    /// a free cell.
    pub open spec fn first_free_in_scan(self, offset: Coordinate, x: int, y: int) -> bool {
        &&& 0 <= x < self.dim().x
        &&& 0 <= y < self.dim().y
        &&& self.cell(self.scan_cell(offset, x, y)) == Direction::Null
        &&& forall|i: int, j: int|
            0 <= i < self.dim().x && 0 <= j < self.dim().y && (j < y || (j == y && i < x))
                ==> self.cell(#[trigger] self.scan_cell(offset, i, j)) != Direction::Null
    }

    /// Whether `p` is free and no other cell is.
    pub open spec fn only_free_cell(self, p: Coordinate) -> bool {
        &&& self.contains(p)
        &&& self.cell(p) == Direction::Null
        &&& forall|q: Coordinate|
            self.contains(q) && #[trigger] self.cell(q) == Direction::Null ==> q == p
    }

    /// Whether `self` is `before` after its snake of `n + 1` cells, headed at
    /// `head`, has moved onto `c` by the step `d` without growing: the cell
    /// before the old last one is the new last one (`c` itself for a snake of
    /// one cell), `c` points back at the old head, the old last cell is free
    /// unless it is `c`, and no other cell has changed.
    pub open spec fn is_shift_of(
        self,
        before: Field,
        head: Coordinate,
        n: nat,
        c: Coordinate,
        d: Direction,
    ) -> bool {
        let tail = before.walk(head, n);
        let new_tail = if n == 0 {
            c
        } else {
            before.walk(head, (n - 1) as nat)
        };
        &&& self.wf()
        &&& self.dim() == before.dim()
        &&& self.cell(new_tail) == Direction::End
        &&& new_tail != c ==> self.cell(c) == d.spec_invert()
        &&& tail != c ==> self.cell(tail) == Direction::Null
        &&& forall|q: Coordinate|
            #![trigger self.cell(q)]
            #![trigger before.cell(q)]
            before.contains(q) && q != c && q != tail && q != new_tail ==> self.cell(q)
                == before.cell(q)
    }

    /// Whether the two grids agree everywhere but at `p`, where `self` holds `d`.
    pub open spec fn is_update_of(self, before: Field, p: Coordinate, d: Direction) -> bool {
        &&& self.wf()
        &&& self.dim() == before.dim()
        &&& self.cell(p) == d
        &&& forall|q: Coordinate|
            #![trigger self.cell(q)]
            #![trigger before.cell(q)]
            before.contains(q) && q != p ==> self.cell(q) == before.cell(q)
    }

    /// Makes a grid of the given sizes with every cell free.
    pub fn init(dimension: Coordinate) -> (result: Field)
        requires
            0 <= dimension.x,
            0 <= dimension.y,
        ensures
            result.wf(),
            result.dim() == dimension,
            forall|p: Coordinate| result.contains(p) ==> #[trigger] result.cell(p) == Direction::Null,
    {
        let width: usize = dimension.x as usize;
        let height: usize = dimension.y as usize;
        let mut directions: Vec<Vec<Direction>> = Vec::new();
        let mut y: usize = 0;
        while y < height
            invariant
                y <= height,
                width == dimension.x,
                directions@.len() == y,
                forall|i: int|
                    0 <= i < y ==> (#[trigger] directions@[i])@ =~= Seq::new(
                        width as nat,
                        |j: int| Direction::Null,
                    ),
            decreases height - y,
        {
            let mut row: Vec<Direction> = Vec::new();
            let mut x: usize = 0;
            while x < width
                invariant
                    x <= width,
                    row@ =~= Seq::new(x as nat, |j: int| Direction::Null),
                decreases width - x,
            {
                row.push(Direction::Null);
                x = x + 1;
            }
            directions.push(row);
            y = y + 1;
        }
        Field { dimension, directions }
    }

    /// Returns the content of the cell at `position`.
    pub fn get(&self, position: Coordinate) -> (result: Direction)
        requires
            self.wf(),
            self.contains(position),
        ensures
            result == self.cell(position),
    {
        self.directions[position.y as usize][position.x as usize]
    }

    /// Writes `direction` into the cell at `position` and leaves the rest.
    pub fn set(&mut self, position: Coordinate, direction: Direction)
        requires
            old(self).wf(),
            old(self).contains(position),
        ensures
            final(self).is_update_of(*old(self), position, direction),
    {
        let ghost before = *self;
        proof {
            assert(self@[position.y as int] == self.directions@[position.y as int]@);
        }
        self.directions[position.y as usize][position.x as usize] = direction;
        proof {
            assert forall|i: int| 0 <= i < self@.len() implies (#[trigger] self@[i]).len()
                == self.dim().x by {
                assert(before@[i] == before.directions@[i]@);
            }
            assert forall|q: Coordinate| before.contains(q) && q != position implies self.cell(q)
                == #[trigger] before.cell(q) by {
                assert(before@[q.y as int] == before.directions@[q.y as int]@);
            }
        }
    }

    /// Follows the chain one step from `position`.
    pub fn next(&self, position: Coordinate) -> (result: Coordinate)
        requires
            self.wf(),
            self.contains(position),
        ensures
            result == self.spec_next(position),
    {
        let direction = self.get(position);
        position.move_towards(direction)
    }

    /// Scans the whole grid from `offset`, row by row and wrapping around on
    /// both axes, and returns the first free cell, or `None` if the grid is
    /// full.
    pub fn first_available_from(&self, offset: Coordinate) -> (result: Option<Coordinate>)
        requires
            self.wf(),
            self.contains(offset),
        ensures
            result is None <==> self.is_full(),
            result matches Some(p) ==> self.contains(p) && self.cell(p) == Direction::Null
                && exists|x: int, y: int|
                #![trigger self.scan_cell(offset, x, y)]
                self.first_free_in_scan(offset, x, y) && p == self.scan_cell(offset, x, y),
            forall|q: Coordinate| #[trigger] self.only_free_cell(q) ==> result == Some(q),
    {
        let w: usize = self.dimension.x as usize;
        let h: usize = self.dimension.y as usize;
        let rx: usize = offset.x as usize;
        let ry: usize = offset.y as usize;
        let mut y: usize = 0;
        while y < h
            invariant
                self.wf(),
                self.contains(offset),
                w == self.dim().x,
                h == self.dim().y,
                rx == offset.x,
                ry == offset.y,
                y <= h,
                forall|i: int, j: int|
                    0 <= i < w && 0 <= j < y ==> self.cell(
                        #[trigger] self.scan_cell(offset, i, j),
                    ) != Direction::Null,
            decreases h - y,
        {
            let mut x: usize = 0;
            while x < w
                invariant
                    self.wf(),
                    self.contains(offset),
                    w == self.dim().x,
                    h == self.dim().y,
                    rx == offset.x,
                    ry == offset.y,
                    y < h,
                    x <= w,
                    forall|i: int, j: int|
                        0 <= i < w && 0 <= j < h && (j < y || (j == y && i < x)) ==> self.cell(
                            #[trigger] self.scan_cell(offset, i, j),
                        ) != Direction::Null,
                decreases w - x,
            {
                proof {
                    lemma_wrap(x + rx, w as int);
                    lemma_wrap(y + ry, h as int);
                }
                let p = Coordinate { x: ((x + rx) % w) as isize, y: ((y + ry) % h) as isize };
                assert(p == self.scan_cell(offset, x as int, y as int));
                if self.available(p) {
                    assert(self.first_free_in_scan(offset, x as int, y as int));
                    return Some(p);
                }
                x = x + 1;
            }
            y = y + 1;
        }
        proof {
            assert forall|q: Coordinate| self.contains(q) implies #[trigger] self.cell(q)
                != Direction::Null by {
                let i = if q.x >= offset.x {
                    q.x - offset.x
                } else {
                    q.x - offset.x + w
                };
                let j = if q.y >= offset.y {
                    q.y - offset.y
                } else {
                    q.y - offset.y + h
                };
                lemma_wrap(i + offset.x, w as int);
                lemma_wrap(j + offset.y, h as int);
                assert(q == self.scan_cell(offset, i, j));
            }
        }
        None
    }

    /// Picks a free cell: draws a point of the grid from `rng` and scans from
    /// there. Returns `None` if and only if the grid is full, and otherwise
    /// the first free cell of the scan from some cell of the grid.
    pub fn random_available(&self, rng: &mut StdRng) -> (result: Option<Coordinate>)
        requires
            self.wf(),
            self.dim().x > 0,
            self.dim().y > 0,
        ensures
            result is None <==> self.is_full(),
            result matches Some(p) ==> self.contains(p) && self.cell(p) == Direction::Null
                && exists|offset: Coordinate, x: int, y: int|
                #![trigger self.scan_cell(offset, x, y)]
                self.contains(offset) && self.first_free_in_scan(offset, x, y) && p
                    == self.scan_cell(offset, x, y),
            forall|q: Coordinate| #[trigger] self.only_free_cell(q) ==> result == Some(q),
    {
        let r = self.dimension.random(rng);
        self.first_available_from(r)
    }

    /// Follows the chain from `start` to its end and returns its last two
    /// cells: first the one before the cell that holds the end marker, then
    /// that cell itself. A chain of one cell gives that cell twice.
    pub fn last_two(&self, start: Coordinate) -> (result: (Coordinate, Coordinate))
        requires
            self.wf(),
            exists|n: nat| self.ends_after(start, n),
        ensures
            forall|n: nat| #[trigger]
                self.ends_after(start, n) ==> result.0 == self.before_end(start, n) && result.1
                    == self.walk(start, n),
            self.contains(result.0),
            self.contains(result.1),
            self.cell(result.1) == Direction::End,
    {
        let ghost n: nat = choose|n: nat| self.ends_after(start, n);
        proof {
            lemma_end_unique(*self, start, n);
            assert(self.contains(self.walk(start, 0)));
        }
        let mut a = start;
        let mut b = self.next(a);
        let ghost i: nat = 0;
        proof {
            assert(self.walk(start, 1) == self.spec_next(self.walk(start, 0)));
            if n >= 1 {
                assert(self.contains(self.walk(start, 1)));
            }
        }
        while self.get(b) != Direction::End
            invariant
                self.wf(),
                self.ends_after(start, n),
                a == self.walk(start, i),
                b == self.walk(start, i + 1),
                self.contains(a),
                self.contains(b),
                n == 0 ==> i == 0 && b == a,
                n >= 1 ==> i + 1 <= n,
            decreases n - i,
        {
            proof {
                assert(n >= 1);
                if i + 1 == n {
                    assert(self.cell(self.walk(start, n)) == Direction::End);
                }
                assert(i + 2 <= n);
                assert(self.contains(self.walk(start, i + 2)));
                assert(self.walk(start, i + 2) == self.spec_next(self.walk(start, (i + 1) as nat)));
                i = i + 1;
            }
            a = b;
            b = self.next(a);
        }
        proof {
            if n >= 1 {
                if i + 1 < n {
                    assert(self.cell(self.walk(start, (i + 1) as nat)).spec_valid());
                }
                assert(i + 1 == n);
            }
        }
        (a, b)
    }

    /// Follows the chain from `start` to its last cell, takes that cell away
    /// and returns where it was. The cell before it becomes the last one.
    pub fn drop_last(&mut self, start: Coordinate) -> (result: Coordinate)
        requires
            old(self).wf(),
            exists|n: nat| old(self).ends_after(start, n),
        ensures
            forall|n: nat| #[trigger]
                old(self).ends_after(start, n) ==> result == old(self).walk(start, n)
                    && final(self).is_tail_drop_of(*old(self), start, n),
            final(self).cell(result) == Direction::Null,
    {
        let (a, b) = self.last_two(start);
        self.set(a, Direction::End);
        self.set(b, Direction::Null);
        b
    }

    /// Tells whether `position` addresses a cell of the grid.
    pub fn valid(&self, position: Coordinate) -> (result: bool)
        ensures
            result == self.contains(position),
    {
        position.x >= 0 && position.y >= 0 && position.x < self.dimension.x && position.y
            < self.dimension.y
    }

    /// Tells whether the cell at `position` is free.
    pub fn available(&self, position: Coordinate) -> (result: bool)
        requires
            self.wf(),
            self.contains(position),
        ensures
            result == (self.cell(position) == Direction::Null),
    {
        self.directions[position.y as usize][position.x as usize] == Direction::Null
    }

    /// Returns the sizes of the grid.
    pub fn dimension(&self) -> (result: Coordinate)
        ensures
            result == self.dim(),
    {
        self.dimension
    }
}

/// A chain meets the end marker after one number of steps only.
pub proof fn lemma_end_unique(field: Field, start: Coordinate, n: nat)
    requires
        field.ends_after(start, n),
    ensures
        forall|m: nat| #[trigger] field.ends_after(start, m) ==> m == n,
{
    assert forall|m: nat| #[trigger] field.ends_after(start, m) implies m == n by {
        if m < n {
            assert(field.cell(field.walk(start, m)).spec_valid());
        }
        if n < m {
            assert(field.cell(field.walk(start, n)).spec_valid());
        }
    }
}

/// Reducing a number below `2 * m` modulo `m` subtracts `m` at most once.
pub proof fn lemma_wrap(v: int, m: int)
    requires
        0 < m,
        0 <= v < 2 * m,
    ensures
        v % m == if v < m {
            v
        } else {
            v - m
        },
{
    if v < m {
        lemma_small_mod(v as nat, m as nat);
    } else {
        lemma_small_mod((v - m) as nat, m as nat);
        lemma_mod_add_multiples_vanish(v - m, m);
    }
}

} // verus!
