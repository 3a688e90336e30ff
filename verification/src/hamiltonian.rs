//! A fixed closed tour of the grid, given cell by cell as the step to take.
//!
//! The tour runs down the first column, snakes up and down through the
//! columns below the top row, and comes back along the top row. A grid with an
//! odd number of columns has its last two columns woven into one zigzag.

use vstd::prelude::*;
use crate::direction::Direction;
use crate::coordinate::Coordinate;

verus! {

/// Whether `value` is an odd number; negative odd numbers count as odd.
pub open spec fn spec_odd(value: int) -> bool {
    value % 2 == 1
}

/// Tells whether `value` is odd.
pub fn odd(value: isize) -> (result: bool)
    ensures
        result == spec_odd(value as int),
{
    value % 2 != 0
}

/// Whether `p` is a cell of the grid of `w` columns and `h` rows.
pub open spec fn on_grid(w: int, h: int, p: Coordinate) -> bool {
    0 <= p.x < w && 0 <= p.y < h
}

/// The step that the tour of the grid of `w` columns and `h` rows takes at
/// `p`. The apple matters in one place only: on a grid with an odd number of
/// cells, the cell below the top right corner leads into the corner while the
/// apple lies in the top row, and past it otherwise.
pub open spec fn tour_direction(w: int, h: int, p: Coordinate, apple: Coordinate) -> Direction {
    let x = p.x as int;
    let y = p.y as int;
    if y == 0 {
        if x > 0 {
            Direction::Left
        } else {
            Direction::Down
        }
    } else if x == w - 1 {
        if spec_odd(x) {
            Direction::Up
        } else if spec_odd(h - y) {
            Direction::Up
        } else if y == 1 && spec_odd(w) && spec_odd(h) && apple.y == 0 {
            Direction::Up
        } else {
            Direction::Left
        }
    } else if x == w - 2 && spec_odd(w) {
        if !spec_odd(h - y) {
            Direction::Up
        } else {
            Direction::Right
        }
    } else if spec_odd(x) {
        if y > 1 {
            Direction::Up
        } else {
            Direction::Right
        }
    } else {
        if y < h - 1 {
            Direction::Down
        } else {
            Direction::Right
        }
    }
}

/// The cell that the tour reaches from `p` in one step.
pub open spec fn tour_next(w: int, h: int, p: Coordinate, apple: Coordinate) -> Coordinate {
    p.spec_move_towards(tour_direction(w, h, p, apple))
}

/// The cell that the tour reaches from `start` in `k` steps.
pub open spec fn tour_walk(w: int, h: int, start: Coordinate, apple: Coordinate, k: nat) -> Coordinate
    decreases k,
{
    if k == 0 {
        start
    } else {
        tour_next(w, h, tour_walk(w, h, start, apple, (k - 1) as nat), apple)
    }
}

/// Returns the step that continues the tour of the grid of `width` columns
/// and `height` rows at `head`.
pub fn next_hamiltonian_direction(
    width: isize,
    height: isize,
    head: Coordinate,
    apple: Coordinate,
) -> (result: Direction)
    requires
        on_grid(width as int, height as int, head),
    ensures
        result == tour_direction(width as int, height as int, head, apple),
{
    let x = head.x;
    let y = head.y;
    let w = width;
    let h = height;
    if y == 0 {
        if x > 0 {
            Direction::Left
        } else {
            Direction::Down
        }
    } else if x == w - 1 {
        if odd(x) {
            Direction::Up
        } else if odd(h - y) {
            Direction::Up
        } else if y == 1 && odd(w) && odd(h) && apple.y == 0 {
            Direction::Up
        } else {
            Direction::Left
        }
    } else if x == w - 2 && odd(w) {
        if !odd(h - y) {
            Direction::Up
        } else {
            Direction::Right
        }
    } else if odd(x) {
        if y > 1 {
            Direction::Up
        } else {
            Direction::Right
        }
    } else {
        if y < h - 1 {
            Direction::Down
        } else {
            Direction::Right
        }
    }
}

/// The place of `p` on the tour of a grid with an even number of cells,
/// counted from the top left corner.
pub open spec fn tour_rank(w: int, h: int, p: Coordinate) -> int {
    let x = p.x as int;
    let y = p.y as int;
    if y == 0 {
        if x == 0 {
            0
        } else {
            w * (h - 1) + (w - x)
        }
    } else if spec_odd(w) && x >= w - 2 {
        let k = h - 1 - y;
        let first = if spec_odd(k) {
            w - 1
        } else {
            w - 2
        };
        1 + (w - 2) * (h - 1) + 2 * k + if x == first {
            0int
        } else {
            1int
        }
    } else {
        1 + x * (h - 1) + if spec_odd(x) {
            h - 1 - y
        } else {
            y - 1
        }
    }
}

/// `r` one further round a ring of `n` places.
pub open spec fn ring_succ(n: int, r: int) -> int {
    if r + 1 == n {
        0
    } else {
        r + 1
    }
}

/// On a grid with an even number of cells, every cell has a place on the tour
/// and the tour's step leads to the cell of the next place, on the grid.
pub proof fn lemma_tour_step(w: int, h: int, p: Coordinate, apple: Coordinate)
    requires
        w >= 2,
        h >= 2,
        !spec_odd(w) || !spec_odd(h),
        on_grid(w, h, p),
        w <= isize::MAX,
        h <= isize::MAX,
    ensures
        0 <= tour_rank(w, h, p) < w * h,
        on_grid(w, h, tour_next(w, h, p, apple)),
        tour_rank(w, h, tour_next(w, h, p, apple)) == ring_succ(w * h, tour_rank(w, h, p)),
{
    let x = p.x as int;
    let y = p.y as int;
    let g = h - 1;
    assert(w * h == w * g + w) by (nonlinear_arith)
        requires
            g == h - 1,
    ;
    assert((w - 1) * g == w * g - g) by (nonlinear_arith);
    assert((w - 2) * g == w * g - 2 * g) by (nonlinear_arith);
    assert((w - 3) * g == w * g - 3 * g) by (nonlinear_arith);
    assert((x + 1) * g == x * g + g) by (nonlinear_arith);
    assert((x - 1) * g == x * g - g) by (nonlinear_arith);
    assert(0 * g == 0) by (nonlinear_arith);
    assert(0 <= x * g && x * g + g <= w * g) by (nonlinear_arith)
        requires
            0 <= x < w,
            g >= 1,
    ;
    if spec_odd(w) && x < w - 2 {
        assert(x * g + g <= (w - 2) * g) by (nonlinear_arith)
            requires
                0 <= x < w - 2,
                g >= 1,
        ;
    }
}

/// Where a cell's place falls, by the part of the tour the cell lies on.
pub proof fn lemma_tour_rank_range(w: int, h: int, p: Coordinate)
    requires
        w >= 2,
        h >= 2,
        !spec_odd(w) || !spec_odd(h),
        on_grid(w, h, p),
    ensures
        p.y == 0 && p.x == 0 ==> tour_rank(w, h, p) == 0,
        p.y == 0 && p.x > 0 ==> w * (h - 1) < tour_rank(w, h, p) < w * h,
        p.y > 0 ==> 0 < tour_rank(w, h, p) <= w * (h - 1),
        p.y > 0 && spec_odd(w) && p.x >= w - 2 ==> (w - 2) * (h - 1) < tour_rank(w, h, p),
        p.y > 0 && spec_odd(w) && p.x < w - 2 ==> tour_rank(w, h, p) <= (w - 2) * (h - 1),
{
    let x = p.x as int;
    let g = h - 1;
    assert(w * h == w * g + w) by (nonlinear_arith)
        requires
            g == h - 1,
    ;
    assert((w - 2) * g == w * g - 2 * g) by (nonlinear_arith);
    assert(0 <= x * g && x * g + g <= w * g) by (nonlinear_arith)
        requires
            0 <= x < w,
            g >= 1,
    ;
    if x < w - 2 {
        assert(x * g + g <= (w - 2) * g) by (nonlinear_arith)
            requires
                0 <= x < w - 2,
                g >= 1,
        ;
    }
}

/// On a grid with an even number of cells, two cells with the same place on
/// the tour are one cell.
pub proof fn lemma_tour_rank_injective(w: int, h: int, p: Coordinate, q: Coordinate)
    requires
        w >= 2,
        h >= 2,
        !spec_odd(w) || !spec_odd(h),
        on_grid(w, h, p),
        on_grid(w, h, q),
        tour_rank(w, h, p) == tour_rank(w, h, q),
    ensures
        p == q,
{
    lemma_tour_rank_range(w, h, p);
    lemma_tour_rank_range(w, h, q);
    let g = h - 1;
    let zig_p = spec_odd(w) && p.x >= w - 2;
    let zig_q = spec_odd(w) && q.x >= w - 2;
    if p.y > 0 && q.y > 0 && !zig_p && !zig_q {
        let a = if spec_odd(p.x as int) {
            h - 1 - p.y
        } else {
            p.y - 1
        };
        let b = if spec_odd(q.x as int) {
            h - 1 - q.y
        } else {
            q.y - 1
        };
        assert(p.x == q.x) by (nonlinear_arith)
            requires
                p.x * g + a == q.x * g + b,
                0 <= a < g,
                0 <= b < g,
        ;
    }
}

/// The tour never leaves a grid with an even number of cells.
pub proof fn lemma_tour_walk_on_grid(w: int, h: int, start: Coordinate, apple: Coordinate, k: nat)
    requires
        2 <= w <= isize::MAX,
        2 <= h <= isize::MAX,
        !spec_odd(w) || !spec_odd(h),
        on_grid(w, h, start),
    ensures
        on_grid(w, h, tour_walk(w, h, start, apple, k)),
    decreases k,
{
    if k > 0 {
        lemma_tour_walk_on_grid(w, h, start, apple, (k - 1) as nat);
        lemma_tour_step(w, h, tour_walk(w, h, start, apple, (k - 1) as nat), apple);
    }
}

/// Within one lap, `k` steps of the tour advance the place by `k` round the
/// ring of all cells.
pub proof fn lemma_tour_walk_rank(w: int, h: int, start: Coordinate, apple: Coordinate, k: nat)
    requires
        2 <= w <= isize::MAX,
        2 <= h <= isize::MAX,
        !spec_odd(w) || !spec_odd(h),
        on_grid(w, h, start),
        k <= w * h,
    ensures
        on_grid(w, h, tour_walk(w, h, start, apple, k)),
        tour_rank(w, h, tour_walk(w, h, start, apple, k)) == if tour_rank(w, h, start) + k < w
            * h {
            tour_rank(w, h, start) + k
        } else {
            tour_rank(w, h, start) + k - w * h
        },
    decreases k,
{
    lemma_tour_step(w, h, start, apple);
    if k > 0 {
        lemma_tour_walk_rank(w, h, start, apple, (k - 1) as nat);
        lemma_tour_step(w, h, tour_walk(w, h, start, apple, (k - 1) as nat), apple);
    }
}

/// On a grid of at least two columns and two rows with an even number of
/// cells, the tour is a Hamiltonian cycle: followed from any cell it stays on
/// the grid, passes every cell exactly once in as many steps as there are
/// cells, and is then back where it started.
pub proof fn lemma_tour_is_hamiltonian(
    width: isize,
    height: isize,
    start: Coordinate,
    apple: Coordinate,
)
    requires
        width >= 2,
        height >= 2,
        !spec_odd(width as int) || !spec_odd(height as int),
        on_grid(width as int, height as int, start),
    ensures
        forall|k: nat|
            on_grid(
                width as int,
                height as int,
                #[trigger] tour_walk(width as int, height as int, start, apple, k),
            ),
        tour_walk(width as int, height as int, start, apple, (width * height) as nat) == start,
        forall|i: nat, j: nat|
            i < j < width * height ==> tour_walk(width as int, height as int, start, apple, i)
                != tour_walk(width as int, height as int, start, apple, j),
        forall|p: Coordinate|
            on_grid(width as int, height as int, p) ==> exists|k: nat|
                k < width * height && tour_walk(width as int, height as int, start, apple, k)
                    == p,
{
    let w = width as int;
    let h = height as int;
    let n = w * h;
    assert(n >= 4) by (nonlinear_arith)
        requires
            n == w * h,
            w >= 2,
            h >= 2,
    ;
    let r0 = tour_rank(w, h, start);
    lemma_tour_step(w, h, start, apple);
    assert forall|k: nat| on_grid(w, h, #[trigger] tour_walk(w, h, start, apple, k)) by {
        lemma_tour_walk_on_grid(w, h, start, apple, k);
    }
    lemma_tour_walk_rank(w, h, start, apple, n as nat);
    lemma_tour_rank_injective(w, h, tour_walk(w, h, start, apple, n as nat), start);
    assert forall|i: nat, j: nat| i < j < n implies tour_walk(w, h, start, apple, i)
        != tour_walk(w, h, start, apple, j) by {
        lemma_tour_walk_rank(w, h, start, apple, i);
        lemma_tour_walk_rank(w, h, start, apple, j);
    }
    assert forall|p: Coordinate| on_grid(w, h, p) implies exists|k: nat|
        k < n && tour_walk(w, h, start, apple, k) == p by {
        lemma_tour_step(w, h, p, apple);
        let t = tour_rank(w, h, p);
        let k = (if t >= r0 {
            t - r0
        } else {
            t - r0 + n
        }) as nat;
        lemma_tour_walk_rank(w, h, start, apple, k);
        lemma_tour_rank_injective(w, h, tour_walk(w, h, start, apple, k), p);
    }
}

} // verus!
