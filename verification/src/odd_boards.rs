//! The tour on boards with an odd number of cells.
//!
//! Such a board has no closed tour through all of its cells. The tour of this
//! library then leaves out one of two cells near the top right corner: the
//! corner itself while the apple lies below the top row, and the cell left of
//! the one below the corner while the apple lies in the top row. The apple's
//! own cell is never the one left out.

use vstd::prelude::*;
use crate::coordinate::Coordinate;
use crate::hamiltonian::spec_odd;
use crate::hamiltonian::on_grid;
use crate::hamiltonian::ring_succ;
use crate::hamiltonian::tour_next;
use crate::hamiltonian::tour_walk;

verus! {

/// The cell that the tour of a board of `w` columns with an odd number of
/// cells leaves out while the apple lies at `apple`.
pub open spec fn left_out(w: int, apple: Coordinate) -> Coordinate {
    if apple.y == 0 {
        Coordinate { x: (w - 2) as isize, y: 1 }
    } else {
        Coordinate { x: (w - 1) as isize, y: 0 }
    }
}

/// The place of `p` on the tour of a board with an odd number of cells,
/// counted from the top left corner. The two cells of which one is left out
/// share a place.
pub open spec fn odd_rank(w: int, h: int, p: Coordinate) -> int {
    let x = p.x as int;
    let y = p.y as int;
    if y == 0 {
        if x == 0 {
            0
        } else {
            w * (h - 1) + (w - 1 - x)
        }
    } else if x >= w - 2 {
        let k = h - 1 - y;
        let first = if spec_odd(k) {
            w - 1
        } else {
            w - 2
        };
        1 + (w - 2) * (h - 1) + 2 * k + if x == first {
            0int
        } else {
            1int
        }
    } else {
        1 + x * (h - 1) + if spec_odd(x) {
            h - 1 - y
        } else {
            y - 1
        }
    }
}

/// On a board with an odd number of cells, every cell has a place on a ring
/// of one place less than the board has cells, and the tour's step leads to
/// the cell of the next place, which is on the board and not the one left
/// out.
pub proof fn lemma_odd_tour_step(w: int, h: int, p: Coordinate, apple: Coordinate)
    requires
        3 <= w <= isize::MAX,
        3 <= h <= isize::MAX,
        spec_odd(w),
        spec_odd(h),
        on_grid(w, h, p),
    ensures
        0 <= odd_rank(w, h, p) < w * h - 1,
        on_grid(w, h, tour_next(w, h, p, apple)),
        tour_next(w, h, p, apple) != left_out(w, apple),
        odd_rank(w, h, tour_next(w, h, p, apple)) == ring_succ(w * h - 1, odd_rank(w, h, p)),
{
    let x = p.x as int;
    let g = h - 1;
    assert(w * h == w * g + w) by (nonlinear_arith)
        requires
            g == h - 1,
    ;
    assert((w - 2) * g == w * g - 2 * g) by (nonlinear_arith);
    assert((w - 3) * g == w * g - 3 * g) by (nonlinear_arith);
    assert((x + 1) * g == x * g + g) by (nonlinear_arith);
    assert((x - 1) * g == x * g - g) by (nonlinear_arith);
    assert(0 * g == 0) by (nonlinear_arith);
    assert(0 <= x * g && x * g + g <= w * g) by (nonlinear_arith)
        requires
            0 <= x < w,
            g >= 1,
    ;
    if x < w - 2 {
        assert(x * g + g <= (w - 2) * g) by (nonlinear_arith)
            requires
                0 <= x < w - 2,
                g >= 1,
        ;
    }
}

/// On a board with an odd number of cells, two cells with the same place on
/// the tour, neither of them the one left out, are one cell.
pub proof fn lemma_odd_rank_injective(
    w: int,
    h: int,
    p: Coordinate,
    q: Coordinate,
    apple: Coordinate,
)
    requires
        3 <= w,
        3 <= h,
        spec_odd(w),
        spec_odd(h),
        on_grid(w, h, p),
        on_grid(w, h, q),
        p != left_out(w, apple),
        q != left_out(w, apple),
        odd_rank(w, h, p) == odd_rank(w, h, q),
    ensures
        p == q,
{
    let g = h - 1;
    assert((w - 2) * g == w * g - 2 * g) by (nonlinear_arith);
    assert(0 <= p.x * g && p.x * g + g <= w * g) by (nonlinear_arith)
        requires
            0 <= p.x < w,
            g >= 1,
    ;
    assert(0 <= q.x * g && q.x * g + g <= w * g) by (nonlinear_arith)
        requires
            0 <= q.x < w,
            g >= 1,
    ;
    if p.x < w - 2 {
        assert(p.x * g + g <= (w - 2) * g) by (nonlinear_arith)
            requires
                0 <= p.x < w - 2,
                g >= 1,
        ;
    }
    if q.x < w - 2 {
        assert(q.x * g + g <= (w - 2) * g) by (nonlinear_arith)
            requires
                0 <= q.x < w - 2,
                g >= 1,
        ;
    }
    if p.y > 0 && q.y > 0 && p.x < w - 2 && q.x < w - 2 {
        let a = if spec_odd(p.x as int) {
            h - 1 - p.y
        } else {
            p.y - 1
        };
        let b = if spec_odd(q.x as int) {
            h - 1 - q.y
        } else {
            q.y - 1
        };
        assert(p.x == q.x) by (nonlinear_arith)
            requires
                p.x * g + a == q.x * g + b,
                0 <= a < g,
                0 <= b < g,
        ;
    }
}

/// Within one lap, `k` steps of the tour advance the place by `k` round the
/// ring, and never come to the cell left out.
proof fn lemma_odd_walk_rank(w: int, h: int, start: Coordinate, apple: Coordinate, k: nat)
    requires
        3 <= w <= isize::MAX,
        3 <= h <= isize::MAX,
        spec_odd(w),
        spec_odd(h),
        on_grid(w, h, start),
        start != left_out(w, apple),
        k <= w * h - 1,
    ensures
        on_grid(w, h, tour_walk(w, h, start, apple, k)),
        tour_walk(w, h, start, apple, k) != left_out(w, apple),
        odd_rank(w, h, tour_walk(w, h, start, apple, k)) == if odd_rank(w, h, start) + k < w * h
            - 1 {
            odd_rank(w, h, start) + k
        } else {
            odd_rank(w, h, start) + k - (w * h - 1)
        },
    decreases k,
{
    lemma_odd_tour_step(w, h, start, apple);
    if k > 0 {
        lemma_odd_walk_rank(w, h, start, apple, (k - 1) as nat);
        lemma_odd_tour_step(w, h, tour_walk(w, h, start, apple, (k - 1) as nat), apple);
    }
}

/// The tour never leaves the board nor comes to the cell left out.
proof fn lemma_odd_walk_on_grid(w: int, h: int, start: Coordinate, apple: Coordinate, k: nat)
    requires
        3 <= w <= isize::MAX,
        3 <= h <= isize::MAX,
        spec_odd(w),
        spec_odd(h),
        on_grid(w, h, start),
        start != left_out(w, apple),
    ensures
        on_grid(w, h, tour_walk(w, h, start, apple, k)),
        tour_walk(w, h, start, apple, k) != left_out(w, apple),
    decreases k,
{
    if k > 0 {
        lemma_odd_walk_on_grid(w, h, start, apple, (k - 1) as nat);
        lemma_odd_tour_step(w, h, tour_walk(w, h, start, apple, (k - 1) as nat), apple);
    }
}

/// On a board with an odd number of columns and of rows, with the apple
/// where it is, the tour is a closed path through all cells but the one left
/// out: followed from any other cell it stays on the board, passes each of
/// those cells exactly once in one step less than the board has cells, and is
/// then back where it started. The apple's cell is among them, and the cell
/// left out leads onto the tour in one step.
pub proof fn lemma_odd_tour_is_closed(
    width: isize,
    height: isize,
    start: Coordinate,
    apple: Coordinate,
)
    requires
        width >= 2,
        height >= 2,
        spec_odd(width as int),
        spec_odd(height as int),
        on_grid(width as int, height as int, start),
        start != left_out(width as int, apple),
    ensures
        forall|k: nat|
            on_grid(
                width as int,
                height as int,
                #[trigger] tour_walk(width as int, height as int, start, apple, k),
            ) && tour_walk(width as int, height as int, start, apple, k) != left_out(
                width as int,
                apple,
            ),
        tour_walk(width as int, height as int, start, apple, (width * height - 1) as nat)
            == start,
        forall|i: nat, j: nat|
            i < j < width * height - 1 ==> tour_walk(width as int, height as int, start, apple, i)
                != tour_walk(width as int, height as int, start, apple, j),
        forall|p: Coordinate|
            on_grid(width as int, height as int, p) && p != left_out(width as int, apple)
                ==> exists|k: nat|
                k < width * height - 1 && tour_walk(width as int, height as int, start, apple, k)
                    == p,
        apple != left_out(width as int, apple),
        on_grid(width as int, height as int, left_out(width as int, apple)),
        on_grid(
            width as int,
            height as int,
            tour_next(width as int, height as int, left_out(width as int, apple), apple),
        ),
        tour_next(width as int, height as int, left_out(width as int, apple), apple) != left_out(
            width as int,
            apple,
        ),
{
    let w = width as int;
    let h = height as int;
    let m = w * h - 1;
    assert(m >= 8) by (nonlinear_arith)
        requires
            m == w * h - 1,
            w >= 3,
            h >= 3,
    ;
    let r0 = odd_rank(w, h, start);
    lemma_odd_tour_step(w, h, start, apple);
    assert forall|k: nat|
        on_grid(w, h, #[trigger] tour_walk(w, h, start, apple, k)) && tour_walk(
            w,
            h,
            start,
            apple,
            k,
        ) != left_out(w, apple) by {
        lemma_odd_walk_on_grid(w, h, start, apple, k);
    }
    lemma_odd_walk_rank(w, h, start, apple, m as nat);
    lemma_odd_rank_injective(w, h, tour_walk(w, h, start, apple, m as nat), start, apple);
    assert forall|i: nat, j: nat| i < j < m implies tour_walk(w, h, start, apple, i) != tour_walk(
        w,
        h,
        start,
        apple,
        j,
    ) by {
        lemma_odd_walk_rank(w, h, start, apple, i);
        lemma_odd_walk_rank(w, h, start, apple, j);
    }
    assert forall|p: Coordinate| on_grid(w, h, p) && p != left_out(w, apple) implies exists|
        k: nat,
    |
        k < m && tour_walk(w, h, start, apple, k) == p by {
        lemma_odd_tour_step(w, h, p, apple);
        let t = odd_rank(w, h, p);
        let k = (if t >= r0 {
            t - r0
        } else {
            t - r0 + m
        }) as nat;
        lemma_odd_walk_rank(w, h, start, apple, k);
        lemma_odd_rank_injective(w, h, tour_walk(w, h, start, apple, k), p, apple);
    }
}

} // verus!
