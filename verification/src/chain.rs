//! Facts about the chain of cells that a snake forms on a field.

use vstd::prelude::*;
use vstd::set_lib::set_int_range;
use vstd::set_lib::lemma_int_range;
use vstd::set_lib::lemma_map_size;
use vstd::set_lib::lemma_len_subset;
use vstd::relations::injective_on;
use crate::direction::Direction;
use crate::coordinate::Coordinate;
use crate::coordinate::lemma_move_back;
use crate::field::Field;

verus! {

/// Walking `a + b` steps is walking `a` steps and then `b` more.
pub proof fn lemma_walk_add(field: Field, start: Coordinate, a: nat, b: nat)
    ensures
        field.walk(start, a + b) == field.walk(field.walk(start, a), b),
    decreases b,
{
    if b > 0 {
        lemma_walk_add(field, start, a, (b - 1) as nat);
        assert(field.walk(start, a + b) == field.spec_next(
            field.walk(start, (a + b - 1) as nat),
        ));
    }
}

/// A chain that reaches the end marker passes no cell twice.
pub proof fn lemma_chain_distinct(field: Field, start: Coordinate, n: nat, i: nat, j: nat)
    requires
        field.ends_after(start, n),
        i < j <= n,
    ensures
        field.walk(start, i) != field.walk(start, j),
{
    if field.walk(start, i) == field.walk(start, j) {
        let k = (n - j) as nat;
        lemma_walk_add(field, start, i, k);
        lemma_walk_add(field, start, j, k);
        assert(field.walk(start, i + k) == field.walk(start, n));
        assert(field.cell(field.walk(start, i + k)).spec_valid());
    }
}

/// The only cell of a snake that holds the end marker is its last one.
pub proof fn lemma_end_is_tail(field: Field, head: Coordinate, len: nat, p: Coordinate)
    requires
        field.is_snake(head, len),
        field.contains(p),
        field.cell(p) == Direction::End,
    ensures
        p == field.walk(head, (len - 1) as nat),
{
    let i = choose|i: nat| i < len && field.walk(head, i) == p;
    if i < len - 1 {
        assert(field.cell(field.walk(head, i)).spec_valid());
    }
}

/// The number that stands for a cell when the grid is read row by row.
pub open spec fn cell_index(width: int, p: Coordinate) -> int {
    p.y * width + p.x
}

/// Reading the grid row by row numbers its cells from zero, each its own.
pub proof fn lemma_cell_index(width: int, height: int, p: Coordinate, q: Coordinate)
    requires
        0 <= p.x < width,
        0 <= p.y < height,
        0 <= q.x < width,
        0 <= q.y < height,
    ensures
        0 <= cell_index(width, p) < width * height,
        cell_index(width, p) == cell_index(width, q) ==> p == q,
{
    assert(0 <= p.y * width && p.y * width + width <= width * height) by (nonlinear_arith)
        requires
            0 <= p.y < height,
            0 < width,
    ;
    assert(p.y * width + p.x == q.y * width + q.x ==> p.y == q.y) by (nonlinear_arith)
        requires
            0 <= p.x < width,
            0 <= q.x < width,
    ;
}

/// A snake has at most as many cells as the grid: traced from its head it
/// passes each cell at most once and stands on the end marker within
/// `width * height` steps.
pub proof fn lemma_snake_fits(field: Field, head: Coordinate, len: nat)
    requires
        field.is_snake(head, len),
    ensures
        len <= field.dim().x * field.dim().y,
        forall|i: nat, j: nat| i < j < len ==> field.walk(head, i) != field.walk(head, j),
{
    let n = (len - 1) as nat;
    let w = field.dim().x as int;
    let h = field.dim().y as int;
    assert forall|i: nat, j: nat| i < j < len implies field.walk(head, i) != field.walk(
        head,
        j,
    ) by {
        lemma_chain_distinct(field, head, n, i, j);
    }
    let f = |i: int| cell_index(w, field.walk(head, i as nat));
    let steps = set_int_range(0, len as int);
    let cells = set_int_range(0, w * h);
    let image = steps.map(f);
    assert(field.contains(field.walk(head, 0)));
    lemma_cell_index(w, h, field.walk(head, 0), field.walk(head, 0));
    lemma_int_range(0, len as int);
    lemma_int_range(0, w * h);
    assert(injective_on(f, steps)) by {
        assert forall|a: int, b: int|
            steps.contains(a) && steps.contains(b) && #[trigger] f(a) == #[trigger] f(
                b,
            ) implies a == b by {
            let p = field.walk(head, a as nat);
            let q = field.walk(head, b as nat);
            assert(field.contains(p) && field.contains(q));
            lemma_cell_index(w, h, p, q);
            if a < b {
                lemma_chain_distinct(field, head, n, a as nat, b as nat);
            }
            if b < a {
                lemma_chain_distinct(field, head, n, b as nat, a as nat);
            }
        }
    }
    lemma_map_size(steps, image, f);
    assert(image.subset_of(cells)) by {
        assert forall|v: int| image.contains(v) implies cells.contains(v) by {
            let a = choose|a: int| steps.contains(a) && f(a) == v;
            let p = field.walk(head, a as nat);
            assert(field.contains(p));
            lemma_cell_index(w, h, p, p);
        }
    }
    lemma_len_subset(image, cells);
}

/// Writing a step towards the head into a free cell next to it makes that
/// cell the new head of a snake that is one cell longer; the old cells follow
/// in their old order.
pub proof fn lemma_grow(
    before: Field,
    after: Field,
    head: Coordinate,
    len: nat,
    c: Coordinate,
    d: Direction,
)
    requires
        before.is_snake(head, len),
        before.contains(c),
        before.cell(c) == Direction::Null,
        d.spec_valid(),
        c.spec_move_towards(d) == head,
        after.is_update_of(before, c, d),
    ensures
        after.is_snake(c, len + 1),
        forall|i: nat| i < len ==> after.walk(c, i + 1) == #[trigger] before.walk(head, i),
{
    assert forall|i: nat| i < len implies after.walk(c, i + 1) == #[trigger] before.walk(
        head,
        i,
    ) by {
        lemma_grow_walk(before, after, head, len, c, d, i);
    }
    assert(after.walk(c, 0) == c);
    assert forall|i: nat| i <= len implies after.contains(#[trigger] after.walk(c, i)) by {
        if i > 0 {
            let k = (i - 1) as nat;
            assert(after.walk(c, k + 1) == before.walk(head, k));
            assert(before.contains(before.walk(head, k)));
        }
    }
    assert forall|i: nat| i < len implies after.cell(#[trigger] after.walk(c, i)).spec_valid() by {
        if i > 0 {
            let k = (i - 1) as nat;
            assert(after.walk(c, k + 1) == before.walk(head, k));
            assert(before.cell(before.walk(head, k)).spec_valid());
        }
    }
    let last = (len - 1) as nat;
    assert(after.walk(c, last + 1) == before.walk(head, last));
    assert(before.contains(before.walk(head, last)));
    assert forall|p: Coordinate|
        after.contains(p) && #[trigger] after.cell(p) != Direction::Null implies exists|i: nat|
        i < len + 1 && after.walk(c, i) == p by {
        if p == c {
            assert(after.walk(c, 0) == p);
        } else {
            assert(before.cell(p) != Direction::Null);
            let k = choose|k: nat| k < len && before.walk(head, k) == p;
            assert(after.walk(c, k + 1) == before.walk(head, k));
        }
    }
}

proof fn lemma_grow_walk(
    before: Field,
    after: Field,
    head: Coordinate,
    len: nat,
    c: Coordinate,
    d: Direction,
    i: nat,
)
    requires
        before.is_snake(head, len),
        before.contains(c),
        before.cell(c) == Direction::Null,
        c.spec_move_towards(d) == head,
        after.is_update_of(before, c, d),
        i < len,
    ensures
        after.walk(c, i + 1) == before.walk(head, i),
    decreases i,
{
    if i == 0 {
        assert(after.walk(c, 0) == c);
        assert(after.walk(c, 1) == after.spec_next(after.walk(c, 0)));
    } else {
        let k = (i - 1) as nat;
        lemma_grow_walk(before, after, head, len, c, d, k);
        let p = before.walk(head, k);
        assert(before.contains(p));
        assert(before.cell(p).spec_valid());
        assert(after.cell(p) == before.cell(p));
        assert(after.walk(c, i + 1) == after.spec_next(after.walk(c, i)));
    }
}

/// Taking the last cell off a snake of at least two cells leaves a snake
/// that is one cell shorter, with the same head and the same order.
pub proof fn lemma_shrink(before: Field, after: Field, head: Coordinate, len: nat)
    requires
        before.is_snake(head, len),
        len >= 2,
        after.is_tail_drop_of(before, head, (len - 1) as nat),
    ensures
        after.is_snake(head, (len - 1) as nat),
        forall|i: nat| i < len - 1 ==> after.walk(head, i) == #[trigger] before.walk(head, i),
{
    let n = (len - 1) as nat;
    let tail = before.walk(head, n);
    let pred = before.walk(head, (n - 1) as nat);
    lemma_chain_distinct(before, head, n, (n - 1) as nat, n);
    assert(before.contains(tail) && before.contains(pred));
    assert forall|i: nat| i < len - 1 implies after.walk(head, i) == #[trigger] before.walk(
        head,
        i,
    ) by {
        lemma_shrink_walk(before, after, head, len, i);
    }
    assert forall|i: nat| i <= n - 1 implies after.contains(#[trigger] after.walk(head, i)) by {
        assert(after.walk(head, i) == before.walk(head, i));
        assert(before.contains(before.walk(head, i)));
    }
    assert forall|i: nat| i < n - 1 implies after.cell(
        #[trigger] after.walk(head, i),
    ).spec_valid() by {
        let p = before.walk(head, i);
        assert(after.walk(head, i) == p);
        assert(before.contains(p) && before.cell(p).spec_valid());
        lemma_chain_distinct(before, head, n, i, n);
        lemma_chain_distinct(before, head, n, i, (n - 1) as nat);
        assert(after.cell(p) == before.cell(p));
    }
    assert(after.walk(head, (n - 1) as nat) == before.walk(head, (n - 1) as nat));
    assert forall|p: Coordinate|
        after.contains(p) && #[trigger] after.cell(p) != Direction::Null implies exists|i: nat|
        i < n && after.walk(head, i) == p by {
        if p == pred {
            assert(after.walk(head, (n - 1) as nat) == p);
        } else {
            assert(p != tail);
            assert(before.cell(p) == after.cell(p));
            let k = choose|k: nat| k < len && before.walk(head, k) == p;
            assert(k < n);
            assert(after.walk(head, k) == before.walk(head, k));
        }
    }
}

proof fn lemma_shrink_walk(before: Field, after: Field, head: Coordinate, len: nat, i: nat)
    requires
        before.is_snake(head, len),
        len >= 2,
        after.is_tail_drop_of(before, head, (len - 1) as nat),
        i < len - 1,
    ensures
        after.walk(head, i) == before.walk(head, i),
    decreases i,
{
    if i > 0 {
        let n = (len - 1) as nat;
        let k = (i - 1) as nat;
        lemma_shrink_walk(before, after, head, len, k);
        let p = before.walk(head, k);
        assert(before.contains(p));
        lemma_chain_distinct(before, head, n, k, n);
        lemma_chain_distinct(before, head, n, k, (n - 1) as nat);
        assert(after.cell(p) == before.cell(p));
    }
}

/// When a snake moves onto a free cell or onto its own last cell without
/// growing, the cells behind the new head are the old cells in their old
/// order, the old last cell left out.
pub proof fn lemma_shift(
    before: Field,
    after: Field,
    head: Coordinate,
    len: nat,
    c: Coordinate,
    d: Direction,
    i: nat,
)
    requires
        before.is_snake(head, len),
        before.contains(c),
        before.cell(c) == Direction::Null || before.cell(c) == Direction::End,
        d.spec_valid(),
        head.spec_move_towards(d) == c,
        after.is_shift_of(before, head, (len - 1) as nat, c, d),
        i + 1 < len,
    ensures
        after.walk(c, i + 1) == before.walk(head, i),
    decreases i,
{
    let n = (len - 1) as nat;
    let tail = before.walk(head, n);
    let new_tail = before.walk(head, (n - 1) as nat);
    assert(before.contains(before.walk(head, 0)));
    lemma_move_back(head, d);
    if before.cell(c) == Direction::End {
        lemma_end_is_tail(before, head, len, c);
    }
    if i == 0 {
        lemma_chain_distinct(before, head, n, (n - 1) as nat, n);
        assert(before.contains(new_tail));
        assert(before.cell(new_tail).spec_valid());
        assert(new_tail != c);
        assert(after.walk(c, 0) == c);
        assert(after.walk(c, 1) == after.spec_next(after.walk(c, 0)));
    } else {
        let k = (i - 1) as nat;
        lemma_shift(before, after, head, len, c, d, k);
        let p = before.walk(head, k);
        assert(before.contains(p));
        assert(before.cell(p).spec_valid());
        lemma_chain_distinct(before, head, n, k, n);
        lemma_chain_distinct(before, head, n, k, (n - 1) as nat);
        assert(after.cell(p) == before.cell(p));
        assert(after.walk(c, i + 1) == after.spec_next(after.walk(c, i)));
    }
}

} // verus!
