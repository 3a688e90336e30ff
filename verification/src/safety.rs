//! Why a snake that keeps to the tour stays alive.
//!
//! On a board with an even number of cells the tour is one ring through all
//! cells. A snake is in tour order if, going back round the ring from its
//! head, one meets its cells in their order within a single lap. A snake in
//! tour order can always take the step of the tour, and both that step and a
//! shortcut that the look ahead accepts leave it in tour order.

use vstd::prelude::*;
use crate::direction::Direction;
use crate::coordinate::lemma_move_back;
use crate::game::Game;
use crate::game::StepOutcome;
use crate::chain::lemma_grow;
use crate::chain::lemma_shift;
use crate::hamiltonian::spec_odd;
use crate::hamiltonian::tour_rank;
use crate::hamiltonian::tour_direction;
use crate::hamiltonian::lemma_tour_step;
use crate::hamiltonian::lemma_tour_walk_rank;
use crate::hamiltonian::lemma_tour_rank_injective;
use crate::snakes::greedy_pick;
use crate::snakes::is_open;
use crate::snakes::lemma_priority_is_permutation;
use crate::hybrid::ahead;
use crate::hybrid::is_free;
use crate::hybrid::tail_of;
use crate::hybrid::leads_to_tail;
use crate::hybrid::passes_apple;
use crate::hybrid::shortcut_is_safe;
use crate::hybrid::impatient_choice;

verus! {

/// How many places `t` lies behind `r` on a ring of `n` places.
pub open spec fn behind(n: int, r: int, t: int) -> int {
    if t <= r {
        r - t
    } else {
        r - t + n
    }
}

/// The place `s` places ahead of `r` on a ring of `n` places.
pub open spec fn ring_add(n: int, r: int, s: int) -> int {
    if r + s < n {
        r + s
    } else {
        r + s - n
    }
}

/// The board of `game` has at least two columns and two rows and an even
/// number of cells.
pub open spec fn board_is_even(game: &Game) -> bool {
    let w = game.spec_field().dim().x as int;
    let h = game.spec_field().dim().y as int;
    w >= 2 && h >= 2 && (!spec_odd(w) || !spec_odd(h))
}

/// The number of cells of the board of `game`.
pub open spec fn cells(game: &Game) -> int {
    game.spec_field().dim().x * game.spec_field().dim().y
}

/// The place on the tour of the cell of the snake that comes `i` cells after
/// its head.
pub open spec fn place(game: &Game, i: nat) -> int {
    tour_rank(
        game.spec_field().dim().x as int,
        game.spec_field().dim().y as int,
        game.spec_field().walk(game.spec_head(), i),
    )
}

/// Going back round the tour from the head, one meets the cells of the snake
/// in their order, all within one lap.
pub open spec fn in_tour_order(game: &Game) -> bool {
    forall|i: nat, j: nat|
        i < j < game.length() ==> behind(cells(game), place(game, 0), #[trigger] place(game, i))
            < behind(cells(game), place(game, 0), #[trigger] place(game, j))
}

/// A snake of one cell is in tour order.
pub proof fn lemma_single_cell_is_in_tour_order(game: &Game)
    requires
        game.length() == 1,
    ensures
        in_tour_order(game),
{
}

/// Every cell of the snake has a place on the ring.
proof fn lemma_place_range(game: &Game, i: nat)
    requires
        game.inv(),
        board_is_even(game),
        i < game.length(),
    ensures
        0 <= place(game, i) < cells(game),
        0 <= behind(cells(game), place(game, 0), place(game, i)) < cells(game),
        game.spec_field().contains(game.spec_field().walk(game.spec_head(), i)),
{
    let f = game.spec_field();
    let w = f.dim().x as int;
    let h = f.dim().y as int;
    assert(f.contains(f.walk(game.spec_head(), i)));
    assert(f.contains(f.walk(game.spec_head(), 0)));
    lemma_tour_step(w, h, f.walk(game.spec_head(), i), game.spec_apple());
    lemma_tour_step(w, h, f.walk(game.spec_head(), 0), game.spec_apple());
}

/// If the new head lies `s` places ahead of the old one, the old cells follow
/// it in their old order, and none of them lies within `s` places of the end
/// of the lap, the snake is in tour order again.
proof fn lemma_step_keeps_order(before: &Game, after: &Game, s: int)
    requires
        before.inv(),
        board_is_even(before),
        in_tour_order(before),
        after.inv(),
        after.spec_field().dim() == before.spec_field().dim(),
        after.length() <= before.length() + 1,
        1 <= s < cells(before),
        place(after, 0) == ring_add(cells(before), place(before, 0), s),
        forall|i: nat|
            i + 1 < after.length() ==> after.spec_field().walk(after.spec_head(), i + 1)
                == #[trigger] before.spec_field().walk(before.spec_head(), i),
        forall|i: nat|
            i + 1 < after.length() ==> behind(
                cells(before),
                place(before, 0),
                #[trigger] place(before, i),
            ) + s < cells(before),
    ensures
        in_tour_order(after),
{
    let n = cells(before);
    let r = place(before, 0);
    let rc = place(after, 0);
    lemma_place_range(before, 0);
    assert forall|i: nat, j: nat| i < j < after.length() implies behind(
        n,
        rc,
        #[trigger] place(after, i),
    ) < behind(n, rc, #[trigger] place(after, j)) by {
        let jj = (j - 1) as nat;
        lemma_place_range(before, jj);
        let q = before.spec_field().walk(before.spec_head(), jj);
        assert(after.spec_field().walk(after.spec_head(), jj + 1) == q);
        assert(place(after, j) == place(before, jj));
        assert(behind(n, r, place(before, jj)) + s < n);
        if i > 0 {
            let ii = (i - 1) as nat;
            lemma_place_range(before, ii);
            let p = before.spec_field().walk(before.spec_head(), ii);
            assert(after.spec_field().walk(after.spec_head(), ii + 1) == p);
            assert(place(after, i) == place(before, ii));
            assert(behind(n, r, place(before, ii)) + s < n);
            if ii > 0 {
                assert(behind(n, r, place(before, ii)) < behind(n, r, place(before, jj)));
            } else {
                assert(behind(n, r, place(before, 0)) < behind(n, r, place(before, jj)));
            }
        }
    }
}

/// A step onto a cell that lies `s` places ahead of the head, with no cell of
/// the snake but perhaps its last on it and none within `s` places of the
/// end of the lap, is survived and leaves the snake in tour order.
proof fn lemma_safe_move(
    before: &Game,
    after: &Game,
    outcome: StepOutcome,
    d: Direction,
    s: int,
)
    requires
        before.playable(),
        board_is_even(before),
        in_tour_order(before),
        d.spec_valid(),
        before.spec_field().contains(before.spec_head().spec_move_towards(d)),
        !before.spec_field().cell(before.spec_head().spec_move_towards(d)).spec_valid(),
        1 <= s < cells(before),
        tour_rank(
            before.spec_field().dim().x as int,
            before.spec_field().dim().y as int,
            before.spec_head().spec_move_towards(d),
        ) == ring_add(cells(before), place(before, 0), s),
        forall|i: nat|
            i < before.length() && before.spec_field().walk(before.spec_head(), i)
                != before.spec_head().spec_move_towards(d) ==> behind(
                cells(before),
                place(before, 0),
                #[trigger] place(before, i),
            ) + s < cells(before),
        after.follows(before, d, outcome),
        after.inv(),
    ensures
        outcome == StepOutcome::Continued || outcome == StepOutcome::Won,
        in_tour_order(after),
{
    let f = *before.spec_field();
    let g = *after.spec_field();
    let head = before.spec_head();
    let c = head.spec_move_towards(d);
    let len = before.length();
    let n = (len - 1) as nat;
    assert(f.contains(f.walk(head, 0)));
    lemma_move_back(head, d);
    assert(g.walk(c, 0) == c);
    if f.cell(c) == Direction::Null && c == before.spec_apple() {
        lemma_grow(f, g, head, len, c, d.spec_invert());
        assert forall|i: nat| i + 1 < after.length() implies behind(
            cells(before),
            place(before, 0),
            #[trigger] place(before, i),
        ) + s < cells(before) by {
            assert(f.contains(f.walk(head, i)));
            if i < n {
                assert(f.cell(f.walk(head, i)).spec_valid());
            }
        }
        lemma_step_keeps_order(before, after, s);
    } else {
        assert forall|i: nat| i + 1 < after.length() implies g.walk(c, i + 1) == #[trigger] f.walk(
            head,
            i,
        ) by {
            lemma_shift(f, g, head, len, c, d, i);
        }
        assert forall|i: nat| i + 1 < after.length() implies behind(
            cells(before),
            place(before, 0),
            #[trigger] place(before, i),
        ) + s < cells(before) by {
            assert(f.contains(f.walk(head, i)));
            assert(f.cell(f.walk(head, i)).spec_valid());
        }
        lemma_step_keeps_order(before, after, s);
    }
}

/// On a board with an even number of cells, a snake in tour order survives
/// the step of the tour: the tick goes on or wins the match, and the snake is
/// in tour order again.
pub proof fn lemma_tour_step_is_safe(before: &Game, after: &Game, outcome: StepOutcome)
    requires
        before.playable(),
        board_is_even(before),
        in_tour_order(before),
        after.follows(
            before,
            tour_direction(
                before.spec_field().dim().x as int,
                before.spec_field().dim().y as int,
                before.spec_head(),
                before.spec_apple(),
            ),
            outcome,
        ),
        after.inv(),
    ensures
        outcome == StepOutcome::Continued || outcome == StepOutcome::Won,
        in_tour_order(after),
{
    let f = *before.spec_field();
    let w = f.dim().x as int;
    let h = f.dim().y as int;
    let head = before.spec_head();
    let len = before.length();
    let d = tour_direction(w, h, head, before.spec_apple());
    let c = head.spec_move_towards(d);
    let n = cells(before);
    let r = place(before, 0);
    before.lemma_head_on_board();
    lemma_tour_step(w, h, head, before.spec_apple());
    assert(n >= 4) by (nonlinear_arith)
        requires
            n == w * h,
            w >= 2,
            h >= 2,
    ;
    assert(f.walk(head, 0) == head);
    assert forall|i: nat| i < len && f.walk(head, i) != c implies behind(
        n,
        r,
        #[trigger] place(before, i),
    ) + 1 < n by {
        lemma_place_range(before, i);
        if behind(n, r, place(before, i)) + 1 >= n {
            lemma_tour_rank_injective(w, h, f.walk(head, i), c);
        }
    }
    if f.cell(c).spec_valid() {
        let j = choose|j: nat| j < len && f.walk(head, j) == c;
        let last = (len - 1) as nat;
        lemma_place_range(before, j);
        lemma_place_range(before, last);
        assert(j < last);
        if j > 0 {
            assert(behind(n, r, place(before, j)) < behind(n, r, place(before, last)));
        }
    }
    lemma_safe_move(before, after, outcome, d, 1);
}

/// How many steps of the tour lie between the head and the apple.
pub open spec fn steps_to_apple(game: &Game) -> int {
    behind(
        cells(game),
        tour_rank(
            game.spec_field().dim().x as int,
            game.spec_field().dim().y as int,
            game.spec_apple(),
        ),
        place(game, 0),
    )
}

/// On a board with an even number of cells, a snake in tour order that takes
/// the step of the tour does not starve: the apple is at most one lap less a
/// step away, every tick that does not reach it brings the head one step
/// nearer, and the tick that reaches it eats it.
pub proof fn lemma_tour_step_nears_apple(before: &Game, after: &Game, outcome: StepOutcome)
    requires
        before.playable(),
        board_is_even(before),
        in_tour_order(before),
        after.follows(
            before,
            tour_direction(
                before.spec_field().dim().x as int,
                before.spec_field().dim().y as int,
                before.spec_head(),
                before.spec_apple(),
            ),
            outcome,
        ),
        after.inv(),
    ensures
        1 <= steps_to_apple(before) < cells(before),
        steps_to_apple(before) == 1 ==> after.spec_apples() == before.spec_apples() + 1,
        steps_to_apple(before) > 1 ==> after.spec_apples() == before.spec_apples()
            && after.spec_apple() == before.spec_apple() && steps_to_apple(after)
            == steps_to_apple(before) - 1,
{
    let f = *before.spec_field();
    let w = f.dim().x as int;
    let h = f.dim().y as int;
    let head = before.spec_head();
    let apple = before.spec_apple();
    let c = head.spec_move_towards(tour_direction(w, h, head, apple));
    before.lemma_head_on_board();
    lemma_tour_step_is_safe(before, after, outcome);
    lemma_tour_step(w, h, head, apple);
    lemma_tour_step(w, h, apple, apple);
    assert(f.walk(head, 0) == head);
    assert(after.spec_field().walk(c, 0) == c);
    if tour_rank(w, h, apple) == tour_rank(w, h, head) {
        lemma_tour_rank_injective(w, h, apple, head);
    }
    if tour_rank(w, h, apple) == tour_rank(w, h, c) {
        lemma_tour_rank_injective(w, h, apple, c);
    }
}

/// On a board with an even number of cells, a snake in tour order survives a
/// step onto a free cell from which the shortcut is safe, and is in tour
/// order again.
pub proof fn lemma_shortcut_is_safe(
    before: &Game,
    after: &Game,
    outcome: StepOutcome,
    d: Direction,
)
    requires
        before.playable(),
        board_is_even(before),
        in_tour_order(before),
        d.spec_valid(),
        is_open(before, d),
        shortcut_is_safe(before, before.spec_head().spec_move_towards(d)),
        after.follows(before, d, outcome),
        after.inv(),
    ensures
        outcome == StepOutcome::Continued || outcome == StepOutcome::Won,
        in_tour_order(after),
{
    let f = *before.spec_field();
    let w = f.dim().x as int;
    let h = f.dim().y as int;
    let head = before.spec_head();
    let apple = before.spec_apple();
    let len = before.length();
    let last = (len - 1) as nat;
    let c = head.spec_move_towards(d);
    let n = cells(before);
    let r = place(before, 0);
    let rc = tour_rank(w, h, c);
    let tail = tail_of(before);
    before.lemma_head_on_board();
    lemma_tour_step(w, h, head, apple);
    lemma_tour_step(w, h, c, apple);
    lemma_place_range(before, last);
    assert(f.walk(head, 0) == head);
    if rc == r {
        lemma_tour_rank_injective(w, h, c, head);
    }
    let s = behind(n, rc, r);
    let k = choose|k: nat| k < n && #[trigger] leads_to_tail(before, c, k) && passes_apple(before, c, k);
    lemma_tour_walk_rank(w, h, c, apple, k);
    let bt = behind(n, r, place(before, last));
    if bt + s >= n {
        let j0 = (n - s) as nat;
        lemma_tour_walk_rank(w, h, c, apple, j0);
        lemma_tour_rank_injective(w, h, ahead(before, c, j0), head);
        if j0 < k {
            assert(is_free(before, ahead(before, c, j0)));
        } else if j0 == k {
            assert(false);
        } else {
            if k == 0 {
                assert(ahead(before, c, 0) == c);
            }
            assert(false);
        }
    }
    assert forall|i: nat| i < len && f.walk(head, i) != c implies behind(
        n,
        r,
        #[trigger] place(before, i),
    ) + s < n by {
        lemma_place_range(before, i);
        if i < last {
            if i > 0 {
                assert(behind(n, r, place(before, i)) < behind(n, r, place(before, last)));
            }
        }
    }
    lemma_safe_move(before, after, outcome, d, s);
}

/// On a board with an even number of cells, the impatient snake survives its
/// own step as long as it has been in tour order, and is in tour order again.
pub proof fn lemma_impatient_step_is_safe(before: &Game, after: &Game, outcome: StepOutcome)
    requires
        before.playable(),
        board_is_even(before),
        in_tour_order(before),
        after.follows(before, impatient_choice(before), outcome),
        after.inv(),
    ensures
        outcome == StepOutcome::Continued || outcome == StepOutcome::Won,
        in_tour_order(after),
{
    let d = impatient_choice(before);
    lemma_priority_is_permutation(before.spec_head(), before.spec_apple());
    match greedy_pick(before) {
        Some(g) => {
            if shortcut_is_safe(before, before.spec_head().spec_move_towards(g)) {
                lemma_shortcut_is_safe(before, after, outcome, g);
            } else {
                lemma_tour_step_is_safe(before, after, outcome);
            }
        },
        None => {
            lemma_tour_step_is_safe(before, after, outcome);
        },
    }
}

} // verus!
