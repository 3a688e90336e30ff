//! The impatient snake: greedy where a look ahead shows it to be safe, on the
//! tour of the grid otherwise.
//!
//! The look ahead follows the tour from the cell that the greedy step leads
//! to. The step is safe if the tour comes to the snake's last cell over free
//! cells, and it is worth taking if the apple lies on that stretch.
//!
//! The look ahead follows the tour as it is while the apple lies where it
//! lies. On a board with an even number of cells the tour never changes, and
//! the snake stays alive. On a board with an odd number of cells the tour
//! changes with the apple's row, and a shortcut that was safe when it was
//! taken may be cut off after the next apple.

use vstd::prelude::*;
use crate::direction::Direction;
use crate::coordinate::Coordinate;
use crate::game::Game;
use crate::hamiltonian::next_hamiltonian_direction;
use crate::hamiltonian::tour_direction;
use crate::hamiltonian::tour_walk;
use crate::snakes::Snake;
use crate::snakes::GreedyPickySnake;
use crate::snakes::greedy_pick;
use crate::snakes::lemma_priority_is_permutation;

verus! {

/// The last cell of the snake of `game`, the one that holds the end marker.
pub open spec fn tail_of(game: &Game) -> Coordinate {
    game.spec_field().walk(game.spec_head(), (game.length() - 1) as nat)
}

/// The cell that the tour of the board of `game` reaches from `from` in `k`
/// steps.
pub open spec fn ahead(game: &Game, from: Coordinate, k: nat) -> Coordinate {
    tour_walk(
        game.spec_field().dim().x as int,
        game.spec_field().dim().y as int,
        from,
        game.spec_apple(),
        k,
    )
}

/// Whether `p` is a free cell of the board of `game`.
pub open spec fn is_free(game: &Game, p: Coordinate) -> bool {
    game.spec_field().contains(p) && game.spec_field().cell(p) == Direction::Null
}

/// The tour from `from` runs over `k` free cells and then stands on the
/// snake's last cell.
pub open spec fn leads_to_tail(game: &Game, from: Coordinate, k: nat) -> bool {
    &&& ahead(game, from, k) == tail_of(game)
    &&& forall|i: nat| i < k ==> is_free(game, #[trigger] ahead(game, from, i))
}

/// The apple is among the first `k` cells of the tour from `from`.
pub open spec fn passes_apple(game: &Game, from: Coordinate, k: nat) -> bool {
    exists|i: nat| i < k && #[trigger] ahead(game, from, i) == game.spec_apple()
}

/// Whether the snake may leave the tour for the cell `from`: followed from
/// there, the tour comes to the snake's last cell in fewer steps than the
/// board has cells, over free cells only, and over the apple.
pub open spec fn shortcut_is_safe(game: &Game, from: Coordinate) -> bool {
    exists|k: nat|
        k < game.spec_field().dim().x * game.spec_field().dim().y && #[trigger] leads_to_tail(
            game,
            from,
            k,
        ) && passes_apple(game, from, k)
}

/// The step of the impatient snake: the greedy pick where the shortcut to the
/// cell it leads to is safe, and the step of the tour otherwise.
pub open spec fn impatient_choice(game: &Game) -> Direction {
    let tour = tour_direction(
        game.spec_field().dim().x as int,
        game.spec_field().dim().y as int,
        game.spec_head(),
        game.spec_apple(),
    );
    match greedy_pick(game) {
        Some(d) => if shortcut_is_safe(game, game.spec_head().spec_move_towards(d)) {
            d
        } else {
            tour
        },
        None => tour,
    }
}

/// Takes the greedy step where a look ahead along the tour shows that the
/// snake's last cell stays in reach, and follows the tour otherwise.
pub struct ImpatientSnake;

impl ImpatientSnake {
    /// Tells whether the snake of `game` may leave the tour for the cell
    /// `from`, by following the tour from there cell by cell.
    pub fn validates(game: &Game, from: Coordinate) -> (result: bool)
        requires
            game.playable(),
        ensures
            result == shortcut_is_safe(game, from),
    {
        proof {
            game.lemma_head_on_board();
        }
        let field = game.field();
        let dimension = field.dimension();
        let apple = game.apple();
        let ghost len = game.length();
        assert(field.ends_after(game.spec_head(), (len - 1) as nat));
        let (_, tail) = field.last_two(game.head());
        proof {
            lemma_tail_is_taken(game);
        }
        let limit: usize = (dimension.x as usize) * (dimension.y as usize);
        let mut pos = from;
        let mut seen = false;
        let mut k: usize = 0;
        while k < limit
            invariant
                game.playable(),
                *field == *game.spec_field(),
                dimension == field.dim(),
                apple == game.spec_apple(),
                tail == tail_of(game),
                limit == dimension.x * dimension.y,
                k <= limit,
                pos == ahead(game, from, k as nat),
                forall|i: nat| i < k ==> is_free(game, #[trigger] ahead(game, from, i)),
                seen == passes_apple(game, from, k as nat),
            decreases limit - k,
        {
            if pos == tail {
                proof {
                    assert(leads_to_tail(game, from, k as nat));
                    lemma_one_way_to_tail(game, from, k as nat);
                }
                return seen;
            }
            if !field.valid(pos) || !field.available(pos) {
                proof {
                    lemma_blocked(game, from, k as nat);
                }
                return false;
            }
            let ghost before = seen;
            if pos == apple {
                seen = true;
            }
            proof {
                let next = (k + 1) as nat;
                if seen {
                    if before {
                        let i = choose|i: nat|
                            i < k && #[trigger] ahead(game, from, i) == game.spec_apple();
                        assert(i < next && ahead(game, from, i) == game.spec_apple());
                    } else {
                        assert(ahead(game, from, k as nat) == game.spec_apple());
                    }
                    assert(passes_apple(game, from, next));
                } else {
                    if passes_apple(game, from, next) {
                        let i = choose|i: nat|
                            i < next && #[trigger] ahead(game, from, i) == game.spec_apple();
                        assert(i < k);
                        assert(passes_apple(game, from, k as nat));
                    }
                }
            }
            let step = next_hamiltonian_direction(dimension.x, dimension.y, pos, apple);
            pos = pos.move_towards(step);
            k = k + 1;
        }
        proof {
            if shortcut_is_safe(game, from) {
                let j = choose|j: nat|
                    j < limit && #[trigger] leads_to_tail(game, from, j) && passes_apple(
                        game,
                        from,
                        j,
                    );
                assert(is_free(game, ahead(game, from, j)));
            }
        }
        false
    }
}

/// The snake's last cell is on the board and not free.
proof fn lemma_tail_is_taken(game: &Game)
    requires
        game.inv(),
    ensures
        !is_free(game, tail_of(game)),
        game.spec_field().contains(tail_of(game)),
{
    let f = game.spec_field();
    let n = (game.length() - 1) as nat;
    assert(f.contains(f.walk(game.spec_head(), n)));
}

/// If the tour from `from` comes to the snake's last cell after `k` steps
/// over free cells, it does so after no other number of steps.
proof fn lemma_one_way_to_tail(game: &Game, from: Coordinate, k: nat)
    requires
        game.playable(),
        leads_to_tail(game, from, k),
    ensures
        forall|j: nat| #[trigger] leads_to_tail(game, from, j) ==> j == k,
{
    lemma_tail_is_taken(game);
    assert forall|j: nat| #[trigger] leads_to_tail(game, from, j) implies j == k by {
        if j < k {
            assert(is_free(game, ahead(game, from, j)));
        }
        if k < j {
            assert(is_free(game, ahead(game, from, k)));
        }
    }
}

/// If the tour from `from` runs over `k` free cells and then stands on a cell
/// that is neither free nor the snake's last, the shortcut to `from` is not
/// safe.
proof fn lemma_blocked(game: &Game, from: Coordinate, k: nat)
    requires
        game.playable(),
        forall|i: nat| i < k ==> is_free(game, #[trigger] ahead(game, from, i)),
        !is_free(game, ahead(game, from, k)),
        ahead(game, from, k) != tail_of(game),
    ensures
        !shortcut_is_safe(game, from),
{
    lemma_tail_is_taken(game);
    assert forall|j: nat| !#[trigger] leads_to_tail(game, from, j) by {
        if leads_to_tail(game, from, j) {
            if j < k {
                assert(is_free(game, ahead(game, from, j)));
            }
            if k < j {
                assert(is_free(game, ahead(game, from, k)));
            }
        }
    }
}

impl ImpatientSnake {
    /// Returns the greedy pick where the shortcut to the cell it leads to is
    /// safe, and the step of the tour otherwise.
    pub fn choose_direction(game: &Game) -> (result: Direction)
        requires
            game.playable(),
        ensures
            result == impatient_choice(game),
            result.spec_valid(),
    {
        proof {
            game.lemma_head_on_board();
            lemma_priority_is_permutation(game.spec_head(), game.spec_apple());
        }
        let dimension = game.field().dimension();
        let tour = next_hamiltonian_direction(dimension.x, dimension.y, game.head(), game.apple());
        let picky = GreedyPickySnake;
        match picky.move_to(game) {
            Some(d) => {
                let candidate = game.head().move_towards(d);
                if ImpatientSnake::validates(game, candidate) {
                    d
                } else {
                    tour
                }
            },
            None => tour,
        }
    }
}

impl Snake for ImpatientSnake {
    /// Has nothing to prepare.
    fn init(&mut self, _game: &Game)
        ensures
            *final(self) == *old(self),
    {
    }

    /// Names the greedy pick where the shortcut is safe, and the step of the
    /// tour otherwise. It never gives up.
    fn move_to(&self, game: &Game) -> (result: Option<Direction>)
        ensures
            result == Some(impatient_choice(game)),
    {
        Some(ImpatientSnake::choose_direction(game))
    }
}

} // verus!
