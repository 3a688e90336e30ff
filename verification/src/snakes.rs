//! The strategies that steer the snake.
//!
//! A strategy looks at the state of a match and names the next step, or
//! declines to move. It never changes the match.

use vstd::prelude::*;
use rand::rngs::StdRng;
use crate::direction::Direction;
use crate::coordinate::Coordinate;
use crate::game::Game;
use crate::hamiltonian::next_hamiltonian_direction;
use crate::hamiltonian::tour_direction;
use crate::random::entropy_rng;

verus! {

/// What every strategy offers.
pub trait Snake {
    /// Prepares the strategy for the match `game`.
    fn init(&mut self, game: &Game);

    /// Names the next step, or `None` to give up. A step that is named is a
    /// cardinal one.
    fn move_to(&self, game: &Game) -> (result: Option<Direction>)
        requires
            game.playable(),
        ensures
            result matches Some(d) ==> d.spec_valid(),
    ;
}

/// The absolute value of `v`.
pub open spec fn spec_magnitude(v: int) -> int {
    if v < 0 {
        -v
    } else {
        v
    }
}

/// Returns the absolute value of `v`.
pub fn magnitude(v: isize) -> (result: isize)
    requires
        v != isize::MIN,
    ensures
        result == spec_magnitude(v as int),
{
    if v < 0 {
        -v
    } else {
        v
    }
}

/// Whether the vector from `snake` to `apple` and the absolute values of its
/// components fit the machine's integers.
pub open spec fn can_aim(snake: Coordinate, apple: Coordinate) -> bool {
    &&& isize::MIN < apple.x - snake.x <= isize::MAX
    &&& isize::MIN < apple.y - snake.y <= isize::MAX
}

/// The four cardinal steps in the order in which a greedy snake at `snake`
/// would like to take them to get to `apple`.
///
/// The axis along which the apple is farther away comes first, the horizontal
/// one if both are equally far. First comes the step towards the apple along
/// that axis, then the step towards it along the other axis, then the step
/// away from it along the other axis, and last the step away from it along
/// the first. Along an axis on which snake and apple are level, left and up
/// count as towards the apple.
pub open spec fn priority(snake: Coordinate, apple: Coordinate) -> Seq<Direction> {
    let dx = apple.x - snake.x;
    let dy = apple.y - snake.y;
    let toward_x = if dx > 0 {
        Direction::Right
    } else {
        Direction::Left
    };
    let toward_y = if dy > 0 {
        Direction::Down
    } else {
        Direction::Up
    };
    if spec_magnitude(dx) >= spec_magnitude(dy) {
        seq![toward_x, toward_y, toward_y.spec_invert(), toward_x.spec_invert()]
    } else {
        seq![toward_y, toward_x, toward_x.spec_invert(), toward_y.spec_invert()]
    }
}

/// Whether the snake of `game` can take the step `dir`: the cell it leads to
/// is on the board and free.
pub open spec fn is_open(game: &Game, dir: Direction) -> bool {
    let pos = game.spec_head().spec_move_towards(dir);
    game.spec_field().contains(pos) && game.spec_field().cell(pos) == Direction::Null
}

/// The first of the four steps of `order` that the snake of `game` can take,
/// or `None` if it can take none of them.
pub open spec fn first_open(game: &Game, order: Seq<Direction>) -> Option<Direction> {
    if is_open(game, order[0]) {
        Some(order[0])
    } else if is_open(game, order[1]) {
        Some(order[1])
    } else if is_open(game, order[2]) {
        Some(order[2])
    } else if is_open(game, order[3]) {
        Some(order[3])
    } else {
        None
    }
}

/// The step that a greedy snake in `game` likes best among those it can take.
pub open spec fn greedy_pick(game: &Game) -> Option<Direction> {
    first_open(game, priority(game.spec_head(), game.spec_apple()))
}

/// Moves at random.
pub struct SillySnake;

/// Heads for the apple, whatever is in the way.
pub struct GreedySnake;

/// Heads for the apple, but only over free cells.
pub struct GreedyPickySnake;

/// Follows the tour of the grid.
pub struct HamiltonianSnake;

impl SillySnake {
    /// Names a cardinal step drawn from the generator `source`, and gives up
    /// if and only if there is no generator.
    pub fn draw_from(source: Option<StdRng>) -> (result: Option<Direction>)
        ensures
            result is Some <==> source is Some,
            result matches Some(d) ==> d.spec_valid(),
    {
        match source {
            Some(mut rng) => Some(Direction::random(&mut rng)),
            None => None,
        }
    }
}

impl Snake for SillySnake {
    /// Has nothing to prepare.
    fn init(&mut self, _game: &Game)
        ensures
            *final(self) == *old(self),
    {
    }

    /// Names a cardinal step drawn from a generator that is seeded from the
    /// operating system for this one draw, and gives up where the system
    /// provides no entropy.
    fn move_to(&self, _game: &Game) -> (result: Option<Direction>) {
        SillySnake::draw_from(entropy_rng())
    }
}

impl Snake for GreedySnake {
    /// Has nothing to prepare.
    fn init(&mut self, _game: &Game)
        ensures
            *final(self) == *old(self),
    {
    }

    /// Names the step that a greedy snake likes best.
    fn move_to(&self, game: &Game) -> (result: Option<Direction>)
        ensures
            result == Some(priority(game.spec_head(), game.spec_apple())[0]),
    {
        proof {
            game.lemma_head_on_board();
        }
        let order = GreedyPickySnake::prioritize(game.head(), game.apple());
        Some(order[0])
    }
}

impl GreedyPickySnake {
    /// Returns the four cardinal steps in the order in which a greedy snake
    /// at `snake` would like to take them to get to `apple`.
    pub fn prioritize(snake: Coordinate, apple: Coordinate) -> (result: [Direction; 4])
        requires
            can_aim(snake, apple),
        ensures
            result@ == priority(snake, apple),
    {
        let delta = snake.difference(apple);
        let toward_x = if delta.x > 0 {
            Direction::Right
        } else {
            Direction::Left
        };
        let toward_y = if delta.y > 0 {
            Direction::Down
        } else {
            Direction::Up
        };
        let order = if magnitude(delta.x) >= magnitude(delta.y) {
            [toward_x, toward_y, toward_y.invert(), toward_x.invert()]
        } else {
            [toward_y, toward_x, toward_x.invert(), toward_y.invert()]
        };
        assert(order@ =~= priority(snake, apple));
        order
    }

    /// Tells whether the snake of `game` can take the step `dir`.
    pub fn available(game: &Game, dir: Direction) -> (result: bool)
        requires
            game.inv(),
        ensures
            result == is_open(game, dir),
    {
        proof {
            game.lemma_head_on_board();
        }
        let pos = game.head().move_towards(dir);
        game.field().valid(pos) && game.field().available(pos)
    }
}

impl Snake for GreedyPickySnake {
    /// Has nothing to prepare.
    fn init(&mut self, _game: &Game)
        ensures
            *final(self) == *old(self),
    {
    }

    /// Names the step that a greedy snake likes best among those it can take,
    /// and gives up if it can take none.
    fn move_to(&self, game: &Game) -> (result: Option<Direction>)
        ensures
            result == greedy_pick(game),
    {
        proof {
            game.lemma_head_on_board();
        }
        let preferred = GreedyPickySnake::prioritize(game.head(), game.apple());
        let mut i: usize = 0;
        while i < 4
            invariant
                game.inv(),
                i <= 4,
                preferred@ == priority(game.spec_head(), game.spec_apple()),
                forall|j: int| 0 <= j < i ==> !is_open(game, #[trigger] preferred@[j]),
            decreases 4 - i,
        {
            let dir = preferred[i];
            if GreedyPickySnake::available(game, dir) {
                return Some(dir);
            }
            i = i + 1;
        }
        None
    }
}

impl Snake for HamiltonianSnake {
    /// Has nothing to prepare.
    fn init(&mut self, _game: &Game)
        ensures
            *final(self) == *old(self),
    {
    }

    /// Names the step that continues the tour of the board at the head.
    fn move_to(&self, game: &Game) -> (result: Option<Direction>)
        ensures
            result == Some(
                tour_direction(
                    game.spec_field().dim().x as int,
                    game.spec_field().dim().y as int,
                    game.spec_head(),
                    game.spec_apple(),
                ),
            ),
    {
        proof {
            game.lemma_head_on_board();
        }
        let dimension = game.field().dimension();
        Some(next_hamiltonian_direction(dimension.x, dimension.y, game.head(), game.apple()))
    }
}

/// Taken in greedy order, the four steps are the four cardinal steps, each
/// once.
pub proof fn lemma_priority_is_permutation(snake: Coordinate, apple: Coordinate)
    ensures
        priority(snake, apple).len() == 4,
        forall|i: int| 0 <= i < 4 ==> (#[trigger] priority(snake, apple)[i]).spec_valid(),
        forall|i: int, j: int|
            0 <= i < j < 4 ==> priority(snake, apple)[i] != priority(snake, apple)[j],
{
}

} // verus!
