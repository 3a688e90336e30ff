//! Picking a strategy by number.

use vstd::prelude::*;
use crate::direction::Direction;
use crate::game::Game;
use crate::hamiltonian::tour_direction;
use crate::snakes::Snake;
use crate::snakes::SillySnake;
use crate::snakes::GreedySnake;
use crate::snakes::GreedyPickySnake;
use crate::snakes::HamiltonianSnake;
use crate::snakes::priority;
use crate::snakes::greedy_pick;
use crate::hybrid::ImpatientSnake;
use crate::hybrid::impatient_choice;

verus! {

/// One of the strategies of this library.
#[derive(Copy, Clone, PartialEq, Eq, Structural, Debug)]
pub enum SnakeKind {
    Silly,
    Greedy,
    GreedyPicky,
    Hamiltonian,
    Impatient,
}

/// The strategy with the number `k`.
pub open spec fn spec_choose_snake(k: u32) -> SnakeKind {
    if k == 0 {
        SnakeKind::Silly
    } else if k == 1 {
        SnakeKind::Greedy
    } else if k == 2 {
        SnakeKind::GreedyPicky
    } else if k == 3 {
        SnakeKind::Hamiltonian
    } else {
        SnakeKind::Impatient
    }
}

/// Returns the strategy with the number `k`; the numbers run from 0 to 4.
pub fn choose_snake(k: u32) -> (result: SnakeKind)
    requires
        k <= 4,
    ensures
        result == spec_choose_snake(k),
{
    if k == 0 {
        SnakeKind::Silly
    } else if k == 1 {
        SnakeKind::Greedy
    } else if k == 2 {
        SnakeKind::GreedyPicky
    } else if k == 3 {
        SnakeKind::Hamiltonian
    } else {
        SnakeKind::Impatient
    }
}

impl SnakeKind {
    /// Whether `choice` is an answer that the strategy `self` can give in
    /// the state `game`. Every strategy but the silly one has one answer; the
    /// silly one names any cardinal step, or gives up.
    pub open spec fn answers(self, game: &Game, choice: Option<Direction>) -> bool {
        match self {
            SnakeKind::Silly => choice matches Some(d) ==> d.spec_valid(),
            SnakeKind::Greedy => choice == Some(
                priority(game.spec_head(), game.spec_apple())[0],
            ),
            SnakeKind::GreedyPicky => choice == greedy_pick(game),
            SnakeKind::Hamiltonian => choice == Some(
                tour_direction(
                    game.spec_field().dim().x as int,
                    game.spec_field().dim().y as int,
                    game.spec_head(),
                    game.spec_apple(),
                ),
            ),
            SnakeKind::Impatient => choice == Some(impatient_choice(game)),
        }
    }
}

impl Snake for SnakeKind {
    /// Leaves the choice of strategy as it is.
    fn init(&mut self, _game: &Game)
        ensures
            *final(self) == *old(self),
    {
    }

    /// Asks the strategy that `self` stands for.
    fn move_to(&self, game: &Game) -> (result: Option<Direction>)
        ensures
            self.answers(game, result),
    {
        match self {
            SnakeKind::Silly => SillySnake.move_to(game),
            SnakeKind::Greedy => GreedySnake.move_to(game),
            SnakeKind::GreedyPicky => GreedyPickySnake.move_to(game),
            SnakeKind::Hamiltonian => HamiltonianSnake.move_to(game),
            SnakeKind::Impatient => ImpatientSnake.move_to(game),
        }
    }
}

} // verus!
