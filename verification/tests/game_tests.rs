use rand::rngs::StdRng;
use rand::SeedableRng;
use snake::coordinate::Coordinate;
use snake::direction::Direction;
use snake::field::Field;
use snake::game::Game;
use snake::game::StepOutcome;

fn at(x: isize, y: isize) -> Coordinate {
    Coordinate { x, y }
}

fn rng() -> StdRng {
    StdRng::seed_from_u64(2024)
}

fn occupied(game: &Game) -> usize {
    let dim = game.field().dimension();
    let mut count = 0;
    for y in 0..dim.y {
        for x in 0..dim.x {
            if !game.field().available(at(x, y)) {
                count += 1;
            }
        }
    }
    count
}

/// A 3 x 2 board: head (0,0) -> (1,0) -> (1,1) -> (0,1), the last cell right
/// below the head; the apple lies at (2,0).
fn coiled() -> Game {
    let mut field = Field::init(at(3, 2));
    field.set(at(0, 0), Direction::Right);
    field.set(at(1, 0), Direction::Down);
    field.set(at(1, 1), Direction::Left);
    field.set(at(0, 1), Direction::End);
    Game::resume(field, at(0, 0), at(2, 0), 3, 10, rng())
}

/// A 4 x 1 strip inside a 4 x 3 board: head (1,1) -> (0,1), apple at (3,1).
fn short() -> Game {
    let mut field = Field::init(at(4, 3));
    field.set(at(1, 1), Direction::Left);
    field.set(at(0, 1), Direction::End);
    Game::resume(field, at(1, 1), at(3, 1), 1, 0, rng())
}

#[test]
fn new_game_has_a_snake_of_one_cell_and_a_free_apple() {
    let game = Game::init(9, 7);
    assert_eq!(game.field().dimension(), at(9, 7));
    assert_eq!(game.apples(), 0);
    assert_eq!(game.moves(), 0);
    assert!(game.field().valid(game.head()));
    assert_eq!(game.field().get(game.head()), Direction::End);
    assert!(game.field().valid(game.apple()));
    assert!(game.field().available(game.apple()));
    assert_ne!(game.head(), game.apple());
    assert_eq!(occupied(&game), 1);
}

#[test]
fn new_game_is_reproducible() {
    let a = Game::init(9, 7);
    let b = Game::init(9, 7);
    assert_eq!(a.head(), b.head());
    assert_eq!(a.apple(), b.apple());
    let c = Game::with_rng(9, 7, StdRng::seed_from_u64(42));
    assert_eq!(a.head(), c.head());
    assert_eq!(a.apple(), c.apple());
}

#[test]
fn smallest_board_starts() {
    let game = Game::init(2, 2);
    assert!(game.field().available(game.apple()));
    assert_eq!(occupied(&game), 1);
}

#[test]
fn resume_keeps_what_it_is_given() {
    let game = coiled();
    assert_eq!(game.head(), at(0, 0));
    assert_eq!(game.apple(), at(2, 0));
    assert_eq!(game.apples(), 3);
    assert_eq!(game.moves(), 10);
    assert_eq!(game.field().get(at(1, 1)), Direction::Left);
}

#[test]
fn plain_move_shifts_the_snake() {
    let mut game = short();
    assert_eq!(game.propose_and_apply(Direction::Right), StepOutcome::Continued);
    assert_eq!(game.head(), at(2, 1));
    assert_eq!(game.field().get(at(2, 1)), Direction::Left);
    assert_eq!(game.field().get(at(1, 1)), Direction::End);
    assert_eq!(game.field().get(at(0, 1)), Direction::Null);
    assert_eq!(game.apples(), 1);
    assert_eq!(game.moves(), 1);
    assert_eq!(game.apple(), at(3, 1));
    assert_eq!(occupied(&game), 2);
}

#[test]
fn single_cell_snake_moves() {
    let mut field = Field::init(at(3, 3));
    field.set(at(1, 1), Direction::End);
    let mut game = Game::resume(field, at(1, 1), at(0, 0), 0, 0, rng());
    assert_eq!(game.propose_and_apply(Direction::Down), StepOutcome::Continued);
    assert_eq!(game.head(), at(1, 2));
    assert_eq!(game.field().get(at(1, 2)), Direction::End);
    assert_eq!(game.field().get(at(1, 1)), Direction::Null);
    assert_eq!(occupied(&game), 1);
}

#[test]
fn eating_grows_the_snake_and_moves_the_apple() {
    let mut game = short();
    assert_eq!(game.propose_and_apply(Direction::Right), StepOutcome::Continued);
    assert_eq!(game.propose_and_apply(Direction::Right), StepOutcome::Continued);
    assert_eq!(game.head(), at(3, 1));
    assert_eq!(game.apples(), 2);
    assert_eq!(game.moves(), 2);
    assert_eq!(game.field().get(at(3, 1)), Direction::Left);
    assert_eq!(game.field().get(at(2, 1)), Direction::Left);
    assert_eq!(game.field().get(at(1, 1)), Direction::End);
    assert_eq!(occupied(&game), 3);
    assert_ne!(game.apple(), at(3, 1));
    assert!(game.field().available(game.apple()));
}

#[test]
fn stepping_off_the_board_crashes() {
    let mut game = coiled();
    assert_eq!(game.propose_and_apply(Direction::Left), StepOutcome::CrashedWall);
    assert_eq!(game.head(), at(0, 0));
    assert_eq!(game.moves(), 11);
    assert_eq!(occupied(&game), 4);
    let mut game = coiled();
    assert_eq!(game.propose_and_apply(Direction::Up), StepOutcome::CrashedWall);
}

#[test]
fn stepping_onto_the_body_is_fatal() {
    let mut game = coiled();
    assert_eq!(game.propose_and_apply(Direction::Right), StepOutcome::AteSnake);
    assert_eq!(game.head(), at(0, 0));
    assert_eq!(game.field().get(at(1, 0)), Direction::Down);
    assert_eq!(game.apples(), 3);
    assert_eq!(game.moves(), 11);
}

#[test]
fn markers_are_no_commands() {
    let mut game = coiled();
    assert_eq!(game.propose_and_apply(Direction::End), StepOutcome::Forfeit);
    assert_eq!(game.moves(), 11);
    assert_eq!(game.propose_and_apply(Direction::Null), StepOutcome::Forfeit);
    assert_eq!(game.moves(), 12);
    assert_eq!(game.head(), at(0, 0));
    assert_eq!(occupied(&game), 4);
}

#[test]
fn declining_to_move_forfeits() {
    let mut game = coiled();
    assert_eq!(game.apply_choice(None), StepOutcome::Forfeit);
    assert_eq!(game.moves(), 11);
    assert_eq!(game.head(), at(0, 0));
    assert_eq!(game.apply_choice(Some(Direction::Left)), StepOutcome::CrashedWall);
    assert_eq!(game.moves(), 12);
}

#[test]
fn following_the_own_tail_is_legal() {
    let mut game = coiled();
    assert_eq!(game.field().get(at(0, 1)), Direction::End);
    assert_eq!(game.propose_and_apply(Direction::Down), StepOutcome::Continued);
    assert_eq!(game.head(), at(0, 1));
    assert_eq!(game.field().get(at(0, 1)), Direction::Up);
    assert_eq!(game.field().get(at(0, 0)), Direction::Right);
    assert_eq!(game.field().get(at(1, 0)), Direction::Down);
    assert_eq!(game.field().get(at(1, 1)), Direction::End);
    assert_eq!(game.field().last_two(game.head()), (at(1, 0), at(1, 1)));
    assert_eq!(occupied(&game), 4);
    assert_eq!(game.apples(), 3);
    assert_eq!(game.apple(), at(2, 0));
    assert_eq!(game.moves(), 11);
}

#[test]
fn following_the_tail_round_and_round() {
    let mut game = coiled();
    let lap = [Direction::Down, Direction::Right, Direction::Up, Direction::Left];
    for _ in 0..3 {
        for d in lap {
            assert_eq!(game.propose_and_apply(d), StepOutcome::Continued);
            assert_eq!(occupied(&game), 4);
        }
        assert_eq!(game.head(), at(0, 0));
    }
}

#[test]
fn two_cell_snake_can_turn_on_its_tail() {
    let mut game = short();
    assert_eq!(game.propose_and_apply(Direction::Left), StepOutcome::Continued);
    assert_eq!(game.head(), at(0, 1));
    assert_eq!(game.field().get(at(0, 1)), Direction::Right);
    assert_eq!(game.field().get(at(1, 1)), Direction::End);
    assert_eq!(occupied(&game), 2);
}

#[test]
fn eating_the_last_apple_wins() {
    let mut field = Field::init(at(2, 2));
    field.set(at(0, 0), Direction::Right);
    field.set(at(1, 0), Direction::Down);
    field.set(at(1, 1), Direction::End);
    let mut game = Game::resume(field, at(0, 0), at(0, 1), 2, 5, rng());
    assert_eq!(game.propose_and_apply(Direction::Down), StepOutcome::Won);
    assert_eq!(game.apples(), 3);
    assert_eq!(game.moves(), 6);
    assert_eq!(game.head(), at(0, 1));
    assert_eq!(occupied(&game), 4);
    assert_eq!(game.field().last_two(game.head()).1, at(1, 1));
}

#[test]
fn new_apple_lands_on_the_only_free_cell() {
    let mut field = Field::init(at(2, 2));
    field.set(at(0, 0), Direction::Right);
    field.set(at(1, 0), Direction::End);
    for seed in 0..20 {
        let mut copy = Field::init(at(2, 2));
        copy.set(at(0, 0), Direction::Right);
        copy.set(at(1, 0), Direction::Down);
        copy.set(at(1, 1), Direction::End);
        let mut game = Game::resume(copy, at(0, 0), at(0, 1), 2, 0, StdRng::seed_from_u64(seed));
        assert!(game.new_apple());
        assert_eq!(game.apple(), at(0, 1));
    }
    let mut game = Game::resume(field, at(0, 0), at(0, 1), 1, 0, rng());
    for _ in 0..20 {
        assert!(game.new_apple());
        assert!(game.field().available(game.apple()));
    }
}

#[test]
fn new_apple_fails_on_a_full_board() {
    let mut field = Field::init(at(2, 2));
    field.set(at(0, 0), Direction::Right);
    field.set(at(1, 0), Direction::Down);
    field.set(at(1, 1), Direction::End);
    let mut game = Game::resume(field, at(0, 0), at(0, 1), 2, 5, rng());
    assert_eq!(game.propose_and_apply(Direction::Down), StepOutcome::Won);
    let before = game.apple();
    assert!(!game.new_apple());
    assert_eq!(game.apple(), before);
}

#[test]
fn symbols_show_head_apple_and_body() {
    let game = coiled();
    assert_eq!(game.symbol_at(at(0, 0)), '#');
    assert_eq!(game.symbol_at(at(2, 0)), '\u{f8}');
    // The cell (1,0) holds the step down to (1,1); it is drawn as an arrow up.
    assert_eq!(game.symbol_at(at(1, 0)), Direction::Up.symbol());
    assert_eq!(game.symbol_at(at(1, 1)), Direction::Right.symbol());
    assert_eq!(game.symbol_at(at(0, 1)), Direction::End.symbol());
    assert_eq!(game.symbol_at(at(2, 1)), ' ');
}

#[test]
fn tick_counter_counts_every_tick() {
    let mut game = short();
    assert_eq!(game.propose_and_apply(Direction::Down), StepOutcome::Continued);
    assert_eq!(game.propose_and_apply(Direction::Null), StepOutcome::Forfeit);
    assert_eq!(game.propose_and_apply(Direction::Down), StepOutcome::CrashedWall);
    assert_eq!(game.propose_and_apply(Direction::Right), StepOutcome::Continued);
    assert_eq!(game.moves(), 4);
    assert_eq!(game.apples(), 1);
    assert_eq!(game.head(), at(2, 2));
}
