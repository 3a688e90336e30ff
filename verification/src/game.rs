//! One match: the field, the snake's head, the apple, and the rule of a tick.

use vstd::prelude::*;
use rand::rngs::StdRng;
use crate::direction::Direction;
use crate::coordinate::Coordinate;
use crate::coordinate::lemma_move_back;
use crate::field::Field;
use crate::chain::lemma_grow;
use crate::chain::lemma_shrink;
use crate::chain::lemma_end_is_tail;
use crate::chain::lemma_snake_fits;
use crate::random::seeded_rng;

verus! {

/// How a tick ended.
#[derive(Copy, Clone, PartialEq, Eq, Structural, Debug)]
pub enum StepOutcome {
    /// The snake moved and the match goes on.
    Continued,
    /// The snake moved onto its own body.
    AteSnake,
    /// The snake moved off the board.
    CrashedWall,
    /// The command was not a cardinal step.
    Forfeit,
    /// The snake ate the last apple and fills the board.
    Won,
}

/// The state of a match.
pub struct Game {
    head: Coordinate,
    apple: Coordinate,
    field: Field,
    apples: u32,
    moves: u32,
    rng: StdRng,
}

impl Game {
    /// Where the snake's head is.
    pub closed spec fn spec_head(&self) -> Coordinate {
        self.head
    }

    /// Where the apple lies.
    pub closed spec fn spec_apple(&self) -> Coordinate {
        self.apple
    }

    /// The board.
    pub closed spec fn spec_field(&self) -> &Field {
        &self.field
    }

    /// How many apples the snake has eaten.
    pub closed spec fn spec_apples(&self) -> u32 {
        self.apples
    }

    /// How many ticks have passed.
    pub closed spec fn spec_moves(&self) -> u32 {
        self.moves
    }

    /// How many cells the snake has: one, and one more for each apple eaten.
    pub open spec fn length(&self) -> nat {
        (self.spec_apples() + 1) as nat
    }

    /// The board holds exactly the snake, headed at the head, and the number of
    /// its cells fits the apple counter.
    pub open spec fn inv(&self) -> bool {
        &&& self.spec_field().is_snake(self.spec_head(), self.length())
        &&& self.spec_field().dim().x * self.spec_field().dim().y <= u32::MAX
    }

    /// The match is under way: the snake is in order and the apple lies on a
    /// free cell of the board.
    pub open spec fn playable(&self) -> bool {
        &&& self.inv()
        &&& self.spec_field().contains(self.spec_apple())
        &&& self.spec_field().cell(self.spec_apple()) == Direction::Null
    }

    /// Whether the two states agree on head, apple, board and apple counter.
    pub open spec fn same_position(&self, other: &Game) -> bool {
        &&& self.spec_head() == other.spec_head()
        &&& self.spec_apple() == other.spec_apple()
        &&& self.spec_field() == other.spec_field()
        &&& self.spec_apples() == other.spec_apples()
    }

    /// Starts a match on a board of `width` columns and `height` rows with the
    /// generator seeded with 42: the head is drawn first, then the apple.
    pub fn init(width: usize, height: usize) -> (result: Game)
        requires
            width >= 2,
            height >= 2,
            width * height <= u32::MAX,
        ensures
            result.playable(),
            result.is_fresh(width, height),
    {
        Game::with_rng(width, height, seeded_rng(42))
    }

    /// Whether this is the state at the start of a match on a board of the
    /// given sizes: a snake of one cell, no apple eaten, no tick passed.
    pub open spec fn is_fresh(&self, width: usize, height: usize) -> bool {
        &&& self.spec_field().dim().x == width
        &&& self.spec_field().dim().y == height
        &&& self.spec_apples() == 0
        &&& self.spec_moves() == 0
        &&& self.spec_field().cell(self.spec_head()) == Direction::End
        &&& self.spec_apple() != self.spec_head()
    }

    /// Starts a match on a board of `width` columns and `height` rows, with
    /// head and apple drawn from `rng`, which the match keeps.
    pub fn with_rng(width: usize, height: usize, rng: StdRng) -> (result: Game)
        requires
            width >= 2,
            height >= 2,
            width * height <= u32::MAX,
        ensures
            result.playable(),
            result.is_fresh(width, height),
    {
        assert(width <= 0x7fff_ffff && height <= 0x7fff_ffff) by (nonlinear_arith)
            requires
                width >= 2,
                height >= 2,
                width * height <= 0xffff_ffff,
        ;
        let mut rng = rng;
        let field_dimension = Coordinate { x: width as isize, y: height as isize };
        let mut field = Field::init(field_dimension);
        let head = field_dimension.random(&mut rng);
        let ghost empty = field;
        field.set(head, Direction::End);
        proof {
            assert(field.walk(head, 0) == head);
            assert(empty.cell(head) == Direction::Null);
            assert forall|p: Coordinate|
                field.contains(p) && #[trigger] field.cell(p) != Direction::Null implies exists|
                i: nat,
            |
                i < 1 && field.walk(head, i) == p by {
                if p != head {
                    assert(empty.cell(p) == Direction::Null);
                }
            }
            let other = Coordinate {
                x: if head.x == 0 {
                    1isize
                } else {
                    0isize
                },
                y: head.y,
            };
            assert(empty.cell(other) == Direction::Null);
            assert(field.contains(other) && field.cell(other) == Direction::Null);
        }
        let apple = match field.random_available(&mut rng) {
            Some(apple) => apple,
            None => vstd::pervasive::unreached(),
        };
        Game { head, apple, field, apples: 0, moves: 0, rng }
    }

    /// Takes up a match in the given state.
    pub fn resume(
        field: Field,
        head: Coordinate,
        apple: Coordinate,
        apples: u32,
        moves: u32,
        rng: StdRng,
    ) -> (result: Game)
        requires
            field.is_snake(head, (apples + 1) as nat),
            field.dim().x * field.dim().y <= u32::MAX,
            field.contains(apple),
            field.cell(apple) == Direction::Null,
        ensures
            result.playable(),
            result.spec_head() == head,
            result.spec_apple() == apple,
            *result.spec_field() == field,
            result.spec_apples() == apples,
            result.spec_moves() == moves,
    {
        Game { head, apple, field, apples, moves, rng }
    }

    /// Moves the apple to a free cell picked with the match's generator.
    /// Returns `false`, and leaves the apple where it is, if and only if the
    /// board is full.
    pub fn new_apple(&mut self) -> (result: bool)
        requires
            old(self).inv(),
        ensures
            result == !old(self).spec_field().is_full(),
            result ==> final(self).spec_field().contains(final(self).spec_apple())
                && final(self).spec_field().cell(final(self).spec_apple()) == Direction::Null,
            !result ==> final(self).spec_apple() == old(self).spec_apple(),
            forall|q: Coordinate| #[trigger]
                old(self).spec_field().only_free_cell(q) ==> final(self).spec_apple() == q,
            final(self).spec_head() == old(self).spec_head(),
            final(self).spec_field() == old(self).spec_field(),
            final(self).spec_apples() == old(self).spec_apples(),
            final(self).spec_moves() == old(self).spec_moves(),
    {
        proof {
            assert(self.field.contains(self.field.walk(self.head, 0)));
        }
        let apple_opt = self.field.random_available(&mut self.rng);
        match apple_opt {
            Some(apple) => {
                self.apple = apple;
                true
            },
            None => false,
        }
    }

    /// Whether `self` and `outcome` are what one tick with the command
    /// `direction` makes of `before`, the tick counter aside.
    ///
    /// A command that is no cardinal step forfeits; a step off the board
    /// crashes; a step onto the snake's own last cell is legal, because that
    /// cell is vacated by the same move; a step onto any other body cell is
    /// fatal. In those three fatal cases nothing moves. A step onto the apple
    /// lengthens the snake by the new head, and the match is won if and only if
    /// the board is then full; otherwise the apple lies on a free cell again,
    /// on the last free cell if there is only one. Any other step shifts the
    /// snake by one cell.
    pub open spec fn follows(&self, before: &Game, direction: Direction, outcome: StepOutcome) -> bool {
        let c = before.spec_head().spec_move_towards(direction);
        let f = before.spec_field();
        let n = (before.length() - 1) as nat;
        if !direction.spec_valid() {
            outcome == StepOutcome::Forfeit && self.same_position(before)
        } else if !f.contains(c) {
            outcome == StepOutcome::CrashedWall && self.same_position(before)
        } else if f.cell(c).spec_valid() {
            outcome == StepOutcome::AteSnake && self.same_position(before)
        } else if f.cell(c) == Direction::Null && c == before.spec_apple() {
            &&& self.spec_head() == c
            &&& self.spec_apples() == before.spec_apples() + 1
            &&& self.spec_field().is_update_of(*f, c, direction.spec_invert())
            &&& outcome == if self.spec_field().is_full() {
                StepOutcome::Won
            } else {
                StepOutcome::Continued
            }
            &&& outcome == StepOutcome::Won ==> self.spec_apple() == before.spec_apple()
            &&& outcome == StepOutcome::Continued ==> self.spec_field().contains(self.spec_apple())
                && self.spec_field().cell(self.spec_apple()) == Direction::Null
            &&& forall|q: Coordinate| #[trigger]
                self.spec_field().only_free_cell(q) ==> self.spec_apple() == q
        } else {
            &&& outcome == StepOutcome::Continued
            &&& self.spec_head() == c
            &&& self.spec_apple() == before.spec_apple()
            &&& self.spec_apples() == before.spec_apples()
            &&& self.spec_field().is_shift_of(*f, before.spec_head(), n, c, direction)
        }
    }

    /// Plays one tick with the command `direction` and tells how it ended.
    pub fn propose_and_apply(&mut self, direction: Direction) -> (result: StepOutcome)
        requires
            old(self).playable(),
            old(self).spec_moves() < u32::MAX,
        ensures
            final(self).spec_moves() == old(self).spec_moves() + 1,
            final(self).follows(old(self), direction, result),
            final(self).inv(),
            result == StepOutcome::Continued ==> final(self).playable(),
    {
        let ghost before = self.field;
        let ghost old_head = self.head;
        let ghost len = self.length();
        let ghost n = (len - 1) as nat;
        proof {
            assert(before.contains(before.walk(old_head, 0)));
        }
        self.moves = self.moves + 1;
        if !direction.valid() {
            return StepOutcome::Forfeit;
        }
        let candidate = self.head.move_towards(direction);
        if !self.field.valid(candidate) {
            return StepOutcome::CrashedWall;
        }
        let back = direction.invert();
        proof {
            lemma_move_back(old_head, direction);
        }
        if self.field.get(candidate) == Direction::End {
            proof {
                lemma_end_is_tail(before, old_head, len, candidate);
                assert(len >= 2);
            }
            let _dropped = self.field.drop_last(self.head);
            let ghost dropped = self.field;
            proof {
                assert(before.ends_after(old_head, n));
                assert(dropped.is_tail_drop_of(before, old_head, n));
                lemma_shrink(before, dropped, old_head, len);
            }
            self.field.set(candidate, back);
            self.head = candidate;
            proof {
                lemma_grow(dropped, self.field, old_head, n, candidate, back);
                lemma_snake_fits(before, old_head, len);
                assert(before.contains(before.walk(old_head, (n - 1) as nat)));
            }
            return StepOutcome::Continued;
        }
        if !self.field.available(candidate) {
            return StepOutcome::AteSnake;
        }
        self.field.set(candidate, back);
        self.head = candidate;
        let ghost grown = self.field;
        proof {
            lemma_grow(before, grown, old_head, len, candidate, back);
            lemma_snake_fits(grown, candidate, len + 1);
        }
        if candidate == self.apple {
            self.apples = self.apples + 1;
            if !self.new_apple() {
                return StepOutcome::Won;
            }
        } else {
            let _dropped = self.field.drop_last(self.head);
            proof {
                assert(grown.ends_after(candidate, len));
                assert(self.field.is_tail_drop_of(grown, candidate, len));
                lemma_shrink(grown, self.field, candidate, len + 1);
                assert(grown.walk(candidate, n + 1) == before.walk(old_head, n));
                assert(before.contains(before.walk(old_head, n)));
                if n > 0 {
                    let k = (n - 1) as nat;
                    assert(grown.walk(candidate, k + 1) == before.walk(old_head, k));
                    assert(before.contains(before.walk(old_head, k)));
                    assert(before.cell(before.walk(old_head, k)).spec_valid());
                } else {
                    assert(grown.walk(candidate, 0) == candidate);
                }
                assert(before.cell(before.walk(old_head, n)) == Direction::End);
            }
        }
        StepOutcome::Continued
    }

    /// Plays one tick with the answer of a strategy: a step is applied, and
    /// `None` forfeits the match.
    pub fn apply_choice(&mut self, choice: Option<Direction>) -> (result: StepOutcome)
        requires
            old(self).playable(),
            old(self).spec_moves() < u32::MAX,
        ensures
            final(self).spec_moves() == old(self).spec_moves() + 1,
            choice matches Some(d) ==> final(self).follows(old(self), d, result),
            choice is None ==> result == StepOutcome::Forfeit && final(self).same_position(
                old(self),
            ),
            final(self).inv(),
            result == StepOutcome::Continued ==> final(self).playable(),
    {
        match choice {
            Some(direction) => self.propose_and_apply(direction),
            None => {
                self.moves = self.moves + 1;
                StepOutcome::Forfeit
            },
        }
    }

    /// The character that stands for the cell at `pos` on a drawn board: `#`
    /// for the head, `\u{f8}` for the apple, and for any other cell the symbol
    /// of the opposite of what it holds, so that the arrows of the body
    /// point from the tail towards the head.
    pub open spec fn spec_symbol_at(&self, pos: Coordinate) -> char {
        if pos == self.spec_head() {
            '#'
        } else if pos == self.spec_apple() {
            '\u{f8}'
        } else {
            self.spec_field().cell(pos).spec_invert().spec_symbol()
        }
    }

    /// Returns the character that stands for the cell at `pos` on a drawn
    /// board.
    pub fn symbol_at(&self, pos: Coordinate) -> (result: char)
        requires
            self.spec_field().wf(),
            self.spec_field().contains(pos),
        ensures
            result == self.spec_symbol_at(pos),
    {
        if pos == self.head {
            '#'
        } else if pos == self.apple {
            '\u{f8}'
        } else {
            self.field.get(pos).invert().symbol()
        }
    }

    /// The head of a snake in order lies on the board, on a cell that is not
    /// free.
    pub proof fn lemma_head_on_board(&self)
        requires
            self.inv(),
        ensures
            self.spec_field().contains(self.spec_head()),
            self.spec_field().cell(self.spec_head()) != Direction::Null,
    {
        let f = self.spec_field();
        assert(f.walk(self.spec_head(), 0) == self.spec_head());
        assert(f.contains(f.walk(self.spec_head(), 0)));
        if self.length() > 1 {
            assert(f.cell(f.walk(self.spec_head(), 0)).spec_valid());
        }
    }

    /// Returns where the snake's head is.
    #[verifier::when_used_as_spec(spec_head)]
    pub fn head(&self) -> (result: Coordinate)
        ensures
            result == self.spec_head(),
    {
        self.head
    }

    /// Returns where the apple lies.
    #[verifier::when_used_as_spec(spec_apple)]
    pub fn apple(&self) -> (result: Coordinate)
        ensures
            result == self.spec_apple(),
    {
        self.apple
    }

    /// Returns the board.
    #[verifier::when_used_as_spec(spec_field)]
    pub fn field(&self) -> (result: &Field)
        ensures
            *result == self.spec_field(),
    {
        &self.field
    }

    /// Returns how many apples the snake has eaten.
    #[verifier::when_used_as_spec(spec_apples)]
    pub fn apples(&self) -> (result: u32)
        ensures
            result == self.spec_apples(),
    {
        self.apples
    }

    /// Returns how many ticks have passed.
    #[verifier::when_used_as_spec(spec_moves)]
    pub fn moves(&self) -> (result: u32)
        ensures
            result == self.spec_moves(),
    {
        self.moves
    }
}

} // verus!
