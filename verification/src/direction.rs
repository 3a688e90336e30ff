//! The six values a grid cell or a move command can take.

use vstd::prelude::*;
use rand::rngs::StdRng;
use crate::random::draw_u32;

verus! {

/// A cardinal step, the end-of-chain marker, or the empty value.
///
/// `Up` decreases `y` and `Down` increases it; `End` and `Null` do not move.
#[derive(Copy, Clone, PartialEq, Eq, Structural, Debug)]
pub enum Direction {
    Left,
    Right,
    Up,
    Down,
    /// Marks the last cell of a chain.
    End,
    /// Marks free space.
    Null,
}

impl Direction {
    /// The opposite step; the two markers are their own opposites.
    pub open spec fn spec_invert(self) -> Direction {
        match self {
            Direction::Left => Direction::Right,
            Direction::Right => Direction::Left,
            Direction::Up => Direction::Down,
            Direction::Down => Direction::Up,
            Direction::End => Direction::End,
            Direction::Null => Direction::Null,
        }
    }

    /// Whether this is one of the four cardinal steps.
    pub open spec fn spec_valid(self) -> bool {
        self != Direction::End && self != Direction::Null
    }

    /// Horizontal component of the unit vector of this value.
    pub open spec fn dx(self) -> int {
        match self {
            Direction::Left => -1,
            Direction::Right => 1,
            _ => 0,
        }
    }

    /// Vertical component of the unit vector of this value.
    pub open spec fn dy(self) -> int {
        match self {
            Direction::Up => -1,
            Direction::Down => 1,
            _ => 0,
        }
    }

    /// The cardinal step numbered `index`: left, right, up, down.
    pub open spec fn spec_from_index(index: int) -> Direction {
        if index == 0 {
            Direction::Left
        } else if index == 1 {
            Direction::Right
        } else if index == 2 {
            Direction::Up
        } else {
            Direction::Down
        }
    }

    /// Returns the opposite step.
    pub fn invert(&self) -> (result: Direction)
        ensures
            result == self.spec_invert(),
    {
        match self {
            Direction::Left => Direction::Right,
            Direction::Right => Direction::Left,
            Direction::Up => Direction::Down,
            Direction::Down => Direction::Up,
            Direction::End => Direction::End,
            Direction::Null => Direction::Null,
        }
    }

    /// Tells whether this is a cardinal step, that is, a legal move command.
    pub fn valid(&self) -> (result: bool)
        ensures
            result == self.spec_valid(),
    {
        match self {
            Direction::End => false,
            Direction::Null => false,
            _ => true,
        }
    }

    /// Maps a raw number onto a cardinal step by its remainder modulo four.
    pub fn from_index(raw: u32) -> (result: Direction)
        ensures
            result == Self::spec_from_index(raw as int % 4),
            result.spec_valid(),
    {
        let k: u32 = raw % 4;
        if k == 0 {
            Direction::Left
        } else if k == 1 {
            Direction::Right
        } else if k == 2 {
            Direction::Up
        } else {
            Direction::Down
        }
    }

    /// Draws one of the four cardinal steps from `rng`.
    pub fn random(rng: &mut StdRng) -> (result: Direction)
        ensures
            result.spec_valid(),
    {
        let raw: u32 = draw_u32(rng);
        Direction::from_index(raw)
    }

    /// The character that stands for this value on a drawn board.
    pub open spec fn spec_symbol(self) -> char {
        match self {
            Direction::Left => '\u{1F878}',
            Direction::Right => '\u{1F87A}',
            Direction::Up => '\u{1F879}',
            Direction::Down => '\u{1F87B}',
            Direction::End => '\u{2022}',
            Direction::Null => ' ',
        }
    }

    /// Returns the character that stands for this value on a drawn board.
    pub fn symbol(&self) -> (result: char)
        ensures
            result == self.spec_symbol(),
    {
        match self {
            Direction::Left => '\u{1F878}',
            Direction::Right => '\u{1F87A}',
            Direction::Up => '\u{1F879}',
            Direction::Down => '\u{1F87B}',
            Direction::End => '\u{2022}',
            Direction::Null => ' ',
        }
    }
}

/// Inverting twice gives the value back, and inverting keeps the kind of a
/// value: a cardinal step stays one, a marker stays the same marker.
pub proof fn lemma_invert_involution(d: Direction)
    ensures
        d.spec_invert().spec_invert() == d,
        d.spec_invert().spec_valid() == d.spec_valid(),
        d.spec_invert().dx() == -d.dx(),
        d.spec_invert().dy() == -d.dy(),
{
}

} // verus!
