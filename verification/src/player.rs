//! The two sides of a game of draughts.

use vstd::prelude::*;

verus! {

/// A side: White moves up the board (towards row 7), Black moves down
/// (towards row 0).
#[derive(Clone, Copy, Debug, PartialEq, Eq, Structural)]
pub enum Player {
    White,
    Black,
}

impl Player {
    pub fn is_white(self) -> (r: bool)
        ensures
            r == (self == Player::White),
    {
        match self {
            Player::White => true,
            Player::Black => false,
        }
    }

    pub fn is_black(self) -> (r: bool)
        ensures
            r == (self == Player::Black),
    {
        match self {
            Player::White => false,
            Player::Black => true,
        }
    }

    /// The opponent of this player.
    pub fn other(self) -> (r: Player)
        ensures
            r == self.spec_other(),
    {
        match self {
            Player::White => Player::Black,
            Player::Black => Player::White,
        }
    }

    pub open spec fn spec_other(self) -> Player {
        match self {
            Player::White => Player::Black,
            Player::Black => Player::White,
        }
    }
}

} // verus!
