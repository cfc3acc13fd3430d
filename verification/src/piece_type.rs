//! The two ranks a piece can hold.

use vstd::prelude::*;

verus! {

/// A man moves diagonally forward only; a king moves diagonally in all
/// four directions.
#[derive(Clone, Copy, Debug, PartialEq, Eq, Structural)]
pub enum PieceType {
    Man,
    King,
}

impl PieceType {
    pub fn is_man(self) -> (r: bool)
        ensures
            r == (self == PieceType::Man),
    {
        match self {
            PieceType::Man => true,
            PieceType::King => false,
        }
    }

    pub fn is_king(self) -> (r: bool)
        ensures
            r == (self == PieceType::King),
    {
        match self {
            PieceType::Man => false,
            PieceType::King => true,
        }
    }
}

} // verus!
