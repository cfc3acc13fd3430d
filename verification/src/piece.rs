//! A piece: a side together with a rank.

use vstd::prelude::*;
use crate::piece_type::PieceType;
use crate::player::Player;

verus! {

#[derive(Clone, Copy, Debug, PartialEq, Eq, Structural)]
pub struct Piece {
    pub player: Player,
    pub piece_type: PieceType,
}

impl Piece {
    pub fn from(player: Player, piece_type: PieceType) -> (r: Piece)
        ensures
            r == (Piece { player, piece_type }),
    {
        Piece { player, piece_type }
    }

    pub fn get_player(self) -> (r: Player)
        ensures
            r == self.player,
    {
        self.player
    }

    pub fn get_piece_type(self) -> (r: PieceType)
        ensures
            r == self.piece_type,
    {
        self.piece_type
    }

    pub fn is_white(self) -> (r: bool)
        ensures
            r == (self.player == Player::White),
    {
        self.player.is_white()
    }

    pub fn is_black(self) -> (r: bool)
        ensures
            r == (self.player == Player::Black),
    {
        self.player.is_black()
    }

    pub fn is_man(self) -> (r: bool)
        ensures
            r == (self.piece_type == PieceType::Man),
    {
        self.piece_type.is_man()
    }

    pub fn is_king(self) -> (r: bool)
        ensures
            r == (self.piece_type == PieceType::King),
    {
        self.piece_type.is_king()
    }

    /// A dense code for a piece, usable as an index into per-piece counters.
    pub fn hash(self) -> (r: usize)
        ensures
            r == self.spec_hash(),
            r <= 3,
    {
        match (self.player, self.piece_type) {
            (Player::White, PieceType::Man) => 0,
            (Player::White, PieceType::King) => 1,
            (Player::Black, PieceType::Man) => 2,
            (Player::Black, PieceType::King) => 3,
        }
    }

    pub open spec fn spec_hash(self) -> usize {
        match (self.player, self.piece_type) {
            (Player::White, PieceType::Man) => 0usize,
            (Player::White, PieceType::King) => 1usize,
            (Player::Black, PieceType::Man) => 2usize,
            (Player::Black, PieceType::King) => 3usize,
        }
    }

    /// Inverse of `hash` on the codes 0 through 3.
    pub fn unhash(hash: usize) -> (r: Piece)
        requires
            hash <= 3,
        ensures
            r.spec_hash() == hash,
    {
        match hash {
            0 => Piece { player: Player::White, piece_type: PieceType::Man },
            1 => Piece { player: Player::White, piece_type: PieceType::King },
            2 => Piece { player: Player::Black, piece_type: PieceType::Man },
            _ => Piece { player: Player::Black, piece_type: PieceType::King },
        }
    }

    /// The glyph used when drawing a board on a dark terminal, where the
    /// colours read inverted.
    pub fn emoji(self) -> (r: char)
        ensures
            r == (match (self.player, self.piece_type) {
                (Player::White, PieceType::King) => '\u{26C3}',
                (Player::White, PieceType::Man) => '\u{26C2}',
                (Player::Black, PieceType::King) => '\u{26C1}',
                (Player::Black, PieceType::Man) => '\u{26C0}',
            }),
    {
        match (self.player, self.piece_type) {
            (Player::White, PieceType::King) => '\u{26C3}',
            (Player::White, PieceType::Man) => '\u{26C2}',
            (Player::Black, PieceType::King) => '\u{26C1}',
            (Player::Black, PieceType::Man) => '\u{26C0}',
        }
    }
}

} // verus!
