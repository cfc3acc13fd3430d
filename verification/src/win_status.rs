//! The outcome a position reports: a win for one side, a draw, or an
//! unfinished game.

use vstd::prelude::*;
use crate::player::Player;

verus! {

#[derive(Clone, Copy, Debug, PartialEq, Eq, Structural)]
pub enum WinStatus {
    Win(Player),
    Draw,
    Continue,
}

impl WinStatus {
    pub fn is_draw(self) -> (r: bool)
        ensures
            r == (self == WinStatus::Draw),
    {
        match self {
            WinStatus::Draw => true,
            _ => false,
        }
    }

    pub fn is_win(self) -> (r: bool)
        ensures
            r == (self is Win),
    {
        match self {
            WinStatus::Win(_) => true,
            _ => false,
        }
    }

    pub fn is_end_game(self) -> (r: bool)
        ensures
            r == (self != WinStatus::Continue),
    {
        match self {
            WinStatus::Continue => false,
            _ => true,
        }
    }

    /// The winner, where there is one.
    pub fn get_win(self) -> (r: Option<Player>)
        ensures
            r == (match self {
                WinStatus::Win(player) => Some(player),
                _ => None::<Player>,
            }),
    {
        match self {
            WinStatus::Win(player) => Some(player),
            _ => None,
        }
    }
}

} // verus!
