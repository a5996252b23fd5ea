//! The board representations and the rules of the game that work on them.
use vstd::prelude::*;

pub mod efficient_state;
pub mod logic;
pub mod state;

verus! {

/// One of the two sides. In a ring word White is the code `0b01`, Black `0b10`.
#[derive(Debug, Clone, Copy, PartialEq, Eq, Structural)]
pub enum PlayerColor {
    White,
    Black,
}

impl PlayerColor {
    /// The two-bit code of a stone of this colour.
    pub open spec fn code(self) -> int {
        match self {
            PlayerColor::White => 1,
            PlayerColor::Black => 2,
        }
    }

    /// The other side.
    pub open spec fn other(self) -> PlayerColor {
        match self {
            PlayerColor::White => PlayerColor::Black,
            PlayerColor::Black => PlayerColor::White,
        }
    }

    /// The two-bit code of a stone of this colour.
    pub fn to_code(self) -> (code: u16)
        ensures
            code == self.code(),
    {
        match self {
            PlayerColor::White => 1,
            PlayerColor::Black => 2,
        }
    }

    /// The other side.
    pub fn opponent(self) -> (other: PlayerColor)
        ensures
            other == self.other(),
    {
        match self {
            PlayerColor::White => PlayerColor::Black,
            PlayerColor::Black => PlayerColor::White,
        }
    }
}

} // verus!
