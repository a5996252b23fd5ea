//! The course of a game: its phases, and whose turn a round is.
use vstd::prelude::*;

use crate::game::PlayerColor;

pub mod game_phases;

verus! {

/// The colour that moves in round `round`: White in the odd rounds, Black in the
/// even ones.
pub fn get_player_color(round: u32) -> (color: PlayerColor)
    ensures
        color == if round % 2 == 1 {
            PlayerColor::White
        } else {
            PlayerColor::Black
        },
{
    if round % 2 == 1 {
        PlayerColor::White
    } else {
        PlayerColor::Black
    }
}

/// The number of the player whose turn it is, 1 or 2: `turn` is `false` for the
/// first player.
pub fn which_players_turn(turn: bool) -> (player: u32)
    ensures
        player == if turn {
            2u32
        } else {
            1u32
        },
{
    if turn {
        2
    } else {
        1
    }
}

} // verus!
