//! The phases of a game.
use vstd::prelude::*;

verus! {

/// Where a game stands.
#[derive(Debug, Clone, Copy, PartialEq, Eq, Structural)]
pub enum GamePhase {
    Start,
    SetStones,
    MoveAndJump,
    Terminated,
}

} // verus!
