//! The board of the interactive game: 24 named fields and the stones on them.
use vstd::prelude::*;

use crate::game::PlayerColor;
use crate::game::state::representation::{Field, FieldState, FIELD_COUNT};

pub mod mills;
pub mod representation;

verus! {

/// Why the state of a `PlayField` could not be read or changed.
#[derive(Debug, Clone, Copy, PartialEq, Eq)]
pub enum GameFieldStateError {
    FieldTranslationMappingError { erroneous_field: Field, message: &'static str },
    FieldSetError { player: PlayerColor, field: Field, field_state: FieldState, message: &'static str },
    InvalidMovementError { start: Field, target: Field, stone_count: u32, message: &'static str },
    InvalidProgramStateError { message: &'static str },
}

/// The board of the interactive game.
pub struct PlayField {
    pub state: [FieldState; 24],
    /// The number of white stones, then of black stones.
    pub amount_of_stones: (u32, u32),
}

/// The field state of a stone of `color`.
pub open spec fn stone_of(color: PlayerColor) -> FieldState {
    match color {
        PlayerColor::White => FieldState::White,
        PlayerColor::Black => FieldState::Black,
    }
}

/// The field state of a stone of `color`.
pub fn stone_state(color: PlayerColor) -> (state: FieldState)
    ensures
        state == stone_of(color),
{
    match color {
        PlayerColor::White => FieldState::White,
        PlayerColor::Black => FieldState::Black,
    }
}

/// How far two numbers are from each other.
pub open spec fn distance(a: int, b: int) -> int {
    if a >= b {
        a - b
    } else {
        b - a
    }
}

impl PlayField {
    /// The board with every field free.
    pub fn new() -> (field: PlayField)
        ensures
            forall|i: int| 0 <= i < 24 ==> field.state@[i] == FieldState::Free,
            field.amount_of_stones == (0u32, 0u32),
    {
        PlayField { state: [FieldState::Free; FIELD_COUNT], amount_of_stones: (0, 0) }
    }

    /// What `try_set` returns and leaves behind.
    pub open spec fn spec_try_set(self, pos: Field, color: PlayerColor) -> (
        PlayField,
        Result<(), GameFieldStateError>,
    ) {
        match self.spec_get_status_of(pos) {
            Err(error) => (self, Err(error)),
            Ok(FieldState::Free) => (
                PlayField {
                    state: vstd::array::spec_array_update(
                        self.state,
                        representation::spec_map_to_state_index(pos)->Ok_0 as int,
                        stone_of(color),
                    ),
                    ..self
                },
                Ok(()),
            ),
            Ok(current_state) => (
                self,
                Err(
                    GameFieldStateError::FieldSetError {
                        player: color,
                        field: pos,
                        field_state: current_state,
                        message: "Stone must be placed upon free field.",
                    },
                ),
            ),
        }
    }

    /// Puts a stone of `color` on the field `pos`, which must be a free field of
    /// the board; else the state is left as it was.
    pub fn try_set(&mut self, pos: Field, color: PlayerColor) -> (result: Result<
        (),
        GameFieldStateError,
    >)
        ensures
            (*final(self), result) == old(self).spec_try_set(pos, color),
    {
        let current_state = match self.get_status_of(pos) {
            Ok(state) => state,
            Err(error) => {
                return Err(error);
            },
        };
        if matches!(current_state, FieldState::Free) {
            let index_to_change = match self.map_to_state_index(pos) {
                Ok(index) => index,
                Err(error) => {
                    return Err(error);
                },
            };
            self.state[index_to_change] = stone_state(color);
            Ok(())
        } else {
            Err(
                GameFieldStateError::FieldSetError {
                    player: color,
                    field: pos,
                    field_state: current_state,
                    message: "Stone must be placed upon free field.",
                },
            )
        }
    }

    /// What `move_stone` returns and leaves behind.
    pub open spec fn spec_move_stone(
        self,
        start_pos: Field,
        target_pos: Field,
        color: PlayerColor,
        stone_count: u32,
    ) -> (PlayField, Result<(), GameFieldStateError>) {
        match self.spec_get_status_of(start_pos) {
            Err(error) => (self, Err(error)),
            Ok(start_status) => match self.spec_get_status_of(target_pos) {
                Err(error) => (self, Err(error)),
                Ok(target_status) => if start_status == stone_of(color) {
                    if target_status == FieldState::Free {
                        self.spec_swap(start_pos, target_pos)
                    } else {
                        (
                            self,
                            Err(
                                GameFieldStateError::InvalidMovementError {
                                    start: start_pos,
                                    target: target_pos,
                                    stone_count,
                                    message: "Target field is not free.",
                                },
                            ),
                        )
                    }
                } else {
                    (
                        self,
                        Err(
                            GameFieldStateError::InvalidMovementError {
                                start: start_pos,
                                target: target_pos,
                                stone_count,
                                message: if start_status == FieldState::Free {
                                    "Player tried to move a blank field."
                                } else {
                                    "Player tried to move stone in the opposite color."
                                },
                            },
                        ),
                    )
                },
            },
        }
    }

    /// Moves the stone of `color` on `start_pos` to the free field `target_pos`.
    /// Where the start holds no stone of `color`, or the target is not free, or one
    /// of them is no field of the board, the state is left as it was.
    pub fn move_stone(
        &mut self,
        start_pos: Field,
        target_pos: Field,
        color: PlayerColor,
        stone_count: u32,
    ) -> (result: Result<(), GameFieldStateError>)
        ensures
            (*final(self), result) == old(self).spec_move_stone(
                start_pos,
                target_pos,
                color,
                stone_count,
            ),
    {
        let start_status = match self.get_status_of(start_pos) {
            Ok(state) => state,
            Err(error) => {
                return Err(error);
            },
        };
        let target_status = match self.get_status_of(target_pos) {
            Ok(state) => state,
            Err(error) => {
                return Err(error);
            },
        };
        if (matches!(color, PlayerColor::White) && matches!(start_status, FieldState::White)) || (
        matches!(color, PlayerColor::Black) && matches!(start_status, FieldState::Black)) {
            if matches!(target_status, FieldState::Free) {
                self.swap(start_pos, target_pos)
            } else {
                Err(
                    GameFieldStateError::InvalidMovementError {
                        start: start_pos,
                        target: target_pos,
                        stone_count,
                        message: "Target field is not free.",
                    },
                )
            }
        } else {
            Err(
                GameFieldStateError::InvalidMovementError {
                    start: start_pos,
                    target: target_pos,
                    stone_count,
                    message: match start_status {
                        FieldState::Free => "Player tried to move a blank field.",
                        FieldState::White | FieldState::Black => "Player tried to move stone in the opposite color.",
                    },
                },
            )
        }
    }

    /// The number of stones that the board counts for `color`.
    pub open spec fn stones_of(self, color: PlayerColor) -> u32 {
        match color {
            PlayerColor::White => self.amount_of_stones.0,
            PlayerColor::Black => self.amount_of_stones.1,
        }
    }

    /// What `try_move` returns and leaves behind.
    pub open spec fn spec_try_move(self, start_pos: Field, target_pos: Field, color: PlayerColor) -> (
        PlayField,
        Result<(), GameFieldStateError>,
    ) {
        let count = self.stones_of(color);
        let same_column = start_pos.0 == target_pos.0;
        let same_row = start_pos.1 == target_pos.1;
        if 4 <= count && !same_column && !same_row {
            (
                self,
                Err(
                    GameFieldStateError::InvalidMovementError {
                        start: start_pos,
                        target: target_pos,
                        stone_count: count,
                        message: "The movement of a stone must occur horizontally or vertically.",
                    },
                ),
            )
        } else if same_column && same_row {
            (
                self,
                Err(
                    GameFieldStateError::InvalidMovementError {
                        start: start_pos,
                        target: target_pos,
                        stone_count: count,
                        message: "The stone can't stay on the same field after moving.",
                    },
                ),
            )
        } else if count == 3 {
            self.spec_move_stone(start_pos, target_pos, color, count)
        } else if same_column != same_row {
            if distance(start_pos.0 as u32 as int, target_pos.0 as u32 as int) >= 2 || distance(
                start_pos.1 as int,
                target_pos.1 as int,
            ) >= 2 {
                (
                    self,
                    Err(
                        GameFieldStateError::InvalidMovementError {
                            start: start_pos,
                            target: target_pos,
                            stone_count: count,
                            message: "Stone can't be moved two fields ahead.",
                        },
                    ),
                )
            } else {
                self.spec_move_stone(start_pos, target_pos, color, count)
            }
        } else {
            (
                self,
                Err(
                    GameFieldStateError::InvalidProgramStateError {
                        message: "State should never be reached in try_move method. Might be caused an stone count < 3",
                    },
                ),
            )
        }
    }

    /// Moves the stone of `color` on `start_pos` to `target_pos`, where the rules
    /// of moving allow it. With four stones or more the move stays in its column or
    /// its row; no move ends where it starts; with exactly three stones any move is
    /// a jump; any other move goes one field far, in its column or in its row. The
    /// first rule that is broken gives the error, and the state is then left as it
    /// was.
    pub fn try_move(&mut self, start_pos: Field, target_pos: Field, color: PlayerColor) -> (result:
        Result<(), GameFieldStateError>)
        ensures
            (*final(self), result) == old(self).spec_try_move(start_pos, target_pos, color),
    {
        let players_stone_count = match color {
            PlayerColor::White => self.amount_of_stones.0,
            PlayerColor::Black => self.amount_of_stones.1,
        };
        let same_column = start_pos.0 == target_pos.0;
        let same_row = start_pos.1 == target_pos.1;
        if 4 <= players_stone_count && !same_column && !same_row {
            Err(
                GameFieldStateError::InvalidMovementError {
                    start: start_pos,
                    target: target_pos,
                    stone_count: players_stone_count,
                    message: "The movement of a stone must occur horizontally or vertically.",
                },
            )
        } else if same_column && same_row {
            Err(
                GameFieldStateError::InvalidMovementError {
                    start: start_pos,
                    target: target_pos,
                    stone_count: players_stone_count,
                    message: "The stone can't stay on the same field after moving.",
                },
            )
        } else if players_stone_count == 3 {
            self.move_stone(start_pos, target_pos, color, players_stone_count)
        } else if same_column != same_row {
            let start_column = start_pos.0 as u32;
            let target_column = target_pos.0 as u32;
            let columns = if start_column >= target_column {
                start_column - target_column
            } else {
                target_column - start_column
            };
            let rows = if start_pos.1 >= target_pos.1 {
                start_pos.1 - target_pos.1
            } else {
                target_pos.1 - start_pos.1
            };
            if columns >= 2 || rows >= 2 {
                Err(
                    GameFieldStateError::InvalidMovementError {
                        start: start_pos,
                        target: target_pos,
                        stone_count: players_stone_count,
                        message: "Stone can't be moved two fields ahead.",
                    },
                )
            } else {
                self.move_stone(start_pos, target_pos, color, players_stone_count)
            }
        } else {
            Err(
                GameFieldStateError::InvalidProgramStateError {
                    message: "State should never be reached in try_move method. Might be caused an stone count < 3",
                },
            )
        }
    }
}

} // verus!
