//! How the fields of the board, named by column and row, lie in the state of a
//! `PlayField`.
use vstd::prelude::*;

use crate::game::state::{GameFieldStateError, PlayField};

verus! {

/// A field of the board: its column, `A` to `G`, and its row, 1 to 7.
pub type Field = (char, u16);

/// What a field holds.
#[derive(Debug, Clone, Copy, PartialEq, Eq, Structural)]
pub enum FieldState {
    Free,
    White,
    Black,
}

/// The number of fields.
pub const FIELD_COUNT: usize = 24;

/// The fields in the order of the state: row by row from row 1, each row from
/// column `A`.
pub open spec fn field_lut() -> Seq<Field> {
    seq![
        ('A', 1u16),
        ('D', 1u16),
        ('G', 1u16),
        ('B', 2u16),
        ('D', 2u16),
        ('F', 2u16),
        ('C', 3u16),
        ('D', 3u16),
        ('E', 3u16),
        ('A', 4u16),
        ('B', 4u16),
        ('C', 4u16),
        ('E', 4u16),
        ('F', 4u16),
        ('G', 4u16),
        ('C', 5u16),
        ('D', 5u16),
        ('E', 5u16),
        ('B', 6u16),
        ('D', 6u16),
        ('F', 6u16),
        ('A', 7u16),
        ('D', 7u16),
        ('G', 7u16),
    ]
}

/// The first character of the uppercase form of `c`, as `char::to_uppercase`
/// gives it, or `None` where that form is empty.
pub uninterp spec fn first_upper(c: char) -> Option<char>;

/// Calls `char::to_uppercase` and takes the first character of what it yields.
/// The result depends on `c` alone.
#[verifier::external_body]
fn to_upper(c: char) -> (upper: Option<char>)
    ensures
        upper == first_upper(c),
{
    c.to_uppercase().next()
}

/// The field at place `index` of the state.
pub fn field_at(index: usize) -> (field: Field)
    requires
        index < FIELD_COUNT,
    ensures
        field == field_lut()[index as int],
{
    match index {
        0 => ('A', 1),
        1 => ('D', 1),
        2 => ('G', 1),
        3 => ('B', 2),
        4 => ('D', 2),
        5 => ('F', 2),
        6 => ('C', 3),
        7 => ('D', 3),
        8 => ('E', 3),
        9 => ('A', 4),
        10 => ('B', 4),
        11 => ('C', 4),
        12 => ('E', 4),
        13 => ('F', 4),
        14 => ('G', 4),
        15 => ('C', 5),
        16 => ('D', 5),
        17 => ('E', 5),
        18 => ('B', 6),
        19 => ('D', 6),
        20 => ('F', 6),
        21 => ('A', 7),
        22 => ('D', 7),
        _ => ('G', 7),
    }
}

/// The place of `pos` in the state, if it is a field of the board.
pub open spec fn index_of(pos: Field) -> Option<int> {
    if exists|i: int| 0 <= i < 24 && field_lut()[i] == pos {
        Some(choose|i: int| 0 <= i < 24 && field_lut()[i] == pos)
    } else {
        None
    }
}

/// What `state_index_of` returns for `pos`.
pub open spec fn spec_state_index_of(pos: Field) -> Result<usize, GameFieldStateError> {
    match index_of(pos) {
        Some(i) => Ok(i as usize),
        None => Err(
            GameFieldStateError::FieldTranslationMappingError {
                erroneous_field: pos,
                message: "Specified field is no valid game field.",
            },
        ),
    }
}

/// What `map_to_state_index` returns for `pos`.
pub open spec fn spec_map_to_state_index(pos: Field) -> Result<usize, GameFieldStateError> {
    match first_upper(pos.0) {
        Some(upper) => spec_state_index_of((upper, pos.1)),
        None => Err(
            GameFieldStateError::FieldTranslationMappingError {
                erroneous_field: pos,
                message: "Specified position character is out of field sizes bounds.",
            },
        ),
    }
}

/// No field stands twice in the order of the state.
pub proof fn lemma_fields_differ()
    ensures
        forall|i: int, j: int|
            0 <= i < 24 && 0 <= j < 24 && i != j ==> #[trigger] field_lut()[i] != #[trigger] field_lut()[j],
        field_lut().len() == 24,
{
}

/// The place of `pos` in the state, where its column is written in upper case: the
/// place in `field_lut`, or an error where `pos` is no field of the board.
pub fn state_index_of(pos: Field) -> (result: Result<usize, GameFieldStateError>)
    ensures
        result == spec_state_index_of(pos),
        result matches Ok(i) ==> i < 24 && field_lut()[i as int] == pos,
{
    let mut index: usize = 0;
    while index < FIELD_COUNT
        invariant
            index <= 24,
            forall|i: int| 0 <= i < index ==> field_lut()[i] != pos,
        decreases 24 - index,
    {
        let field = field_at(index);
        if field.0 == pos.0 && field.1 == pos.1 {
            proof {
                lemma_fields_differ();
                let found = choose|i: int| 0 <= i < 24 && field_lut()[i] == pos;
                assert(found == index);
            }
            return Ok(index);
        }
        index += 1;
    }
    Err(
        GameFieldStateError::FieldTranslationMappingError {
            erroneous_field: pos,
            message: "Specified field is no valid game field.",
        },
    )
}

impl PlayField {
    /// The place of `pos` in the state. The column may be written in lower case.
    pub fn map_to_state_index(&self, pos: Field) -> (result: Result<usize, GameFieldStateError>)
        ensures
            result == spec_map_to_state_index(pos),
            result matches Ok(i) ==> i < 24,
    {
        match to_upper(pos.0) {
            Some(upper) => state_index_of((upper, pos.1)),
            None => Err(
                GameFieldStateError::FieldTranslationMappingError {
                    erroneous_field: pos,
                    message: "Specified position character is out of field sizes bounds.",
                },
            ),
        }
    }

    /// What `get_status_of` returns for `pos`.
    pub open spec fn spec_get_status_of(self, pos: Field) -> Result<FieldState, GameFieldStateError> {
        match spec_map_to_state_index(pos) {
            Ok(i) => Ok(self.state@[i as int]),
            Err(error) => Err(error),
        }
    }

    /// What the field `pos` holds.
    pub fn get_status_of(&self, pos: Field) -> (result: Result<FieldState, GameFieldStateError>)
        ensures
            result == self.spec_get_status_of(pos),
    {
        match self.map_to_state_index(pos) {
            Ok(index) => Ok(self.state[index]),
            Err(error) => Err(error),
        }
    }

    /// What `swap` returns and leaves behind.
    pub open spec fn spec_swap(self, start_pos: Field, target_pos: Field) -> (
        PlayField,
        Result<(), GameFieldStateError>,
    ) {
        match spec_map_to_state_index(start_pos) {
            Err(error) => (self, Err(error)),
            Ok(start) => match spec_map_to_state_index(target_pos) {
                Err(error) => (self, Err(error)),
                Ok(target) => (
                    PlayField {
                        state: vstd::array::spec_array_update(
                            vstd::array::spec_array_update(
                                self.state,
                                target as int,
                                self.state@[start as int],
                            ),
                            start as int,
                            FieldState::Free,
                        ),
                        ..self
                    },
                    Ok(()),
                ),
            },
        }
    }

    /// Puts what `start_pos` holds on `target_pos` and frees `start_pos`. Where one
    /// of them is no field of the board, the state is left as it was.
    pub fn swap(&mut self, start_pos: Field, target_pos: Field) -> (result: Result<
        (),
        GameFieldStateError,
    >)
        ensures
            (*final(self), result) == old(self).spec_swap(start_pos, target_pos),
    {
        let start_index = match self.map_to_state_index(start_pos) {
            Ok(index) => index,
            Err(error) => {
                return Err(error);
            },
        };
        let target_index = match self.map_to_state_index(target_pos) {
            Ok(index) => index,
            Err(error) => {
                return Err(error);
            },
        };
        let moved = self.state[start_index];
        self.state[target_index] = moved;
        self.state[start_index] = FieldState::Free;
        Ok(())
    }
}

} // verus!
