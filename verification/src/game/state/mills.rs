//! The mills of the interactive board, and the taking of a stone.
use vstd::prelude::*;

use crate::game::PlayerColor;
use crate::game::state::{stone_of, PlayField};
use crate::game::state::representation::{
    field_at, field_lut, spec_map_to_state_index, Field, FieldState,
};

verus! {

/// The sixteen lines of the board, each by the places of its three fields in the
/// state: the eight rows from row 1 up, then the eight columns from column `A` on.
pub open spec fn mill_lines() -> Seq<(usize, usize, usize)> {
    seq![
        (0usize, 1usize, 2usize),
        (3usize, 4usize, 5usize),
        (6usize, 7usize, 8usize),
        (9usize, 10usize, 11usize),
        (12usize, 13usize, 14usize),
        (15usize, 16usize, 17usize),
        (18usize, 19usize, 20usize),
        (21usize, 22usize, 23usize),
        (0usize, 9usize, 21usize),
        (3usize, 10usize, 18usize),
        (6usize, 11usize, 15usize),
        (1usize, 4usize, 7usize),
        (16usize, 19usize, 22usize),
        (8usize, 12usize, 17usize),
        (5usize, 13usize, 20usize),
        (2usize, 14usize, 23usize),
    ]
}

/// The line number `line`.
pub fn mill_line(line: usize) -> (fields: (usize, usize, usize))
    requires
        line < 16,
    ensures
        fields == mill_lines()[line as int],
        fields.0 < 24 && fields.1 < 24 && fields.2 < 24,
{
    match line {
        0 => (0, 1, 2),
        1 => (3, 4, 5),
        2 => (6, 7, 8),
        3 => (9, 10, 11),
        4 => (12, 13, 14),
        5 => (15, 16, 17),
        6 => (18, 19, 20),
        7 => (21, 22, 23),
        8 => (0, 9, 21),
        9 => (3, 10, 18),
        10 => (6, 11, 15),
        11 => (1, 4, 7),
        12 => (16, 19, 22),
        13 => (8, 12, 17),
        14 => (5, 13, 20),
        _ => (2, 14, 23),
    }
}

/// What a stone of the other colour than `color` looks like on a field.
pub open spec fn stone_against(color: PlayerColor) -> FieldState {
    stone_of(color.other())
}

impl PlayField {
    /// The line number `line` runs through the field at place `index` and holds
    /// three stones of one colour.
    pub open spec fn is_mill_through(self, line: int, index: int) -> bool {
        let fields = mill_lines()[line];
        &&& fields.0 == index || fields.1 == index || fields.2 == index
        &&& self.state@[fields.0 as int] != FieldState::Free
        &&& self.state@[fields.0 as int] == self.state@[fields.1 as int]
        &&& self.state@[fields.1 as int] == self.state@[fields.2 as int]
    }

    /// The fields of the mills through the field at place `index`, among the first
    /// `n` lines: three fields for each mill, in the order of the lines.
    pub open spec fn mill_fields_upto(self, index: int, n: int) -> Seq<Field>
        decreases n,
    {
        if n <= 0 {
            Seq::empty()
        } else {
            let before = self.mill_fields_upto(index, n - 1);
            if self.is_mill_through(n - 1, index) {
                let fields = mill_lines()[n - 1];
                before.push(field_lut()[fields.0 as int]).push(field_lut()[fields.1 as int]).push(
                    field_lut()[fields.2 as int],
                )
            } else {
                before
            }
        }
    }

    /// What `get_mill_crossing` returns for `pos`.
    pub open spec fn spec_get_mill_crossing(self, pos: Field) -> Seq<Field> {
        match spec_map_to_state_index(pos) {
            Ok(index) => self.mill_fields_upto(index as int, 16),
            Err(_) => Seq::empty(),
        }
    }

    /// The fields of the mills that run through the field `pos`: none, the three
    /// fields of one mill, or the six fields of two. No field of the board, no
    /// mill.
    pub fn get_mill_crossing(&self, pos: Field) -> (mills: Vec<Field>)
        ensures
            mills@ == self.spec_get_mill_crossing(pos),
            mills.len() <= 48,
    {
        let mut mills: Vec<Field> = Vec::new();
        let index = match self.map_to_state_index(pos) {
            Ok(index) => index,
            Err(_) => {
                return mills;
            },
        };
        let mut line: usize = 0;
        while line < 16
            invariant
                line <= 16,
                index < 24,
                mills@ == self.mill_fields_upto(index as int, line as int),
                mills.len() <= 3 * line,
            decreases 16 - line,
        {
            let (first, second, third) = mill_line(line);
            if first == index || second == index || third == index {
                let stone = self.state[first];
                if !matches!(stone, FieldState::Free) && stone == self.state[second] && stone
                    == self.state[third] {
                    mills.push(field_at(first));
                    mills.push(field_at(second));
                    mills.push(field_at(third));
                }
            }
            line += 1;
        }
        mills
    }

    /// What `try_take` returns and leaves behind.
    pub open spec fn spec_try_take(self, pos: Field, color: PlayerColor) -> (
        PlayField,
        Result<(), &'static str>,
    ) {
        match spec_map_to_state_index(pos) {
            Err(_) => (self, Err("Specified field is no valid game field.")),
            Ok(index) => if self.state@[index as int] == stone_against(color) {
                (
                    PlayField {
                        state: vstd::array::spec_array_update(
                            self.state,
                            index as int,
                            FieldState::Free,
                        ),
                        ..self
                    },
                    Ok(()),
                )
            } else if self.state@[index as int] == FieldState::Free {
                (self, Err("There is no stone on this field."))
            } else {
                (self, Err("A player can't take an own stone."))
            },
        }
    }

    /// Takes the stone on `pos` for `color`: the field must hold a stone of the
    /// other colour, and is free afterwards. Else the state is left as it was.
    pub fn try_take(&mut self, pos: Field, color: PlayerColor) -> (result: Result<(), &'static str>)
        ensures
            (*final(self), result) == old(self).spec_try_take(pos, color),
    {
        let index = match self.map_to_state_index(pos) {
            Ok(index) => index,
            Err(_) => {
                return Err("Specified field is no valid game field.");
            },
        };
        let stone = self.state[index];
        let wanted = match color {
            PlayerColor::White => FieldState::Black,
            PlayerColor::Black => FieldState::White,
        };
        if stone == wanted {
            self.state[index] = FieldState::Free;
            Ok(())
        } else if matches!(stone, FieldState::Free) {
            Err("There is no stone on this field.")
        } else {
            Err("A player can't take an own stone.")
        }
    }
}

} // verus!
