//! The board as a text of 24 letters, and back.
use vstd::prelude::*;
use vstd::string::*;

use crate::game::efficient_state::{field_pos_at, EfficientPlayField};

verus! {

broadcast use crate::game::efficient_state::lemma_board_len;

/// Why a text is not a board.
#[derive(Debug, Clone, Copy, PartialEq, Eq, Structural)]
pub enum EncodingError {
    /// The text does not have 24 letters.
    Length,
    /// A letter is none of `E`, `W` and `B`.
    Character,
}

/// The letter for a cell code: `E` for the empty cell, `W` for white, `B` for black.
pub open spec fn letter_of(code: int) -> char {
    if code == 1 {
        'W'
    } else if code == 2 {
        'B'
    } else {
        'E'
    }
}

/// The cell code for a letter.
pub open spec fn code_of(letter: char) -> int {
    if letter == 'W' {
        1
    } else if letter == 'B' {
        2
    } else {
        0
    }
}

/// The letter stands for a cell.
pub open spec fn is_letter(letter: char) -> bool {
    letter == 'E' || letter == 'W' || letter == 'B'
}

/// The text stands for a board: 24 letters, each of them `E`, `W` or `B`.
pub open spec fn is_coded_board(text: Seq<char>) -> bool {
    text.len() == 24 && forall|t: int| 0 <= t < 24 ==> is_letter(#[trigger] text[t])
}

/// The text of a board's cells. The text runs from the outer ring's cell 7 down to
/// its cell 0, then through the middle ring and the inner ring in the same way: it
/// is the view read backwards.
pub open spec fn text_of(cells: Seq<int>) -> Seq<char> {
    Seq::new(24, |t: int| letter_of(cells[23 - t]))
}

/// The cells that a text stands for.
pub open spec fn cells_of(text: Seq<char>) -> Seq<int> {
    Seq::new(24, |i: int| code_of(text[23 - i]))
}

/// Decoding a text and encoding the cells again gives the text.
pub proof fn lemma_text_round_trip(text: Seq<char>)
    requires
        is_coded_board(text),
    ensures
        text_of(cells_of(text)) == text,
{
    assert forall|t: int| 0 <= t < 24 implies text_of(cells_of(text))[t] == text[t] by {
        assert(is_letter(text[t]));
    }
    assert(text_of(cells_of(text)) =~= text);
}

/// Encoding the cells of a board and decoding the text again gives the cells.
pub proof fn lemma_cells_round_trip(board: EfficientPlayField)
    requires
        board.wf(),
    ensures
        is_coded_board(text_of(board@)),
        cells_of(text_of(board@)) == board@,
{
    board.lemma_view();
    assert forall|i: int| 0 <= i < 24 implies cells_of(text_of(board@))[i] == board@[i] by {
        assert(board@[i] != 3);
    }
    assert(cells_of(text_of(board@)) =~= board@);
}

impl EfficientPlayField {
    /// The board that the text stands for, or why the text stands for none.
    pub fn decode_from_text(text: &str) -> (result: Result<EfficientPlayField, EncodingError>)
        ensures
            match result {
                Ok(board) => is_coded_board(text@) && board@ == cells_of(text@) && board.wf(),
                Err(EncodingError::Length) => text@.len() != 24,
                Err(EncodingError::Character) => text@.len() == 24 && !is_coded_board(text@),
            },
    {
        if text.unicode_len() != 24 {
            return Err(EncodingError::Length);
        }
        let mut board = EfficientPlayField::new();
        let mut t: usize = 0;
        while t < 24
            invariant
                t <= 24,
                text@.len() == 24,
                forall|k: int| 0 <= k < t ==> is_letter(#[trigger] text@[k]),
                forall|i: int|
                    0 <= i < 24 ==> #[trigger] board@[i] == if i > 23 - t {
                        code_of(text@[23 - i])
                    } else {
                        0
                    },
            decreases 24 - t,
        {
            let letter = text.get_char(t);
            let code: u16 = if letter == 'E' {
                0
            } else if letter == 'W' {
                1
            } else if letter == 'B' {
                2
            } else {
                return Err(EncodingError::Character);
            };
            board = board.put(field_pos_at(23 - t), code);
            t += 1;
        }
        proof {
            board.lemma_view();
            assert(board@ =~= cells_of(text@));
        }
        Ok(board)
    }

    /// The board that the text stands for.
    pub fn from_coded(coded: &str) -> (board: EfficientPlayField)
        requires
            is_coded_board(coded@),
        ensures
            board@ == cells_of(coded@),
            board.wf(),
    {
        match EfficientPlayField::decode_from_text(coded) {
            Ok(board) => board,
            Err(_) => EfficientPlayField::new(),
        }
    }

    /// The text of the board.
    pub fn to_string_representation(&self) -> (text: String)
        ensures
            text@ == text_of(self@),
            self.wf() ==> is_coded_board(text@),
    {
        let mut text = String::new();
        let mut t: usize = 0;
        proof {
            reveal_strlit("E");
            reveal_strlit("W");
            reveal_strlit("B");
        }
        while t < 24
            invariant
                t <= 24,
                text@.len() == t,
                forall|k: int| 0 <= k < t ==> #[trigger] text@[k] == letter_of(self@[23 - k]),
                "E"@ == seq!['E'],
                "W"@ == seq!['W'],
                "B"@ == seq!['B'],
            decreases 24 - t,
        {
            let code = self.get(field_pos_at(23 - t));
            if code == 1 {
                text.append("W");
            } else if code == 2 {
                text.append("B");
            } else {
                text.append("E");
            }
            t += 1;
        }
        proof {
            assert(text@ =~= text_of(self@));
        }
        text
    }
}

} // verus!
