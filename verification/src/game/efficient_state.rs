//! The compact board: three 16-bit ring words of eight two-bit cells each.
use vstd::prelude::*;

use crate::game::efficient_state::bits::{
    lemma_slot_of_with_slot, lemma_slot_of_zero, lemma_slots_fix_word, slot, with_slot,
};

pub mod bits;
pub mod mills;
pub mod rules;
pub mod simulations;
pub mod move_simulations;
pub mod backward;
pub mod de_encode;
pub mod field_list;
pub mod field_set;
pub mod start_set_generation;
pub mod win_decider;
pub mod disjoint;
pub mod equivariance;
pub mod inversion;
pub mod enclosure;
pub mod processing;
pub mod move_triple;
pub mod symmetry;

verus! {

/// The code of an empty cell.
pub const EMPTY: u16 = 0;

/// The code of a cell that holds a white stone.
pub const WHITE: u16 = 1;

/// The code of a cell that holds a black stone.
pub const BLACK: u16 = 2;

/// A cell of the board: its ring (0 inner, 1 middle, 2 outer) and its position on
/// that ring (0 to 7, clockwise from the top middle).
#[derive(Debug, Clone, Copy, PartialEq, Eq, Structural, Hash)]
pub struct FieldPos {
    pub ring_index: usize,
    pub field_index: u32,
}

impl FieldPos {
    /// The cell lies on the board.
    pub open spec fn valid(self) -> bool {
        self.ring_index < 3 && self.field_index < 8
    }

    /// The place of the cell in the board's view.
    pub open spec fn index(self) -> int {
        self.ring_index * 8 + self.field_index
    }
}

/// The cell that stands at place `index` of a board's view.
pub open spec fn pos_at(index: int) -> FieldPos {
    FieldPos { ring_index: (index / 8) as usize, field_index: (index % 8) as u32 }
}

/// The cell that stands at place `index` of a board's view.
pub fn field_pos_at(index: usize) -> (pos: FieldPos)
    requires
        index < 24,
    ensures
        pos == pos_at(index as int),
        pos.valid(),
        pos.index() == index,
{
    FieldPos { ring_index: index / 8, field_index: (index % 8) as u32 }
}

/// The view of a board has 24 entries.
pub broadcast proof fn lemma_board_len(board: EfficientPlayField)
    ensures
        #[trigger] board@.len() == 24,
{
    board.lemma_view();
}

/// A board of 24 cells in three ring words. Each cell takes two bits of its ring's
/// word, cell 0 the lowest two; the code `0b11` stands for nothing.
#[derive(Debug, Clone, Copy, PartialEq, Eq, Structural, Hash, PartialOrd, Ord)]
pub struct EfficientPlayField {
    pub inner: u16,
    pub middle: u16,
    pub outer: u16,
}

/// Why a cell could not be written.
#[derive(Debug, Clone, Copy, PartialEq, Eq, Structural)]
pub enum FieldError {
    /// The ring index is 3 or more, or the position is 8 or more.
    Index,
    /// The new code is none of empty, white and black.
    State,
    /// A stone was put on a stone, or an empty cell was emptied.
    Occupancy,
}

impl View for EfficientPlayField {
    type V = Seq<int>;

    /// The 24 cell codes: first the inner ring's cells 0 to 7, then the middle
    /// ring's, then the outer ring's.
    open spec fn view(&self) -> Seq<int> {
        self.cells()
    }
}

impl EfficientPlayField {
    /// The 24 cell codes, each read from its two bits of its ring's word.
    #[verifier::opaque]
    pub open spec fn cells(self) -> Seq<int> {
        Seq::new(24, |i: int| slot(self.word(i / 8), (i % 8) as u16) as int)
    }

    /// The word of ring `ring`.
    pub open spec fn word(self, ring: int) -> u16 {
        if ring == 0 {
            self.inner
        } else if ring == 1 {
            self.middle
        } else {
            self.outer
        }
    }

    /// The code in the cell `pos`.
    pub open spec fn code_at(self, pos: FieldPos) -> int {
        self@[pos.index()]
    }

    /// The code in the cell at `ring` and `pos`.
    pub open spec fn cell(self, ring: int, pos: int) -> int {
        self@[ring * 8 + pos]
    }

    /// No cell holds the code `0b11`.
    pub open spec fn wf(self) -> bool {
        forall|i: int| 0 <= i < 24 ==> #[trigger] self@[i] != 3
    }

    /// The board of the same words but for ring `ring`, which is `w`.
    pub open spec fn with_word(self, ring: int, w: u16) -> EfficientPlayField {
        if ring == 0 {
            EfficientPlayField { inner: w, ..self }
        } else if ring == 1 {
            EfficientPlayField { middle: w, ..self }
        } else {
            EfficientPlayField { outer: w, ..self }
        }
    }

    /// The board with the cell at `pos` replaced by `code`.
    pub open spec fn with_cell(self, pos: FieldPos, code: int) -> EfficientPlayField {
        self.with_word(
            pos.ring_index as int,
            with_slot(self.word(pos.ring_index as int), pos.field_index as u16, code as u16),
        )
    }

    /// How many cells hold `code`, among the first `n` of the view.
    pub open spec fn count_upto(self, code: int, n: int) -> int
        decreases n,
    {
        if n <= 0 {
            0
        } else {
            self.count_upto(code, n - 1) + if self@[n - 1] == code {
                1int
            } else {
                0int
            }
        }
    }

    /// How many cells hold `code`.
    pub open spec fn count(self, code: int) -> int {
        self.count_upto(code, 24)
    }

    /// The board's place in the order of boards: its three words read as one
    /// number, the inner ring's word first.
    pub open spec fn key(self) -> int {
        self.inner * 0x1_0000_0000 + self.middle * 0x1_0000 + self.outer
    }

    /// No more than 24 cells hold a stone.
    pub proof fn lemma_count_upto_total(self, n: int)
        requires
            0 <= n <= 24,
        ensures
            0 <= self.count_upto(1, n),
            0 <= self.count_upto(2, n),
            self.count_upto(1, n) + self.count_upto(2, n) <= n,
        decreases n,
    {
        if n > 0 {
            self.lemma_count_upto_total(n - 1);
        }
    }

    /// White and black stones together are no more than 24.
    pub proof fn lemma_count_total(self)
        ensures
            0 <= self.count(1),
            0 <= self.count(2),
            self.count(1) + self.count(2) <= 24,
    {
        self.lemma_count_upto_total(24);
    }

    /// The view has 24 entries, each a two-bit code.
    pub proof fn lemma_view(self)
        ensures
            self@.len() == 24,
            forall|i: int| 0 <= i < 24 ==> 0 <= #[trigger] self@[i] < 4,
    {
        reveal(EfficientPlayField::cells);
        assert forall|i: int| 0 <= i < 24 implies 0 <= #[trigger] self@[i] < 4 by {
            lemma_slot_of_with_slot(self.word(i / 8), 0, 0, (i % 8) as u16);
        }
    }

    /// The entry of the view for a ring's cell is that cell of the ring's word.
    pub proof fn lemma_cell(self, ring: int, pos: int)
        requires
            0 <= ring < 3,
            0 <= pos < 8,
        ensures
            self@[ring * 8 + pos] == slot(self.word(ring), pos as u16) as int,
            self.cell(ring, pos) == slot(self.word(ring), pos as u16) as int,
    {
        reveal(EfficientPlayField::cells);
        let i = ring * 8 + pos;
        assert(i / 8 == ring);
        assert(i % 8 == pos);
        assert(self@[i] == slot(self.word(i / 8), (i % 8) as u16) as int);
    }

    /// Two boards with the same cells are the same board.
    pub proof fn lemma_same_cells(self, other: EfficientPlayField)
        requires
            self@ == other@,
        ensures
            self == other,
    {
        self.lemma_view();
        other.lemma_view();
        assert forall|ring: int| 0 <= ring < 3 implies self.word(ring) == other.word(ring) by {
            self.lemma_cell(ring, 0);
            self.lemma_cell(ring, 1);
            self.lemma_cell(ring, 2);
            self.lemma_cell(ring, 3);
            self.lemma_cell(ring, 4);
            self.lemma_cell(ring, 5);
            self.lemma_cell(ring, 6);
            self.lemma_cell(ring, 7);
            other.lemma_cell(ring, 0);
            other.lemma_cell(ring, 1);
            other.lemma_cell(ring, 2);
            other.lemma_cell(ring, 3);
            other.lemma_cell(ring, 4);
            other.lemma_cell(ring, 5);
            other.lemma_cell(ring, 6);
            other.lemma_cell(ring, 7);
            lemma_slots_fix_word(self.word(ring), other.word(ring));
        }
        assert(self.word(0) == other.word(0));
        assert(self.word(1) == other.word(1));
        assert(self.word(2) == other.word(2));
    }

    /// Writing a cell changes that entry of the view and no other.
    pub proof fn lemma_with_cell(self, pos: FieldPos, code: int)
        requires
            pos.valid(),
            0 <= code < 4,
        ensures
            self.with_cell(pos, code)@ == self@.update(pos.index(), code),
            self@.len() == 24,
    {
        let ring = pos.ring_index as int;
        let next = self.with_cell(pos, code);
        self.lemma_view();
        next.lemma_view();
        assert forall|i: int| 0 <= i < 24 implies next@[i] == self@.update(pos.index(), code)[i] by {
            next.lemma_cell(i / 8, i % 8);
            self.lemma_cell(i / 8, i % 8);
            lemma_slot_of_with_slot(
                self.word(ring),
                pos.field_index as u16,
                code as u16,
                (i % 8) as u16,
            );
        }
        assert(next@ =~= self@.update(pos.index(), code));
    }

    /// The board without stones.
    pub fn new() -> (board: EfficientPlayField)
        ensures
            board@ == Seq::new(24, |i: int| 0int),
            board.wf(),
            board.key() == 0,
    {
        let board = EfficientPlayField { inner: 0, middle: 0, outer: 0 };
        proof {
            board.lemma_view();
            assert forall|i: int| 0 <= i < 24 implies board@[i] == 0 by {
                board.lemma_cell(i / 8, i % 8);
                lemma_slot_of_zero((i % 8) as u16);
            }
            assert(board@ =~= Seq::new(24, |i: int| 0int));
        }
        board
    }

    /// The word of ring `ring_index`.
    pub fn ring_word(&self, ring_index: usize) -> (w: u16)
        requires
            ring_index < 3,
        ensures
            w == self.word(ring_index as int),
    {
        if ring_index == 0 {
            self.inner
        } else if ring_index == 1 {
            self.middle
        } else {
            self.outer
        }
    }

    /// The code in the cell at `ring_index` and `field_index`.
    pub fn get_field_state_at(&self, ring_index: usize, field_index: u32) -> (code: u16)
        requires
            ring_index < 3,
            field_index < 8,
        ensures
            code == self.cell(ring_index as int, field_index as int),
            code < 4,
    {
        let w = self.ring_word(ring_index);
        proof {
            self.lemma_cell(ring_index as int, field_index as int);
            lemma_slot_of_with_slot(w, 0, 0, field_index as u16);
        }
        (w >> (field_index * 2) as u16) & 3u16
    }

    /// The code in the cell `pos`.
    pub fn get(&self, pos: FieldPos) -> (code: u16)
        requires
            pos.valid(),
        ensures
            code == self.code_at(pos),
            code < 4,
    {
        self.get_field_state_at(pos.ring_index, pos.field_index)
    }

    /// The first cell of the view that holds the code `0b11`: its ring, and the
    /// place of its two bits in the ring's word. `None` where no cell holds it.
    pub fn assert_state_invariant(&self) -> (broken: Option<(usize, u8)>)
        ensures
            match broken {
                None => self.wf(),
                Some((ring_index, bit_index)) => ring_index < 3 && bit_index < 16 && bit_index % 2
                    == 0 && self.cell(ring_index as int, bit_index as int / 2) == 3 && forall|
                    i: int,
                |
                    0 <= i < ring_index * 8 + bit_index / 2 ==> #[trigger] self@[i] != 3,
            },
    {
        let mut index: usize = 0;
        while index < 24
            invariant
                index <= 24,
                forall|i: int| 0 <= i < index ==> #[trigger] self@[i] != 3,
            decreases 24 - index,
        {
            let pos = field_pos_at(index);
            if self.get(pos) == 3 {
                return Some((pos.ring_index, (pos.field_index * 2) as u8));
            }
            index += 1;
        }
        None
    }

    /// Why `set_field` cannot write `field_state` to the cell at `ring_index` and
    /// `index`, if it cannot.
    pub open spec fn set_field_error(self, ring_index: usize, index: u32, field_state: u32) -> Option<
        FieldError,
    > {
        if ring_index >= 3 || index >= 8 {
            Some(FieldError::Index)
        } else if field_state >= 3 {
            Some(FieldError::State)
        } else if (self.cell(ring_index as int, index as int) == 0) != (field_state != 0) {
            Some(FieldError::Occupancy)
        } else {
            None
        }
    }

    /// Writes `field_state` (0 empty, 1 white, 2 black) to the cell at `ring_index`
    /// and `index`. A stone goes on an empty cell only, and only a cell with a stone
    /// is emptied.
    pub fn set_field(&mut self, ring_index: usize, index: u32, field_state: u32)
        requires
            old(self).wf(),
            old(self).set_field_error(ring_index, index, field_state) is None,
        ensures
            final(self)@ == old(self)@.update(ring_index * 8 + index, field_state as int),
            final(self).wf(),
    {
        let pos = FieldPos { ring_index, field_index: index };
        let next = self.put(pos, field_state as u16);
        proof {
            self.lemma_view();
            next.lemma_view();
            assert forall|i: int| 0 <= i < 24 implies #[trigger] next@[i] != 3 by {
                assert(self@[i] != 3);
            }
        }
        *self = next;
    }

    /// Writes `field_state` to the cell at `ring_index` and `index` where
    /// `set_field` can, and says why where it cannot; the board is then left as it
    /// was.
    pub fn try_set_field(&mut self, ring_index: usize, index: u32, field_state: u32) -> (result:
        Result<(), FieldError>)
        requires
            old(self).wf(),
        ensures
            final(self).wf(),
            match result {
                Ok(()) => old(self).set_field_error(ring_index, index, field_state) is None
                    && final(self)@ == old(self)@.update(
                    ring_index * 8 + index,
                    field_state as int,
                ),
                Err(error) => old(self).set_field_error(ring_index, index, field_state) == Some(
                    error,
                ) && *final(self) == *old(self),
            },
    {
        if ring_index >= 3 || index >= 8 {
            return Err(FieldError::Index);
        }
        if field_state >= 3 {
            return Err(FieldError::State);
        }
        let empty = self.get_field_state_at(ring_index, index) == 0;
        if empty != (field_state != 0) {
            return Err(FieldError::Occupancy);
        }
        self.set_field(ring_index, index, field_state);
        Ok(())
    }

    /// The board with the cell at `pos` replaced by `code`.
    pub fn put(&self, pos: FieldPos, code: u16) -> (next: EfficientPlayField)
        requires
            pos.valid(),
            code < 4,
        ensures
            next == self.with_cell(pos, code as int),
            next@ == self@.update(pos.index(), code as int),
    {
        let w = self.ring_word(pos.ring_index);
        let shift = (pos.field_index * 2) as u16;
        let w2 = (w & !(3u16 << shift)) | (code << shift);
        proof {
            self.lemma_with_cell(pos, code as int);
        }
        if pos.ring_index == 0 {
            EfficientPlayField { inner: w2, middle: self.middle, outer: self.outer }
        } else if pos.ring_index == 1 {
            EfficientPlayField { inner: self.inner, middle: w2, outer: self.outer }
        } else {
            EfficientPlayField { inner: self.inner, middle: self.middle, outer: w2 }
        }
    }
}

impl Default for EfficientPlayField {
    fn default() -> (board: EfficientPlayField)
        ensures
            board@ == Seq::new(24, |i: int| 0int),
            board.wf(),
    {
        EfficientPlayField::new()
    }
}

} // verus!
