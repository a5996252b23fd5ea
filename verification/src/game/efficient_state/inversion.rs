//! The rules do not tell the colours apart: a ply of one side on a board is a ply
//! of the other side on the board with the colours exchanged.
use vstd::prelude::*;

use crate::game::PlayerColor;
use crate::game::efficient_state::{EfficientPlayField, FieldPos};
use crate::game::efficient_state::bits::flip_code;
use crate::game::efficient_state::rules::Ply;

verus! {

broadcast use crate::game::efficient_state::lemma_board_len;

/// The code of the other colour; the empty code and `0b11` stay.
pub open spec fn flipped(code: int) -> int {
    if code == 1 {
        2
    } else if code == 2 {
        1
    } else {
        code
    }
}

impl EfficientPlayField {
    /// The inverted board holds on every cell the stone of the other colour.
    pub proof fn lemma_inverted_view(self)
        ensures
            forall|i: int| 0 <= i < 24 ==> #[trigger] self.inverted()@[i] == flipped(self@[i]),
    {
        self.lemma_inverted_cells();
        self.lemma_view();
        assert forall|i: int| 0 <= i < 24 implies #[trigger] self.inverted()@[i] == flipped(
            self@[i],
        ) by {
            assert(self.inverted()@[i] == flip_code(self@[i] as u16));
        }
    }

    /// Writing a cell of the inverted board is writing the cell of the board with
    /// the other colour.
    pub proof fn lemma_inverted_with_cell(self, pos: FieldPos, code: int)
        requires
            pos.valid(),
            0 <= code < 3,
        ensures
            self.with_cell(pos, code).inverted() == self.inverted().with_cell(pos, flipped(code)),
    {
        let left = self.with_cell(pos, code).inverted();
        let right = self.inverted().with_cell(pos, flipped(code));
        self.lemma_with_cell(pos, code);
        self.inverted().lemma_with_cell(pos, flipped(code));
        self.lemma_inverted_view();
        self.with_cell(pos, code).lemma_inverted_view();
        assert(left@ =~= right@);
        left.lemma_same_cells(right);
    }

    /// The inverted board holds as many stones of one colour as the board of the
    /// other.
    pub proof fn lemma_inverted_count_upto(self, code: int, n: int)
        requires
            0 <= n <= 24,
        ensures
            self.inverted().count_upto(flipped(code), n) == self.count_upto(code, n),
        decreases n,
    {
        self.lemma_inverted_view();
        if n > 0 {
            self.lemma_inverted_count_upto(code, n - 1);
            assert(self.inverted()@[n - 1] == flipped(self@[n - 1]));
        }
    }

    /// The inverted board holds as many white stones as the board black ones, and
    /// as many black stones as the board white ones.
    pub proof fn lemma_inverted_counts(self)
        ensures
            self.inverted().count(1) == self.count(2),
            self.inverted().count(2) == self.count(1),
            self.inverted().wf() == self.wf(),
    {
        self.lemma_inverted_count_upto(2, 24);
        self.lemma_inverted_count_upto(1, 24);
        self.lemma_inverted_count_upto(3, 24);
        self.lemma_wf_by_count();
        self.inverted().lemma_wf_by_count();
    }

    /// A legal ply of one side on a board is a legal ply of the other side on the
    /// inverted board, and leads to the inverted board.
    pub proof fn lemma_inverted_legal(self, color: PlayerColor, ply: Ply)
        requires
            self.legal(color, ply),
        ensures
            self.inverted().legal(color.other(), ply),
            self.inverted().after(color.other(), ply) == self.after(color, ply).inverted(),
    {
        let code = color.code();
        let other = color.other().code();
        let image = self.inverted();
        self.lemma_inverted_view();
        self.lemma_inverted_count_upto(code, 24);
        self.lemma_inverted_with_cell(ply.start, 0);
        self.with_cell(ply.start, 0).lemma_inverted_with_cell(ply.target, code);
        let moved = self.after_move(color, ply.start, ply.target);
        assert(image.after_move(color.other(), ply.start, ply.target) == moved.inverted());
        moved.lemma_inverted_view();
        assert forall|i: int| 0 <= i < 24 implies (#[trigger] moved@[i] == code) == (
        moved.inverted()@[i] == other) by {
            assert(moved.inverted()@[i] == flipped(moved@[i]));
        }
        moved.lemma_mills_like_stones(moved.inverted(), code, other);
        assert(moved.mills_at(ply.target, code) == moved.inverted().mills_at(ply.target, other));
        assert forall|i: int| 0 <= i < 24 implies (#[trigger] self@[i] == other) == (image@[i]
            == code) by {
            assert(image@[i] == flipped(self@[i]));
        }
        self.lemma_mills_like_stones(image, other, code);
        match ply.taken {
            Some(taken) => {
                assert(self.mills_at(taken, other) == image.mills_at(taken, code));
                assert(image.can_be_taken(taken, color.other()));
                moved.lemma_inverted_with_cell(taken, 0);
            },
            None => {},
        }
    }

    /// Where a ply of one side leads from a board to another, a ply of the other
    /// side leads from the one, inverted, to the other, inverted.
    pub proof fn lemma_inverted_reaches(self, color: PlayerColor, next: EfficientPlayField)
        requires
            self.reaches(color, next),
        ensures
            self.inverted().reaches(color.other(), next.inverted()),
    {
        let ply = choose|ply: Ply| #[trigger] self.legal(color, ply) && self.after(color, ply) == next;
        self.lemma_inverted_legal(color, ply);
        assert(self.inverted().legal(color.other(), ply));
    }

    /// From a position in which Black cannot move no ply of Black leads anywhere.
    pub proof fn lemma_enclosed_no_ply(self, max_stone_count: usize, next: EfficientPlayField)
        requires
            self.is_enclosed_position(max_stone_count),
        ensures
            !self.reaches(PlayerColor::Black, next),
    {
        if self.reaches(PlayerColor::Black, next) {
            let ply = choose|ply: Ply|
                #[trigger] self.legal(PlayerColor::Black, ply) && self.after(
                    PlayerColor::Black,
                    ply,
                ) == next;
            assert(crate::game::efficient_state::rules::adjacent(ply.start, ply.target));
        }
    }
}

} // verus!
