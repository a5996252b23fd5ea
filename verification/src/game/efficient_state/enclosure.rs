//! Why the enclosed positions are found: the black stones of a position in which
//! Black cannot move are a board of black stones, and the position is that board
//! enclosed.
use vstd::prelude::*;

use crate::game::efficient_state::{pos_at, EfficientPlayField, FieldPos};
use crate::game::efficient_state::equivariance::{
    lemma_moved_adjacent, lemma_moved_pos, moved_back_pos,
};
use crate::game::efficient_state::bits::{black_blocked, holds_in_word, lemma_enclosing_stones};
use crate::game::efficient_state::rules::adjacent;

verus! {

broadcast use crate::game::efficient_state::lemma_board_len;

/// The board that holds the first `n` codes of `cells` on the first `n` cells of
/// the view, and nothing behind them.
pub open spec fn board_upto(cells: Seq<int>, n: int) -> EfficientPlayField
    decreases n,
{
    if n <= 0 {
        EfficientPlayField { inner: 0, middle: 0, outer: 0 }
    } else {
        board_upto(cells, n - 1).with_cell(pos_at(n - 1), cells[n - 1])
    }
}

/// The board that holds `cells`.
pub open spec fn board_of_cells(cells: Seq<int>) -> EfficientPlayField {
    board_upto(cells, 24)
}

/// The board without stones holds nothing.
pub proof fn lemma_empty_board()
    ensures
        (EfficientPlayField { inner: 0, middle: 0, outer: 0 })@ == Seq::new(24, |i: int| 0int),
{
    let board = EfficientPlayField { inner: 0, middle: 0, outer: 0 };
    board.lemma_view();
    assert forall|i: int| 0 <= i < 24 implies board@[i] == 0 by {
        board.lemma_cell(i / 8, i % 8);
        crate::game::efficient_state::bits::lemma_slot_of_zero((i % 8) as u16);
    }
    assert(board@ =~= Seq::new(24, |i: int| 0int));
}

/// `board_upto` holds what it is said to hold.
pub proof fn lemma_board_upto(cells: Seq<int>, n: int)
    requires
        cells.len() == 24,
        forall|i: int| 0 <= i < 24 ==> 0 <= #[trigger] cells[i] < 4,
        0 <= n <= 24,
    ensures
        forall|i: int|
            0 <= i < 24 ==> #[trigger] board_upto(cells, n)@[i] == if i < n {
                cells[i]
            } else {
                0
            },
    decreases n,
{
    if n == 0 {
        lemma_empty_board();
    } else {
        lemma_board_upto(cells, n - 1);
        let before = board_upto(cells, n - 1);
        let pos = pos_at(n - 1);
        assert(pos.valid() && pos.index() == n - 1);
        before.lemma_with_cell(pos, cells[n - 1]);
    }
}

/// Every sequence of 24 cell codes is the view of a board.
pub proof fn lemma_board_of_cells(cells: Seq<int>)
    requires
        cells.len() == 24,
        forall|i: int| 0 <= i < 24 ==> 0 <= #[trigger] cells[i] < 4,
    ensures
        board_of_cells(cells)@ == cells,
{
    lemma_board_upto(cells, 24);
    assert(board_of_cells(cells)@ =~= cells);
}

impl EfficientPlayField {
    /// The board with the black stones of this board and nothing else.
    pub open spec fn black_part(self) -> EfficientPlayField {
        board_of_cells(
            Seq::new(
                24,
                |i: int|
                    if self@[i] == 2 {
                        2int
                    } else {
                        0int
                    },
            ),
        )
    }

    /// `self` holds the black stones of `board` and nothing else.
    pub open spec fn is_black_part_of(self, board: EfficientPlayField) -> bool {
        forall|i: int|
            0 <= i < 24 ==> #[trigger] self@[i] == if board@[i] == 2 {
                2int
            } else {
                0int
            }
    }

    /// The black part of a board holds its black stones and nothing else.
    pub proof fn lemma_black_part(self)
        ensures
            self.black_part().is_black_part_of(self),
            self.black_part().wf(),
            self.black_part().count(1) == 0,
            self.black_part().count(2) == self.count(2),
    {
        let cells = Seq::new(
            24,
            |i: int|
                if self@[i] == 2 {
                    2int
                } else {
                    0int
                },
        );
        lemma_board_of_cells(cells);
        let part = self.black_part();
        assert forall|i: int| 0 <= i < 24 implies #[trigger] part@[i] == if self@[i] == 2 {
            2int
        } else {
            0int
        } by {
            assert(part@[i] == cells[i]);
        }
        part.lemma_same_count_upto(self, 2, 24);
        part.lemma_none_count_upto(1, 24);
    }

    /// Boards that hold `code` on the same cells hold it as often.
    pub proof fn lemma_same_count_upto(self, other: EfficientPlayField, code: int, n: int)
        requires
            0 <= n <= 24,
            forall|i: int| 0 <= i < 24 ==> (#[trigger] self@[i] == code) == (other@[i] == code),
        ensures
            self.count_upto(code, n) == other.count_upto(code, n),
        decreases n,
    {
        if n > 0 {
            self.lemma_same_count_upto(other, code, n - 1);
            assert((self@[n - 1] == code) == (other@[n - 1] == code));
        }
    }

    /// A board that holds `code` nowhere counts it nowhere.
    pub proof fn lemma_none_count_upto(self, code: int, n: int)
        requires
            0 <= n <= 24,
            forall|i: int| 0 <= i < 24 ==> #[trigger] self@[i] != code,
        ensures
            self.count_upto(code, n) == 0,
        decreases n,
    {
        if n > 0 {
            self.lemma_none_count_upto(code, n - 1);
            assert(self@[n - 1] != code);
        }
    }

    /// The image of the black part of a board is the black part of the image of
    /// the board, for each generator of the symmetries.
    pub proof fn lemma_moved_black_part(self, board: EfficientPlayField, g: int)
        requires
            0 <= g < 3,
            self.is_black_part_of(board),
        ensures
            self.moved(g).is_black_part_of(board.moved(g)),
    {
        assert forall|i: int| 0 <= i < 24 implies #[trigger] self.moved(g)@[i] == if board.moved(
            g,
        )@[i] == 2 {
            2int
        } else {
            0int
        } by {
            let cell = pos_at(i);
            assert(cell.valid() && cell.index() == i);
            lemma_moved_pos(g, cell);
            self.lemma_moved_code(g, cell);
            board.lemma_moved_code(g, cell);
            let origin = moved_back_pos(g, cell);
            assert(self@[origin.index()] == if board@[origin.index()] == 2 {
                2int
            } else {
                0int
            });
        }
    }

    /// The image of the black part of a board is the black part of the image of
    /// the board.
    pub proof fn lemma_image_black_part(self, board: EfficientPlayField, k: int)
        requires
            0 <= k < 16,
            self.is_black_part_of(board),
        ensures
            self.image(k).is_black_part_of(board.image(k)),
    {
        reveal(EfficientPlayField::image);
        let quarters = (k / 2) % 4;
        let part = if k >= 8 {
            self.swapped()
        } else {
            self
        };
        let whole = if k >= 8 {
            board.swapped()
        } else {
            board
        };
        if k >= 8 {
            self.lemma_moved_black_part(board, 2);
        }
        assert(part.is_black_part_of(whole));
        if quarters >= 1 {
            part.lemma_moved_black_part(whole, 0);
        }
        if quarters >= 2 {
            part.rotated().lemma_moved_black_part(whole.rotated(), 0);
        }
        if quarters >= 3 {
            part.rotated().rotated().lemma_moved_black_part(whole.rotated().rotated(), 0);
        }
        assert(part.turned(quarters).is_black_part_of(whole.turned(quarters)));
        if k % 2 == 1 {
            part.turned(quarters).lemma_moved_black_part(whole.turned(quarters), 1);
        }
    }

    /// Where no stone of a colour has an empty cell beside it, none has on the
    /// image of the board, for each generator of the symmetries.
    pub proof fn lemma_moved_blocked(self, g: int, code: int)
        requires
            0 <= g < 3,
            self.is_blocked(code),
        ensures
            self.moved(g).is_blocked(code),
    {
        let image = self.moved(g);
        assert forall|stone: FieldPos, beside: FieldPos|
            stone.valid() && beside.valid() && image.code_at(stone) == code && #[trigger] adjacent(
                stone,
                beside,
            ) implies image.code_at(beside) != 0 by {
            let from = moved_back_pos(g, stone);
            let next = moved_back_pos(g, beside);
            lemma_moved_pos(g, stone);
            lemma_moved_pos(g, beside);
            self.lemma_moved_code(g, stone);
            self.lemma_moved_code(g, beside);
            lemma_moved_adjacent(g, from, next);
            assert(adjacent(from, next));
        }
    }

    /// Where no stone of a colour has an empty cell beside it, none has on any
    /// image of the board.
    pub proof fn lemma_image_blocked(self, k: int, code: int)
        requires
            0 <= k < 16,
            self.is_blocked(code),
        ensures
            self.image(k).is_blocked(code),
    {
        reveal(EfficientPlayField::image);
        let quarters = (k / 2) % 4;
        let base = if k >= 8 {
            self.swapped()
        } else {
            self
        };
        if k >= 8 {
            self.lemma_moved_blocked(2, code);
        }
        if quarters >= 1 {
            base.lemma_moved_blocked(0, code);
        }
        if quarters >= 2 {
            base.rotated().lemma_moved_blocked(0, code);
        }
        if quarters >= 3 {
            base.rotated().rotated().lemma_moved_blocked(0, code);
        }
        assert(base.turned(quarters).is_blocked(code));
        if k % 2 == 1 {
            base.turned(quarters).lemma_moved_blocked(1, code);
        }
    }

    /// The enclosed board holds one more white stone for each empty cell beside a
    /// stone, and as many black stones as the board.
    pub proof fn lemma_enclosed_count_upto(self, enclosed: EfficientPlayField, n: int)
        requires
            self.wf(),
            enclosed@ == self.enclosed_view(),
            0 <= n <= 24,
        ensures
            enclosed.count_upto(1, n) == self.count_upto(1, n) + self.enclosing_count_upto(n),
            enclosed.count_upto(2, n) == self.count_upto(2, n),
            0 <= self.enclosing_count_upto(n),
        decreases n,
    {
        if n > 0 {
            self.lemma_enclosed_count_upto(enclosed, n - 1);
            assert(enclosed@[n - 1] == self.enclosed_view()[n - 1]);
        }
    }

    /// A position in which Black cannot move, with its black stones in their
    /// canonical form, is that board of black stones, enclosed, with white stones
    /// added: the enclosing stones are no more than the white stones of the
    /// position.
    pub proof fn lemma_enclosed_image(self, start: EfficientPlayField, max_stone_count: usize) -> (image:
        EfficientPlayField)
        requires
            self.is_enclosed_position(max_stone_count),
            start == self.black_part().canonical(),
        ensures
            image.canonical() == self.canonical(),
            image.count(1) <= max_stone_count,
            start.wf(),
            start.count(1) == 0,
            start.enclosing_count_upto(24) <= image.count(1),
            forall|enclosed: EfficientPlayField|
                enclosed@ == start.enclosed_view() ==> #[trigger] enclosed.grows_from(image, 1, 0),
    {
        let part = self.black_part();
        self.lemma_black_part();
        part.lemma_canonical();
        part.lemma_canonical_counts();
        let k = choose|k: int| 0 <= k < 16 && start == #[trigger] part.image(k);
        let image = self.image(k);
        part.lemma_image_black_part(self, k);
        self.lemma_image_counts(k);
        self.lemma_image_blocked(k, 2);
        self.lemma_canonical_of_image(k);
        start.lemma_view();
        let cells = start.enclosed_view();
        assert forall|i: int| 0 <= i < 24 implies 0 <= #[trigger] cells[i] < 4 by {
            assert(start@[i] != 3);
        }
        lemma_board_of_cells(cells);
        let witness = board_of_cells(cells);
        image.lemma_enclosed_grows(start, witness);
        start.lemma_enclosed_count_upto(witness, 24);
        witness.lemma_grown_count_upto(image, 1, 24);
        assert forall|enclosed: EfficientPlayField|
            enclosed@ == start.enclosed_view() implies #[trigger] enclosed.grows_from(
            image,
            1,
            0,
        ) by {
            enclosed.lemma_same_cells(witness);
        }
        image
    }

    /// The cells of a ring that hold a code are those that its word holds.
    proof fn lemma_ring_count_of_word(self, ring: int, code: u16)
        requires
            0 <= ring < 3,
        ensures
            self.ring_count(ring, code as int) == holds_in_word(self.word(ring), code),
    {
        self.lemma_cell(ring, 0);
        self.lemma_cell(ring, 1);
        self.lemma_cell(ring, 2);
        self.lemma_cell(ring, 3);
        self.lemma_cell(ring, 4);
        self.lemma_cell(ring, 5);
        self.lemma_cell(ring, 6);
        self.lemma_cell(ring, 7);
    }

    /// A board on which no black stone has an empty cell beside it has ring words
    /// of which the same holds.
    proof fn lemma_blocked_words(self)
        requires
            self.is_blocked(2),
        ensures
            black_blocked(self.inner, self.middle, self.outer),
    {
        self.lemma_cell(0, 0);
        self.lemma_cell(0, 1);
        self.lemma_cell(0, 2);
        self.lemma_cell(0, 3);
        self.lemma_cell(0, 4);
        self.lemma_cell(0, 5);
        self.lemma_cell(0, 6);
        self.lemma_cell(0, 7);
        self.lemma_cell(1, 0);
        self.lemma_cell(1, 1);
        self.lemma_cell(1, 2);
        self.lemma_cell(1, 3);
        self.lemma_cell(1, 4);
        self.lemma_cell(1, 5);
        self.lemma_cell(1, 6);
        self.lemma_cell(1, 7);
        self.lemma_cell(2, 0);
        self.lemma_cell(2, 1);
        self.lemma_cell(2, 2);
        self.lemma_cell(2, 3);
        self.lemma_cell(2, 4);
        self.lemma_cell(2, 5);
        self.lemma_cell(2, 6);
        self.lemma_cell(2, 7);
        assert(adjacent(FieldPos { ring_index: 0, field_index: 0 }, FieldPos { ring_index: 0, field_index: 1 }));
        assert(adjacent(FieldPos { ring_index: 0, field_index: 0 }, FieldPos { ring_index: 0, field_index: 7 }));
        assert(adjacent(FieldPos { ring_index: 0, field_index: 0 }, FieldPos { ring_index: 1, field_index: 0 }));
        assert(adjacent(FieldPos { ring_index: 0, field_index: 1 }, FieldPos { ring_index: 0, field_index: 2 }));
        assert(adjacent(FieldPos { ring_index: 0, field_index: 1 }, FieldPos { ring_index: 0, field_index: 0 }));
        assert(adjacent(FieldPos { ring_index: 0, field_index: 2 }, FieldPos { ring_index: 0, field_index: 3 }));
        assert(adjacent(FieldPos { ring_index: 0, field_index: 2 }, FieldPos { ring_index: 0, field_index: 1 }));
        assert(adjacent(FieldPos { ring_index: 0, field_index: 2 }, FieldPos { ring_index: 1, field_index: 2 }));
        assert(adjacent(FieldPos { ring_index: 0, field_index: 3 }, FieldPos { ring_index: 0, field_index: 4 }));
        assert(adjacent(FieldPos { ring_index: 0, field_index: 3 }, FieldPos { ring_index: 0, field_index: 2 }));
        assert(adjacent(FieldPos { ring_index: 0, field_index: 4 }, FieldPos { ring_index: 0, field_index: 5 }));
        assert(adjacent(FieldPos { ring_index: 0, field_index: 4 }, FieldPos { ring_index: 0, field_index: 3 }));
        assert(adjacent(FieldPos { ring_index: 0, field_index: 4 }, FieldPos { ring_index: 1, field_index: 4 }));
        assert(adjacent(FieldPos { ring_index: 0, field_index: 5 }, FieldPos { ring_index: 0, field_index: 6 }));
        assert(adjacent(FieldPos { ring_index: 0, field_index: 5 }, FieldPos { ring_index: 0, field_index: 4 }));
        assert(adjacent(FieldPos { ring_index: 0, field_index: 6 }, FieldPos { ring_index: 0, field_index: 7 }));
        assert(adjacent(FieldPos { ring_index: 0, field_index: 6 }, FieldPos { ring_index: 0, field_index: 5 }));
        assert(adjacent(FieldPos { ring_index: 0, field_index: 6 }, FieldPos { ring_index: 1, field_index: 6 }));
        assert(adjacent(FieldPos { ring_index: 0, field_index: 7 }, FieldPos { ring_index: 0, field_index: 0 }));
        assert(adjacent(FieldPos { ring_index: 0, field_index: 7 }, FieldPos { ring_index: 0, field_index: 6 }));
        assert(adjacent(FieldPos { ring_index: 1, field_index: 0 }, FieldPos { ring_index: 1, field_index: 1 }));
        assert(adjacent(FieldPos { ring_index: 1, field_index: 0 }, FieldPos { ring_index: 1, field_index: 7 }));
        assert(adjacent(FieldPos { ring_index: 1, field_index: 0 }, FieldPos { ring_index: 0, field_index: 0 }));
        assert(adjacent(FieldPos { ring_index: 1, field_index: 0 }, FieldPos { ring_index: 2, field_index: 0 }));
        assert(adjacent(FieldPos { ring_index: 1, field_index: 1 }, FieldPos { ring_index: 1, field_index: 2 }));
        assert(adjacent(FieldPos { ring_index: 1, field_index: 1 }, FieldPos { ring_index: 1, field_index: 0 }));
        assert(adjacent(FieldPos { ring_index: 1, field_index: 2 }, FieldPos { ring_index: 1, field_index: 3 }));
        assert(adjacent(FieldPos { ring_index: 1, field_index: 2 }, FieldPos { ring_index: 1, field_index: 1 }));
        assert(adjacent(FieldPos { ring_index: 1, field_index: 2 }, FieldPos { ring_index: 0, field_index: 2 }));
        assert(adjacent(FieldPos { ring_index: 1, field_index: 2 }, FieldPos { ring_index: 2, field_index: 2 }));
        assert(adjacent(FieldPos { ring_index: 1, field_index: 3 }, FieldPos { ring_index: 1, field_index: 4 }));
        assert(adjacent(FieldPos { ring_index: 1, field_index: 3 }, FieldPos { ring_index: 1, field_index: 2 }));
        assert(adjacent(FieldPos { ring_index: 1, field_index: 4 }, FieldPos { ring_index: 1, field_index: 5 }));
        assert(adjacent(FieldPos { ring_index: 1, field_index: 4 }, FieldPos { ring_index: 1, field_index: 3 }));
        assert(adjacent(FieldPos { ring_index: 1, field_index: 4 }, FieldPos { ring_index: 0, field_index: 4 }));
        assert(adjacent(FieldPos { ring_index: 1, field_index: 4 }, FieldPos { ring_index: 2, field_index: 4 }));
        assert(adjacent(FieldPos { ring_index: 1, field_index: 5 }, FieldPos { ring_index: 1, field_index: 6 }));
        assert(adjacent(FieldPos { ring_index: 1, field_index: 5 }, FieldPos { ring_index: 1, field_index: 4 }));
        assert(adjacent(FieldPos { ring_index: 1, field_index: 6 }, FieldPos { ring_index: 1, field_index: 7 }));
        assert(adjacent(FieldPos { ring_index: 1, field_index: 6 }, FieldPos { ring_index: 1, field_index: 5 }));
        assert(adjacent(FieldPos { ring_index: 1, field_index: 6 }, FieldPos { ring_index: 0, field_index: 6 }));
        assert(adjacent(FieldPos { ring_index: 1, field_index: 6 }, FieldPos { ring_index: 2, field_index: 6 }));
        assert(adjacent(FieldPos { ring_index: 1, field_index: 7 }, FieldPos { ring_index: 1, field_index: 0 }));
        assert(adjacent(FieldPos { ring_index: 1, field_index: 7 }, FieldPos { ring_index: 1, field_index: 6 }));
        assert(adjacent(FieldPos { ring_index: 2, field_index: 0 }, FieldPos { ring_index: 2, field_index: 1 }));
        assert(adjacent(FieldPos { ring_index: 2, field_index: 0 }, FieldPos { ring_index: 2, field_index: 7 }));
        assert(adjacent(FieldPos { ring_index: 2, field_index: 0 }, FieldPos { ring_index: 1, field_index: 0 }));
        assert(adjacent(FieldPos { ring_index: 2, field_index: 1 }, FieldPos { ring_index: 2, field_index: 2 }));
        assert(adjacent(FieldPos { ring_index: 2, field_index: 1 }, FieldPos { ring_index: 2, field_index: 0 }));
        assert(adjacent(FieldPos { ring_index: 2, field_index: 2 }, FieldPos { ring_index: 2, field_index: 3 }));
        assert(adjacent(FieldPos { ring_index: 2, field_index: 2 }, FieldPos { ring_index: 2, field_index: 1 }));
        assert(adjacent(FieldPos { ring_index: 2, field_index: 2 }, FieldPos { ring_index: 1, field_index: 2 }));
        assert(adjacent(FieldPos { ring_index: 2, field_index: 3 }, FieldPos { ring_index: 2, field_index: 4 }));
        assert(adjacent(FieldPos { ring_index: 2, field_index: 3 }, FieldPos { ring_index: 2, field_index: 2 }));
        assert(adjacent(FieldPos { ring_index: 2, field_index: 4 }, FieldPos { ring_index: 2, field_index: 5 }));
        assert(adjacent(FieldPos { ring_index: 2, field_index: 4 }, FieldPos { ring_index: 2, field_index: 3 }));
        assert(adjacent(FieldPos { ring_index: 2, field_index: 4 }, FieldPos { ring_index: 1, field_index: 4 }));
        assert(adjacent(FieldPos { ring_index: 2, field_index: 5 }, FieldPos { ring_index: 2, field_index: 6 }));
        assert(adjacent(FieldPos { ring_index: 2, field_index: 5 }, FieldPos { ring_index: 2, field_index: 4 }));
        assert(adjacent(FieldPos { ring_index: 2, field_index: 6 }, FieldPos { ring_index: 2, field_index: 7 }));
        assert(adjacent(FieldPos { ring_index: 2, field_index: 6 }, FieldPos { ring_index: 2, field_index: 5 }));
        assert(adjacent(FieldPos { ring_index: 2, field_index: 6 }, FieldPos { ring_index: 1, field_index: 6 }));
        assert(adjacent(FieldPos { ring_index: 2, field_index: 7 }, FieldPos { ring_index: 2, field_index: 0 }));
        assert(adjacent(FieldPos { ring_index: 2, field_index: 7 }, FieldPos { ring_index: 2, field_index: 6 }));
    }

    /// Four to nine black stones are not enclosed by fewer than three white stones.
    pub proof fn lemma_enclosed_whites(self, max_stone_count: usize)
        requires
            self.is_enclosed_position(max_stone_count),
            max_stone_count <= 9,
        ensures
            self.count(1) >= 3,
    {
        self.lemma_blocked_words();
        self.lemma_wf_by_count();
        self.lemma_count_by_rings(1);
        self.lemma_count_by_rings(2);
        self.lemma_count_by_rings(3);
        self.lemma_ring_count_of_word(0, 1);
        self.lemma_ring_count_of_word(1, 1);
        self.lemma_ring_count_of_word(2, 1);
        self.lemma_ring_count_of_word(0, 2);
        self.lemma_ring_count_of_word(1, 2);
        self.lemma_ring_count_of_word(2, 2);
        self.lemma_ring_count_of_word(0, 3);
        self.lemma_ring_count_of_word(1, 3);
        self.lemma_ring_count_of_word(2, 3);
        lemma_enclosing_stones(self.inner, self.middle, self.outer);
    }

    /// A position in which Black cannot move is its black stones, enclosed, with
    /// white stones added.
    pub proof fn lemma_enclosed_grows(self, part: EfficientPlayField, enclosed: EfficientPlayField)
        requires
            self.wf(),
            self.is_blocked(2),
            part.is_black_part_of(self),
            enclosed@ == part.enclosed_view(),
        ensures
            enclosed.grows_from(self, 1, 0),
    {
        self.lemma_view();
        assert forall|i: int| 0 <= i < 24 implies #[trigger] self@[i] == enclosed@[i] || (0 <= i
            && enclosed@[i] == 0 && self@[i] == 1) by {
            assert(self@[i] != 3);
            assert(part@[i] == if self@[i] == 2 {
                2int
            } else {
                0int
            });
            let cell = pos_at(i);
            assert(cell.valid() && cell.index() == i);
            if self@[i] == 0 && part.touches_stone(cell) {
                let stone = choose|stone: FieldPos|
                    stone.valid() && part.code_at(stone) != 0 && #[trigger] adjacent(stone, cell);
                assert(part@[stone.index()] == if self@[stone.index()] == 2 {
                    2int
                } else {
                    0int
                });
                assert(self.code_at(stone) == 2);
                assert(self.code_at(cell) != 0);
            }
        }
    }
}

} // verus!
