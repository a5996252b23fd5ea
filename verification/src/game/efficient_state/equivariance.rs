//! The rules of the game do not tell a board from its images: a legal ply on a
//! board is a legal ply on every image of the board.
use vstd::prelude::*;

use crate::game::PlayerColor;
use crate::game::efficient_state::{pos_at, EfficientPlayField, FieldPos};
use crate::game::efficient_state::mills::DirectionToCheck;
use crate::game::efficient_state::rules::{adjacent, lemma_index_fixes_pos, Ply};

verus! {

broadcast use crate::game::efficient_state::lemma_board_len;

/// The cell to which generator `g` of the symmetries takes the cell `pos`: 0 is the
/// quarter turn, 1 the mirror, 2 the exchange of the inner and the outer ring.
pub open spec fn moved_pos(g: int, pos: FieldPos) -> FieldPos {
    if g == 0 {
        FieldPos { ring_index: pos.ring_index, field_index: ((pos.field_index + 2) % 8) as u32 }
    } else if g == 1 {
        FieldPos { ring_index: pos.ring_index, field_index: ((8 - pos.field_index) % 8) as u32 }
    } else {
        FieldPos { ring_index: (2 - pos.ring_index) as usize, field_index: pos.field_index }
    }
}

/// The cell that generator `g` takes to the cell `pos`.
pub open spec fn moved_back_pos(g: int, pos: FieldPos) -> FieldPos {
    if g == 0 {
        FieldPos { ring_index: pos.ring_index, field_index: ((pos.field_index + 6) % 8) as u32 }
    } else {
        moved_pos(g, pos)
    }
}

/// The ply with its cells taken along by generator `g`.
pub open spec fn moved_ply(g: int, ply: Ply) -> Ply {
    Ply {
        start: moved_pos(g, ply.start),
        target: moved_pos(g, ply.target),
        taken: match ply.taken {
            Some(taken) => Some(moved_pos(g, taken)),
            None => None,
        },
    }
}

/// A generator takes the cells of the board to cells of the board, one to one.
pub proof fn lemma_moved_pos(g: int, pos: FieldPos)
    requires
        0 <= g < 3,
        pos.valid(),
    ensures
        moved_pos(g, pos).valid(),
        moved_back_pos(g, pos).valid(),
        moved_back_pos(g, moved_pos(g, pos)) == pos,
        moved_pos(g, moved_back_pos(g, pos)) == pos,
{
}

/// Positions that follow each other round a ring of eight cells do so after a
/// quarter turn, and in the other direction in the mirror.
proof fn lemma_positions_follow(x: int, y: int)
    requires
        0 <= x < 8,
        0 <= y < 8,
    ensures
        (y == (x + 1) % 8) == ((y + 2) % 8 == ((x + 2) % 8 + 1) % 8),
        (y == (x + 1) % 8) == ((8 - x) % 8 == ((8 - y) % 8 + 1) % 8),
        (x == y) == ((x + 2) % 8 == (y + 2) % 8),
        (x == y) == ((8 - x) % 8 == (8 - y) % 8),
        (x % 2 == 0) == (((x + 2) % 8) % 2 == 0),
        (x % 2 == 0) == (((8 - x) % 8) % 2 == 0),
{
    if x == 0 {
    } else if x == 1 {
    } else if x == 2 {
    } else if x == 3 {
    } else if x == 4 {
    } else if x == 5 {
    } else if x == 6 {
    } else {
    }
}

/// Cells joined by a line are taken to cells joined by a line.
pub proof fn lemma_moved_adjacent(g: int, a: FieldPos, b: FieldPos)
    requires
        0 <= g < 3,
        a.valid(),
        b.valid(),
    ensures
        adjacent(moved_pos(g, a), moved_pos(g, b)) == adjacent(a, b),
{
    let x = a.field_index as int;
    let y = b.field_index as int;
    lemma_positions_follow(x, y);
    lemma_positions_follow(y, x);
    if g == 0 {
        assert(moved_pos(g, a).field_index == (x + 2) % 8);
        assert(moved_pos(g, b).field_index == (y + 2) % 8);
    } else if g == 1 {
        assert(moved_pos(g, a).field_index == (8 - x) % 8);
        assert(moved_pos(g, b).field_index == (8 - y) % 8);
    } else {
    }
}

impl EfficientPlayField {
    /// The image of the board under generator `g`.
    pub open spec fn moved(self, g: int) -> EfficientPlayField {
        if g == 0 {
            self.rotated()
        } else if g == 1 {
            self.mirrored()
        } else {
            self.swapped()
        }
    }

    /// The image of the board holds on the image of a cell what the board holds on
    /// the cell.
    pub proof fn lemma_moved_code(self, g: int, pos: FieldPos)
        requires
            0 <= g < 3,
            pos.valid(),
        ensures
            self.moved(g).code_at(moved_pos(g, pos)) == self.code_at(pos),
            self.moved(g).code_at(pos) == self.code_at(moved_back_pos(g, pos)),
    {
        lemma_moved_pos(g, pos);
        let ring = pos.ring_index as int;
        let field = pos.field_index as int;
        if g == 0 {
            self.lemma_rotated_cells();
            assert(self.rotated().cell(ring, (field + 2) % 8) == self.cell(ring, ((field + 2) % 8 + 6) % 8));
            assert(self.rotated().cell(ring, field) == self.cell(ring, (field + 6) % 8));
        } else if g == 1 {
            self.lemma_mirrored_cells();
            assert(self.mirrored().cell(ring, (8 - field) % 8) == self.cell(ring, (8 - (8 - field) % 8) % 8));
            assert(self.mirrored().cell(ring, field) == self.cell(ring, (8 - field) % 8));
        } else {
            self.lemma_swapped_cells();
            assert(self.swapped().cell(2 - ring, field) == self.cell(2 - (2 - ring), field));
            assert(self.swapped().cell(ring, field) == self.cell(2 - ring, field));
        }
    }

    /// Writing a cell of the image is writing the cell of the board.
    pub proof fn lemma_moved_with_cell(self, g: int, pos: FieldPos, code: int)
        requires
            0 <= g < 3,
            pos.valid(),
            0 <= code < 4,
        ensures
            self.moved(g).with_cell(moved_pos(g, pos), code) == self.with_cell(pos, code).moved(g),
    {
        lemma_moved_pos(g, pos);
        let left = self.moved(g).with_cell(moved_pos(g, pos), code);
        let right = self.with_cell(pos, code).moved(g);
        self.moved(g).lemma_with_cell(moved_pos(g, pos), code);
        self.lemma_with_cell(pos, code);
        assert forall|j: int| 0 <= j < 24 implies left@[j] == right@[j] by {
            let cell = pos_at(j);
            assert(cell.valid() && cell.index() == j);
            let origin = moved_back_pos(g, cell);
            lemma_moved_pos(g, cell);
            self.lemma_moved_code(g, cell);
            self.with_cell(pos, code).lemma_moved_code(g, cell);
            if origin == pos {
                assert(cell == moved_pos(g, pos));
            } else {
                if cell == moved_pos(g, pos) {
                    assert(moved_back_pos(g, cell) == pos);
                }
                lemma_index_fixes_pos(origin, pos);
                lemma_index_fixes_pos(cell, moved_pos(g, pos));
            }
        }
        assert(left@ =~= right@);
        left.lemma_same_cells(right);
    }

    /// The image of the board has through the image of a cell the mills of the
    /// board through the cell.
    pub proof fn lemma_moved_mills(self, g: int, pos: FieldPos, color: PlayerColor)
        requires
            0 <= g < 3,
            pos.valid(),
        ensures
            self.moved(g).mills_at(moved_pos(g, pos), color.code()) == self.mills_at(
                pos,
                color.code(),
            ),
    {
        let direction = DirectionToCheck::OnAndAcrossRings { player_color: color };
        let ring = pos.ring_index as int;
        let field = pos.field_index as int;
        if g == 0 {
            self.lemma_mill_count_rotated(ring, field, direction);
        } else if g == 1 {
            self.lemma_mill_count_mirrored(ring, field, direction);
        } else {
            self.lemma_mill_count_swapped(ring, field, direction);
        }
    }

    /// On the image of the board every stone of a colour stands in a mill where on
    /// the board every stone of the colour does.
    pub proof fn lemma_moved_all_in_mills(self, g: int, color: PlayerColor)
        requires
            0 <= g < 3,
        ensures
            self.moved(g).all_in_mills(color.code()) == self.all_in_mills(color.code()),
    {
        let code = color.code();
        let image = self.moved(g);
        if self.all_in_mills(code) {
            assert forall|pos: FieldPos|
                pos.valid() && #[trigger] image.code_at(pos) == code implies image.mills_at(pos, code)
                > 0 by {
                let origin = moved_back_pos(g, pos);
                lemma_moved_pos(g, pos);
                self.lemma_moved_code(g, pos);
                self.lemma_moved_mills(g, origin, color);
                assert(self.code_at(origin) == code);
            }
        }
        if image.all_in_mills(code) {
            assert forall|pos: FieldPos|
                pos.valid() && #[trigger] self.code_at(pos) == code implies self.mills_at(pos, code)
                > 0 by {
                let there = moved_pos(g, pos);
                lemma_moved_pos(g, pos);
                self.lemma_moved_code(g, pos);
                self.lemma_moved_mills(g, pos, color);
                assert(image.code_at(there) == code);
            }
        }
    }

    /// A stone may be taken on the image of the board where it may be taken on the
    /// board.
    pub proof fn lemma_moved_can_be_taken(self, g: int, pos: FieldPos, by: PlayerColor)
        requires
            0 <= g < 3,
            pos.valid(),
        ensures
            self.moved(g).can_be_taken(moved_pos(g, pos), by) == self.can_be_taken(pos, by),
    {
        lemma_moved_pos(g, pos);
        self.lemma_moved_code(g, pos);
        self.lemma_moved_mills(g, pos, by.other());
        self.lemma_moved_all_in_mills(g, by.other());
    }

    /// A generator moves the stones and changes none.
    pub proof fn lemma_moved_count(self, g: int, code: int)
        requires
            0 <= g < 3,
        ensures
            self.moved(g).count(code) == self.count(code),
    {
        self.lemma_rotated_count(code);
        self.lemma_mirrored_count(code);
        self.lemma_swapped_count(code);
    }

    /// A legal ply on a board is, with its cells taken along, a legal ply on the
    /// image of the board, and leads to the image of the board it leads to.
    pub proof fn lemma_moved_legal(self, g: int, color: PlayerColor, ply: Ply)
        requires
            0 <= g < 3,
            self.legal(color, ply),
        ensures
            self.moved(g).legal(color, moved_ply(g, ply)),
            self.moved(g).after(color, moved_ply(g, ply)) == self.after(color, ply).moved(g),
    {
        let code = color.code();
        let image = self.moved(g);
        lemma_moved_pos(g, ply.start);
        lemma_moved_pos(g, ply.target);
        self.lemma_moved_code(g, ply.start);
        self.lemma_moved_code(g, ply.target);
        lemma_moved_adjacent(g, ply.start, ply.target);
        self.lemma_moved_count(g, code);
        self.lemma_moved_with_cell(g, ply.start, 0);
        self.with_cell(ply.start, 0).lemma_moved_with_cell(g, ply.target, code);
        let moved = self.after_move(color, ply.start, ply.target);
        assert(image.after_move(color, moved_pos(g, ply.start), moved_pos(g, ply.target))
            == moved.moved(g));
        moved.lemma_moved_mills(g, ply.target, color);
        match ply.taken {
            Some(taken) => {
                lemma_moved_pos(g, taken);
                self.lemma_moved_can_be_taken(g, taken, color);
                moved.lemma_moved_with_cell(g, taken, 0);
            },
            None => {},
        }
    }

    /// Where a ply leads from a board to another, a ply leads from the image of the
    /// one to the image of the other.
    pub proof fn lemma_moved_reaches(self, g: int, color: PlayerColor, next: EfficientPlayField)
        requires
            0 <= g < 3,
            self.reaches(color, next),
        ensures
            self.moved(g).reaches(color, next.moved(g)),
    {
        let ply = choose|ply: Ply| #[trigger] self.legal(color, ply) && self.after(color, ply) == next;
        self.lemma_moved_legal(g, color, ply);
        assert(self.moved(g).legal(color, moved_ply(g, ply)));
    }

    /// The rules do not tell a board from its images: where a ply of `color` leads
    /// from a board to another, a ply of `color` leads from every image of the one
    /// to the same image of the other.
    pub proof fn lemma_image_reaches(self, k: int, color: PlayerColor, next: EfficientPlayField)
        requires
            0 <= k < 16,
            self.reaches(color, next),
        ensures
            self.image(k).reaches(color, next.image(k)),
    {
        reveal(EfficientPlayField::image);
        let quarters = (k / 2) % 4;
        let from = if k >= 8 {
            self.swapped()
        } else {
            self
        };
        let to = if k >= 8 {
            next.swapped()
        } else {
            next
        };
        if k >= 8 {
            self.lemma_moved_reaches(2, color, next);
        }
        assert(from.reaches(color, to));
        if quarters >= 1 {
            from.lemma_moved_reaches(0, color, to);
        }
        if quarters >= 2 {
            from.rotated().lemma_moved_reaches(0, color, to.rotated());
        }
        if quarters >= 3 {
            from.rotated().rotated().lemma_moved_reaches(0, color, to.rotated().rotated());
        }
        assert(from.turned(quarters).reaches(color, to.turned(quarters)));
        if k % 2 == 1 {
            from.turned(quarters).lemma_moved_reaches(1, color, to.turned(quarters));
        }
    }

    /// A board that reaches a board whose canonical form is `target` has the
    /// canonical form of a board that reaches `target`, with as many stones.
    pub proof fn lemma_reaches_canonical(self, color: PlayerColor, next: EfficientPlayField) -> (origin:
        EfficientPlayField)
        requires
            self.reaches(color, next),
        ensures
            origin.reaches(color, next.canonical()),
            origin.canonical() == self.canonical(),
            origin.count(1) == self.count(1),
            origin.count(2) == self.count(2),
    {
        next.lemma_canonical();
        let k = choose|k: int| 0 <= k < 16 && next.canonical() == #[trigger] next.image(k);
        self.lemma_image_reaches(k, color, next);
        self.lemma_canonical_of_image(k);
        self.lemma_image_counts(k);
        self.image(k)
    }
}

} // verus!
