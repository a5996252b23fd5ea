//! What a ply is: the moves a side may make and the stones it may take.
use vstd::prelude::*;

use crate::game::PlayerColor;
use crate::game::efficient_state::{field_pos_at, EfficientPlayField, FieldPos};
use crate::game::efficient_state::field_list::{
    fields_len, fields_new, fields_of, fields_push, FieldList,
};
use crate::game::efficient_state::mills::{as_count, DirectionToCheck};

verus! {

broadcast use crate::game::efficient_state::lemma_board_len;

/// The two cells are joined by a line of the board: they follow each other on one
/// ring, or they lie on neighbouring rings at the same even position.
pub open spec fn adjacent(a: FieldPos, b: FieldPos) -> bool {
    ||| a.ring_index == b.ring_index && (b.field_index == (a.field_index + 1) % 8
        || a.field_index == (b.field_index + 1) % 8)
    ||| a.field_index == b.field_index && a.field_index % 2 == 0 && (a.ring_index + 1
        == b.ring_index || b.ring_index + 1 == a.ring_index)
}

/// Whether two cells of the board are joined by a line.
pub fn are_adjacent(a: FieldPos, b: FieldPos) -> (joined: bool)
    requires
        a.valid(),
        b.valid(),
    ensures
        joined == adjacent(a, b),
{
    if a.ring_index == b.ring_index {
        b.field_index == (a.field_index + 1) % 8 || a.field_index == (b.field_index + 1) % 8
    } else {
        a.field_index == b.field_index && a.field_index % 2 == 0 && (a.ring_index + 1
            == b.ring_index || b.ring_index + 1 == a.ring_index)
    }
}

/// One ply: a stone goes from `start` to `target` and, where that closes a mill,
/// takes the stone on `taken`.
pub struct Ply {
    pub start: FieldPos,
    pub target: FieldPos,
    pub taken: Option<FieldPos>,
}

impl EfficientPlayField {
    /// How many mills of `code` pass through the cell `pos`.
    pub open spec fn mills_at(self, pos: FieldPos, code: int) -> int {
        self.mills(pos.ring_index as int, pos.field_index as int, code)
    }

    /// Every stone of `code` stands in a mill.
    pub open spec fn all_in_mills(self, code: int) -> bool {
        forall|pos: FieldPos|
            pos.valid() && #[trigger] self.code_at(pos) == code ==> self.mills_at(pos, code) > 0
    }

    /// `by` may take the stone on `pos`: it is a stone of the other side, and it
    /// stands in no mill unless every stone of that side does.
    pub open spec fn can_be_taken(self, pos: FieldPos, by: PlayerColor) -> bool {
        let code = by.other().code();
        &&& pos.valid()
        &&& self.code_at(pos) == code
        &&& self.mills_at(pos, code) == 0 || self.all_in_mills(code)
    }

    /// `color` may move its stone from `start` to `target`: the target is empty and
    /// joined to the start, or `color` has exactly three stones and may jump.
    pub open spec fn may_move(self, color: PlayerColor, start: FieldPos, target: FieldPos) -> bool {
        &&& start.valid()
        &&& target.valid()
        &&& self.code_at(start) == color.code()
        &&& self.code_at(target) == 0
        &&& adjacent(start, target) || self.count(color.code()) == 3
    }

    /// The board after the stone of `color` on `start` has gone to `target`.
    pub open spec fn after_move(
        self,
        color: PlayerColor,
        start: FieldPos,
        target: FieldPos,
    ) -> EfficientPlayField {
        self.with_cell(start, 0).with_cell(target, color.code())
    }

    /// The ply is legal for `color` on this board. A move that closes a mill takes
    /// one stone that may be taken; any other move takes none. Which stones may be
    /// taken is read from the board before the move: the mover's own stone changes
    /// no mill of the other side.
    pub open spec fn legal(self, color: PlayerColor, ply: Ply) -> bool {
        &&& self.may_move(color, ply.start, ply.target)
        &&& if self.after_move(color, ply.start, ply.target).mills_at(ply.target, color.code())
            > 0 {
            ply.taken is Some && self.can_be_taken(ply.taken->0, color)
        } else {
            ply.taken is None
        }
    }

    /// The board after the ply.
    pub open spec fn after(self, color: PlayerColor, ply: Ply) -> EfficientPlayField {
        let moved = self.after_move(color, ply.start, ply.target);
        match ply.taken {
            Some(taken) => moved.with_cell(taken, 0),
            None => moved,
        }
    }

    /// One legal ply of `color` leads from this board to `next`.
    pub open spec fn reaches(self, color: PlayerColor, next: EfficientPlayField) -> bool {
        exists|ply: Ply| #[trigger] self.legal(color, ply) && self.after(color, ply) == next
    }

    /// One legal ply of `color` leads from this board to `next`, and its stone
    /// starts from a cell before place `from` of the view, or from that cell to a
    /// cell before place `to`.
    pub open spec fn reaches_before(
        self,
        color: PlayerColor,
        next: EfficientPlayField,
        from: int,
        to: int,
    ) -> bool {
        exists|ply: Ply|
            #[trigger] self.legal(color, ply) && self.after(color, ply) == next && (
            ply.start.index() < from || (ply.start.index() == from && ply.target.index() < to))
    }

    /// Two legal plies that lead to the same board are the same ply.
    pub proof fn lemma_after_fixes_ply(self, color: PlayerColor, a: Ply, b: Ply)
        requires
            self.legal(color, a),
            self.legal(color, b),
            self.after(color, a) == self.after(color, b),
        ensures
            a == b,
    {
        let code = color.code();
        self.lemma_view();
        self.lemma_with_cell(a.start, 0);
        self.with_cell(a.start, 0).lemma_with_cell(a.target, code);
        self.lemma_with_cell(b.start, 0);
        self.with_cell(b.start, 0).lemma_with_cell(b.target, code);
        let moved_a = self.after_move(color, a.start, a.target);
        let moved_b = self.after_move(color, b.start, b.target);
        let next = self.after(color, a);
        match a.taken {
            Some(taken) => {
                moved_a.lemma_with_cell(taken, 0);
            },
            None => {},
        }
        match b.taken {
            Some(taken) => {
                moved_b.lemma_with_cell(taken, 0);
            },
            None => {},
        }
        assert(a.start == b.start) by {
            if a.start.index() != b.start.index() {
                assert(self.after(color, a)@[b.start.index()] == code);
                assert(self.after(color, b)@[b.start.index()] == 0);
            }
            lemma_index_fixes_pos(a.start, b.start);
        }
        assert(a.target == b.target) by {
            if a.target.index() != b.target.index() {
                assert(self.after(color, a)@[a.target.index()] == code);
                assert(self.after(color, b)@[a.target.index()] == 0);
            }
            lemma_index_fixes_pos(a.target, b.target);
        }
        assert(moved_a == moved_b);
        match (a.taken, b.taken) {
            (Some(first), Some(second)) => {
                if first.index() != second.index() {
                    assert(self.after(color, a)@[first.index()] == 0);
                    assert(self.after(color, b)@[first.index()] == color.other().code());
                }
                lemma_index_fixes_pos(first, second);
            },
            _ => {},
        }
    }

    /// What writing a cell does to the number of cells that hold `code`, among the
    /// first `n` of the view.
    pub proof fn lemma_count_upto_with_cell(self, pos: FieldPos, new_code: int, code: int, n: int)
        requires
            pos.valid(),
            0 <= new_code < 4,
            0 <= n <= 24,
        ensures
            self.with_cell(pos, new_code).count_upto(code, n) == self.count_upto(code, n) + if pos.index()
                < n {
                as_count(new_code == code) - as_count(self.code_at(pos) == code)
            } else {
                0
            },
        decreases n,
    {
        self.lemma_with_cell(pos, new_code);
        if n > 0 {
            self.lemma_count_upto_with_cell(pos, new_code, code, n - 1);
        }
    }

    /// What writing a cell does to the number of cells that hold `code`.
    pub proof fn lemma_count_with_cell(self, pos: FieldPos, new_code: int, code: int)
        requires
            pos.valid(),
            0 <= new_code < 4,
        ensures
            self.with_cell(pos, new_code).count(code) == self.count(code) + as_count(
                new_code == code,
            ) - as_count(self.code_at(pos) == code),
    {
        self.lemma_count_upto_with_cell(pos, new_code, code, 24);
    }

    /// The mills of a colour on one board are the mills of a colour on another
    /// board where the stones of the one colour stand on the one board as the
    /// stones of the other colour on the other.
    pub proof fn lemma_mills_like_stones(
        self,
        other: EfficientPlayField,
        code: int,
        other_code: int,
    )
        requires
            forall|i: int| 0 <= i < 24 ==> (#[trigger] self@[i] == code) == (other@[i] == other_code),
        ensures
            forall|pos: FieldPos|
                pos.valid() ==> #[trigger] self.mills_at(pos, code) == other.mills_at(pos, other_code),
            self.all_in_mills(code) == other.all_in_mills(other_code),
    {
        reveal(EfficientPlayField::ring_mills);
        reveal(EfficientPlayField::mills);
        assert forall|pos: FieldPos| pos.valid() implies #[trigger] self.mills_at(pos, code)
            == other.mills_at(pos, other_code) by {
            let ring = pos.ring_index as int;
            let p = pos.field_index as int;
            assert forall|center: int| 0 <= center < 8 implies self.ring_line(ring, center, code)
                == other.ring_line(ring, center, other_code) by {
                assert((self@[ring * 8 + (center + 7) % 8] == code) == (other@[ring * 8 + (center
                    + 7) % 8] == other_code));
                assert((self@[ring * 8 + center] == code) == (other@[ring * 8 + center] == other_code));
                assert((self@[ring * 8 + (center + 1) % 8] == code) == (other@[ring * 8 + (center
                    + 1) % 8] == other_code));
            }
            assert(self.cross_line(p, code) == other.cross_line(p, other_code)) by {
                assert((self@[0 * 8 + p] == code) == (other@[0 * 8 + p] == other_code));
                assert((self@[1 * 8 + p] == code) == (other@[1 * 8 + p] == other_code));
                assert((self@[2 * 8 + p] == code) == (other@[2 * 8 + p] == other_code));
            }
        }
        assert(self.all_in_mills(code) == other.all_in_mills(other_code)) by {
            assert forall|pos: FieldPos| pos.valid() implies (#[trigger] self.code_at(pos) == code)
                == (other.code_at(pos) == other_code) by {
                assert((self@[pos.index()] == code) == (other@[pos.index()] == other_code));
            }
            if self.all_in_mills(code) {
                assert forall|pos: FieldPos|
                    pos.valid() && #[trigger] other.code_at(pos) == other_code implies other.mills_at(
                    pos,
                    other_code,
                ) > 0 by {
                    assert(self.code_at(pos) == code);
                    assert(self.mills_at(pos, code) == other.mills_at(pos, other_code));
                }
            }
            if other.all_in_mills(other_code) {
                assert forall|pos: FieldPos|
                    pos.valid() && #[trigger] self.code_at(pos) == code implies self.mills_at(
                    pos,
                    code,
                ) > 0 by {
                    assert(other.code_at(pos) == other_code);
                    assert(self.mills_at(pos, code) == other.mills_at(pos, other_code));
                }
            }
        }
    }

    /// The mills of a colour depend on the cells of that colour alone.
    pub proof fn lemma_mills_same_stones(self, other: EfficientPlayField, code: int)
        requires
            forall|i: int| 0 <= i < 24 ==> (#[trigger] self@[i] == code) == (other@[i] == code),
        ensures
            forall|pos: FieldPos|
                pos.valid() ==> #[trigger] self.mills_at(pos, code) == other.mills_at(pos, code),
            self.all_in_mills(code) == other.all_in_mills(code),
    {
        self.lemma_mills_like_stones(other, code, code);
    }

    /// A legal ply keeps a board free of the code `0b11`, keeps the number of the
    /// mover's stones, and takes no stone of the other side, or one.
    pub proof fn lemma_ply_counts(self, color: PlayerColor, ply: Ply)
        requires
            self.legal(color, ply),
        ensures
            self.after(color, ply).wf() == self.wf(),
            self.after(color, ply).count(color.code()) == self.count(color.code()),
            self.after(color, ply).count(color.other().code()) == self.count(color.other().code())
                - as_count(ply.taken is Some),
    {
        let code = color.code();
        let other = color.other().code();
        let lifted = self.with_cell(ply.start, 0);
        let moved = lifted.with_cell(ply.target, code);
        self.lemma_view();
        self.lemma_with_cell(ply.start, 0);
        lifted.lemma_with_cell(ply.target, code);
        self.lemma_count_with_cell(ply.start, 0, code);
        lifted.lemma_count_with_cell(ply.target, code, code);
        self.lemma_count_with_cell(ply.start, 0, other);
        lifted.lemma_count_with_cell(ply.target, code, other);
        let next = self.after(color, ply);
        match ply.taken {
            Some(taken) => {
                moved.lemma_with_cell(taken, 0);
                moved.lemma_count_with_cell(taken, 0, code);
                moved.lemma_count_with_cell(taken, 0, other);
            },
            None => {},
        }
        if self.wf() {
            assert forall|i: int| 0 <= i < 24 implies #[trigger] next@[i] != 3 by {
                assert(self@[i] != 3);
            }
        }
        if next.wf() {
            assert forall|i: int| 0 <= i < 24 implies #[trigger] self@[i] != 3 by {
                assert(next@[i] != 3);
            }
        }
    }

    /// Whether `by` may take the stone on `pos`.
    pub fn is_takeable(&self, pos: FieldPos, by: PlayerColor) -> (takeable: bool)
        requires
            pos.valid(),
        ensures
            takeable == self.can_be_taken(pos, by),
    {
        let other = by.opponent();
        let code = other.to_code();
        if self.get(pos) != code {
            return false;
        }
        let direction = DirectionToCheck::OnAndAcrossRings { player_color: other };
        if self.get_mill_count(pos.ring_index, pos.field_index, direction) == 0 {
            return true;
        }
        let mut index: usize = 0;
        while index < 24
            invariant
                index <= 24,
                other == by.other(),
                code == other.code(),
                direction == (DirectionToCheck::OnAndAcrossRings { player_color: other }),
                pos.valid(),
                self.code_at(pos) == code,
                self.mills_at(pos, code as int) > 0,
                forall|cell: FieldPos|
                    cell.valid() && cell.index() < index && #[trigger] self.code_at(cell) == code
                        ==> self.mills_at(cell, code as int) > 0,
            decreases 24 - index,
        {
            let cell = field_pos_at(index);
            if self.get(cell) == code && self.get_mill_count(
                cell.ring_index,
                cell.field_index,
                direction,
            ) == 0 {
                proof {
                    assert(self.code_at(cell) == code && self.mills_at(cell, code as int) == 0);
                    assert(!self.all_in_mills(code as int));
                }
                return false;
            }
            proof {
                assert forall|next: FieldPos|
                    next.valid() && next.index() < index + 1 && #[trigger] self.code_at(next)
                        == code implies self.mills_at(next, code as int) > 0 by {
                    lemma_index_fixes_pos(next, cell);
                }
            }
            index += 1;
        }
        true
    }

    /// The number of stones of `player_color` on the board.
    pub fn get_stone_count_of(&self, player_color: PlayerColor) -> (count: u32)
        ensures
            count == self.count(player_color.code()),
            count <= 24,
    {
        let code = player_color.to_code();
        let mut count: u32 = 0;
        let mut index: usize = 0;
        while index < 24
            invariant
                index <= 24,
                code == player_color.code(),
                count == self.count_upto(code as int, index as int),
                count <= index,
            decreases 24 - index,
        {
            if self.get(field_pos_at(index)) == code {
                count += 1;
            }
            index += 1;
        }
        count
    }

    /// The empty cells of the board, in the order of the view.
    pub fn get_empty_fields(&self) -> (empty: FieldList)
        ensures
            forall|pos: FieldPos|
                #![trigger fields_of(empty).contains(pos)]
                #![trigger self.code_at(pos)]
                fields_of(empty).contains(pos) <==> pos.valid() && self.code_at(pos) == 0,
            fields_of(empty).no_duplicates(),
            ascending(fields_of(empty)),
    {
        let mut empty = fields_new();
        let mut index: usize = 0;
        while index < 24
            invariant
                index <= 24,
                forall|pos: FieldPos|
                    #![trigger fields_of(empty).contains(pos)]
                    #![trigger self.code_at(pos)]
                    fields_of(empty).contains(pos) <==> pos.valid() && pos.index() < index && self.code_at(
                        pos,
                    ) == 0,
                fields_of(empty).no_duplicates(),
                ascending(fields_of(empty)),
                forall|k: int|
                    0 <= k < fields_of(empty).len() ==> (#[trigger] fields_of(empty)[k]).index()
                        < index,
            decreases 24 - index,
        {
            let pos = field_pos_at(index);
            let ghost before = fields_of(empty);
            if self.get(pos) == 0 {
                proof {
                    lemma_push_contains(fields_of(empty), pos);
                }
                fields_push(&mut empty, pos);
            }
            proof {
                assert forall|other: FieldPos|
                    #![trigger fields_of(empty).contains(other)]
                    #![trigger self.code_at(other)]
                    fields_of(empty).contains(other) <==> other.valid() && other.index() < index + 1
                        && self.code_at(other) == 0 by {
                    lemma_index_fixes_pos(other, pos);
                    assert(before.contains(other) <==> other.valid() && other.index() < index
                        && self.code_at(other) == 0);
                }
            }
            index += 1;
        }
        empty
    }

    /// The cells whose stones `player_color` may take: the stones of the other side
    /// that stand in no mill, or all its stones where each stands in a mill.
    pub fn get_fields_to_take(&self, player_color: PlayerColor) -> (takes: FieldList)
        ensures
            forall|pos: FieldPos|
                #![trigger fields_of(takes).contains(pos)]
                #![trigger self.can_be_taken(pos, player_color)]
                fields_of(takes).contains(pos) <==> self.can_be_taken(pos, player_color),
            fields_of(takes).no_duplicates(),
            ascending(fields_of(takes)),
    {
        let other = player_color.opponent();
        let code = other.to_code();
        let mut all = fields_new();
        let mut free = fields_new();
        let mut index: usize = 0;
        while index < 24
            invariant
                index <= 24,
                other == player_color.other(),
                code == other.code(),
                forall|pos: FieldPos|
                    #![trigger fields_of(all).contains(pos)]
                    #![trigger self.code_at(pos)]
                    fields_of(all).contains(pos) <==> pos.valid() && pos.index() < index && self.code_at(
                        pos,
                    ) == code,
                forall|pos: FieldPos|
                    #![trigger fields_of(free).contains(pos)]
                    #![trigger self.code_at(pos)]
                    fields_of(free).contains(pos) <==> pos.valid() && pos.index() < index && self.code_at(
                        pos,
                    ) == code && self.mills_at(pos, code as int) == 0,
                fields_of(all).no_duplicates(),
                fields_of(free).no_duplicates(),
                ascending(fields_of(all)),
                ascending(fields_of(free)),
                forall|k: int|
                    0 <= k < fields_of(all).len() ==> (#[trigger] fields_of(all)[k]).index() < index,
                forall|k: int|
                    0 <= k < fields_of(free).len() ==> (#[trigger] fields_of(free)[k]).index()
                        < index,
            decreases 24 - index,
        {
            let pos = field_pos_at(index);
            let ghost all_before = fields_of(all);
            let ghost free_before = fields_of(free);
            if self.get(pos) == code {
                proof {
                    lemma_push_contains(fields_of(all), pos);
                }
                fields_push(&mut all, pos);
                let mills = self.get_mill_count(
                    pos.ring_index,
                    pos.field_index,
                    DirectionToCheck::OnAndAcrossRings { player_color: other },
                );
                if mills == 0 {
                    proof {
                        lemma_push_contains(fields_of(free), pos);
                    }
                    fields_push(&mut free, pos);
                }
            }
            proof {
                assert forall|other: FieldPos|
                    #![trigger fields_of(all).contains(other)]
                    #![trigger self.code_at(other)]
                    fields_of(all).contains(other) <==> other.valid() && other.index() < index + 1
                        && self.code_at(other) == code by {
                    lemma_index_fixes_pos(other, pos);
                    assert(all_before.contains(other) <==> other.valid() && other.index() < index
                        && self.code_at(other) == code);
                }
                assert forall|other: FieldPos|
                    #![trigger fields_of(free).contains(other)]
                    #![trigger self.code_at(other)]
                    fields_of(free).contains(other) <==> other.valid() && other.index() < index + 1
                        && self.code_at(other) == code && self.mills_at(other, code as int)
                        == 0 by {
                    lemma_index_fixes_pos(other, pos);
                    assert(free_before.contains(other) <==> other.valid() && other.index() < index
                        && self.code_at(other) == code && self.mills_at(other, code as int) == 0);
                }
            }
            index += 1;
        }
        if fields_len(&free) == 0 {
            proof {
                assert forall|pos: FieldPos|
                    pos.valid() && #[trigger] self.code_at(pos) == code implies self.mills_at(
                    pos,
                    code as int,
                ) > 0 by {
                    self.lemma_mills_range(
                        pos.ring_index as int,
                        pos.field_index as int,
                        code as int,
                    );
                    if self.mills_at(pos, code as int) <= 0 {
                        assert(fields_of(free).contains(pos));
                    }
                }
                assert(self.all_in_mills(code as int));
            }
            all
        } else {
            proof {
                let witness = fields_of(free)[0];
                assert(fields_of(free).contains(witness));
                assert(self.code_at(witness) == code);
                assert(!self.all_in_mills(code as int));
            }
            free
        }
    }
}

/// The cells of the list stand in the order of the view.
pub open spec fn ascending(list: Seq<FieldPos>) -> bool {
    forall|i: int, j: int|
        0 <= i < j < list.len() ==> (#[trigger] list[i]).index() < (#[trigger] list[j]).index()
}

/// What the concatenation of two sequences holds.
pub proof fn lemma_concat_contains<T>(a: Seq<T>, b: Seq<T>)
    ensures
        forall|y: T| #[trigger] (a + b).contains(y) <==> a.contains(y) || b.contains(y),
{
    assert forall|y: T| #[trigger] (a + b).contains(y) <==> a.contains(y) || b.contains(y) by {
        if a.contains(y) {
            let i = choose|i: int| 0 <= i < a.len() && a[i] == y;
            assert((a + b)[i] == y);
        }
        if b.contains(y) {
            let i = choose|i: int| 0 <= i < b.len() && b[i] == y;
            assert((a + b)[a.len() + i] == y);
        }
        if (a + b).contains(y) {
            let i = choose|i: int| 0 <= i < (a + b).len() && (a + b)[i] == y;
            if i < a.len() {
                assert(a[i] == y);
            } else {
                assert(b[i - a.len()] == y);
            }
        }
    }
}

/// Two cells of the board at the same place of the view are the same cell.
pub proof fn lemma_index_fixes_pos(a: FieldPos, b: FieldPos)
    ensures
        a.valid() && b.valid() && a.index() == b.index() ==> a == b,
{
}

/// What a sequence holds after one more element was pushed.
pub proof fn lemma_push_contains<T>(s: Seq<T>, x: T)
    ensures
        forall|y: T| s.push(x).contains(y) <==> s.contains(y) || y == x,
        s.no_duplicates() && !s.contains(x) ==> s.push(x).no_duplicates(),
{
    assert forall|y: T| s.push(x).contains(y) <==> s.contains(y) || y == x by {
        if s.contains(y) {
            let i = choose|i: int| 0 <= i < s.len() && s[i] == y;
            assert(s.push(x)[i] == y);
        }
        if y == x {
            assert(s.push(x)[s.len() as int] == x);
        }
        if s.push(x).contains(y) {
            let i = choose|i: int| 0 <= i < s.push(x).len() && s.push(x)[i] == y;
            if i < s.len() {
                assert(s[i] == y);
            }
        }
    }
}

} // verus!
