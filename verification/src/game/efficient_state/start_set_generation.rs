//! The positions in which White has won already: Black is down to two stones, or
//! Black cannot move.
use vstd::prelude::*;

use crate::game::PlayerColor;
use crate::game::efficient_state::{field_pos_at, pos_at, EfficientPlayField, FieldPos};
use crate::game::efficient_state::bits::with_slot;
use crate::game::efficient_state::field_set::CanonicalCollection;
use crate::game::efficient_state::rules::{adjacent, are_adjacent, lemma_index_fixes_pos};

verus! {

broadcast use crate::game::efficient_state::lemma_board_len;

/// `max_stone_count`, but no less than `least`.
pub open spec fn stone_limit(max_stone_count: usize, least: int) -> int {
    if max_stone_count > least {
        max_stone_count as int
    } else {
        least
    }
}

/// The places in the view of the three cells of mill number `k` of the three from
/// which the symmetries reach every mill: the top of the outer ring, the top of
/// the middle ring, and the line across the rings at position 0.
pub open spec fn template_cells(k: int) -> (int, int, int) {
    if k == 0 {
        (23, 16, 17)
    } else if k == 1 {
        (15, 8, 9)
    } else {
        (16, 8, 0)
    }
}

/// The cells of the board that holds mill number `k` in white and nothing else.
pub open spec fn template_view(k: int) -> Seq<int> {
    Seq::new(
        24,
        |i: int|
            if i == template_cells(k).0 || i == template_cells(k).1 || i == template_cells(k).2 {
                1
            } else {
                0
            },
    )
}

impl EfficientPlayField {
    /// White has mill number `k` of the three.
    pub open spec fn has_template(self, k: int) -> bool {
        self@[template_cells(k).0] == 1 && self@[template_cells(k).1] == 1 && self@[template_cells(
            k,
        ).2] == 1
    }

    /// White has a mill on one of the three lines from which the symmetries reach
    /// every line: the top of the outer ring, the top of the middle ring, or the
    /// line across the rings at position 0.
    pub open spec fn has_template_mill(self) -> bool {
        self.has_template(0) || self.has_template(1) || self.has_template(2)
    }

    /// Black is down to two stones, which stand on the places `first` and `second`
    /// of the view, and White has mill number `k` of the three.
    pub open spec fn is_reduced_with(
        self,
        k: int,
        first: int,
        second: int,
        max_stone_count: usize,
    ) -> bool {
        &&& self.is_reduced_position(max_stone_count)
        &&& self.has_template(k)
        &&& 0 <= first < second < 24
        &&& self@[first] == 2
        &&& self@[second] == 2
    }

    /// No cell among the first `n` of the view holds `code` where none is counted.
    pub proof fn lemma_no_stone_upto(self, code: int, n: int)
        requires
            0 <= n <= 24,
        ensures
            0 <= self.count_upto(code, n),
            self.count_upto(code, n) == 0 ==> forall|i: int| 0 <= i < n ==> #[trigger] self@[i] != code,
        decreases n,
    {
        if n > 0 {
            self.lemma_no_stone_upto(code, n - 1);
        }
    }

    /// The one cell among the first `n` of the view that holds `code`, where one is
    /// counted.
    pub proof fn lemma_one_stone_upto(self, code: int, n: int) -> (place: int)
        requires
            0 <= n <= 24,
            self.count_upto(code, n) == 1,
        ensures
            0 <= place < n,
            self@[place] == code,
            forall|i: int| 0 <= i < n && #[trigger] self@[i] == code ==> i == place,
        decreases n,
    {
        self.lemma_no_stone_upto(code, n - 1);
        if self@[n - 1] == code {
            n - 1
        } else {
            self.lemma_one_stone_upto(code, n - 1)
        }
    }

    /// The two cells among the first `n` of the view that hold `code`, where two are
    /// counted.
    pub proof fn lemma_two_stones_upto(self, code: int, n: int) -> (places: (int, int))
        requires
            0 <= n <= 24,
            self.count_upto(code, n) == 2,
        ensures
            0 <= places.0 < places.1 < n,
            self@[places.0] == code,
            self@[places.1] == code,
            forall|i: int| 0 <= i < n && #[trigger] self@[i] == code ==> i == places.0 || i == places.1,
        decreases n,
    {
        self.lemma_no_stone_upto(code, n - 1);
        if self@[n - 1] == code {
            let first = self.lemma_one_stone_upto(code, n - 1);
            (first, n - 1)
        } else {
            self.lemma_two_stones_upto(code, n - 1)
        }
    }

    /// A position in which Black is down to two stones is the mill with the two
    /// black stones and white stones added.
    pub proof fn lemma_reduced_grows(
        self,
        config: EfficientPlayField,
        k: int,
        first: int,
        second: int,
        max_stone_count: usize,
    )
        requires
            0 <= k < 3,
            self.is_reduced_with(k, first, second, max_stone_count),
            config@ == template_view(k).update(first, 2).update(second, 2),
        ensures
            config.grows_from(self, 1, 0),
    {
        let places = self.lemma_two_stones_upto(2, 24);
        assert(self@[first] == 2 && self@[second] == 2);
        assert forall|i: int| 0 <= i < 24 implies #[trigger] self@[i] == config@[i] || (0 <= i
            && config@[i] == 0 && self@[i] == 1) by {
            self.lemma_view();
            assert(self@[i] != 3);
            if self@[i] == 2 {
                assert(i == places.0 || i == places.1);
            }
        }
    }

    /// Black is down to two stones: White has one of the three mills, Black has
    /// two stones, and White has no more stones than the limit allows.
    pub open spec fn is_reduced_position(self, max_stone_count: usize) -> bool {
        &&& self.wf()
        &&& self.has_template_mill()
        &&& self.count(2) == 2
        &&& self.count(1) <= stone_limit(max_stone_count, 3)
    }

    /// No stone of `code` has an empty cell beside it.
    pub open spec fn is_blocked(self, code: int) -> bool {
        forall|stone: FieldPos, beside: FieldPos|
            stone.valid() && beside.valid() && self.code_at(stone) == code && #[trigger] adjacent(
                stone,
                beside,
            ) ==> self.code_at(beside) != 0
    }

    /// Black cannot move: it has four stones or more, so it may not jump, and none
    /// of them has an empty cell beside it. Neither side has more stones than the
    /// limit allows.
    pub open spec fn is_enclosed_position(self, max_stone_count: usize) -> bool {
        &&& self.wf()
        &&& self.is_blocked(2)
        &&& 4 <= self.count(2) <= stone_limit(max_stone_count, 4)
        &&& self.count(1) <= max_stone_count
    }

    /// The board holds black stones only, four or more, within the limit.
    pub open spec fn is_black_only(self, max_stone_count: usize) -> bool {
        &&& self.wf()
        &&& self.count(1) == 0
        &&& 4 <= self.count(2) <= stone_limit(max_stone_count, 4)
    }

    /// `next` is this board with stones of `code` added on empty cells: `least` at
    /// least, `most` at most.
    pub open spec fn extended_by(
        self,
        next: EfficientPlayField,
        code: int,
        least: int,
        most: int,
    ) -> bool {
        &&& next.wf()
        &&& forall|i: int|
            0 <= i < 24 ==> #[trigger] next@[i] == self@[i] || (self@[i] == 0 && next@[i] == code)
        &&& self.count(code) + least <= next.count(code) <= self.count(code) + most
        &&& next.count(3 - code) == self.count(3 - code)
    }

    /// `next` is this board with stones of `code` added on empty cells at place
    /// `from` of the view or behind it, or this board itself.
    pub open spec fn grows_from(self, next: EfficientPlayField, code: int, from: int) -> bool {
        forall|i: int|
            0 <= i < 24 ==> #[trigger] next@[i] == self@[i] || (from <= i && self@[i] == 0 && next@[i]
                == code)
    }

    /// A board with stones added holds more of them, unless none was added among
    /// the first `n` cells of the view: then these cells are as they were.
    pub proof fn lemma_grown_count_upto(self, next: EfficientPlayField, code: int, n: int)
        requires
            self.grows_from(next, code, 0),
            code != 0,
            0 <= n <= 24,
        ensures
            self.count_upto(code, n) <= next.count_upto(code, n),
            self.count_upto(code, n) == next.count_upto(code, n) ==> forall|i: int|
                0 <= i < n ==> #[trigger] next@[i] == self@[i],
        decreases n,
    {
        if n > 0 {
            self.lemma_grown_count_upto(next, code, n - 1);
            assert(next@[n - 1] == self@[n - 1] || (self@[n - 1] == 0 && next@[n - 1] == code));
            if self.count_upto(code, n) == next.count_upto(code, n) {
                assert forall|i: int| 0 <= i < n implies #[trigger] next@[i] == self@[i] by {}
            }
        }
    }

    /// A board with stones added that holds no more of them is the board itself.
    pub proof fn lemma_grown_same(self, next: EfficientPlayField, code: int)
        requires
            self.grows_from(next, code, 0),
            code != 0,
            next.count(code) <= self.count(code),
        ensures
            next == self,
    {
        self.lemma_grown_count_upto(next, code, 24);
        assert(next@ =~= self@);
        next.lemma_same_cells(self);
    }

    /// A board with stones added, one of them on the cell `pos`, is the board with
    /// the stone on `pos` and stones added behind `pos`.
    pub proof fn lemma_grown_behind(self, next: EfficientPlayField, code: int, pos: FieldPos)
        requires
            self.wf(),
            pos.valid(),
            code == 1 || code == 2,
            self.grows_from(next, code, pos.index()),
            self.code_at(pos) == 0,
            next.code_at(pos) == code,
        ensures
            self.with_cell(pos, code).grows_from(next, code, pos.index() + 1),
    {
        let middle = self.with_cell(pos, code);
        self.lemma_put_stone(pos, code);
        assert forall|i: int| 0 <= i < 24 implies #[trigger] next@[i] == middle@[i] || (pos.index()
            + 1 <= i && middle@[i] == 0 && next@[i] == code) by {
            assert(next@[i] == self@[i] || (pos.index() <= i && self@[i] == 0 && next@[i] == code));
        }
    }

    /// `board` is the canonical form of this board with stones of `code` added on
    /// empty cells: `least` at least, `most` at most.
    pub open spec fn is_extension_image(
        self,
        board: EfficientPlayField,
        code: int,
        least: int,
        most: int,
    ) -> bool {
        exists|next: EfficientPlayField| #[trigger]
            self.extended_by(next, code, least, most) && board == next.canonical()
    }

    /// A stone stands beside the cell `pos`.
    pub open spec fn touches_stone(self, pos: FieldPos) -> bool {
        exists|stone: FieldPos|
            stone.valid() && self.code_at(stone) != 0 && #[trigger] adjacent(stone, pos)
    }

    /// The cells of the board with a white stone on every empty cell beside a
    /// stone.
    pub open spec fn enclosed_view(self) -> Seq<int> {
        Seq::new(
            24,
            |i: int|
                if self@[i] == 0 && self.touches_stone(pos_at(i)) {
                    1
                } else {
                    self@[i]
                },
        )
    }

    /// `board` is the canonical form of a position in which Black is down to two
    /// stones.
    pub open spec fn is_reduced_image(self, max_stone_count: usize) -> bool {
        exists|origin: EfficientPlayField| #[trigger]
            origin.is_reduced_position(max_stone_count) && self == origin.canonical()
    }

    /// `board` is the canonical form of a position in which Black cannot move.
    pub open spec fn is_enclosed_image(self, max_stone_count: usize) -> bool {
        exists|origin: EfficientPlayField| #[trigger]
            origin.is_enclosed_position(max_stone_count) && self == origin.canonical()
    }

    /// The board is the canonical form of a position in which White has won
    /// already, with Black to move.
    pub open spec fn is_start_position(self, max_stone_count: usize) -> bool {
        self.is_reduced_image(max_stone_count) || self.is_enclosed_image(max_stone_count)
    }

    /// What putting a stone on an empty cell of a board without the code `0b11`
    /// does to it.
    pub proof fn lemma_put_stone(self, pos: FieldPos, code: int)
        requires
            self.wf(),
            pos.valid(),
            self.code_at(pos) == 0,
            code == 1 || code == 2,
        ensures
            self.with_cell(pos, code).wf(),
            self.with_cell(pos, code)@ == self@.update(pos.index(), code),
            self.with_cell(pos, code).count(code) == self.count(code) + 1,
            self.with_cell(pos, code).count(3 - code) == self.count(3 - code),
            self.extended_by(self.with_cell(pos, code), code, 1, 1),
    {
        let next = self.with_cell(pos, code);
        self.lemma_with_cell(pos, code);
        self.lemma_count_with_cell(pos, code, code);
        self.lemma_count_with_cell(pos, code, 3 - code);
        assert forall|i: int| 0 <= i < 24 implies #[trigger] next@[i] != 3 by {
            assert(self@[i] != 3);
        }
    }

    /// Stones added to a board with one stone added are stones added to the board.
    pub proof fn lemma_extension_step(
        self,
        middle: EfficientPlayField,
        next: EfficientPlayField,
        code: int,
        least: int,
        most: int,
    )
        requires
            self.extended_by(middle, code, 1, 1),
            middle.extended_by(next, code, least, most),
        ensures
            self.extended_by(next, code, least + 1, most + 1),
    {
        assert forall|i: int| 0 <= i < 24 implies #[trigger] next@[i] == self@[i] || (self@[i] == 0
            && next@[i] == code) by {
            assert(middle@[i] == self@[i] || (self@[i] == 0 && middle@[i] == code));
            assert(next@[i] == middle@[i] || (middle@[i] == 0 && next@[i] == code));
        }
    }

    /// Adds to `set` the canonical forms of this board with stones of
    /// `stone_color` added on empty cells from place `start_index` of the view on:
    /// with one stone, with two, and so on up to `amount_of_stones`.
    pub fn distribute_stones_and_add(
        &self,
        stone_color: PlayerColor,
        amount_of_stones: usize,
        start_index: usize,
        set: &mut CanonicalCollection,
    )
        requires
            self.wf(),
            old(set).wf(),
        ensures
            final(set).wf(),
            forall|board: EfficientPlayField| #[trigger]
                old(set)@.contains(board) ==> final(set)@.contains(board),
            forall|board: EfficientPlayField| #[trigger]
                final(set)@.contains(board) ==> old(set)@.contains(board)
                    || self.is_extension_image(
                    board,
                    stone_color.code(),
                    1,
                    amount_of_stones as int,
                ),
            forall|next: EfficientPlayField| #[trigger]
                self.grows_from(next, stone_color.code(), start_index as int) && self.count(
                    stone_color.code(),
                ) < next.count(stone_color.code()) <= self.count(stone_color.code())
                    + amount_of_stones ==> final(set)@.contains(next.canonical()),
    {
        self.distribute_more_stones(stone_color, 0, amount_of_stones, start_index, set);
    }

    /// Adds to `set` the canonical forms of this board with stones of
    /// `stone_color` added on empty cells from place `start_index` of the view on:
    /// with more than `skipped` stones, up to `amount_of_stones`.
    pub fn distribute_more_stones(
        &self,
        stone_color: PlayerColor,
        skipped: usize,
        amount_of_stones: usize,
        start_index: usize,
        set: &mut CanonicalCollection,
    )
        requires
            self.wf(),
            old(set).wf(),
            skipped <= amount_of_stones,
        ensures
            final(set).wf(),
            forall|board: EfficientPlayField| #[trigger]
                old(set)@.contains(board) ==> final(set)@.contains(board),
            forall|board: EfficientPlayField| #[trigger]
                final(set)@.contains(board) ==> old(set)@.contains(board)
                    || self.is_extension_image(
                    board,
                    stone_color.code(),
                    skipped + 1,
                    amount_of_stones as int,
                ),
            forall|next: EfficientPlayField| #[trigger]
                self.grows_from(next, stone_color.code(), start_index as int) && self.count(
                    stone_color.code(),
                ) + skipped + 1 <= next.count(stone_color.code()) <= self.count(
                    stone_color.code(),
                ) + amount_of_stones ==> final(set)@.contains(next.canonical()),
        decreases amount_of_stones,
    {
        if amount_of_stones == 0 {
            return ;
        }
        if start_index >= 24 {
            proof {
                assert forall|next: EfficientPlayField| #[trigger]
                    self.grows_from(next, stone_color.code(), start_index as int) && self.count(
                        stone_color.code(),
                    ) + skipped + 1 <= next.count(stone_color.code()) implies false by {
                    assert forall|i: int| 0 <= i < 24 implies #[trigger] next@[i] == self@[i] || (0
                        <= i && self@[i] == 0 && next@[i] == stone_color.code()) by {
                        assert(next@[i] == self@[i] || (start_index <= i && self@[i] == 0
                            && next@[i] == stone_color.code()));
                    }
                    self.lemma_grown_count_upto(next, stone_color.code(), 24);
                    assert forall|i: int| 0 <= i < 24 implies #[trigger] next@[i] == self@[i] by {
                        assert(next@[i] == self@[i] || (start_index <= i && self@[i] == 0
                            && next@[i] == stone_color.code()));
                    }
                    assert(next@ =~= self@);
                    next.lemma_same_cells(*self);
                }
            }
            return ;
        }
        let code = stone_color.to_code();
        let mut index = start_index;
        while index < 24
            invariant
                self.wf(),
                set.wf(),
                skipped <= amount_of_stones,
                amount_of_stones > 0,
                code == stone_color.code(),
                forall|board: EfficientPlayField| #[trigger]
                    old(set)@.contains(board) ==> set@.contains(board),
                forall|board: EfficientPlayField| #[trigger]
                    set@.contains(board) ==> old(set)@.contains(board) || self.is_extension_image(
                        board,
                        code as int,
                        skipped + 1,
                        amount_of_stones as int,
                    ),
                start_index <= index <= 24,
                forall|next: EfficientPlayField| #[trigger]
                    self.grows_from(next, code as int, start_index as int) && self.count(
                        code as int,
                    ) + skipped + 1 <= next.count(code as int) <= self.count(code as int)
                        + amount_of_stones && !self.grows_from(next, code as int, index as int)
                        ==> set@.contains(next.canonical()),
            decreases 24 - index,
        {
            let pos = field_pos_at(index);
            let ghost loop_start = set@;
            if self.get(pos) == 0 {
                let next = self.put(pos, code);
                let ghost before = set@;
                proof {
                    self.lemma_put_stone(pos, code as int);
                }
                if skipped == 0 {
                    set.add(next);
                }
                let ghost between = set@;
                let still_skipped = if skipped == 0 {
                    0
                } else {
                    skipped - 1
                };
                if amount_of_stones > 1 {
                    next.distribute_more_stones(
                        stone_color,
                        still_skipped,
                        amount_of_stones - 1,
                        index + 1,
                        set,
                    );
                }
                proof {
                    assert(self.step_adds(stone_color, skipped, amount_of_stones, index, set@)) by {
                        if skipped == 0 {
                            assert(between.contains(next.canonical()));
                        }
                    }
                    assert forall|board: EfficientPlayField| #[trigger]
                        old(set)@.contains(board) implies set@.contains(board) by {
                        assert(before.contains(board));
                        assert(between.contains(board));
                    }
                    assert forall|board: EfficientPlayField| #[trigger]
                        set@.contains(board) implies old(set)@.contains(board)
                        || self.is_extension_image(
                        board,
                        code as int,
                        skipped + 1,
                        amount_of_stones as int,
                    ) by {
                        if before.contains(board) {
                        } else if between.contains(board) {
                            assert(board == next.canonical() && skipped == 0);
                            assert(self.extended_by(next, code as int, 1, amount_of_stones as int));
                        } else {
                            let further = choose|further: EfficientPlayField| #[trigger]
                                next.extended_by(
                                    further,
                                    code as int,
                                    still_skipped + 1,
                                    amount_of_stones - 1,
                                ) && board == further.canonical();
                            self.lemma_extension_step(
                                next,
                                further,
                                code as int,
                                still_skipped + 1,
                                amount_of_stones - 1,
                            );
                            assert(self.extended_by(
                                further,
                                code as int,
                                skipped + 1,
                                amount_of_stones as int,
                            ));
                        }
                    }
                }
            }
            proof {
                let ghost before_step = set@;
                assert forall|next: EfficientPlayField| #[trigger]
                    self.grows_from(next, code as int, start_index as int) && self.count(
                        code as int,
                    ) + skipped + 1 <= next.count(code as int) <= self.count(code as int)
                        + amount_of_stones && !self.grows_from(
                        next,
                        code as int,
                        index + 1,
                    ) implies set@.contains(next.canonical()) by {
                    if self.grows_from(next, code as int, index as int) {
                        self.lemma_distributed(
                            next,
                            stone_color,
                            skipped,
                            amount_of_stones,
                            index,
                            loop_start,
                            set@,
                        );
                    } else {
                        assert(loop_start.contains(next.canonical()));
                    }
                }
            }
            index += 1;
        }
        proof {
            assert forall|next: EfficientPlayField| #[trigger]
                self.grows_from(next, code as int, start_index as int) && self.count(code as int)
                    + skipped + 1 <= next.count(code as int) <= self.count(code as int)
                    + amount_of_stones implies set@.contains(next.canonical()) by {
                if self.grows_from(next, code as int, 24) {
                    assert forall|i: int| 0 <= i < 24 implies #[trigger] next@[i] == self@[i] || (0
                        <= i && self@[i] == 0 && next@[i] == code) by {
                        assert(next@[i] == self@[i] || (24 <= i && self@[i] == 0 && next@[i]
                            == code));
                    }
                    self.lemma_grown_same_cells(next, code as int);
                }
            }
        }
    }

    /// A board with stones added behind the last cell is the board itself.
    pub proof fn lemma_grown_same_cells(self, next: EfficientPlayField, code: int)
        requires
            self.grows_from(next, code, 24),
        ensures
            next == self,
    {
        assert forall|i: int| 0 <= i < 24 implies #[trigger] next@[i] == self@[i] by {
            assert(next@[i] == self@[i] || (24 <= i && self@[i] == 0 && next@[i] == code));
        }
        assert(next@ =~= self@);
        next.lemma_same_cells(self);
    }

    /// What one step of the distribution adds: a board with stones added from place
    /// `index` on, one of them on that place, is in the set after the step.
    pub proof fn lemma_distributed(
        self,
        next: EfficientPlayField,
        stone_color: PlayerColor,
        skipped: usize,
        amount_of_stones: usize,
        index: usize,
        before: Set<EfficientPlayField>,
        after: Set<EfficientPlayField>,
    )
        requires
            self.wf(),
            index < 24,
            amount_of_stones > 0,
            self.grows_from(next, stone_color.code(), index as int),
            !self.grows_from(next, stone_color.code(), index + 1),
            self.count(stone_color.code()) + skipped + 1 <= next.count(stone_color.code())
                <= self.count(stone_color.code()) + amount_of_stones,
            self@[index as int] == 0 ==> self.step_adds(
                stone_color,
                skipped,
                amount_of_stones,
                index,
                after,
            ),
        ensures
            after.contains(next.canonical()),
    {
        let code = stone_color.code();
        let pos = pos_at(index as int);
        assert(self@[index as int] == 0 && next@[index as int] == code) by {
            if !(self@[index as int] == 0 && next@[index as int] == code) {
                assert forall|i: int| 0 <= i < 24 implies #[trigger] next@[i] == self@[i] || (index
                    + 1 <= i && self@[i] == 0 && next@[i] == code) by {
                    assert(next@[i] == self@[i] || (index <= i && self@[i] == 0 && next@[i]
                        == code));
                }
            }
        }
        let middle = self.with_cell(pos, code);
        self.lemma_put_stone(pos, code);
        self.lemma_grown_behind(next, code, pos);
        if next.count(code) == middle.count(code) {
            assert forall|i: int| 0 <= i < 24 implies #[trigger] next@[i] == middle@[i] || (0 <= i
                && middle@[i] == 0 && next@[i] == code) by {
                assert(next@[i] == middle@[i] || (index + 1 <= i && middle@[i] == 0 && next@[i]
                    == code));
            }
            middle.lemma_grown_same(next, code);
        }
    }

    /// What one step of the distribution puts into the set: the board with a stone
    /// on place `index`, where no stone is skipped any more, and what the
    /// distribution from that board on adds.
    pub open spec fn step_adds(
        self,
        stone_color: PlayerColor,
        skipped: usize,
        amount_of_stones: usize,
        index: usize,
        after: Set<EfficientPlayField>,
    ) -> bool {
        let code = stone_color.code();
        let middle = self.with_cell(pos_at(index as int), code);
        &&& skipped == 0 ==> after.contains(middle.canonical())
        &&& amount_of_stones > 1 ==> forall|next: EfficientPlayField| #[trigger]
            middle.grows_from(next, code, index + 1) && middle.count(code) + (if skipped == 0 {
                0int
            } else {
                skipped - 1
            }) + 1 <= next.count(code) <= middle.count(code) + amount_of_stones - 1
                ==> after.contains(next.canonical())
    }

    /// The three boards with one white mill each from which the symmetries reach
    /// every board with one white mill: the mill on the top of the outer ring, on
    /// the top of the middle ring, and across the rings at position 0.
    pub fn generate_3_canon_mills() -> (mills: Vec<EfficientPlayField>)
        ensures
            mills.len() == 3,
            forall|k: int|
                0 <= k < 3 ==> (#[trigger] mills[k]).wf() && mills[k].has_template_mill()
                    && mills[k].count(1) == 3 && mills[k].count(2) == 0 && mills[k]@
                    == template_view(k),
    {
        let mut mills: Vec<EfficientPlayField> = Vec::new();
        let cells: [(usize, u32); 9] = [
            (2, 7),
            (2, 0),
            (2, 1),
            (1, 7),
            (1, 0),
            (1, 1),
            (2, 0),
            (1, 0),
            (0, 0),
        ];
        let mut template: usize = 0;
        while template < 3
            invariant
                template <= 3,
                mills.len() == template,
                cells@ == seq![
                    (2usize, 7u32),
                    (2usize, 0u32),
                    (2usize, 1u32),
                    (1usize, 7u32),
                    (1usize, 0u32),
                    (1usize, 1u32),
                    (2usize, 0u32),
                    (1usize, 0u32),
                    (0usize, 0u32),
                ],
                forall|k: int|
                    0 <= k < template ==> (#[trigger] mills[k]).wf() && mills[k].has_template_mill()
                        && mills[k].count(1) == 3 && mills[k].count(2) == 0 && mills[k]@
                        == template_view(k),
            decreases 3 - template,
        {
            let empty = EfficientPlayField::new();
            let first = FieldPos {
                ring_index: cells[3 * template].0,
                field_index: cells[3 * template].1,
            };
            let second = FieldPos {
                ring_index: cells[3 * template + 1].0,
                field_index: cells[3 * template + 1].1,
            };
            let third = FieldPos {
                ring_index: cells[3 * template + 2].0,
                field_index: cells[3 * template + 2].1,
            };
            let one = empty.put(first, 1);
            let two = one.put(second, 1);
            let mill = two.put(third, 1);
            proof {
                empty.lemma_no_stones();
                empty.lemma_put_stone(first, 1);
                one.lemma_put_stone(second, 1);
                two.lemma_put_stone(third, 1);
                assert(mill@ =~= template_view(template as int));
            }
            mills.push(mill);
            template += 1;
        }
        mills
    }

    /// The board without stones holds no stone.
    pub proof fn lemma_no_stones(self)
        requires
            self@ == Seq::new(24, |i: int| 0int),
        ensures
            self.count(1) == 0,
            self.count(2) == 0,
    {
        self.lemma_no_stones_upto(24);
    }

    proof fn lemma_no_stones_upto(self, n: int)
        requires
            self@ == Seq::new(24, |i: int| 0int),
            0 <= n <= 24,
        ensures
            self.count_upto(1, n) == 0,
            self.count_upto(2, n) == 0,
        decreases n,
    {
        if n > 0 {
            self.lemma_no_stones_upto(n - 1);
        }
    }

    /// Adds to `set` the canonical form of this board and of this board with up to
    /// `more` white stones added on empty cells.
    pub fn add_with_more_white_stones(&self, more: usize, set: &mut CanonicalCollection)
        requires
            self.wf(),
            old(set).wf(),
        ensures
            final(set).wf(),
            forall|board: EfficientPlayField| #[trigger]
                old(set)@.contains(board) ==> final(set)@.contains(board),
            forall|board: EfficientPlayField| #[trigger]
                final(set)@.contains(board) ==> old(set)@.contains(board) || board
                    == self.canonical() || self.is_extension_image(board, 1, 1, more as int),
            forall|next: EfficientPlayField| #[trigger]
                self.grows_from(next, 1, 0) && next.count(1) <= self.count(1) + more
                    ==> final(set)@.contains(next.canonical()),
    {
        set.add(*self);
        let ghost between = set@;
        self.distribute_stones_and_add(PlayerColor::White, more, 0, set);
        proof {
            assert forall|board: EfficientPlayField| #[trigger]
                old(set)@.contains(board) implies set@.contains(board) by {
                assert(between.contains(board));
            }
            assert forall|next: EfficientPlayField| #[trigger]
                self.grows_from(next, 1, 0) && next.count(1) <= self.count(1)
                    + more implies set@.contains(next.canonical()) by {
                if next.count(1) <= self.count(1) {
                    self.lemma_grown_same(next, 1);
                    assert(between.contains(self.canonical()));
                } else {
                    assert(PlayerColor::White.code() == 1);
                    assert(self.grows_from(next, PlayerColor::White.code(), 0int));
                }
            }
        }
    }

    /// Adds to `set` the canonical forms of the positions in which Black is down
    /// to two stones: each of the three mills with two black stones on any two of
    /// the other cells, and with up to `max_stone_count - 3` more white stones on
    /// any of the cells then empty.
    pub fn generate_white_won_configurations(max_stone_count: usize, set: &mut CanonicalCollection)
        requires
            old(set).wf(),
        ensures
            final(set).wf(),
            forall|board: EfficientPlayField| #[trigger]
                old(set)@.contains(board) ==> final(set)@.contains(board),
            forall|board: EfficientPlayField| #[trigger]
                final(set)@.contains(board) ==> old(set)@.contains(board) || board.is_reduced_image(
                    max_stone_count,
                ),
            forall|origin: EfficientPlayField| #[trigger]
                origin.is_reduced_position(max_stone_count) ==> final(set)@.contains(
                    origin.canonical(),
                ),
    {
        let mills = EfficientPlayField::generate_3_canon_mills();
        let more = if max_stone_count > 3 {
            max_stone_count - 3
        } else {
            0
        };
        let mut template: usize = 0;
        while template < 3
            invariant
                template <= 3,
                mills.len() == 3,
                more == stone_limit(max_stone_count, 3) - 3,
                set.wf(),
                forall|k: int|
                    0 <= k < 3 ==> (#[trigger] mills[k]).wf() && mills[k].has_template_mill()
                        && mills[k].count(1) == 3 && mills[k].count(2) == 0 && mills[k]@
                        == template_view(k),
                forall|board: EfficientPlayField| #[trigger]
                    old(set)@.contains(board) ==> set@.contains(board),
                forall|board: EfficientPlayField| #[trigger]
                    set@.contains(board) ==> old(set)@.contains(board) || board.is_reduced_image(
                        max_stone_count,
                    ),
                forall|origin: EfficientPlayField, k: int, i: int, j: int| #[trigger]
                    origin.is_reduced_with(k, i, j, max_stone_count) && 0 <= k < template
                        ==> set@.contains(origin.canonical()),
            decreases 3 - template,
        {
            let mill = mills[template];
            let mut first: usize = 0;
            while first < 24
                invariant
                    first <= 24,
                    template < 3,
                    more == stone_limit(max_stone_count, 3) - 3,
                    set.wf(),
                    mill.wf() && mill.has_template_mill() && mill.count(1) == 3 && mill.count(2)
                        == 0 && mill@ == template_view(template as int),
                    forall|board: EfficientPlayField| #[trigger]
                        old(set)@.contains(board) ==> set@.contains(board),
                    forall|board: EfficientPlayField| #[trigger]
                        set@.contains(board) ==> old(set)@.contains(board)
                            || board.is_reduced_image(max_stone_count),
                    forall|origin: EfficientPlayField, k: int, i: int, j: int| #[trigger]
                        origin.is_reduced_with(k, i, j, max_stone_count) && (0 <= k < template || (k
                            == template && i < first)) ==> set@.contains(origin.canonical()),
                decreases 24 - first,
            {
                let first_pos = field_pos_at(first);
                if mill.get(first_pos) == 0 {
                    let one = mill.put(first_pos, 2);
                    proof {
                        mill.lemma_put_stone(first_pos, 2);
                    }
                    let mut second: usize = first + 1;
                    while second < 24
                        invariant
                            first < second <= 24,
                            template < 3,
                            more == stone_limit(max_stone_count, 3) - 3,
                            set.wf(),
                            mill.wf() && mill.has_template_mill() && mill.count(1) == 3 && mill@
                                == template_view(template as int),
                            first_pos == pos_at(first as int),
                            one == mill.with_cell(first_pos, 2),
                            one@ == mill@.update(first as int, 2),
                            mill@[first as int] == 0,
                            one.wf() && one.count(1) == 3 && one.count(2) == 1,
                            forall|board: EfficientPlayField| #[trigger]
                                old(set)@.contains(board) ==> set@.contains(board),
                            forall|board: EfficientPlayField| #[trigger]
                                set@.contains(board) ==> old(set)@.contains(board)
                                    || board.is_reduced_image(max_stone_count),
                            forall|origin: EfficientPlayField, k: int, i: int, j: int| #[trigger]
                                origin.is_reduced_with(k, i, j, max_stone_count) && (0 <= k
                                    < template || (k == template && (i < first || (i == first && j
                                    < second)))) ==> set@.contains(origin.canonical()),
                        decreases 24 - second,
                    {
                        let second_pos = field_pos_at(second);
                        let ghost before = set@;
                        if mill.get(second_pos) == 0 {
                            let config = one.put(second_pos, 2);
                            proof {
                                one.lemma_put_stone(second_pos, 2);
                                mill.lemma_template_stays(config);
                                assert(config.is_reduced_position(max_stone_count));
                            }
                            config.add_with_more_white_stones(more, set);
                            proof {
                                assert forall|board: EfficientPlayField| #[trigger]
                                    old(set)@.contains(board) implies set@.contains(board) by {
                                    assert(before.contains(board));
                                }
                                assert forall|board: EfficientPlayField| #[trigger]
                                    set@.contains(board) implies old(set)@.contains(board)
                                    || board.is_reduced_image(max_stone_count) by {
                                    if before.contains(board) {
                                    } else if board == config.canonical() {
                                    } else {
                                        let next = choose|next: EfficientPlayField| #[trigger]
                                            config.extended_by(next, 1, 1, more as int) && board
                                                == next.canonical();
                                        config.lemma_template_stays(next);
                                        assert(next.is_reduced_position(max_stone_count));
                                    }
                                }
                            }
                        }
                        proof {
                            assert forall|origin: EfficientPlayField, k: int, i: int, j: int| #[trigger]
                                origin.is_reduced_with(k, i, j, max_stone_count) && (0 <= k
                                    < template || (k == template && (i < first || (i == first && j
                                    < second + 1)))) implies set@.contains(origin.canonical()) by {
                                if k == template && i == first && j == second {
                                    assert(mill@[second as int] == 0);
                                    let config = one.with_cell(second_pos, 2);
                                    origin.lemma_reduced_grows(config, k, i, j, max_stone_count);
                                } else {
                                    assert(before.contains(origin.canonical()));
                                }
                            }
                        }
                        second += 1;
                    }
                } else {
                    proof {
                        assert forall|origin: EfficientPlayField, k: int, i: int, j: int| #[trigger]
                            origin.is_reduced_with(k, i, j, max_stone_count) && (0 <= k < template
                                || (k == template && i < first + 1)) implies set@.contains(
                            origin.canonical(),
                        ) by {
                            if k == template && i == first {
                                assert(origin@[first as int] == 1);
                            }
                        }
                    }
                }
                first += 1;
            }
            template += 1;
        }
        proof {
            assert forall|origin: EfficientPlayField| #[trigger]
                origin.is_reduced_position(max_stone_count) implies set@.contains(
                origin.canonical(),
            ) by {
                let places = origin.lemma_two_stones_upto(2, 24);
                let k = if origin.has_template(0) {
                    0int
                } else if origin.has_template(1) {
                    1int
                } else {
                    2int
                };
                assert(origin.is_reduced_with(k, places.0, places.1, max_stone_count));
            }
        }
    }

    /// A mill of the three stays where stones stay.
    pub proof fn lemma_template_stays(self, next: EfficientPlayField)
        requires
            self.has_template_mill(),
            forall|i: int| 0 <= i < 24 ==> #[trigger] next@[i] == self@[i] || self@[i] == 0,
        ensures
            next.has_template_mill(),
    {
        assert(next@[23int] == self@[23int] || self@[23int] == 0);
        assert(next@[16int] == self@[16int] || self@[16int] == 0);
        assert(next@[17int] == self@[17int] || self@[17int] == 0);
        assert(next@[15int] == self@[15int] || self@[15int] == 0);
        assert(next@[8int] == self@[8int] || self@[8int] == 0);
        assert(next@[9int] == self@[9int] || self@[9int] == 0);
        assert(next@[0int] == self@[0int] || self@[0int] == 0);
    }

    /// `next` is this board enclosed: it has a white stone on every empty cell
    /// beside a stone, and up to `more` white stones on other empty cells.
    pub open spec fn encloses(self, next: EfficientPlayField, more: int) -> bool {
        &&& next.wf()
        &&& forall|i: int|
            0 <= i < 24 ==> #[trigger] next@[i] == self.enclosed_view()[i] || (
            self.enclosed_view()[i] == 0 && next@[i] == 1)
        &&& next.count(2) == self.count(2)
        &&& next.count(1) <= self.count(1) + more
    }

    /// `board` is the canonical form of this board enclosed.
    pub open spec fn is_enclosure_image(self, board: EfficientPlayField, more: int) -> bool {
        exists|next: EfficientPlayField| #[trigger]
            self.encloses(next, more) && board == next.canonical()
    }

    /// How many of the first `n` cells of the view are empty cells beside a stone.
    pub open spec fn enclosing_count_upto(self, n: int) -> int
        decreases n,
    {
        if n <= 0 {
            0
        } else {
            self.enclosing_count_upto(n - 1) + if self@[n - 1] == 0 && self.touches_stone(
                pos_at(n - 1),
            ) {
                1int
            } else {
                0int
            }
        }
    }

    /// Whether a stone stands beside the cell `pos`.
    pub fn is_beside_stone(&self, pos: FieldPos) -> (beside: bool)
        requires
            pos.valid(),
        ensures
            beside == self.touches_stone(pos),
    {
        let mut index: usize = 0;
        while index < 24
            invariant
                index <= 24,
                pos.valid(),
                forall|stone: FieldPos|
                    stone.valid() && stone.index() < index && self.code_at(stone) != 0
                        ==> !#[trigger] adjacent(stone, pos),
            decreases 24 - index,
        {
            let stone = field_pos_at(index);
            if self.get(stone) != 0 && are_adjacent(stone, pos) {
                assert(adjacent(stone, pos));
                return true;
            }
            proof {
                assert forall|other: FieldPos|
                    other.valid() && other.index() < index + 1 && self.code_at(other)
                        != 0 implies !#[trigger] adjacent(other, pos) by {
                    lemma_index_fixes_pos(other, stone);
                }
            }
            index += 1;
        }
        false
    }

    /// The board with a white stone on every empty cell beside a stone, and the
    /// number of those stones.
    pub fn enclosed(&self) -> (result: (EfficientPlayField, usize))
        requires
            self.wf(),
        ensures
            result.0@ == self.enclosed_view(),
            result.0.wf(),
            result.1 == self.enclosing_count_upto(24),
            result.0.count(1) == self.count(1) + result.1,
            result.0.count(2) == self.count(2),
            result.1 <= 24,
    {
        let mut next = *self;
        let mut placed: usize = 0;
        let mut index: usize = 0;
        proof {
            self.lemma_view();
        }
        while index < 24
            invariant
                index <= 24,
                self.wf(),
                next.wf(),
                placed <= index,
                placed == self.enclosing_count_upto(index as int),
                next.count(1) == self.count(1) + placed,
                next.count(2) == self.count(2),
                next@.len() == 24,
                forall|i: int|
                    0 <= i < 24 ==> #[trigger] next@[i] == if i < index {
                        self.enclosed_view()[i]
                    } else {
                        self@[i]
                    },
            decreases 24 - index,
        {
            let pos = field_pos_at(index);
            if self.get(pos) == 0 && self.is_beside_stone(pos) {
                proof {
                    assert(next@[index as int] == 0);
                    next.lemma_put_stone(pos, 1);
                }
                next = next.put(pos, 1);
                placed += 1;
            }
            index += 1;
        }
        proof {
            assert(next@ =~= self.enclosed_view());
        }
        (next, placed)
    }

    /// The white stones that enclose the stones of the board, for the first `n`
    /// cells of the view: for each empty cell beside a stone its ring, and the ring
    /// word that holds a white stone on that cell alone.
    pub open spec fn placements_upto(self, n: int) -> Seq<(usize, u16)>
        decreases n,
    {
        if n <= 0 {
            Seq::empty()
        } else {
            let before = self.placements_upto(n - 1);
            let pos = pos_at(n - 1);
            if self@[n - 1] == 0 && self.touches_stone(pos) {
                before.push((pos.ring_index, with_slot(0, pos.field_index as u16, 1)))
            } else {
                before
            }
        }
    }

    /// The white stones that enclose the stones of the board, one for each empty
    /// cell beside a stone: its ring, and the ring word that holds that stone alone.
    /// The cells come in the order of the view. The board itself is left as it was.
    pub fn get_forward_move_placements(&mut self) -> (placements: Vec<(usize, u16)>)
        ensures
            *final(self) == *old(self),
            placements@ == old(self).placements_upto(24),
    {
        let mut placements: Vec<(usize, u16)> = Vec::new();
        let mut index: usize = 0;
        while index < 24
            invariant
                index <= 24,
                *self == *old(self),
                placements@ == self.placements_upto(index as int),
            decreases 24 - index,
        {
            let pos = field_pos_at(index);
            if self.get(pos) == 0 && self.is_beside_stone(pos) {
                let stone = EfficientPlayField::new().put(pos, 1);
                let mask = stone.ring_word(pos.ring_index);
                placements.push((pos.ring_index, mask));
            }
            index += 1;
        }
        placements
    }

    /// A board of black stones, enclosed, is a position in which Black cannot
    /// move.
    pub proof fn lemma_enclosed_position(self, next: EfficientPlayField, max_stone_count: usize)
        requires
            self.is_black_only(max_stone_count),
            self.encloses(next, max_stone_count as int),
        ensures
            next.is_enclosed_position(max_stone_count),
    {
        self.lemma_view();
        assert forall|stone: FieldPos, beside: FieldPos|
            stone.valid() && beside.valid() && next.code_at(stone) == 2 && #[trigger] adjacent(
                stone,
                beside,
            ) implies next.code_at(beside) != 0 by {
            let s = stone.index();
            let b = beside.index();
            assert(next@[s] == self.enclosed_view()[s] || (self.enclosed_view()[s] == 0 && next@[s]
                == 1));
            assert(next@[b] == self.enclosed_view()[b] || (self.enclosed_view()[b] == 0 && next@[b]
                == 1));
            assert(self@[s] == 2);
            lemma_index_fixes_pos(pos_at(b), beside);
            if self@[b] == 0 {
                assert(self.code_at(stone) != 0 && adjacent(stone, beside));
                assert(self.touches_stone(pos_at(b)));
            }
        }
    }

    /// Where the stones of the board can be enclosed with no more than
    /// `max_stone_count` white stones, puts a white stone on every empty cell beside
    /// a stone and adds to `set` the canonical form of that board, and of that board
    /// with up to as many more white stones on empty cells as `max_stone_count`
    /// leaves. Else the board and `set` are left as they were.
    pub fn enclose_if_possible(&mut self, max_stone_count: usize, set: &mut CanonicalCollection)
        requires
            old(self).wf(),
            old(set).wf(),
        ensures
            final(set).wf(),
            final(self).wf(),
            old(self).enclosing_count_upto(24) <= max_stone_count ==> final(self)@ == old(
                self,
            ).enclosed_view() && final(set)@.contains(final(self).canonical()),
            old(self).enclosing_count_upto(24) > max_stone_count ==> *final(self) == *old(self)
                && final(set)@ == old(set)@,
            forall|board: EfficientPlayField| #[trigger]
                old(set)@.contains(board) ==> final(set)@.contains(board),
            forall|board: EfficientPlayField| #[trigger]
                final(set)@.contains(board) ==> old(set)@.contains(board) || old(
                    self,
                ).is_enclosure_image(board, max_stone_count as int),
            old(self).enclosing_count_upto(24) <= max_stone_count ==> forall|
                next: EfficientPlayField,
            | #[trigger]
                final(self).grows_from(next, 1, 0) && next.count(1) <= old(self).count(1)
                    + max_stone_count ==> final(set)@.contains(next.canonical()),
    {
        let (enclosed, amount_of_white_moves) = self.enclosed();
        if amount_of_white_moves <= max_stone_count {
            let ghost start = *self;
            let ghost before = set@;
            *self = enclosed;
            let left_overs = max_stone_count - amount_of_white_moves;
            enclosed.add_with_more_white_stones(left_overs, set);
            proof {
                start.lemma_view();
                assert(start.encloses(enclosed, max_stone_count as int));
                enclosed.lemma_grown_same(enclosed, 1);
                assert(enclosed.grows_from(enclosed, 1, 0));
                assert forall|board: EfficientPlayField| #[trigger]
                    set@.contains(board) implies before.contains(board) || start.is_enclosure_image(
                        board,
                        max_stone_count as int,
                    ) by {
                    if before.contains(board) {
                    } else if board == enclosed.canonical() {
                    } else {
                        let next = choose|next: EfficientPlayField| #[trigger]
                            enclosed.extended_by(next, 1, 1, left_overs as int) && board
                                == next.canonical();
                        assert forall|i: int| 0 <= i < 24 implies #[trigger] next@[i]
                            == start.enclosed_view()[i] || (start.enclosed_view()[i] == 0
                            && next@[i] == 1) by {
                            assert(next@[i] == enclosed@[i] || (enclosed@[i] == 0 && next@[i]
                                == 1));
                        }
                        assert(start.encloses(next, max_stone_count as int));
                    }
                }
            }
        }
    }

    /// `board` is a position in which Black cannot move, and the canonical form of
    /// its black stones stands at place `place` of `list`.
    pub open spec fn is_enclosed_at(
        self,
        list: Seq<EfficientPlayField>,
        place: int,
        max_stone_count: usize,
    ) -> bool {
        &&& self.is_enclosed_position(max_stone_count)
        &&& 0 <= place < list.len()
        &&& list[place] == self.black_part().canonical()
    }

    /// Adds to `won_set` the canonical forms of the positions in which Black cannot
    /// move: every board of four black stones or more, up to `max_stone_count`, in
    /// its canonical form, is enclosed by white stones where `max_stone_count` of
    /// them are enough, and is filled up with the white stones that are left in
    /// every way.
    pub fn add_white_won_configurations_enclosed(
        max_stone_count: usize,
        won_set: &mut CanonicalCollection,
    )
        requires
            old(won_set).wf(),
        ensures
            final(won_set).wf(),
            forall|board: EfficientPlayField| #[trigger]
                old(won_set)@.contains(board) ==> final(won_set)@.contains(board),
            forall|board: EfficientPlayField| #[trigger]
                final(won_set)@.contains(board) ==> old(won_set)@.contains(board)
                    || board.is_enclosed_image(max_stone_count),
            forall|origin: EfficientPlayField| #[trigger]
                origin.is_enclosed_position(max_stone_count) ==> final(won_set)@.contains(
                    origin.canonical(),
                ),
    {
        let empty = EfficientPlayField::new();
        let most = if max_stone_count > 4 {
            max_stone_count
        } else {
            4
        };
        let mut black_only = CanonicalCollection::new();
        empty.distribute_more_stones(PlayerColor::Black, 3, most, 0, &mut black_only);
        proof {
            empty.lemma_no_stones();
            assert forall|origin: EfficientPlayField| #[trigger]
                origin.is_enclosed_position(max_stone_count) implies black_only@.contains(
                origin.black_part().canonical(),
            ) by {
                let part = origin.black_part();
                origin.lemma_black_part();
                assert(PlayerColor::Black.code() == 2);
                assert forall|i: int| 0 <= i < 24 implies #[trigger] part@[i] == empty@[i] || (0 <= i
                    && empty@[i] == 0 && part@[i] == 2) by {
                    assert(part@[i] == if origin@[i] == 2 {
                        2int
                    } else {
                        0int
                    });
                }
                assert(empty.grows_from(part, PlayerColor::Black.code(), 0int));
            }
        }
        let mut index: usize = 0;
        while index < black_only.boards.len()
            invariant
                index <= black_only.boards.len(),
                black_only.wf(),
                won_set.wf(),
                most == stone_limit(max_stone_count, 4),
                empty.count(1) == 0 && empty.count(2) == 0,
                forall|board: EfficientPlayField| #[trigger]
                    black_only@.contains(board) ==> empty.is_extension_image(board, 2, 4, most as int),
                forall|board: EfficientPlayField| #[trigger]
                    old(won_set)@.contains(board) ==> won_set@.contains(board),
                forall|board: EfficientPlayField| #[trigger]
                    won_set@.contains(board) ==> old(won_set)@.contains(board)
                        || board.is_enclosed_image(max_stone_count),
                forall|origin: EfficientPlayField, place: int| #[trigger]
                    origin.is_enclosed_at(black_only.boards@, place, max_stone_count) && place
                        < index ==> won_set@.contains(origin.canonical()),
            decreases black_only.boards.len() - index,
        {
            let mut playfield = black_only.boards[index];
            let ghost start = playfield;
            let ghost before = won_set@;
            proof {
                assert(black_only.boards@.contains(start));
                assert(black_only@.contains(start));
                let origin = choose|origin: EfficientPlayField| #[trigger]
                    empty.extended_by(origin, 2, 4, most as int) && start == origin.canonical();
                origin.lemma_canonical_counts();
                assert(start.is_black_only(max_stone_count));
            }
            playfield.enclose_if_possible(max_stone_count, won_set);
            proof {
                assert forall|board: EfficientPlayField| #[trigger]
                    won_set@.contains(board) implies old(won_set)@.contains(board)
                    || board.is_enclosed_image(max_stone_count) by {
                    if !before.contains(board) {
                        let next = choose|next: EfficientPlayField| #[trigger]
                            start.encloses(next, max_stone_count as int) && board
                                == next.canonical();
                        start.lemma_enclosed_position(next, max_stone_count);
                    }
                }
                assert forall|origin: EfficientPlayField, place: int| #[trigger]
                    origin.is_enclosed_at(black_only.boards@, place, max_stone_count) && place
                        < index + 1 implies won_set@.contains(origin.canonical()) by {
                    if place == index {
                        let image = origin.lemma_enclosed_image(start, max_stone_count);
                        assert(playfield@ == start.enclosed_view());
                        assert(playfield.grows_from(image, 1, 0));
                    } else {
                        assert(before.contains(origin.canonical()));
                    }
                }
            }
            index += 1;
        }
        proof {
            assert forall|origin: EfficientPlayField| #[trigger]
                origin.is_enclosed_position(max_stone_count) implies won_set@.contains(
                origin.canonical(),
            ) by {
                let start = origin.black_part().canonical();
                assert(black_only@.contains(start));
                assert(black_only.boards@.contains(start));
                let place = choose|place: int|
                    0 <= place < black_only.boards@.len() && black_only.boards@[place] == start;
                assert(origin.is_enclosed_at(black_only.boards@, place, max_stone_count));
            }
        }
    }

    /// The canonical forms of the positions in which White has won already, with
    /// Black to move: those in which Black is down to two stones, then those in
    /// which Black cannot move.
    pub fn generate_won_configs_white(max_stone_count: usize) -> (won_set: CanonicalCollection)
        ensures
            won_set.wf(),
            forall|board: EfficientPlayField| #[trigger]
                won_set@.contains(board) ==> board.is_start_position(max_stone_count),
            forall|origin: EfficientPlayField|
                #![trigger origin.is_reduced_position(max_stone_count)]
                #![trigger origin.is_enclosed_position(max_stone_count)]
                origin.is_reduced_position(max_stone_count) || origin.is_enclosed_position(
                    max_stone_count,
                ) ==> won_set@.contains(origin.canonical()),
    {
        let mut won_set = CanonicalCollection::new();
        EfficientPlayField::generate_white_won_configurations(max_stone_count, &mut won_set);
        EfficientPlayField::add_white_won_configurations_enclosed(max_stone_count, &mut won_set);
        won_set
    }
}

} // verus!
