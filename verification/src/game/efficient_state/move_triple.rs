//! Three numbers that judge a position for the side to move.
use vstd::prelude::*;

use crate::game::PlayerColor;
use crate::game::efficient_state::{field_pos_at, pos_at, EfficientPlayField};
use crate::game::efficient_state::mills::{as_count, DirectionToCheck};
use crate::game::efficient_state::rules::are_adjacent;

verus! {

broadcast use crate::game::efficient_state::lemma_board_len;

impl EfficientPlayField {
    /// `color` may move from the cell at place `pair / 24` of the view to the cell
    /// at place `pair % 24`.
    pub open spec fn is_move(self, color: PlayerColor, pair: int) -> bool {
        self.may_move(color, pos_at(pair / 24), pos_at(pair % 24))
    }

    /// `color` may move from the cell at place `pair / 24` of the view to the cell
    /// at place `pair % 24`, and the move closes a mill.
    pub open spec fn is_mill_move(self, color: PlayerColor, pair: int) -> bool {
        self.is_move(color, pair) && self.after_move(
            color,
            pos_at(pair / 24),
            pos_at(pair % 24),
        ).mills_at(pos_at(pair % 24), color.code()) > 0
    }

    /// How many of the first `n` pairs of cells are moves of `color`.
    pub open spec fn move_count_upto(self, color: PlayerColor, n: int) -> int
        decreases n,
    {
        if n <= 0 {
            0
        } else {
            self.move_count_upto(color, n - 1) + as_count(self.is_move(color, n - 1))
        }
    }

    /// How many of the first `n` pairs of cells are moves of `color` that close a
    /// mill.
    pub open spec fn mill_move_count_upto(self, color: PlayerColor, n: int) -> int
        decreases n,
    {
        if n <= 0 {
            0
        } else {
            self.mill_move_count_upto(color, n - 1) + as_count(self.is_mill_move(color, n - 1))
        }
    }

    /// How many of the first `n` cells hold a stone that `color` may take.
    pub open spec fn takeable_count_upto(self, color: PlayerColor, n: int) -> int
        decreases n,
    {
        if n <= 0 {
            0
        } else {
            self.takeable_count_upto(color, n - 1) + as_count(
                self.can_be_taken(pos_at(n - 1), color),
            )
        }
    }

    /// For `player_color` to move: the number of its moves (slides and, with
    /// exactly three stones, jumps), the number of those moves that close a mill,
    /// and the number of stones of the other side that it may take. The board
    /// itself is left as it was.
    pub fn get_move_triple(&mut self, player_color: PlayerColor) -> (triple: (u32, u32, u32))
        ensures
            *final(self) == *old(self),
            triple.0 == old(self).move_count_upto(player_color, 576),
            triple.1 == old(self).mill_move_count_upto(player_color, 576),
            triple.2 == old(self).takeable_count_upto(player_color, 24),
            triple.1 <= triple.0 <= 576,
            triple.2 <= 24,
    {
        let code = player_color.to_code();
        let jumping = self.get_stone_count_of(player_color) == 3;
        let mut moves: u32 = 0;
        let mut mill_moves: u32 = 0;
        let mut pair: usize = 0;
        while pair < 576
            invariant
                pair <= 576,
                *self == *old(self),
                code == player_color.code(),
                jumping == (self.count(code as int) == 3),
                moves == self.move_count_upto(player_color, pair as int),
                mill_moves == self.mill_move_count_upto(player_color, pair as int),
                mill_moves <= moves <= pair,
            decreases 576 - pair,
        {
            let start = field_pos_at(pair / 24);
            let target = field_pos_at(pair % 24);
            if self.get(start) == code && self.get(target) == 0 && (jumping || are_adjacent(
                start,
                target,
            )) {
                moves += 1;
                let moved = self.put(start, 0).put(target, code);
                let closed = moved.get_mill_count(
                    target.ring_index,
                    target.field_index,
                    DirectionToCheck::OnAndAcrossRings { player_color },
                );
                if closed > 0 {
                    mill_moves += 1;
                }
            }
            pair += 1;
        }
        let mut takeable: u32 = 0;
        let mut index: usize = 0;
        while index < 24
            invariant
                index <= 24,
                takeable == self.takeable_count_upto(player_color, index as int),
                takeable <= index,
            decreases 24 - index,
        {
            if self.is_takeable(field_pos_at(index), player_color) {
                takeable += 1;
            }
            index += 1;
        }
        (moves, mill_moves, takeable)
    }
}

} // verus!
