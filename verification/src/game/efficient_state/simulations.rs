//! One move of one stone, with the takes that follow where it closes a mill.
use vstd::prelude::*;

use crate::game::PlayerColor;
use crate::game::efficient_state::{EfficientPlayField, FieldPos};
use crate::game::efficient_state::field_list::{fields_get, fields_len, fields_of, FieldList};
use crate::game::efficient_state::mills::DirectionToCheck;
use crate::game::efficient_state::rules::Ply;

verus! {

broadcast use crate::game::efficient_state::lemma_board_len;

/// Where a stone goes: to a cell of its own ring, or to the cell at its position on
/// another ring.
#[derive(Debug, Clone, Copy, PartialEq, Eq, Structural)]
pub enum MoveDirection {
    OnRing { target_field_index: u32 },
    AcrossRings { target_ring_index: usize },
}

impl MoveDirection {
    /// The cell a stone on `start` goes to.
    pub open spec fn target_from(self, start: FieldPos) -> FieldPos {
        match self {
            MoveDirection::OnRing { target_field_index } => FieldPos {
                ring_index: start.ring_index,
                field_index: target_field_index,
            },
            MoveDirection::AcrossRings { target_ring_index } => FieldPos {
                ring_index: target_ring_index,
                field_index: start.field_index,
            },
        }
    }
}

impl EfficientPlayField {
    /// The boards that the move from `start` to `target` leads to: where it closes
    /// a mill, one board for each cell of `takes`, with the stone there taken, in
    /// the order of `takes`; else the one board after the move.
    pub open spec fn move_results(
        self,
        color: PlayerColor,
        start: FieldPos,
        target: FieldPos,
        takes: Seq<FieldPos>,
    ) -> Seq<EfficientPlayField> {
        let moved = self.after_move(color, start, target);
        if moved.mills_at(target, color.code()) > 0 {
            Seq::new(takes.len(), |k: int| moved.with_cell(takes[k], 0))
        } else {
            seq![moved]
        }
    }

    /// Where `takes` holds the stones that `color` may take, the results of a move
    /// that `color` may make are the boards that its legal plies with that move
    /// lead to.
    pub proof fn lemma_move_results(
        self,
        color: PlayerColor,
        start: FieldPos,
        target: FieldPos,
        takes: Seq<FieldPos>,
    )
        requires
            self.may_move(color, start, target),
            forall|pos: FieldPos|
                #![trigger takes.contains(pos)]
                #![trigger self.can_be_taken(pos, color)]
                takes.contains(pos) <==> self.can_be_taken(pos, color),
            takes.no_duplicates(),
        ensures
            forall|k: int|
                0 <= k < self.move_results(color, start, target, takes).len() ==> self.reaches(
                    color,
                    #[trigger] self.move_results(color, start, target, takes)[k],
                ) && self.reaches_before(
                    color,
                    self.move_results(color, start, target, takes)[k],
                    start.index(),
                    target.index() + 1,
                ),
            self.move_results(color, start, target, takes).no_duplicates(),
            forall|ply: Ply|
                #[trigger] self.legal(color, ply) && ply.start == start && ply.target == target
                    ==> self.move_results(color, start, target, takes).contains(
                    self.after(color, ply),
                ),
    {
        let results = self.move_results(color, start, target, takes);
        let moved = self.after_move(color, start, target);
        assert forall|k: int| 0 <= k < results.len() implies self.reaches(
            color,
            #[trigger] results[k],
        ) && self.reaches_before(color, results[k], start.index(), target.index() + 1) by {
            let ply = if moved.mills_at(target, color.code()) > 0 {
                assert(takes.contains(takes[k]));
                Ply { start, target, taken: Some(takes[k]) }
            } else {
                Ply { start, target, taken: None }
            };
            assert(self.legal(color, ply) && self.after(color, ply) == results[k]);
        }
        assert forall|i: int, j: int|
            0 <= i < results.len() && 0 <= j < results.len() && i != j implies results[i]
            != results[j] by {
            assert(moved.mills_at(target, color.code()) > 0);
            assert(takes.contains(takes[i]) && takes.contains(takes[j]));
            let first = Ply { start, target, taken: Some(takes[i]) };
            let second = Ply { start, target, taken: Some(takes[j]) };
            assert(self.legal(color, first) && self.after(color, first) == results[i]);
            assert(self.legal(color, second) && self.after(color, second) == results[j]);
            if results[i] == results[j] {
                self.lemma_after_fixes_ply(color, first, second);
            }
        }
        assert forall|ply: Ply|
            #[trigger] self.legal(color, ply) && ply.start == start && ply.target
                == target implies results.contains(self.after(color, ply)) by {
            match ply.taken {
                Some(taken) => {
                    assert(takes.contains(taken));
                    let k = choose|k: int| 0 <= k < takes.len() && takes[k] == taken;
                    assert(results[k] == self.after(color, ply));
                },
                None => {
                    assert(results[0] == self.after(color, ply));
                },
            }
        }
    }

    /// Simulates the move of the stone of `color` on the cell at `start_ring_index`
    /// and `start_fields_index` in `direction`, and gives the number of mills of
    /// `color` through the cell where the stone then stands. The board itself is left
    /// as it was.
    pub fn simulate_move_get_mill_count(
        &mut self,
        start_ring_index: usize,
        start_fields_index: u32,
        direction: MoveDirection,
        color: PlayerColor,
    ) -> (mills: u32)
        requires
            start_ring_index < 3,
            start_fields_index < 8,
            direction.target_from(
                FieldPos { ring_index: start_ring_index, field_index: start_fields_index },
            ).valid(),
        ensures
            *final(self) == *old(self),
            mills == old(self).after_move(
                color,
                FieldPos { ring_index: start_ring_index, field_index: start_fields_index },
                direction.target_from(
                    FieldPos { ring_index: start_ring_index, field_index: start_fields_index },
                ),
            ).mills_at(
                direction.target_from(
                    FieldPos { ring_index: start_ring_index, field_index: start_fields_index },
                ),
                color.code(),
            ),
            mills <= 2,
    {
        let start = FieldPos { ring_index: start_ring_index, field_index: start_fields_index };
        let target = match direction {
            MoveDirection::OnRing { target_field_index } => FieldPos {
                ring_index: start_ring_index,
                field_index: target_field_index,
            },
            MoveDirection::AcrossRings { target_ring_index } => FieldPos {
                ring_index: target_ring_index,
                field_index: start_fields_index,
            },
        };
        let moved = self.put(start, 0).put(target, color.to_code());
        moved.get_mill_count(
            target.ring_index,
            target.field_index,
            DirectionToCheck::OnAndAcrossRings { player_color: color },
        )
    }

    /// Adds to `simulated_playfields` one board for each cell of `fields_to_take`:
    /// this board with the stone on that cell taken.
    pub fn add_simulated_takes(
        &self,
        simulated_playfields: &mut Vec<EfficientPlayField>,
        fields_to_take: &FieldList,
    )
        requires
            forall|k: int| 0 <= k < fields_of(*fields_to_take).len() ==> (#[trigger] fields_of(*fields_to_take)[k]).valid(),
        ensures
            final(simulated_playfields)@ == old(simulated_playfields)@ + Seq::new(
                fields_of(*fields_to_take).len(),
                |k: int| self.with_cell(fields_of(*fields_to_take)[k], 0),
            ),
    {
        let mut index: usize = 0;
        let amount = fields_len(fields_to_take);
        while index < amount
            invariant
                amount == fields_of(*fields_to_take).len(),
                index <= amount,
                forall|k: int|
                    0 <= k < fields_of(*fields_to_take).len() ==> (#[trigger] fields_of(
                        *fields_to_take,
                    )[k]).valid(),
                simulated_playfields@ == old(simulated_playfields)@ + Seq::new(
                    index as nat,
                    |k: int| self.with_cell(fields_of(*fields_to_take)[k], 0),
                ),
            decreases amount - index,
        {
            let taken = self.put(fields_get(fields_to_take, index), 0);
            simulated_playfields.push(taken);
            index += 1;
            assert(simulated_playfields@ =~= old(simulated_playfields)@ + Seq::new(
                index as nat,
                |k: int| self.with_cell(fields_of(*fields_to_take)[k], 0),
            ));
        }
    }

    /// Adds to `simulated_playfields` the boards that the move of the stone of
    /// `color` from `start` to `target` leads to.
    pub fn add_simulated_moves(
        &self,
        start: FieldPos,
        target: FieldPos,
        color: PlayerColor,
        simulated_playfields: &mut Vec<EfficientPlayField>,
        fields_to_take: &FieldList,
    )
        requires
            start.valid(),
            target.valid(),
            forall|k: int| 0 <= k < fields_of(*fields_to_take).len() ==> (#[trigger] fields_of(*fields_to_take)[k]).valid(),
        ensures
            final(simulated_playfields)@ == old(simulated_playfields)@ + self.move_results(
                color,
                start,
                target,
                fields_of(*fields_to_take),
            ),
    {
        let moved = self.put(start, 0).put(target, color.to_code());
        let mills = moved.get_mill_count(
            target.ring_index,
            target.field_index,
            DirectionToCheck::OnAndAcrossRings { player_color: color },
        );
        if mills > 0 {
            moved.add_simulated_takes(simulated_playfields, fields_to_take);
            assert(Seq::new(
                fields_of(*fields_to_take).len(),
                |k: int| moved.with_cell(fields_of(*fields_to_take)[k], 0),
            ) =~= self.move_results(color, start, target, fields_of(*fields_to_take)));
        } else {
            simulated_playfields.push(moved);
            assert(simulated_playfields@ =~= old(simulated_playfields)@ + self.move_results(
                color,
                start,
                target,
                fields_of(*fields_to_take),
            ));
        }
    }

    /// Simulates the move of the stone of `color` on `start` in `direction`, with
    /// what follows from it: adds to `simulated_playfields` the board after the move
    /// or, where the move closes a mill, one board for each cell of
    /// `fields_to_take`, with the stone there taken. The board itself is left as it
    /// was.
    pub fn simulate_all_possible_moves(
        &mut self,
        fields_to_take: &FieldList,
        start: FieldPos,
        direction: MoveDirection,
        color: PlayerColor,
        simulated_playfields: &mut Vec<EfficientPlayField>,
    )
        requires
            start.valid(),
            direction.target_from(start).valid(),
            forall|k: int| 0 <= k < fields_of(*fields_to_take).len() ==> (#[trigger] fields_of(*fields_to_take)[k]).valid(),
        ensures
            *final(self) == *old(self),
            final(simulated_playfields)@ == old(simulated_playfields)@ + old(self).move_results(
                color,
                start,
                direction.target_from(start),
                fields_of(*fields_to_take),
            ),
    {
        let target = match direction {
            MoveDirection::OnRing { target_field_index } => FieldPos {
                ring_index: start.ring_index,
                field_index: target_field_index,
            },
            MoveDirection::AcrossRings { target_ring_index } => FieldPos {
                ring_index: target_ring_index,
                field_index: start.field_index,
            },
        };
        self.add_simulated_moves(start, target, color, simulated_playfields, fields_to_take);
    }
}

} // verus!
