//! One move taken back, with the stone that it took put back on the board.
use vstd::prelude::*;

use crate::game::PlayerColor;
use crate::game::efficient_state::{field_pos_at, EfficientPlayField, FieldPos};
use crate::game::efficient_state::mills::DirectionToCheck;
use crate::game::efficient_state::rules::{
    adjacent, lemma_index_fixes_pos, lemma_push_contains, Ply,
};
use crate::game::efficient_state::simulations::MoveDirection;

verus! {

broadcast use crate::game::efficient_state::lemma_board_len;

impl EfficientPlayField {
    /// On this board `color` may just have moved a stone from `start` to `target`:
    /// the stone stands on `target`, `start` is empty, and the cells are joined or
    /// `color` has exactly three stones.
    pub open spec fn may_have_moved(
        self,
        color: PlayerColor,
        start: FieldPos,
        target: FieldPos,
    ) -> bool {
        &&& start.valid()
        &&& target.valid()
        &&& self.code_at(target) == color.code()
        &&& self.code_at(start) == 0
        &&& adjacent(start, target) || self.count(color.code()) == 3
    }

    /// The board with the stone of `color` on `target` back on `start`.
    pub open spec fn before_move(
        self,
        color: PlayerColor,
        start: FieldPos,
        target: FieldPos,
    ) -> EfficientPlayField {
        self.with_cell(target, 0).with_cell(start, color.code())
    }

    /// The board with a stone of the other side than `color` put on `place`.
    pub open spec fn with_restored(self, color: PlayerColor, place: FieldPos) -> EfficientPlayField {
        self.with_cell(place, color.other().code())
    }

    /// A stone that `color` took with its move to `vacated` may have stood on
    /// `place`: the cell is empty and is not `vacated`, and a stone of the other
    /// side there is one that `color` may take.
    pub open spec fn restores(self, vacated: FieldPos, color: PlayerColor, place: FieldPos) -> bool {
        &&& place.valid()
        &&& self.code_at(place) == 0
        &&& place != vacated
        &&& self.with_restored(color, place).can_be_taken(place, color)
    }

    /// `previous` is this board with a taken stone put back, on one of the first
    /// `n` cells of the view.
    pub open spec fn is_placement_upto(
        self,
        vacated: FieldPos,
        color: PlayerColor,
        previous: EfficientPlayField,
        n: int,
    ) -> bool {
        exists|place: FieldPos|
            #[trigger] self.restores(vacated, color, place) && place.index() < n && previous
                == self.with_restored(color, place)
    }

    /// `previous` is this board with a taken stone put back.
    pub open spec fn is_placement(
        self,
        vacated: FieldPos,
        color: PlayerColor,
        previous: EfficientPlayField,
    ) -> bool {
        self.is_placement_upto(vacated, color, previous, 24)
    }

    /// One legal ply of `color` leads from this board to `next`, from `start` to
    /// `target`.
    pub open spec fn reaches_by(
        self,
        color: PlayerColor,
        next: EfficientPlayField,
        start: FieldPos,
        target: FieldPos,
    ) -> bool {
        exists|ply: Ply|
            #[trigger] self.legal(color, ply) && self.after(color, ply) == next && ply.start
                == start && ply.target == target
    }

    /// A legal ply that leads to this board can be read off this board.
    pub proof fn lemma_ply_back(
        self,
        color: PlayerColor,
        previous: EfficientPlayField,
        ply: Ply,
    )
        requires
            previous.legal(color, ply),
            previous.after(color, ply) == self,
        ensures
            self.may_have_moved(color, ply.start, ply.target),
            ply.taken is None ==> self.mills_at(ply.target, color.code()) == 0 && previous
                == self.before_move(color, ply.start, ply.target),
            ply.taken is Some ==> self.mills_at(ply.target, color.code()) > 0
                && self.before_move(color, ply.start, ply.target).restores(
                ply.target,
                color,
                ply.taken->0,
            ) && previous == self.before_move(color, ply.start, ply.target).with_restored(
                color,
                ply.taken->0,
            ),
    {
        let code = color.code();
        let other = color.other().code();
        let moved = previous.after_move(color, ply.start, ply.target);
        let origin = self.before_move(color, ply.start, ply.target);
        self.lemma_mills_range(ply.target.ring_index as int, ply.target.field_index as int, code);
        previous.lemma_with_cell(ply.start, 0);
        previous.with_cell(ply.start, 0).lemma_with_cell(ply.target, code);
        previous.lemma_count_with_cell(ply.start, 0, code);
        previous.with_cell(ply.start, 0).lemma_count_with_cell(ply.target, code, code);
        self.lemma_with_cell(ply.target, 0);
        self.with_cell(ply.target, 0).lemma_with_cell(ply.start, code);
        previous.lemma_view();
        self.lemma_view();
        match ply.taken {
            None => {
                assert(origin@ =~= previous@);
                origin.lemma_same_cells(previous);
            },
            Some(taken) => {
                moved.lemma_with_cell(taken, 0);
                moved.lemma_count_with_cell(taken, 0, code);
                origin.lemma_with_cell(taken, other);
                let restored = origin.with_restored(color, taken);
                assert(restored@ =~= previous@);
                restored.lemma_same_cells(previous);
                assert forall|i: int| 0 <= i < 24 implies (#[trigger] moved@[i] == code) == (self@[i]
                    == code) by {}
                moved.lemma_mills_same_stones(self, code);
                assert(moved.mills_at(ply.target, code) == self.mills_at(ply.target, code));
            },
        }
    }

    /// A move taken back, with the taken stone put back where the move closed a
    /// mill, gives a board from which one legal ply leads to this board.
    pub proof fn lemma_ply_forth(
        self,
        color: PlayerColor,
        start: FieldPos,
        target: FieldPos,
        place: Option<FieldPos>,
    )
        requires
            self.may_have_moved(color, start, target),
            match place {
                None => self.mills_at(target, color.code()) == 0,
                Some(place) => self.mills_at(target, color.code()) > 0 && self.before_move(
                    color,
                    start,
                    target,
                ).restores(target, color, place),
            },
        ensures
            match place {
                None => self.before_move(color, start, target),
                Some(place) => self.before_move(color, start, target).with_restored(color, place),
            }.reaches(color, self),
            match place {
                None => self.before_move(color, start, target),
                Some(place) => self.before_move(color, start, target).with_restored(color, place),
            }.reaches_by(color, self, start, target),
    {
        let code = color.code();
        let other = color.other().code();
        let origin = self.before_move(color, start, target);
        self.lemma_with_cell(target, 0);
        self.with_cell(target, 0).lemma_with_cell(start, code);
        self.lemma_count_with_cell(target, 0, code);
        self.with_cell(target, 0).lemma_count_with_cell(start, code, code);
        self.lemma_view();
        let ply = Ply { start, target, taken: place };
        match place {
            None => {
                origin.lemma_with_cell(start, 0);
                origin.with_cell(start, 0).lemma_with_cell(target, code);
                let moved = origin.after_move(color, start, target);
                assert(moved@ =~= self@);
                moved.lemma_same_cells(self);
                assert(origin.legal(color, ply) && origin.after(color, ply) == self);
            },
            Some(place) => {
                let previous = origin.with_restored(color, place);
                origin.lemma_with_cell(place, other);
                origin.lemma_count_with_cell(place, other, code);
                previous.lemma_with_cell(start, 0);
                previous.with_cell(start, 0).lemma_with_cell(target, code);
                let moved = previous.after_move(color, start, target);
                moved.lemma_with_cell(place, 0);
                assert(moved.with_cell(place, 0)@ =~= self@);
                moved.with_cell(place, 0).lemma_same_cells(self);
                assert forall|i: int| 0 <= i < 24 implies (#[trigger] moved@[i] == code) == (self@[i]
                    == code) by {}
                moved.lemma_mills_same_stones(self, code);
                assert(moved.mills_at(target, code) == self.mills_at(target, code));
                assert(previous.legal(color, ply) && previous.after(color, ply) == self);
            },
        }
    }

    /// Adds to `simulated_playfields` this board with a stone of the other side put
    /// back on each empty cell where `player_color` may have taken it with a move to
    /// `start`: on any empty cell but `start`, where the stone put back is one that
    /// `player_color` may take.
    pub fn add_simulated_placements(
        &self,
        start: FieldPos,
        player_color: PlayerColor,
        simulated_playfields: &mut Vec<EfficientPlayField>,
    )
        ensures
            forall|previous: EfficientPlayField|
                #![trigger final(simulated_playfields)@.contains(previous)]
                #![trigger self.is_placement(start, player_color, previous)]
                final(simulated_playfields)@.contains(previous) <==> old(
                    simulated_playfields,
                )@.contains(previous) || self.is_placement(start, player_color, previous),
            old(simulated_playfields)@.len() <= final(simulated_playfields)@.len(),
            final(simulated_playfields)@.subrange(0, old(simulated_playfields)@.len() as int) == old(
                simulated_playfields,
            )@,
            final(simulated_playfields)@.subrange(
                old(simulated_playfields)@.len() as int,
                final(simulated_playfields)@.len() as int,
            ).no_duplicates(),
            forall|k: int|
                old(simulated_playfields)@.len() <= k < final(simulated_playfields)@.len()
                    ==> self.is_placement(start, player_color, #[trigger] final(simulated_playfields)@[k]),
    {
        let other = player_color.opponent().to_code();
        let mut index: usize = 0;
        proof {
            assert(simulated_playfields@.subrange(0, old(simulated_playfields)@.len() as int)
                =~= old(simulated_playfields)@);
        }
        while index < 24
            invariant
                index <= 24,
                other == player_color.other().code(),
                old(simulated_playfields)@.len() <= simulated_playfields@.len(),
                simulated_playfields@.subrange(0, old(simulated_playfields)@.len() as int) == old(
                    simulated_playfields,
                )@,
                simulated_playfields@.subrange(
                    old(simulated_playfields)@.len() as int,
                    simulated_playfields@.len() as int,
                ).no_duplicates(),
                forall|k: int|
                    old(simulated_playfields)@.len() <= k < simulated_playfields@.len()
                        ==> self.is_placement_upto(
                        start,
                        player_color,
                        #[trigger] simulated_playfields@[k],
                        index as int,
                    ),
                forall|previous: EfficientPlayField|
                    #![trigger simulated_playfields@.contains(previous)]
                    #![trigger self.is_placement_upto(start, player_color, previous, index as int)]
                    simulated_playfields@.contains(previous) <==> old(
                        simulated_playfields,
                    )@.contains(previous) || self.is_placement_upto(
                        start,
                        player_color,
                        previous,
                        index as int,
                    ),
            decreases 24 - index,
        {
            let place = field_pos_at(index);
            let ghost before = simulated_playfields@;
            let mut pushed = false;
            if self.get(place) == 0 && !(place.ring_index == start.ring_index && place.field_index
                == start.field_index) {
                let restored = self.put(place, other);
                if restored.is_takeable(place, player_color) {
                    proof {
                        lemma_push_contains(simulated_playfields@, restored);
                        self.lemma_with_cell(place, other as int);
                        let first = old(simulated_playfields)@.len() as int;
                        let added = simulated_playfields@.subrange(
                            first,
                            simulated_playfields@.len() as int,
                        );
                        assert forall|k: int| 0 <= k < added.len() implies added[k] != restored by {
                            assert(added[k] == simulated_playfields@[first + k]);
                            let witness = choose|witness: FieldPos|
                                #[trigger] self.restores(start, player_color, witness)
                                    && witness.index() < index && simulated_playfields@[first + k]
                                    == self.with_restored(player_color, witness);
                            self.lemma_with_cell(witness, other as int);
                            assert(added[k]@[index as int] == 0);
                            assert(restored@[index as int] == other);
                        }
                        assert(simulated_playfields@.push(restored).subrange(
                            first,
                            simulated_playfields@.len() as int + 1,
                        ) =~= added.push(restored));
                        assert(simulated_playfields@.push(restored).subrange(0, first)
                            =~= simulated_playfields@.subrange(0, first));
                    }
                    simulated_playfields.push(restored);
                    pushed = true;
                }
            }
            proof {
                assert(pushed == self.restores(start, player_color, place));
                assert forall|k: int|
                    old(simulated_playfields)@.len() <= k < simulated_playfields@.len()
                        implies self.is_placement_upto(
                    start,
                    player_color,
                    #[trigger] simulated_playfields@[k],
                    index + 1,
                ) by {
                    if k < before.len() {
                        assert(simulated_playfields@[k] == before[k]);
                        let witness = choose|witness: FieldPos|
                            #[trigger] self.restores(start, player_color, witness)
                                && witness.index() < index && before[k] == self.with_restored(
                                player_color,
                                witness,
                            );
                        assert(self.restores(start, player_color, witness) && witness.index()
                            < index + 1);
                    } else {
                        assert(self.restores(start, player_color, place) && place.index() < index
                            + 1);
                    }
                }
                assert forall|previous: EfficientPlayField|
                    #![trigger simulated_playfields@.contains(previous)]
                    #![trigger self.is_placement_upto(start, player_color, previous, index + 1)]
                    simulated_playfields@.contains(previous) <==> old(
                        simulated_playfields,
                    )@.contains(previous) || self.is_placement_upto(
                        start,
                        player_color,
                        previous,
                        index + 1,
                    ) by {
                    assert(before.contains(previous) <==> old(simulated_playfields)@.contains(
                        previous,
                    ) || self.is_placement_upto(start, player_color, previous, index as int));
                    if self.is_placement_upto(start, player_color, previous, index + 1) {
                        let witness = choose|witness: FieldPos|
                            #[trigger] self.restores(start, player_color, witness)
                                && witness.index() < index + 1 && previous == self.with_restored(
                                player_color,
                                witness,
                            );
                        lemma_index_fixes_pos(witness, place);
                    }
                    if pushed && previous == self.with_restored(player_color, place) {
                        assert(self.is_placement_upto(start, player_color, previous, index + 1));
                    }
                    if self.is_placement_upto(start, player_color, previous, index as int) {
                        let witness = choose|witness: FieldPos|
                            #[trigger] self.restores(start, player_color, witness)
                                && witness.index() < index && previous == self.with_restored(
                                player_color,
                                witness,
                            );
                        assert(self.is_placement_upto(start, player_color, previous, index + 1));
                    }
                }
            }
            index += 1;
        }
    }

    /// Takes back the move of the stone of `player_color` that stands on `start`,
    /// in `direction`, and adds the boards before that move to
    /// `simulated_playfields`: the board with the stone moved back or, where the
    /// stone stands in a mill, that board with a taken stone put back, once for each
    /// cell where it may have stood. The board itself is left as it was.
    pub fn simulate_backward_move_get_playfields(
        &mut self,
        start: FieldPos,
        direction: MoveDirection,
        player_color: PlayerColor,
        simulated_playfields: &mut Vec<EfficientPlayField>,
    )
        requires
            start.valid(),
            direction.target_from(start).valid(),
        ensures
            *final(self) == *old(self),
            forall|previous: EfficientPlayField|
                #![trigger final(simulated_playfields)@.contains(previous)]
                final(simulated_playfields)@.contains(previous) <==> old(
                    simulated_playfields,
                )@.contains(previous) || old(self).is_origin(
                    player_color,
                    direction.target_from(start),
                    start,
                    previous,
                ),
    {
        let origin_cell = match direction {
            MoveDirection::OnRing { target_field_index } => FieldPos {
                ring_index: start.ring_index,
                field_index: target_field_index,
            },
            MoveDirection::AcrossRings { target_ring_index } => FieldPos {
                ring_index: target_ring_index,
                field_index: start.field_index,
            },
        };
        self.add_origins(origin_cell, start, player_color, simulated_playfields);
    }

    /// `previous` is this board with the stone of `color` on `target` moved back to
    /// `start` and, where that stone stands in a mill, a taken stone put back.
    pub open spec fn is_origin(
        self,
        color: PlayerColor,
        start: FieldPos,
        target: FieldPos,
        previous: EfficientPlayField,
    ) -> bool {
        let origin = self.before_move(color, start, target);
        if self.mills_at(target, color.code()) == 0 {
            previous == origin
        } else {
            origin.is_placement(target, color, previous)
        }
    }

    /// Adds to `simulated_playfields` the boards from which the move of the stone
    /// of `player_color` from `start` to `target` leads to this board.
    pub fn add_origins(
        &self,
        start: FieldPos,
        target: FieldPos,
        player_color: PlayerColor,
        simulated_playfields: &mut Vec<EfficientPlayField>,
    )
        requires
            start.valid(),
            target.valid(),
        ensures
            forall|previous: EfficientPlayField|
                #![trigger final(simulated_playfields)@.contains(previous)]
                final(simulated_playfields)@.contains(previous) <==> old(
                    simulated_playfields,
                )@.contains(previous) || self.is_origin(player_color, start, target, previous),
            old(simulated_playfields)@.len() <= final(simulated_playfields)@.len(),
            final(simulated_playfields)@.subrange(0, old(simulated_playfields)@.len() as int) == old(
                simulated_playfields,
            )@,
            final(simulated_playfields)@.subrange(
                old(simulated_playfields)@.len() as int,
                final(simulated_playfields)@.len() as int,
            ).no_duplicates(),
            forall|k: int|
                old(simulated_playfields)@.len() <= k < final(simulated_playfields)@.len()
                    ==> self.is_origin(
                    player_color,
                    start,
                    target,
                    #[trigger] final(simulated_playfields)@[k],
                ),
    {
        let mills = self.get_mill_count(
            target.ring_index,
            target.field_index,
            DirectionToCheck::OnAndAcrossRings { player_color },
        );
        let origin = self.put(target, 0).put(start, player_color.to_code());
        if mills == 0 {
            proof {
                lemma_push_contains(simulated_playfields@, origin);
                let first = simulated_playfields@.len() as int;
                assert(simulated_playfields@.push(origin).subrange(0, first) =~= simulated_playfields@);
                assert(simulated_playfields@.push(origin).subrange(first, first + 1) =~= seq![origin]);
            }
            simulated_playfields.push(origin);
        } else {
            origin.add_simulated_placements(target, player_color, simulated_playfields);
        }
    }
}

} // verus!
