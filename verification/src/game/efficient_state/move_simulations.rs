//! The move generators: the boards one ply after a board, and one ply before it.
use vstd::prelude::*;

use crate::game::PlayerColor;
use crate::game::efficient_state::{field_pos_at, EfficientPlayField, FieldPos};
use crate::game::efficient_state::field_list::fields_of;
use crate::game::efficient_state::rules::{
    are_adjacent, lemma_concat_contains, lemma_index_fixes_pos, Ply,
};

verus! {

broadcast use crate::game::efficient_state::lemma_board_len;

impl EfficientPlayField {
    /// The boards that `player_color` reaches from this board by one legal ply.
    /// A ply is a slide to an empty cell joined to the stone's cell or, where
    /// `player_color` has exactly three stones, a jump to any empty cell. A ply that
    /// closes a mill also takes one stone of the other side, and each stone that
    /// may be taken gives a board of its own. The board itself is left as it was.
    pub fn get_forward_moves(&mut self, player_color: PlayerColor) -> (moves: Vec<
        EfficientPlayField,
    >)
        ensures
            *final(self) == *old(self),
            forall|next: EfficientPlayField|
                #![trigger moves@.contains(next)]
                #![trigger old(self).reaches(player_color, next)]
                moves@.contains(next) <==> old(self).reaches(player_color, next),
            moves@.no_duplicates(),
            old(self).wf() ==> forall|k: int| 0 <= k < moves.len() ==> (#[trigger] moves[k]).wf(),
    {
        let fields_to_take = self.get_fields_to_take(player_color);
        let jumping = self.get_stone_count_of(player_color) == 3;
        let code = player_color.to_code();
        let mut moves: Vec<EfficientPlayField> = Vec::new();
        let mut from: usize = 0;
        while from < 24
            invariant
                from <= 24,
                *self == *old(self),
                code == player_color.code(),
                jumping == (self.count(code as int) == 3),
                forall|pos: FieldPos|
                    #![trigger fields_of(fields_to_take).contains(pos)]
                    #![trigger self.can_be_taken(pos, player_color)]
                    fields_of(fields_to_take).contains(pos) <==> self.can_be_taken(pos, player_color),
                fields_of(fields_to_take).no_duplicates(),
                moves@.no_duplicates(),
                forall|k: int|
                    0 <= k < moves.len() ==> self.reaches(player_color, #[trigger] moves[k])
                        && self.reaches_before(player_color, moves[k], from as int, 0),
                forall|ply: Ply|
                    #[trigger] self.legal(player_color, ply) && ply.start.index() < from
                        ==> moves@.contains(self.after(player_color, ply)),
            decreases 24 - from,
        {
            let start = field_pos_at(from);
            if self.get(start) == code {
                let mut to: usize = 0;
                while to < 24
                    invariant
                        to <= 24,
                        from < 24,
                        *self == *old(self),
                        start == crate::game::efficient_state::pos_at(from as int),
                        start.valid(),
                        self.code_at(start) == code,
                        code == player_color.code(),
                        jumping == (self.count(code as int) == 3),
                        forall|pos: FieldPos|
                            #![trigger fields_of(fields_to_take).contains(pos)]
                            #![trigger self.can_be_taken(pos, player_color)]
                            fields_of(fields_to_take).contains(pos) <==> self.can_be_taken(pos, player_color),
                        fields_of(fields_to_take).no_duplicates(),
                        moves@.no_duplicates(),
                        forall|k: int|
                            0 <= k < moves.len() ==> self.reaches(player_color, #[trigger] moves[k])
                                && self.reaches_before(player_color, moves[k], from as int, to as int),
                        forall|ply: Ply|
                            #[trigger] self.legal(player_color, ply) && (ply.start.index() < from
                                || (ply.start.index() == from && ply.target.index() < to))
                                ==> moves@.contains(self.after(player_color, ply)),
                    decreases 24 - to,
                {
                    let target = field_pos_at(to);
                    let ghost before = moves@;
                    let may_move = self.get(target) == 0 && (jumping || are_adjacent(
                        start,
                        target,
                    ));
                    if may_move {
                        proof {
                            assert forall|k: int|
                                0 <= k < fields_of(fields_to_take).len() implies (#[trigger] fields_of(
                                fields_to_take,
                            )[k]).valid() by {
                                assert(fields_of(fields_to_take).contains(
                                    fields_of(fields_to_take)[k],
                                ));
                            }
                            self.lemma_move_results(player_color, start, target, fields_of(fields_to_take));
                        }
                        self.add_simulated_moves(
                            start,
                            target,
                            player_color,
                            &mut moves,
                            &fields_to_take,
                        );
                    }
                    proof {
                        let added = moves@.subrange(before.len() as int, moves.len() as int);
                        assert(moves@ =~= before + added);
                        lemma_concat_contains(before, added);
                        assert forall|k: int| 0 <= k < moves.len() implies self.reaches(
                            player_color,
                            #[trigger] moves[k],
                        ) && self.reaches_before(player_color, moves[k], from as int, to + 1) by {
                            if k < before.len() {
                                assert(moves[k] == before[k]);
                                let ply = choose|ply: Ply|
                                    #[trigger] self.legal(player_color, ply) && self.after(
                                        player_color,
                                        ply,
                                    ) == before[k] && (ply.start.index() < from || (
                                    ply.start.index() == from && ply.target.index() < to));
                                assert(self.legal(player_color, ply) && self.after(player_color, ply)
                                    == moves[k] && (ply.start.index() < from || (ply.start.index()
                                    == from && ply.target.index() < to + 1)));
                            } else {
                                assert(moves[k] == added[k - before.len()]);
                            }
                        }
                        assert forall|i: int, j: int|
                            0 <= i < before.len() && 0 <= j < added.len() implies before[i]
                            != added[j] by {
                            if before[i] == added[j] {
                                let first = choose|ply: Ply|
                                    #[trigger] self.legal(player_color, ply) && self.after(
                                        player_color,
                                        ply,
                                    ) == before[i] && (ply.start.index() < from || (
                                    ply.start.index() == from && ply.target.index() < to));
                                assert(may_move);
                                self.lemma_added_ply(
                                    player_color,
                                    start,
                                    target,
                                    fields_of(fields_to_take),
                                    j,
                                    first,
                                );
                            }
                        }
                        if may_move {
                            vstd::seq_lib::lemma_no_dup_in_concat(before, added);
                        } else {
                            assert(added =~= Seq::empty());
                            assert(moves@ =~= before);
                        }
                        assert forall|ply: Ply|
                            #[trigger] self.legal(player_color, ply) && (ply.start.index() < from
                                || (ply.start.index() == from && ply.target.index() < to + 1))
                                implies moves@.contains(self.after(player_color, ply)) by {
                            if ply.start.index() == from && ply.target.index() == to {
                                lemma_index_fixes_pos(ply.start, start);
                                lemma_index_fixes_pos(ply.target, target);
                                assert(self.may_move(player_color, start, target));
                                assert(may_move);
                                assert(added =~= self.move_results(
                                    player_color,
                                    start,
                                    target,
                                    fields_of(fields_to_take),
                                ));
                                assert(added.contains(self.after(player_color, ply)));
                            } else {
                                assert(before.contains(self.after(player_color, ply)));
                            }
                        }
                    }
                    to += 1;
                }
            } else {
                proof {
                    assert forall|ply: Ply|
                        #[trigger] self.legal(player_color, ply) && ply.start.index() < from + 1
                            implies moves@.contains(self.after(player_color, ply)) by {
                        if ply.start.index() == from {
                            lemma_index_fixes_pos(ply.start, start);
                        }
                    }
                }
            }
            proof {
                assert forall|k: int| 0 <= k < moves.len() implies self.reaches(
                    player_color,
                    #[trigger] moves[k],
                ) && self.reaches_before(player_color, moves[k], from + 1, 0) by {
                    let ply = choose|ply: Ply|
                        #[trigger] self.legal(player_color, ply) && self.after(player_color, ply)
                            == moves[k] && (ply.start.index() < from || (ply.start.index() == from
                            && ply.target.index() < 24));
                    assert(self.legal(player_color, ply) && self.after(player_color, ply)
                        == moves[k] && (ply.start.index() < from + 1 || (ply.start.index() == from
                        + 1 && ply.target.index() < 0)));
                }
            }
            from += 1;
        }
        proof {
            assert forall|k: int| 0 <= k < moves.len() && self.wf() implies (#[trigger] moves[k]).wf() by {
                let ply = choose|ply: Ply|
                    #[trigger] self.legal(player_color, ply) && self.after(player_color, ply)
                        == moves[k];
                self.lemma_ply_counts(player_color, ply);
            }
        }
        moves
    }

    /// The boards from which `player_color` reaches this board by one legal ply.
    /// Each stone of `player_color` is moved back to an empty cell joined to its
    /// own or, where `player_color` has exactly three stones, to any empty cell.
    /// Where the stone stands in a mill, its move took a stone: that stone is put
    /// back, once on each empty cell where `player_color` may have taken it. The
    /// board itself is left as it was.
    pub fn get_backward_moves(&mut self, player_color: PlayerColor) -> (moves: Vec<
        EfficientPlayField,
    >)
        ensures
            *final(self) == *old(self),
            forall|previous: EfficientPlayField|
                #![trigger moves@.contains(previous)]
                #![trigger previous.reaches(player_color, *old(self))]
                moves@.contains(previous) <==> previous.reaches(player_color, *old(self)),
            moves@.no_duplicates(),
            old(self).wf() ==> forall|k: int| 0 <= k < moves.len() ==> (#[trigger] moves[k]).wf(),
    {
        let jumping = self.get_stone_count_of(player_color) == 3;
        let code = player_color.to_code();
        let mut moves: Vec<EfficientPlayField> = Vec::new();
        let mut to: usize = 0;
        while to < 24
            invariant
                to <= 24,
                *self == *old(self),
                code == player_color.code(),
                jumping == (self.count(code as int) == 3),
                moves@.no_duplicates(),
                forall|k: int|
                    0 <= k < moves.len() ==> (#[trigger] moves[k]).reaches(player_color, *self)
                        && moves[k].led_before(player_color, *self, to as int, 0),
                forall|previous: EfficientPlayField, ply: Ply|
                    #[trigger] previous.legal(player_color, ply) && previous.after(
                        player_color,
                        ply,
                    ) == *self && ply.target.index() < to ==> moves@.contains(previous),
            decreases 24 - to,
        {
            let target = field_pos_at(to);
            if self.get(target) == code {
                let mut from: usize = 0;
                while from < 24
                    invariant
                        from <= 24,
                        to < 24,
                        *self == *old(self),
                        target == crate::game::efficient_state::pos_at(to as int),
                        target.valid(),
                        self.code_at(target) == code,
                        code == player_color.code(),
                        jumping == (self.count(code as int) == 3),
                        moves@.no_duplicates(),
                        forall|k: int|
                            0 <= k < moves.len() ==> (#[trigger] moves[k]).reaches(
                                player_color,
                                *self,
                            ) && moves[k].led_before(player_color, *self, to as int, from as int),
                        forall|previous: EfficientPlayField, ply: Ply|
                            #[trigger] previous.legal(player_color, ply) && previous.after(
                                player_color,
                                ply,
                            ) == *self && (ply.target.index() < to || (ply.target.index() == to
                                && ply.start.index() < from)) ==> moves@.contains(previous),
                    decreases 24 - from,
                {
                    let start = field_pos_at(from);
                    let ghost before = moves@;
                    let may_have_moved = self.get(start) == 0 && (jumping || are_adjacent(
                        start,
                        target,
                    ));
                    if may_have_moved {
                        self.add_origins(start, target, player_color, &mut moves);
                    }
                    proof {
                        assert(may_have_moved == self.may_have_moved(player_color, start, target));
                        let added = moves@.subrange(before.len() as int, moves.len() as int);
                        assert(moves@ =~= before + added);
                        assert forall|k: int| 0 <= k < moves.len() implies (#[trigger] moves[k]).reaches(
                            player_color,
                            *self,
                        ) && moves[k].led_before(player_color, *self, to as int, from + 1) by {
                            let previous = moves[k];
                            if k < before.len() {
                                assert(moves@.subrange(0, before.len() as int)[k] == moves[k]);
                                assert(previous == before[k]);
                                let ply = choose|ply: Ply|
                                    #[trigger] previous.legal(player_color, ply) && previous.after(
                                        player_color,
                                        ply,
                                    ) == *self && (ply.target.index() < to || (ply.target.index()
                                        == to && ply.start.index() < from));
                                assert(previous.legal(player_color, ply) && previous.after(
                                    player_color,
                                    ply,
                                ) == *self && (ply.target.index() < to || (ply.target.index() == to
                                    && ply.start.index() < from + 1)));
                            } else {
                                assert(may_have_moved);
                                self.lemma_origin_reaches(player_color, start, target, previous);
                                let ply = choose|ply: Ply|
                                    #[trigger] previous.legal(player_color, ply) && previous.after(
                                        player_color,
                                        ply,
                                    ) == *self && ply.start == start && ply.target == target;
                                assert(previous.legal(player_color, ply) && previous.after(
                                    player_color,
                                    ply,
                                ) == *self && (ply.target.index() < to || (ply.target.index() == to
                                    && ply.start.index() < from + 1)));
                            }
                        }
                        assert forall|i: int, j: int|
                            0 <= i < before.len() && 0 <= j < added.len() implies before[i]
                            != added[j] by {
                            if before[i] == added[j] {
                                let previous = before[i];
                                assert(may_have_moved);
                                assert(added[j] == moves[before.len() + j]);
                                self.lemma_origin_reaches(player_color, start, target, previous);
                                let first = choose|ply: Ply|
                                    #[trigger] previous.legal(player_color, ply) && previous.after(
                                        player_color,
                                        ply,
                                    ) == *self && (ply.target.index() < to || (ply.target.index()
                                        == to && ply.start.index() < from));
                                let second = choose|ply: Ply|
                                    #[trigger] previous.legal(player_color, ply) && previous.after(
                                        player_color,
                                        ply,
                                    ) == *self && ply.start == start && ply.target == target;
                                previous.lemma_after_fixes_ply(player_color, first, second);
                            }
                        }
                        vstd::seq_lib::lemma_no_dup_in_concat(before, added);
                        assert forall|previous: EfficientPlayField, ply: Ply|
                            #[trigger] previous.legal(player_color, ply) && previous.after(
                                player_color,
                                ply,
                            ) == *self && (ply.target.index() < to || (ply.target.index() == to
                                && ply.start.index() < from + 1)) implies moves@.contains(
                            previous,
                        ) by {
                            if ply.target.index() == to && ply.start.index() == from {
                                self.lemma_ply_back(player_color, previous, ply);
                                lemma_index_fixes_pos(ply.start, start);
                                lemma_index_fixes_pos(ply.target, target);
                                assert(self.is_origin(player_color, start, target, previous));
                            } else {
                                assert(before.contains(previous));
                            }
                        }
                    }
                    from += 1;
                }
            } else {
                proof {
                    assert forall|previous: EfficientPlayField, ply: Ply|
                        #[trigger] previous.legal(player_color, ply) && previous.after(
                            player_color,
                            ply,
                        ) == *self && ply.target.index() < to + 1 implies moves@.contains(
                        previous,
                    ) by {
                        if ply.target.index() == to {
                            self.lemma_ply_back(player_color, previous, ply);
                            lemma_index_fixes_pos(ply.target, target);
                        }
                    }
                }
            }
            proof {
                assert forall|k: int| 0 <= k < moves.len() implies (#[trigger] moves[k]).reaches(
                    player_color,
                    *self,
                ) && moves[k].led_before(player_color, *self, to + 1, 0) by {
                    let previous = moves[k];
                    let ply = choose|ply: Ply|
                        #[trigger] previous.legal(player_color, ply) && previous.after(
                            player_color,
                            ply,
                        ) == *self && (ply.target.index() < to || (ply.target.index() == to
                            && ply.start.index() < 24));
                    assert(previous.legal(player_color, ply) && previous.after(player_color, ply)
                        == *self && (ply.target.index() < to + 1 || (ply.target.index() == to + 1
                        && ply.start.index() < 0)));
                }
            }
            to += 1;
        }
        proof {
            assert forall|previous: EfficientPlayField|
                #![trigger moves@.contains(previous)]
                #![trigger previous.reaches(player_color, *self)]
                moves@.contains(previous) <==> previous.reaches(player_color, *self) by {
                if moves@.contains(previous) {
                    let k = choose|k: int| 0 <= k < moves.len() && moves[k] == previous;
                    assert(moves[k].reaches(player_color, *self));
                }
                if previous.reaches(player_color, *self) {
                    let ply = choose|ply: Ply|
                        #[trigger] previous.legal(player_color, ply) && previous.after(
                            player_color,
                            ply,
                        ) == *self;
                    self.lemma_ply_back(player_color, previous, ply);
                }
            }
            assert forall|k: int| 0 <= k < moves.len() && self.wf() implies (#[trigger] moves[k]).wf() by {
                let previous = moves[k];
                let ply = choose|ply: Ply|
                    #[trigger] previous.legal(player_color, ply) && previous.after(
                        player_color,
                        ply,
                    ) == *self;
                previous.lemma_ply_counts(player_color, ply);
            }
        }
        moves
    }

    /// One legal ply of `color` leads from this board to `next`, and its stone
    /// goes to a cell before place `to` of the view, or to that cell from a cell
    /// before place `from`.
    pub open spec fn led_before(
        self,
        color: PlayerColor,
        next: EfficientPlayField,
        to: int,
        from: int,
    ) -> bool {
        exists|ply: Ply|
            #[trigger] self.legal(color, ply) && self.after(color, ply) == next && (
            ply.target.index() < to || (ply.target.index() == to && ply.start.index() < from))
    }

    /// A board from which a move was taken back is a board that reaches this one.
    pub proof fn lemma_origin_reaches(
        self,
        color: PlayerColor,
        start: FieldPos,
        target: FieldPos,
        previous: EfficientPlayField,
    )
        requires
            self.may_have_moved(color, start, target),
            self.is_origin(color, start, target, previous),
        ensures
            previous.reaches(color, self),
            previous.reaches_by(color, self, start, target),
    {
        self.lemma_mills_range(target.ring_index as int, target.field_index as int, color.code());
        if self.mills_at(target, color.code()) == 0 {
            self.lemma_ply_forth(color, start, target, None);
        } else {
            let origin = self.before_move(color, start, target);
            let place = choose|place: FieldPos|
                #[trigger] origin.restores(target, color, place) && place.index() < 24 && previous
                    == origin.with_restored(color, place);
            self.lemma_ply_forth(color, start, target, Some(place));
        }
    }

    /// A board that the move from `start` to `target` leads to is reached by no
    /// ply with another start or another target.
    pub proof fn lemma_added_ply(
        self,
        color: PlayerColor,
        start: FieldPos,
        target: FieldPos,
        takes: Seq<FieldPos>,
        place: int,
        other: Ply,
    )
        requires
            self.may_move(color, start, target),
            forall|pos: FieldPos|
                #![trigger takes.contains(pos)]
                #![trigger self.can_be_taken(pos, color)]
                takes.contains(pos) <==> self.can_be_taken(pos, color),
            takes.no_duplicates(),
            0 <= place < self.move_results(color, start, target, takes).len(),
            self.legal(color, other),
            self.after(color, other) == self.move_results(color, start, target, takes)[place],
        ensures
            other.start == start,
            other.target == target,
    {
        let moved = self.after_move(color, start, target);
        let ply = if moved.mills_at(target, color.code()) > 0 {
            assert(takes.contains(takes[place]));
            Ply { start, target, taken: Some(takes[place]) }
        } else {
            Ply { start, target, taken: None }
        };
        assert(self.legal(color, ply));
        self.lemma_after_fixes_ply(color, ply, other);
    }

    /// The two generators are inverse to each other: the boards one ply before
    /// `self` are the boards from which one ply leads to `self`. Where `forward`
    /// holds what the forward generator gives for `previous`, and `backward` what
    /// the backward generator gives for `self`, `previous` is in `backward` exactly
    /// if `self` is in `forward`.
    pub proof fn lemma_backward_inverts_forward(
        self,
        previous: EfficientPlayField,
        color: PlayerColor,
        forward: Seq<EfficientPlayField>,
        backward: Seq<EfficientPlayField>,
    )
        requires
            forall|next: EfficientPlayField|
                #![trigger forward.contains(next)]
                forward.contains(next) <==> previous.reaches(color, next),
            forall|before: EfficientPlayField|
                #![trigger backward.contains(before)]
                backward.contains(before) <==> before.reaches(color, self),
        ensures
            backward.contains(previous) <==> forward.contains(self),
    {
    }

    /// A board one ply after a board obeys the rules that the board obeys: it is
    /// free of the code `0b11` where the board is, the mover has as many stones as
    /// before, and the other side as many or one less.
    pub proof fn lemma_reaches_counts(self, color: PlayerColor, next: EfficientPlayField)
        requires
            self.reaches(color, next),
        ensures
            next.wf() == self.wf(),
            next.count(color.code()) == self.count(color.code()),
            self.count(color.other().code()) - 1 <= next.count(color.other().code()) <= self.count(
                color.other().code(),
            ),
    {
        let ply = choose|ply: Ply| #[trigger] self.legal(color, ply) && self.after(color, ply) == next;
        self.lemma_ply_counts(color, ply);
    }
}

} // verus!
