//! The retrograde solver: from the positions in which White has won already, back
//! to the positions that White wins and to those that White loses.
use vstd::prelude::*;
use std::collections::HashMap;
use std::collections::VecDeque;

use crate::game::PlayerColor;
use crate::game::efficient_state::EfficientPlayField;
use crate::game::efficient_state::field_set::{CanonicalCollection, PlayFieldSet, KEY_LIMIT};

verus! {

broadcast use {crate::game::efficient_state::lemma_board_len, vstd::std_specs::hash::group_hash_axioms};

/// The board on which the colours of `board` are exchanged, in its canonical form:
/// a position lost for Black to move is the position `lost_form` of it, lost for
/// White to move.
pub open spec fn lost_form(board: EfficientPlayField) -> EfficientPlayField {
    board.inverted().canonical()
}

impl EfficientPlayField {
    /// Neither side has more than `max_stone_count` stones.
    pub open spec fn within_limit(self, max_stone_count: usize) -> bool {
        self.count(1) <= max_stone_count && self.count(2) <= max_stone_count
    }

    /// Every ply of `color` from this board leads to a board whose canonical form
    /// is in `won`.
    pub open spec fn all_forward_in(self, color: PlayerColor, won: Set<EfficientPlayField>) -> bool {
        forall|next: EfficientPlayField| #[trigger]
            self.reaches(color, next) ==> won.contains(next.canonical())
    }

    /// The canonical form of every board within the limit from which White reaches
    /// this board by one ply is in `won`.
    pub open spec fn closed_backward(self, won: Set<EfficientPlayField>, max_stone_count: usize) -> bool {
        forall|previous: EfficientPlayField| #[trigger]
            previous.reaches(PlayerColor::White, self) && previous.within_limit(max_stone_count)
                ==> won.contains(previous.canonical())
    }

    /// The board is the canonical form of a board within the limit from which
    /// White reaches `target` by one ply.
    pub open spec fn is_white_origin_of(self, target: EfficientPlayField, max_stone_count: usize) -> bool {
        exists|previous: EfficientPlayField| #[trigger]
            previous.reaches(PlayerColor::White, target) && previous.within_limit(max_stone_count)
                && self == previous.canonical()
    }

    /// The board is the canonical form of a board within the limit from which
    /// Black reaches `target` by one ply.
    pub open spec fn is_black_origin_of(self, target: EfficientPlayField, max_stone_count: usize) -> bool {
        exists|previous: EfficientPlayField| #[trigger]
            previous.reaches(PlayerColor::Black, target) && previous.within_limit(max_stone_count)
                && self == previous.canonical()
    }

    /// Whether neither side has more than `max_stone_count` stones.
    pub fn is_within_limit(&self, max_stone_count: usize) -> (within: bool)
        ensures
            within == self.within_limit(max_stone_count),
    {
        let white = self.get_stone_count_of(PlayerColor::White);
        let black = self.get_stone_count_of(PlayerColor::Black);
        white as usize <= max_stone_count && black as usize <= max_stone_count
    }

    /// The canonical form of a board to which a ply of `color` leads from this
    /// board and which `won` does not hold, or `None` where every ply of `color`
    /// leads into `won`. The board itself is left as it was.
    pub fn first_move_outside(&mut self, color: PlayerColor, won: &PlayFieldSet) -> (outside: Option<
        EfficientPlayField,
    >)
        ensures
            *final(self) == *old(self),
            match outside {
                None => old(self).all_forward_in(color, won@),
                Some(board) => !won@.contains(board) && exists|next: EfficientPlayField| #[trigger]
                    old(self).reaches(color, next) && board == next.canonical(),
            },
    {
        let moves = self.get_forward_moves(color);
        let mut index: usize = 0;
        while index < moves.len()
            invariant
                index <= moves.len(),
                *self == *old(self),
                forall|next: EfficientPlayField|
                    #![trigger moves@.contains(next)]
                    #![trigger self.reaches(color, next)]
                    moves@.contains(next) <==> self.reaches(color, next),
                forall|k: int| 0 <= k < index ==> won@.contains((#[trigger] moves[k]).canonical()),
            decreases moves.len() - index,
        {
            let mut next = moves[index];
            let canonical = next.get_canonical_form();
            if !won.contains(&canonical) {
                proof {
                    assert(moves@.contains(moves[index as int]));
                    assert(self.reaches(color, moves[index as int]));
                }
                return Some(canonical);
            }
            index += 1;
        }
        proof {
            assert forall|next: EfficientPlayField| #[trigger]
                self.reaches(color, next) implies won@.contains(next.canonical()) by {
                assert(moves@.contains(next));
                let k = choose|k: int| 0 <= k < moves.len() && moves[k] == next;
                assert(won@.contains(moves[k].canonical()));
            }
        }
        None
    }
}

/// The entries of `grown` from `from` on: `level` with a board each, and the boards
/// are those of `added`, each once.
pub open spec fn queue_grown_by(
    before: Seq<(u64, EfficientPlayField)>,
    grown: Seq<(u64, EfficientPlayField)>,
    level: u64,
    added: Set<EfficientPlayField>,
) -> bool {
    &&& before.len() <= grown.len()
    &&& grown.subrange(0, before.len() as int) == before
    &&& forall|i: int|
        before.len() <= i < grown.len() ==> (#[trigger] grown[i]).0 == level && added.contains(
            grown[i].1,
        )
    &&& forall|board: EfficientPlayField| #[trigger]
        added.contains(board) ==> exists|i: int|
            before.len() <= i < grown.len() && (#[trigger] grown[i]).1 == board
    &&& added.finite()
    &&& (added.len() == 0 ==> grown == before)
}

/// What `queue_grown_by` says of a queue that has not grown.
pub proof fn lemma_queue_not_grown(before: Seq<(u64, EfficientPlayField)>, level: u64)
    ensures
        queue_grown_by(before, before, level, Set::empty()),
{
    assert(before.subrange(0, before.len() as int) =~= before);
}

/// What `queue_grown_by` says after one more board went into the queue.
pub proof fn lemma_queue_grown(
    before: Seq<(u64, EfficientPlayField)>,
    grown: Seq<(u64, EfficientPlayField)>,
    level: u64,
    added: Set<EfficientPlayField>,
    board: EfficientPlayField,
)
    requires
        queue_grown_by(before, grown, level, added),
    ensures
        queue_grown_by(before, grown.push((level, board)), level, added.insert(board)),
{
    let next = grown.push((level, board));
    assert(next.subrange(0, before.len() as int) =~= grown.subrange(0, before.len() as int));
    assert forall|other: EfficientPlayField| #[trigger]
        added.insert(board).contains(other) implies exists|i: int|
        before.len() <= i < next.len() && (#[trigger] next[i]).1 == other by {
        if other == board {
            assert(next[grown.len() as int].1 == board);
        } else {
            let i = choose|i: int| before.len() <= i < grown.len() && (#[trigger] grown[i]).1 == other;
            assert(next[i].1 == other);
        }
    }
    assert(added.insert(board).len() > 0) by {
        if added.insert(board).len() == 0 {
            vstd::set_lib::lemma_set_empty_equivalency_len(added.insert(board));
            assert(added.insert(board).contains(board));
        }
    }
}

/// Puts into `won` the canonical form of every board within the limit from which
/// White reaches `current` by one ply, and into `queue`, at `level`, each of them
/// that is new in `won`.
fn add_white_origins(
    current: &mut EfficientPlayField,
    level: u64,
    max_stone_count: usize,
    won: &mut PlayFieldSet,
    queue: &mut VecDeque<(u64, EfficientPlayField)>,
)
    requires
        old(won).wf(),
    ensures
        *final(current) == *old(current),
        final(won).wf(),
        old(won)@.subset_of(final(won)@),
        old(current).closed_backward(final(won)@, max_stone_count),
        forall|board: EfficientPlayField| #[trigger]
            final(won)@.contains(board) && !old(won)@.contains(board) ==> board.is_white_origin_of(
                *old(current),
                max_stone_count,
            ),
        queue_grown_by(old(queue)@, final(queue)@, level, final(won)@.difference(old(won)@)),
        final(won)@.len() == old(won)@.len() + final(won)@.difference(old(won)@).len(),
{
    let origins = current.get_backward_moves(PlayerColor::White);
    let mut index: usize = 0;
    proof {
        lemma_queue_not_grown(queue@, level);
        assert(won@.difference(old(won)@) =~= Set::empty());
    }
    while index < origins.len()
        invariant
            index <= origins.len(),
            *current == *old(current),
            won.wf(),
            old(won).wf(),
            old(won)@.subset_of(won@),
            forall|previous: EfficientPlayField|
                #![trigger origins@.contains(previous)]
                #![trigger previous.reaches(PlayerColor::White, *current)]
                origins@.contains(previous) <==> previous.reaches(PlayerColor::White, *current),
            forall|k: int|
                0 <= k < index && (#[trigger] origins[k]).within_limit(max_stone_count)
                    ==> won@.contains(origins[k].canonical()),
            forall|board: EfficientPlayField| #[trigger]
                won@.contains(board) && !old(won)@.contains(board) ==> board.is_white_origin_of(
                    *current,
                    max_stone_count,
                ),
            queue_grown_by(old(queue)@, queue@, level, won@.difference(old(won)@)),
        decreases origins.len() - index,
    {
        let mut origin = origins[index];
        if origin.is_within_limit(max_stone_count) {
            let canonical = origin.get_canonical_form();
            let ghost before = won@;
            proof {
                assert(origins@.contains(origin));
            }
            if won.insert(canonical) {
                proof {
                    lemma_queue_grown(old(queue)@, queue@, level, before.difference(old(won)@), canonical);
                    assert(won@.difference(old(won)@) =~= before.difference(old(won)@).insert(
                        canonical,
                    ));
                }
                queue.push_back((level, canonical));
            } else {
                proof {
                    assert(won@ =~= before);
                }
            }
        }
        index += 1;
    }
    proof {
        assert forall|previous: EfficientPlayField| #[trigger]
            previous.reaches(PlayerColor::White, *current) && previous.within_limit(
                max_stone_count,
            ) implies won@.contains(previous.canonical()) by {
            assert(origins@.contains(previous));
            let k = choose|k: int| 0 <= k < origins.len() && origins[k] == previous;
            assert(won@.contains(origins[k].canonical()));
        }
        won.lemma_len();
        old(won).lemma_len();
        vstd::set_lib::lemma_set_difference_len(won@, old(won)@);
        assert(won@.intersect(old(won)@) =~= old(won)@);
    }
}

/// A board of `stuck` is the canonical form of a board within the limit from which
/// Black reaches `current` by one ply, and every ply of Black from it leads into
/// `won`.
pub open spec fn stuck_before(
    stuck: Set<EfficientPlayField>,
    current: EfficientPlayField,
    won: Set<EfficientPlayField>,
    max_stone_count: usize,
) -> bool {
    forall|board: EfficientPlayField| #[trigger]
        stuck.contains(board) ==> board.is_black_origin_of(current, max_stone_count)
            && board.all_forward_in(PlayerColor::Black, won)
}

/// `lost` holds the boards of `before` and the lost forms of the boards of `stuck`.
pub open spec fn lost_grown_by(
    before: Set<EfficientPlayField>,
    lost: Set<EfficientPlayField>,
    stuck: Set<EfficientPlayField>,
) -> bool {
    &&& before.subset_of(lost)
    &&& forall|board: EfficientPlayField| #[trigger]
        stuck.contains(board) ==> lost.contains(lost_form(board)) && !before.contains(
            lost_form(board),
        )
    &&& forall|board: EfficientPlayField| #[trigger]
        lost.contains(board) ==> before.contains(board) || exists|origin: EfficientPlayField| #[trigger]
            stuck.contains(origin) && board == lost_form(origin)
}

/// For every board whose key `outside` holds, it holds the key of the canonical
/// form of a board to which a ply of Black leads from that board.
pub open spec fn remembers_moves(outside: Map<u64, u64>) -> bool {
    forall|key: u64| #[trigger]
        outside.contains_key(key) ==> exists|next: EfficientPlayField| #[trigger]
            crate::game::efficient_state::field_set::board_of_key(key).reaches(
                PlayerColor::Black,
                next,
            ) && next.canonical().key() == outside[key]
}

/// `outside` holds for the key of `board` the key of a board that `won` does not
/// hold.
pub open spec fn remembered_outside(
    board: EfficientPlayField,
    won: Set<EfficientPlayField>,
    outside: Map<u64, u64>,
) -> bool {
    &&& outside.contains_key(board.key() as u64)
    &&& outside[board.key() as u64] < KEY_LIMIT
    &&& !won.contains(
        crate::game::efficient_state::field_set::board_of_key(outside[board.key() as u64]),
    )
}

/// Whether `outside` remembers for `board` a board that `won` still does not hold:
/// then a ply of Black leads from `board` out of `won`.
fn has_move_outside(
    board: &EfficientPlayField,
    won: &PlayFieldSet,
    outside: &HashMap<u64, u64>,
) -> (remembered: bool)
    requires
        remembers_moves(outside@),
    ensures
        remembered == remembered_outside(*board, won@, outside@),
        remembered ==> !board.all_forward_in(PlayerColor::Black, won@),
{
    let key = board.set_key();
    match outside.get(&key) {
        Some(value) => {
            if *value < KEY_LIMIT {
                let witness = EfficientPlayField::from_key(*value);
                let found = won.contains(&witness);
                proof {
                    let next = choose|next: EfficientPlayField| #[trigger]
                        crate::game::efficient_state::field_set::board_of_key(key).reaches(
                            PlayerColor::Black,
                            next,
                        ) && next.canonical().key() == outside@[key];
                    witness.lemma_key_fixes_board(next.canonical());
                    assert(board.reaches(PlayerColor::Black, next));
                }
                !found
            } else {
                false
            }
        },
        None => false,
    }
}

/// Lets `outside` remember for `board` the board `witness`, the canonical form of a
/// board to which a ply of Black leads from `board`.
fn remember_move_outside(
    board: &EfficientPlayField,
    witness: &EfficientPlayField,
    outside: &mut HashMap<u64, u64>,
)
    requires
        remembers_moves(old(outside)@),
        exists|next: EfficientPlayField| #[trigger]
            board.reaches(PlayerColor::Black, next) && *witness == next.canonical(),
    ensures
        final(outside)@ == old(outside)@.insert(board.key() as u64, witness.key() as u64),
        remembers_moves(final(outside)@),
{
    let key = board.set_key();
    let value = witness.set_key();
    outside.insert(key, value);
    proof {
        assert forall|other: u64| #[trigger]
            outside@.contains_key(other) implies exists|next: EfficientPlayField| #[trigger]
            crate::game::efficient_state::field_set::board_of_key(other).reaches(
                PlayerColor::Black,
                next,
            ) && next.canonical().key() == outside@[other] by {
            if other == key {
                let next = choose|next: EfficientPlayField| #[trigger]
                    board.reaches(PlayerColor::Black, next) && *witness == next.canonical();
                assert(crate::game::efficient_state::field_set::board_of_key(other).reaches(
                    PlayerColor::Black,
                    next,
                ) && next.canonical().key() == outside@[other]);
            } else {
                assert(old(outside)@.contains_key(other));
            }
        }
    }
}

/// Looks at the canonical form of `origin`, a board from which Black reaches a won
/// position. Where `origin` is within the limit, every ply of Black from its
/// canonical form leads into `won`, and the lost form is not in `lost` yet, the
/// lost form goes into `lost` and the canonical form into `queue`, at `level`, and
/// is the result. For a board from which a ply of Black leads out of `won`,
/// `outside` remembers the key of the canonical form of one board to which such a
/// ply leads: while `won` does not hold that one, the board is not looked at again.
fn examine_black_origin(
    origin: EfficientPlayField,
    level: u64,
    max_stone_count: usize,
    won: &PlayFieldSet,
    lost: &mut PlayFieldSet,
    queue: &mut VecDeque<(u64, EfficientPlayField)>,
    outside: &mut HashMap<u64, u64>,
) -> (added: Ghost<Option<EfficientPlayField>>)
    requires
        old(lost).wf(),
        remembers_moves(old(outside)@),
    ensures
        final(lost).wf(),
        remembers_moves(final(outside)@),
        origin.within_limit(max_stone_count) ==> final(lost)@.contains(lost_form(origin.canonical()))
            || !origin.canonical().all_forward_in(PlayerColor::Black, won@),
        added@ is Some <==> origin.within_limit(max_stone_count) && origin.canonical().all_forward_in(
            PlayerColor::Black,
            won@,
        ) && !old(lost)@.contains(lost_form(origin.canonical())),
        forall|key: u64|
            key != origin.canonical().key() ==> (#[trigger] final(outside)@.contains_key(key)
                == old(outside)@.contains_key(key) && final(outside)@[key] == old(outside)@[key]),
        match added@ {
            None => final(lost)@ == old(lost)@ && final(queue)@ == old(queue)@,
            Some(board) => board == origin.canonical() && origin.within_limit(max_stone_count)
                && board.all_forward_in(PlayerColor::Black, won@) && !old(lost)@.contains(
                lost_form(board),
            ) && final(lost)@ == old(lost)@.insert(lost_form(board)) && final(queue)@ == old(
                queue,
            )@.push((level, board)),
        },
{
    let mut origin = origin;
    let mut canonical = origin.get_canonical_form();
    if has_move_outside(&canonical, won, outside) || !origin.is_within_limit(max_stone_count) {
        return Ghost(None);
    }
    let mut inverted = canonical.invert_playfields_stone_colors();
    let lost_board = inverted.get_canonical_form();
    if lost.contains(&lost_board) {
        return Ghost(None);
    }
    match canonical.first_move_outside(PlayerColor::Black, won) {
        Some(witness) => {
            remember_move_outside(&canonical, &witness, outside);
            Ghost(None)
        },
        None => {
            lost.insert(lost_board);
            queue.push_back((level, canonical));
            Ghost(Some(canonical))
        },
    }
}

/// Looks at the canonical form of every board within the limit from which Black
/// reaches `current` by one ply. Where every ply of Black from it leads into `won`
/// and its lost form is not in `lost` yet, the lost form goes into `lost` and the
/// board into `queue`, at `level`. The result is the set of the boards that went
/// into `queue`.
fn add_black_origins(
    current: &mut EfficientPlayField,
    level: u64,
    max_stone_count: usize,
    won: &PlayFieldSet,
    lost: &mut PlayFieldSet,
    queue: &mut VecDeque<(u64, EfficientPlayField)>,
    outside: &mut HashMap<u64, u64>,
) -> (stuck: Ghost<Set<EfficientPlayField>>)
    requires
        old(lost).wf(),
        remembers_moves(old(outside)@),
    ensures
        *final(current) == *old(current),
        final(lost).wf(),
        remembers_moves(final(outside)@),
        forall|previous: EfficientPlayField| #[trigger]
            previous.reaches(PlayerColor::Black, *old(current)) && previous.within_limit(
                max_stone_count,
            ) ==> final(lost)@.contains(lost_form(previous.canonical()))
                || !previous.canonical().all_forward_in(PlayerColor::Black, won@),
        stuck_before(stuck@, *old(current), won@, max_stone_count),
        lost_grown_by(old(lost)@, final(lost)@, stuck@),
        queue_grown_by(old(queue)@, final(queue)@, level, stuck@),
        stuck@.len() == final(lost)@.len() - old(lost)@.len(),
{
    let origins = current.get_backward_moves(PlayerColor::Black);
    let ghost mut stuck = Set::<EfficientPlayField>::empty();
    let mut index: usize = 0;
    proof {
        lemma_queue_not_grown(queue@, level);
        old(lost).lemma_len();
    }
    while index < origins.len()
        invariant
            index <= origins.len(),
            *current == *old(current),
            lost.wf(),
            old(lost).wf(),
            forall|previous: EfficientPlayField|
                #![trigger origins@.contains(previous)]
                #![trigger previous.reaches(PlayerColor::Black, *current)]
                origins@.contains(previous) <==> previous.reaches(PlayerColor::Black, *current),
            stuck_before(stuck, *current, won@, max_stone_count),
            lost_grown_by(old(lost)@, lost@, stuck),
            queue_grown_by(old(queue)@, queue@, level, stuck),
            stuck.finite(),
            stuck.len() == lost@.len() - old(lost)@.len(),
            remembers_moves(outside@),
            forall|k: int|
                0 <= k < index && (#[trigger] origins[k]).within_limit(max_stone_count)
                    ==> lost@.contains(lost_form(origins[k].canonical()))
                    || !origins[k].canonical().all_forward_in(PlayerColor::Black, won@),
        decreases origins.len() - index,
    {
        let origin = origins[index];
        let ghost lost_before = lost@;
        let ghost stuck_before_step = stuck;
        let ghost queue_before = queue@;
        proof {
            lost.lemma_len();
        }
        let added = examine_black_origin(origin, level, max_stone_count, won, lost, queue, outside);
        proof {
            lost.lemma_len();
            match added@ {
                None => {},
                Some(board) => {
                    assert(origins@.contains(origin));
                    assert(board.is_black_origin_of(*current, max_stone_count));
                    if stuck.contains(board) {
                        assert(lost_before.contains(lost_form(board)));
                    }
                    lemma_queue_grown(old(queue)@, queue_before, level, stuck, board);
                    stuck = stuck.insert(board);
                    assert forall|member: EfficientPlayField| #[trigger]
                        lost@.contains(member) implies old(lost)@.contains(member) || exists|
                        from: EfficientPlayField,
                    | #[trigger]
                        stuck.contains(from) && member == lost_form(from) by {
                        if member == lost_form(board) {
                            assert(stuck.contains(board) && member == lost_form(board));
                        } else {
                            assert(lost_before.contains(member));
                            if !old(lost)@.contains(member) {
                                let from = choose|from: EfficientPlayField| #[trigger]
                                    stuck_before_step.contains(from) && member == lost_form(from);
                                assert(stuck.contains(from));
                            }
                        }
                    }
                },
            }
            assert forall|k: int|
                0 <= k < index + 1 && (#[trigger] origins[k]).within_limit(
                    max_stone_count,
                ) implies lost@.contains(lost_form(origins[k].canonical()))
                || !origins[k].canonical().all_forward_in(PlayerColor::Black, won@) by {
                if k < index {
                    if lost_before.contains(lost_form(origins[k].canonical())) {
                        assert(lost@.contains(lost_form(origins[k].canonical())));
                    }
                }
            }
        }
        index += 1;
    }
    proof {
        assert forall|previous: EfficientPlayField| #[trigger]
            previous.reaches(PlayerColor::Black, *current) && previous.within_limit(
                max_stone_count,
            ) implies lost@.contains(lost_form(previous.canonical()))
            || !previous.canonical().all_forward_in(PlayerColor::Black, won@) by {
            assert(origins@.contains(previous));
            let k = choose|k: int| 0 <= k < origins.len() && origins[k] == previous;
            assert(origins[k].within_limit(max_stone_count));
        }
    }
    Ghost(stuck)
}

/// The positions in which White has won already, with Black to move, in their
/// canonical forms.
pub open spec fn start_positions(max_stone_count: usize) -> Set<EfficientPlayField> {
    Set::new(|board: EfficientPlayField| board.is_start_position(max_stone_count))
}

/// `board` stands in `queue` at a level that leaves `parity` when divided by 2.
pub open spec fn in_queue(
    queue: Seq<(u64, EfficientPlayField)>,
    board: EfficientPlayField,
    parity: int,
) -> bool {
    exists|i: int| 0 <= i < queue.len() && (#[trigger] queue[i]).1 == board && queue[i].0 % 2 == parity
}

/// What the solver has found, said of its result. `start` holds the positions in
/// which White has won already, with Black to move; `stuck` the positions that
/// Black, to move, has lost; `won` the positions that White, to move, has won; and
/// `lost` the positions of `stuck` with the colours exchanged.
///
/// Every board of `won` is the canonical form of a board within the limit from
/// which White reaches a board of `start` or of `stuck` by one ply, and `won` holds
/// every such canonical form. From a board of `stuck` every ply of Black leads into
/// `won`, and it is the canonical form of a board within the limit from which Black
/// reaches a board of `won`. `lost` holds the lost form of the canonical form of
/// every board within the limit from which Black reaches a board of `won` and has
/// no ply that leads out of `won`.
pub open spec fn solved_with(
    start: Set<EfficientPlayField>,
    stuck: Set<EfficientPlayField>,
    won: Set<EfficientPlayField>,
    lost: Set<EfficientPlayField>,
    max_stone_count: usize,
) -> bool {
    &&& forall|board: EfficientPlayField| #[trigger]
        won.contains(board) ==> exists|target: EfficientPlayField|
            (start.contains(target) || stuck.contains(target)) && #[trigger] board.is_white_origin_of(
                target,
                max_stone_count,
            )
    &&& forall|target: EfficientPlayField|
        start.contains(target) || stuck.contains(target) ==> #[trigger] target.closed_backward(
            won,
            max_stone_count,
        )
    &&& forall|board: EfficientPlayField| #[trigger]
        stuck.contains(board) ==> board.all_forward_in(PlayerColor::Black, won) && exists|
            target: EfficientPlayField,
        |
            won.contains(target) && #[trigger] board.is_black_origin_of(target, max_stone_count)
    &&& forall|board: EfficientPlayField| #[trigger]
        lost.contains(board) <==> exists|origin: EfficientPlayField| #[trigger]
            stuck.contains(origin) && board == lost_form(origin)
    &&& forall|target: EfficientPlayField, previous: EfficientPlayField|
        won.contains(target) && #[trigger] previous.reaches(PlayerColor::Black, target)
            && previous.within_limit(max_stone_count) && previous.canonical().all_forward_in(
            PlayerColor::Black,
            won,
        ) ==> lost.contains(lost_form(previous.canonical()))
}

/// The positions that Black, to move, has lost, read from the positions `lost` that
/// White, to move, has lost: the canonical boards whose lost form is in `lost`.
pub open spec fn stuck_of(lost: Set<EfficientPlayField>) -> Set<EfficientPlayField> {
    Set::new(|board: EfficientPlayField| board.is_canonical() && lost.contains(lost_form(board)))
}

/// What the solver has found: `won` holds the positions that White, to move, has
/// won, and `lost` the positions that White, to move, has lost, from the positions
/// `start` in which White has won already. See `solved_with`, of which this is the
/// case where `stuck` is read from `lost`.
pub open spec fn solved(
    start: Set<EfficientPlayField>,
    won: Set<EfficientPlayField>,
    lost: Set<EfficientPlayField>,
    max_stone_count: usize,
) -> bool {
    solved_with(start, stuck_of(lost), won, lost, max_stone_count)
}

/// The positions were found one after the other: `rank_won` and `rank_stuck` give
/// each position of `won` and of `stuck` a number. A position of `won` is the
/// canonical form of a board within the limit from which White reaches a position
/// of `start`, or a position of `stuck` with a smaller number. From a position of
/// `stuck` every ply of Black leads to a position of `won` with a smaller number,
/// and it is the canonical form of a board within the limit from which Black
/// reaches one of them.
pub open spec fn ranked(
    start: Set<EfficientPlayField>,
    stuck: Set<EfficientPlayField>,
    won: Set<EfficientPlayField>,
    rank_won: Map<EfficientPlayField, nat>,
    rank_stuck: Map<EfficientPlayField, nat>,
    max_stone_count: usize,
) -> bool {
    &&& forall|board: EfficientPlayField| #[trigger]
        won.contains(board) ==> exists|target: EfficientPlayField|
            (start.contains(target) || (stuck.contains(target) && rank_stuck[target]
                < rank_won[board])) && #[trigger] board.is_white_origin_of(target, max_stone_count)
    &&& forall|board: EfficientPlayField, next: EfficientPlayField|
        stuck.contains(board) && #[trigger] board.reaches(PlayerColor::Black, next)
            ==> won.contains(next.canonical()) && rank_won[next.canonical()] < rank_stuck[board]
    &&& forall|board: EfficientPlayField| #[trigger]
        stuck.contains(board) ==> exists|target: EfficientPlayField|
            won.contains(target) && rank_won[target] < rank_stuck[board]
                && #[trigger] board.is_black_origin_of(target, max_stone_count)
}

/// `ranked`, with every number below `clock`.
pub open spec fn ranking(
    start: Set<EfficientPlayField>,
    stuck: Set<EfficientPlayField>,
    won: Set<EfficientPlayField>,
    rank_won: Map<EfficientPlayField, nat>,
    rank_stuck: Map<EfficientPlayField, nat>,
    clock: nat,
    max_stone_count: usize,
) -> bool {
    &&& ranked(start, stuck, won, rank_won, rank_stuck, max_stone_count)
    &&& forall|board: EfficientPlayField| #[trigger] won.contains(board) ==> rank_won[board] < clock
    &&& forall|board: EfficientPlayField| #[trigger]
        stuck.contains(board) ==> rank_stuck[board] < clock
}

/// The numbers of the won positions after the boards from which White reaches
/// `current` went into `won`: the new ones get the number `clock`.
pub proof fn lemma_ranking_white(
    start: Set<EfficientPlayField>,
    stuck: Set<EfficientPlayField>,
    before: Set<EfficientPlayField>,
    won: Set<EfficientPlayField>,
    rank_won: Map<EfficientPlayField, nat>,
    rank_stuck: Map<EfficientPlayField, nat>,
    clock: nat,
    current: EfficientPlayField,
    max_stone_count: usize,
) -> (next_rank: Map<EfficientPlayField, nat>)
    requires
        ranking(start, stuck, before, rank_won, rank_stuck, clock, max_stone_count),
        before.subset_of(won),
        start.contains(current) || stuck.contains(current),
        forall|board: EfficientPlayField| #[trigger]
            won.contains(board) && !before.contains(board) ==> board.is_white_origin_of(
                current,
                max_stone_count,
            ),
    ensures
        ranking(start, stuck, won, next_rank, rank_stuck, clock + 1, max_stone_count),
{
    let next_rank = Map::new(
        |board: EfficientPlayField| true,
        |board: EfficientPlayField|
            if before.contains(board) {
                rank_won[board]
            } else {
                clock
            },
    );
    assert forall|board: EfficientPlayField| #[trigger] won.contains(board) implies exists|
        target: EfficientPlayField,
    |
        (start.contains(target) || (stuck.contains(target) && rank_stuck[target]
            < next_rank[board])) && #[trigger] board.is_white_origin_of(target, max_stone_count) by {
        if before.contains(board) {
            let target = choose|target: EfficientPlayField|
                (start.contains(target) || (stuck.contains(target) && rank_stuck[target]
                    < rank_won[board])) && #[trigger] board.is_white_origin_of(
                    target,
                    max_stone_count,
                );
            assert(board.is_white_origin_of(target, max_stone_count));
        } else {
            assert(board.is_white_origin_of(current, max_stone_count));
        }
    }
    assert forall|board: EfficientPlayField, next: EfficientPlayField|
        stuck.contains(board) && #[trigger] board.reaches(
            PlayerColor::Black,
            next,
        ) implies won.contains(next.canonical()) && next_rank[next.canonical()]
        < rank_stuck[board] by {
        assert(before.contains(next.canonical()));
    }
    assert forall|board: EfficientPlayField| #[trigger] stuck.contains(board) implies exists|
        target: EfficientPlayField,
    |
        won.contains(target) && next_rank[target] < rank_stuck[board]
            && #[trigger] board.is_black_origin_of(target, max_stone_count) by {
        let target = choose|target: EfficientPlayField|
            before.contains(target) && rank_won[target] < rank_stuck[board]
                && #[trigger] board.is_black_origin_of(target, max_stone_count);
        assert(won.contains(target) && board.is_black_origin_of(target, max_stone_count));
    }
    next_rank
}

/// The numbers of the positions that Black has lost after the boards from which
/// Black reaches `current` were looked at: the new ones get the number `clock`.
pub proof fn lemma_ranking_black(
    start: Set<EfficientPlayField>,
    before: Set<EfficientPlayField>,
    added: Set<EfficientPlayField>,
    won: Set<EfficientPlayField>,
    rank_won: Map<EfficientPlayField, nat>,
    rank_stuck: Map<EfficientPlayField, nat>,
    clock: nat,
    current: EfficientPlayField,
    max_stone_count: usize,
) -> (next_rank: Map<EfficientPlayField, nat>)
    requires
        ranking(start, before, won, rank_won, rank_stuck, clock, max_stone_count),
        won.contains(current),
        stuck_before(added, current, won, max_stone_count),
    ensures
        ranking(start, before.union(added), won, rank_won, next_rank, clock + 1, max_stone_count),
{
    let next_rank = Map::new(
        |board: EfficientPlayField| true,
        |board: EfficientPlayField|
            if before.contains(board) {
                rank_stuck[board]
            } else {
                clock
            },
    );
    let stuck = before.union(added);
    assert forall|board: EfficientPlayField| #[trigger] won.contains(board) implies exists|
        target: EfficientPlayField,
    |
        (start.contains(target) || (stuck.contains(target) && next_rank[target]
            < rank_won[board])) && #[trigger] board.is_white_origin_of(target, max_stone_count) by {
        let target = choose|target: EfficientPlayField|
            (start.contains(target) || (before.contains(target) && rank_stuck[target]
                < rank_won[board])) && #[trigger] board.is_white_origin_of(target, max_stone_count);
        assert(board.is_white_origin_of(target, max_stone_count));
    }
    assert forall|board: EfficientPlayField, next: EfficientPlayField|
        stuck.contains(board) && #[trigger] board.reaches(
            PlayerColor::Black,
            next,
        ) implies won.contains(next.canonical()) && rank_won[next.canonical()]
        < next_rank[board] by {
        if !before.contains(board) {
            assert(added.contains(board));
            assert(board.all_forward_in(PlayerColor::Black, won));
        }
    }
    assert forall|board: EfficientPlayField| #[trigger] stuck.contains(board) implies exists|
        target: EfficientPlayField,
    |
        won.contains(target) && rank_won[target] < next_rank[board]
            && #[trigger] board.is_black_origin_of(target, max_stone_count) by {
        if before.contains(board) {
            let target = choose|target: EfficientPlayField|
                won.contains(target) && rank_won[target] < rank_stuck[board]
                    && #[trigger] board.is_black_origin_of(target, max_stone_count);
            assert(board.is_black_origin_of(target, max_stone_count));
        } else {
            assert(added.contains(board));
            assert(board.is_black_origin_of(current, max_stone_count));
        }
    }
    next_rank
}

/// What was found one after the other is in every result of the solver: the
/// positions with a number below `n` are among `other_won` and `other_lost`, which
/// are closed under what the solver does.
pub proof fn lemma_solved_least(
    start: Set<EfficientPlayField>,
    won: Set<EfficientPlayField>,
    lost: Set<EfficientPlayField>,
    rank_won: Map<EfficientPlayField, nat>,
    rank_stuck: Map<EfficientPlayField, nat>,
    other_won: Set<EfficientPlayField>,
    other_lost: Set<EfficientPlayField>,
    max_stone_count: usize,
    n: nat,
)
    requires
        ranked(start, stuck_of(lost), won, rank_won, rank_stuck, max_stone_count),
        solved(start, other_won, other_lost, max_stone_count),
    ensures
        forall|board: EfficientPlayField| #[trigger]
            won.contains(board) && rank_won[board] < n ==> other_won.contains(board),
        forall|board: EfficientPlayField| #[trigger]
            stuck_of(lost).contains(board) && rank_stuck[board] < n ==> stuck_of(
                other_lost,
            ).contains(board),
    decreases n,
{
    if n > 0 {
        lemma_solved_least(
            start,
            won,
            lost,
            rank_won,
            rank_stuck,
            other_won,
            other_lost,
            max_stone_count,
            (n - 1) as nat,
        );
        let stuck = stuck_of(lost);
        let other_stuck = stuck_of(other_lost);
        assert forall|board: EfficientPlayField| #[trigger]
            won.contains(board) && rank_won[board] < n implies other_won.contains(board) by {
            let target = choose|target: EfficientPlayField|
                (start.contains(target) || (stuck.contains(target) && rank_stuck[target]
                    < rank_won[board])) && #[trigger] board.is_white_origin_of(
                    target,
                    max_stone_count,
                );
            assert(start.contains(target) || other_stuck.contains(target));
            assert(target.closed_backward(other_won, max_stone_count));
            let previous = choose|previous: EfficientPlayField| #[trigger]
                previous.reaches(PlayerColor::White, target) && previous.within_limit(
                    max_stone_count,
                ) && board == previous.canonical();
            assert(other_won.contains(previous.canonical()));
        }
        assert forall|board: EfficientPlayField| #[trigger]
            stuck.contains(board) && rank_stuck[board] < n implies other_stuck.contains(board) by {
            assert forall|next: EfficientPlayField| #[trigger]
                board.reaches(PlayerColor::Black, next) implies other_won.contains(
                next.canonical(),
            ) by {
                assert(won.contains(next.canonical()) && rank_won[next.canonical()]
                    < rank_stuck[board]);
            }
            let target = choose|target: EfficientPlayField|
                won.contains(target) && rank_won[target] < rank_stuck[board]
                    && #[trigger] board.is_black_origin_of(target, max_stone_count);
            assert(other_won.contains(target));
            let previous = choose|previous: EfficientPlayField| #[trigger]
                previous.reaches(PlayerColor::Black, target) && previous.within_limit(
                    max_stone_count,
                ) && board == previous.canonical();
            assert(previous.canonical().all_forward_in(PlayerColor::Black, other_won));
            assert(other_lost.contains(lost_form(previous.canonical())));
        }
    }
}

/// The solver has one result: positions that were found one after the other, and
/// that are closed under what the solver does, are the same whoever found them.
pub proof fn lemma_solved_unique(
    start: Set<EfficientPlayField>,
    won: Set<EfficientPlayField>,
    lost: Set<EfficientPlayField>,
    rank_won: Map<EfficientPlayField, nat>,
    rank_stuck: Map<EfficientPlayField, nat>,
    other_won: Set<EfficientPlayField>,
    other_lost: Set<EfficientPlayField>,
    other_rank_won: Map<EfficientPlayField, nat>,
    other_rank_stuck: Map<EfficientPlayField, nat>,
    max_stone_count: usize,
)
    requires
        solved(start, won, lost, max_stone_count),
        ranked(start, stuck_of(lost), won, rank_won, rank_stuck, max_stone_count),
        solved(start, other_won, other_lost, max_stone_count),
        ranked(
            start,
            stuck_of(other_lost),
            other_won,
            other_rank_won,
            other_rank_stuck,
            max_stone_count,
        ),
    ensures
        won == other_won,
        lost == other_lost,
{
    assert forall|board: EfficientPlayField| won.contains(board) == other_won.contains(board) by {
        if won.contains(board) {
            lemma_solved_least(
                start,
                won,
                lost,
                rank_won,
                rank_stuck,
                other_won,
                other_lost,
                max_stone_count,
                rank_won[board] + 1,
            );
        }
        if other_won.contains(board) {
            lemma_solved_least(
                start,
                other_won,
                other_lost,
                other_rank_won,
                other_rank_stuck,
                won,
                lost,
                max_stone_count,
                other_rank_won[board] + 1,
            );
        }
    }
    assert forall|board: EfficientPlayField| lost.contains(board) == other_lost.contains(board) by {
        if lost.contains(board) {
            let origin = choose|origin: EfficientPlayField| #[trigger]
                stuck_of(lost).contains(origin) && board == lost_form(origin);
            lemma_solved_least(
                start,
                won,
                lost,
                rank_won,
                rank_stuck,
                other_won,
                other_lost,
                max_stone_count,
                rank_stuck[origin] + 1,
            );
            assert(stuck_of(other_lost).contains(origin));
        }
        if other_lost.contains(board) {
            let origin = choose|origin: EfficientPlayField| #[trigger]
                stuck_of(other_lost).contains(origin) && board == lost_form(origin);
            lemma_solved_least(
                start,
                other_won,
                other_lost,
                other_rank_won,
                other_rank_stuck,
                won,
                lost,
                max_stone_count,
                other_rank_stuck[origin] + 1,
            );
            assert(stuck_of(lost).contains(origin));
        }
    }
    assert(won =~= other_won);
    assert(lost =~= other_lost);
}

/// The set `stuck` that the solver kept is the set that is read from `lost`.
pub proof fn lemma_stuck_of(
    start: Set<EfficientPlayField>,
    stuck: Set<EfficientPlayField>,
    won: Set<EfficientPlayField>,
    lost: Set<EfficientPlayField>,
    max_stone_count: usize,
)
    requires
        solved_with(start, stuck, won, lost, max_stone_count),
    ensures
        stuck == stuck_of(lost),
{
    assert forall|board: EfficientPlayField| stuck.contains(board) implies board.is_canonical() by {
        let target = choose|target: EfficientPlayField|
            won.contains(target) && #[trigger] board.is_black_origin_of(target, max_stone_count);
        let previous = choose|previous: EfficientPlayField| #[trigger]
            previous.reaches(PlayerColor::Black, target) && previous.within_limit(max_stone_count)
                && board == previous.canonical();
        previous.lemma_canonical_idempotent();
    }
    assert forall|board: EfficientPlayField| stuck.contains(board) == stuck_of(lost).contains(
        board,
    ) by {
        if stuck.contains(board) {
            assert(lost.contains(lost_form(board)));
        }
        if stuck_of(lost).contains(board) {
            let origin = choose|origin: EfficientPlayField| #[trigger]
                stuck.contains(origin) && lost_form(board) == lost_form(origin);
            board.lemma_inverted_canonical(origin);
        }
    }
    assert(stuck =~= stuck_of(lost));
}

/// The lost form of `board` is in `lost`, or a ply of Black leads from `board` to a
/// board whose canonical form is not in `processed`.
pub open spec fn examined(
    board: EfficientPlayField,
    lost: Set<EfficientPlayField>,
    processed: Set<EfficientPlayField>,
) -> bool {
    lost.contains(lost_form(board)) || exists|next: EfficientPlayField| #[trigger]
        board.reaches(PlayerColor::Black, next) && !processed.contains(next.canonical())
}

/// What the solver knows of the won positions that have left the queue: they are
/// `processed`. Every won position is one of them or waits in the queue, and every
/// board within the limit from which Black reaches one of them was examined.
pub open spec fn solving_lost(
    won: Set<EfficientPlayField>,
    lost: Set<EfficientPlayField>,
    processed: Set<EfficientPlayField>,
    queue: Seq<(u64, EfficientPlayField)>,
    max_stone_count: usize,
) -> bool {
    &&& processed.subset_of(won)
    &&& forall|board: EfficientPlayField| #[trigger]
        won.contains(board) ==> processed.contains(board) || in_queue(queue, board, 1)
    &&& forall|target: EfficientPlayField, previous: EfficientPlayField|
        processed.contains(target) && #[trigger] previous.reaches(PlayerColor::Black, target)
            && previous.within_limit(max_stone_count) ==> examined(
            previous.canonical(),
            lost,
            processed,
        )
}

/// The solver's state between two boards of the queue.
pub open spec fn solving(
    start: Set<EfficientPlayField>,
    stuck: Set<EfficientPlayField>,
    won: Set<EfficientPlayField>,
    lost: Set<EfficientPlayField>,
    queue: Seq<(u64, EfficientPlayField)>,
    max_stone_count: usize,
) -> bool {
    &&& forall|board: EfficientPlayField| #[trigger]
        won.contains(board) ==> exists|target: EfficientPlayField|
            (start.contains(target) || stuck.contains(target)) && #[trigger] board.is_white_origin_of(
                target,
                max_stone_count,
            )
    &&& forall|target: EfficientPlayField|
        start.contains(target) || stuck.contains(target) ==> in_queue(queue, target, 0)
            || #[trigger] target.closed_backward(won, max_stone_count)
    &&& forall|board: EfficientPlayField| #[trigger]
        stuck.contains(board) ==> board.all_forward_in(PlayerColor::Black, won) && exists|
            target: EfficientPlayField,
        |
            won.contains(target) && #[trigger] board.is_black_origin_of(target, max_stone_count)
    &&& forall|board: EfficientPlayField| #[trigger]
        lost.contains(board) <==> exists|origin: EfficientPlayField| #[trigger]
            stuck.contains(origin) && board == lost_form(origin)
    &&& forall|i: int|
        0 <= i < queue.len() ==> (#[trigger] queue[i]).0 <= won.len() + lost.len() && if queue[i].0
            % 2 == 0 {
            start.contains(queue[i].1) || stuck.contains(queue[i].1)
        } else {
            won.contains(queue[i].1)
        }
}

/// A board within the limit from which Black reaches `current` was examined, once
/// the boards from which Black reaches `current` were looked at.
pub proof fn lemma_examined_at(
    previous: EfficientPlayField,
    current: EfficientPlayField,
    won: Set<EfficientPlayField>,
    lost: Set<EfficientPlayField>,
    processed: Set<EfficientPlayField>,
    max_stone_count: usize,
)
    requires
        processed.subset_of(won),
        previous.reaches(PlayerColor::Black, current),
        previous.within_limit(max_stone_count),
        lost.contains(lost_form(previous.canonical())) || !previous.canonical().all_forward_in(
            PlayerColor::Black,
            won,
        ),
    ensures
        examined(previous.canonical(), lost, processed),
{
    let origin = previous.canonical();
    if !lost.contains(lost_form(origin)) {
        let next = choose|next: EfficientPlayField| #[trigger]
            origin.reaches(PlayerColor::Black, next) && !won.contains(next.canonical());
        assert(origin.reaches(PlayerColor::Black, next) && !processed.contains(next.canonical()));
    }
}

/// The solver from a set of positions in which White has won already, with Black
/// to move. A queue takes the boards of `start` at level 0. For a board at an even
/// level, the canonical form of every board within the limit from which White
/// reaches it goes into the first result, the positions won for White to move, and,
/// where it is new there, into the queue at the next level. For a board at an odd
/// level, the canonical form of every board within the limit from which Black
/// reaches it is looked at: where every ply of Black from it leads to a won
/// position, it goes into the queue at the next level and, with the colours
/// exchanged, into the second result, the positions lost for White to move.
#[verifier::rlimit(40)]
pub fn propagate_won_playfields(start: &CanonicalCollection, max_stone_count: usize) -> (result: (
    PlayFieldSet,
    PlayFieldSet,
))
    requires
        start.wf(),
    ensures
        result.0.wf(),
        result.1.wf(),
        solved(start@, result.0@, result.1@, max_stone_count),
        exists|rank_won: Map<EfficientPlayField, nat>, rank_stuck: Map<EfficientPlayField, nat>| #[trigger]
            ranked(start@, stuck_of(result.1@), result.0@, rank_won, rank_stuck, max_stone_count),
{
    let mut won = PlayFieldSet::new();
    let mut lost = PlayFieldSet::new();
    let mut queue: VecDeque<(u64, EfficientPlayField)> = VecDeque::new();
    let mut outside: HashMap<u64, u64> = HashMap::new();
    let ghost mut stuck = Set::<EfficientPlayField>::empty();
    let ghost mut processed = Set::<EfficientPlayField>::empty();
    let ghost mut rank_won = Map::<EfficientPlayField, nat>::empty();
    let ghost mut rank_stuck = Map::<EfficientPlayField, nat>::empty();
    let ghost mut clock = 0nat;
    let mut seeded: usize = 0;
    while seeded < start.boards.len()
        invariant
            seeded <= start.boards.len(),
            queue@.len() == seeded,
            forall|i: int| 0 <= i < seeded ==> #[trigger] queue@[i] == (0u64, start.boards@[i]),
        decreases start.boards.len() - seeded,
    {
        queue.push_back((0, start.boards[seeded]));
        seeded += 1;
    }
    proof {
        won.lemma_len();
        lost.lemma_len();
        assert forall|target: EfficientPlayField|
            start@.contains(target) || stuck.contains(target) implies in_queue(queue@, target, 0)
            || #[trigger] target.closed_backward(won@, max_stone_count) by {
            assert(start.boards@.contains(target));
            let i = choose|i: int| 0 <= i < start.boards@.len() && start.boards@[i] == target;
            assert(queue@[i].1 == target);
        }
        assert forall|i: int| 0 <= i < queue@.len() implies (#[trigger] queue@[i]).0 <= won@.len()
            + lost@.len() && if queue@[i].0 % 2 == 0 {
            start@.contains(queue@[i].1) || stuck.contains(queue@[i].1)
        } else {
            won@.contains(queue@[i].1)
        } by {
            assert(start.boards@.contains(start.boards@[i]));
        }
    }
    while queue.len() > 0
        invariant
            start.wf(),
            won.wf(),
            lost.wf(),
            solving(start@, stuck, won@, lost@, queue@, max_stone_count),
            solving_lost(won@, lost@, processed, queue@, max_stone_count),
            remembers_moves(outside@),
            ranking(start@, stuck, won@, rank_won, rank_stuck, clock, max_stone_count),
        decreases 2 * KEY_LIMIT - won@.len() - lost@.len(), queue@.len(),
    {
        proof {
            won.lemma_len();
            lost.lemma_len();
        }
        let ghost queue_before = queue@;
        let ghost won_before = won@;
        let ghost lost_before = lost@;
        let ghost stuck_set_before = stuck;
        let ghost processed_before = processed;
        let (level, mut current) = queue.pop_front().unwrap();
        let ghost rest = queue@;
        proof {
            assert(queue_before[0] == (level, current));
            assert forall|i: int| 0 <= i < rest.len() implies #[trigger] rest[i] == queue_before[i + 1] by {}
        }
        if level % 2 == 0 {
            add_white_origins(&mut current, level + 1, max_stone_count, &mut won, &mut queue);
            proof {
                won.lemma_len();
                let added = won@.difference(won_before);
                if added.len() == 0 {
                    added.lemma_len0_is_empty();
                    assert forall|board: EfficientPlayField| #[trigger]
                        won@.contains(board) implies won_before.contains(board) by {
                        if !won_before.contains(board) {
                            assert(added.contains(board));
                        }
                    }
                    assert(won@ =~= won_before);
                }
                assert forall|board: EfficientPlayField| #[trigger]
                    won@.contains(board) implies exists|target: EfficientPlayField|
                    (start@.contains(target) || stuck.contains(target))
                        && #[trigger] board.is_white_origin_of(target, max_stone_count) by {
                    if !won_before.contains(board) {
                        assert(board.is_white_origin_of(current, max_stone_count));
                    }
                }
                assert forall|target: EfficientPlayField|
                    start@.contains(target) || stuck.contains(target) implies in_queue(
                    queue@,
                    target,
                    0,
                ) || #[trigger] target.closed_backward(won@, max_stone_count) by {
                    if target == current {
                    } else if in_queue(queue_before, target, 0) {
                        let i = choose|i: int|
                            0 <= i < queue_before.len() && (#[trigger] queue_before[i]).1 == target
                                && queue_before[i].0 % 2 == 0;
                        assert(rest[i - 1] == queue_before[i]);
                        assert(queue@.subrange(0, rest.len() as int)[i - 1] == queue@[i - 1]);
                        assert(queue@[i - 1].1 == target);
                    } else {
                        assert(target.closed_backward(won_before, max_stone_count));
                    }
                }
                assert forall|i: int| 0 <= i < queue@.len() implies (#[trigger] queue@[i]).0 <= won@.len()
                    + lost@.len() && if queue@[i].0 % 2 == 0 {
                    start@.contains(queue@[i].1) || stuck.contains(queue@[i].1)
                } else {
                    won@.contains(queue@[i].1)
                } by {
                    if i < rest.len() {
                        assert(queue@.subrange(0, rest.len() as int)[i] == queue@[i]);
                        assert(rest[i] == queue_before[i + 1]);
                    } else {
                        assert(added.contains(queue@[i].1));
                        vstd::set::axiom_set_contains_len(added, queue@[i].1);
                    }
                }
                assert forall|board: EfficientPlayField| #[trigger]
                    won@.contains(board) implies processed.contains(board) || in_queue(
                    queue@,
                    board,
                    1,
                ) by {
                    if won_before.contains(board) {
                        if !processed.contains(board) {
                            let i = choose|i: int|
                                0 <= i < queue_before.len() && (#[trigger] queue_before[i]).1
                                    == board && queue_before[i].0 % 2 == 1;
                            assert(i != 0);
                            assert(rest[i - 1] == queue_before[i]);
                            assert(queue@.subrange(0, rest.len() as int)[i - 1] == queue@[i - 1]);
                            assert(queue@[i - 1].1 == board && queue@[i - 1].0 % 2 == 1);
                        }
                    } else {
                        assert(added.contains(board));
                        let i = choose|i: int|
                            rest.len() <= i < queue@.len() && (#[trigger] queue@[i]).1 == board;
                        assert(queue@[i].0 == level + 1);
                    }
                }
                assert(solving_lost(won@, lost@, processed, queue@, max_stone_count));
                rank_won = lemma_ranking_white(
                    start@,
                    stuck,
                    won_before,
                    won@,
                    rank_won,
                    rank_stuck,
                    clock,
                    current,
                    max_stone_count,
                );
                clock = clock + 1;
            }
        } else {
            let added = add_black_origins(
                &mut current,
                level + 1,
                max_stone_count,
                &won,
                &mut lost,
                &mut queue,
                &mut outside,
            );
            proof {
                lost.lemma_len();
                rank_stuck = lemma_ranking_black(
                    start@,
                    stuck,
                    added@,
                    won@,
                    rank_won,
                    rank_stuck,
                    clock,
                    current,
                    max_stone_count,
                );
                clock = clock + 1;
                stuck = stuck.union(added@);
                if added@.len() == 0 {
                    vstd::set_lib::lemma_len_subset(lost_before, lost@);
                    assert(lost@ =~= lost_before) by {
                        vstd::set_lib::lemma_subset_equality(lost_before, lost@);
                    }
                }
                assert forall|board: EfficientPlayField| #[trigger]
                    won@.contains(board) implies exists|target: EfficientPlayField|
                    (start@.contains(target) || stuck.contains(target))
                        && #[trigger] board.is_white_origin_of(target, max_stone_count) by {
                    let target = choose|target: EfficientPlayField|
                        (start@.contains(target) || stuck_set_before.contains(target))
                            && #[trigger] board.is_white_origin_of(target, max_stone_count);
                    assert(start@.contains(target) || stuck.contains(target));
                }
                assert forall|target: EfficientPlayField|
                    start@.contains(target) || stuck.contains(target) implies in_queue(
                    queue@,
                    target,
                    0,
                ) || #[trigger] target.closed_backward(won@, max_stone_count) by {
                    if added@.contains(target) {
                        let i = choose|i: int|
                            rest.len() <= i < queue@.len() && (#[trigger] queue@[i]).1 == target;
                        assert(queue@[i].0 == level + 1);
                    } else if in_queue(queue_before, target, 0) {
                        let i = choose|i: int|
                            0 <= i < queue_before.len() && (#[trigger] queue_before[i]).1 == target
                                && queue_before[i].0 % 2 == 0;
                        assert(i != 0);
                        assert(rest[i - 1] == queue_before[i]);
                        assert(queue@.subrange(0, rest.len() as int)[i - 1] == queue@[i - 1]);
                        assert(queue@[i - 1].1 == target);
                    }
                }
                assert forall|board: EfficientPlayField| #[trigger]
                    stuck.contains(board) implies board.all_forward_in(PlayerColor::Black, won@)
                    && exists|target: EfficientPlayField|
                    won@.contains(target) && #[trigger] board.is_black_origin_of(
                        target,
                        max_stone_count,
                    ) by {
                    if added@.contains(board) {
                        assert(won@.contains(current) && board.is_black_origin_of(
                            current,
                            max_stone_count,
                        ));
                    }
                }
                assert forall|board: EfficientPlayField| #[trigger]
                    lost@.contains(board) <==> exists|origin: EfficientPlayField| #[trigger]
                        stuck.contains(origin) && board == lost_form(origin) by {
                    if lost@.contains(board) {
                        if lost_before.contains(board) {
                            let origin = choose|origin: EfficientPlayField| #[trigger]
                                stuck_set_before.contains(origin) && board == lost_form(origin);
                            assert(stuck.contains(origin));
                        } else {
                            let origin = choose|origin: EfficientPlayField| #[trigger]
                                added@.contains(origin) && board == lost_form(origin);
                            assert(stuck.contains(origin));
                        }
                    }
                    if exists|origin: EfficientPlayField| #[trigger]
                        stuck.contains(origin) && board == lost_form(origin) {
                        let origin = choose|origin: EfficientPlayField| #[trigger]
                            stuck.contains(origin) && board == lost_form(origin);
                        if stuck_set_before.contains(origin) {
                            assert(lost_before.contains(board));
                        }
                    }
                }
                assert forall|i: int| 0 <= i < queue@.len() implies (#[trigger] queue@[i]).0 <= won@.len()
                    + lost@.len() && if queue@[i].0 % 2 == 0 {
                    start@.contains(queue@[i].1) || stuck.contains(queue@[i].1)
                } else {
                    won@.contains(queue@[i].1)
                } by {
                    if i < rest.len() {
                        assert(queue@.subrange(0, rest.len() as int)[i] == queue@[i]);
                        assert(rest[i] == queue_before[i + 1]);
                    } else {
                        assert(added@.contains(queue@[i].1));
                        vstd::set::axiom_set_contains_len(added@, queue@[i].1);
                    }
                }
                processed = processed.insert(current);
                assert forall|board: EfficientPlayField| #[trigger]
                    won@.contains(board) implies processed.contains(board) || in_queue(
                    queue@,
                    board,
                    1,
                ) by {
                    if !processed.contains(board) {
                        let i = choose|i: int|
                            0 <= i < queue_before.len() && (#[trigger] queue_before[i]).1 == board
                                && queue_before[i].0 % 2 == 1;
                        assert(i != 0);
                        assert(rest[i - 1] == queue_before[i]);
                        assert(queue@.subrange(0, rest.len() as int)[i - 1] == queue@[i - 1]);
                        assert(queue@[i - 1].1 == board && queue@[i - 1].0 % 2 == 1);
                    }
                }
                assert forall|target: EfficientPlayField, previous: EfficientPlayField|
                    processed.contains(target) && #[trigger] previous.reaches(
                        PlayerColor::Black,
                        target,
                    ) && previous.within_limit(max_stone_count) implies examined(
                    previous.canonical(),
                    lost@,
                    processed,
                ) by {
                    let origin = previous.canonical();
                    previous.lemma_canonical_counts();
                    previous.lemma_canonical_idempotent();
                    if target == current {
                        lemma_examined_at(previous, current, won@, lost@, processed, max_stone_count);
                    } else {
                        assert(examined(origin, lost_before, processed_before));
                        if lost_before.contains(lost_form(origin)) {
                            assert(lost@.contains(lost_form(origin)));
                        } else {
                            let next = choose|next: EfficientPlayField| #[trigger]
                                origin.reaches(PlayerColor::Black, next)
                                    && !processed_before.contains(next.canonical());
                            if next.canonical() == current {
                                let other = origin.lemma_reaches_canonical(PlayerColor::Black, next);
                                lemma_examined_at(other, current, won@, lost@, processed, max_stone_count);
                            }
                        }
                    }
                }
                assert(solving_lost(won@, lost@, processed, queue@, max_stone_count));
            }
        }
    }
    proof {
        assert(queue@.len() == 0);
        assert forall|target: EfficientPlayField|
            start@.contains(target) || stuck.contains(target) implies #[trigger] target.closed_backward(
            won@,
            max_stone_count,
        ) by {
            assert(!in_queue(queue@, target, 0));
        }
        assert forall|target: EfficientPlayField, previous: EfficientPlayField|
            won@.contains(target) && #[trigger] previous.reaches(PlayerColor::Black, target)
                && previous.within_limit(max_stone_count) && previous.canonical().all_forward_in(
                PlayerColor::Black,
                won@,
            ) implies lost@.contains(lost_form(previous.canonical())) by {
            assert(!in_queue(queue@, target, 1));
            assert(processed.contains(target));
            assert(examined(previous.canonical(), lost@, processed));
            if !lost@.contains(lost_form(previous.canonical())) {
                let next = choose|next: EfficientPlayField| #[trigger]
                    previous.canonical().reaches(PlayerColor::Black, next) && !processed.contains(
                        next.canonical(),
                    );
                assert(won@.contains(next.canonical()));
                assert(!in_queue(queue@, next.canonical(), 1));
            }
        }
        assert(solved_with(start@, stuck, won@, lost@, max_stone_count));
        lemma_stuck_of(start@, stuck, won@, lost@, max_stone_count);
    }
    let result = (won, lost);
    assert(solved(start@, result.0@, result.1@, max_stone_count));
    assert(ranked(start@, stuck_of(result.1@), result.0@, rank_won, rank_stuck, max_stone_count));
    result
}

impl EfficientPlayField {
    /// The positions that White, to move, has won, and the positions that White,
    /// to move, has lost, where neither side has more than `max_stone_count`
    /// stones: what the solver finds from the positions in which White has won
    /// already.
    pub fn generate_all_won_playfields(max_stone_count: usize) -> (result: (
        PlayFieldSet,
        PlayFieldSet,
    ))
        ensures
            result.0.wf(),
            result.1.wf(),
            solved(start_positions(max_stone_count), result.0@, result.1@, max_stone_count),
            exists|rank_won: Map<EfficientPlayField, nat>, rank_stuck: Map<EfficientPlayField, nat>| #[trigger]
                ranked(
                    start_positions(max_stone_count),
                    stuck_of(result.1@),
                    result.0@,
                    rank_won,
                    rank_stuck,
                    max_stone_count,
                ),
            max_stone_count <= 9 ==> result.0@.disjoint(result.1@),
    {
        let start = EfficientPlayField::generate_won_configs_white(max_stone_count);
        let result = propagate_won_playfields(&start, max_stone_count);
        proof {
            let all = start_positions(max_stone_count);
            assert forall|board: EfficientPlayField| all.contains(board) implies start@.contains(
                board,
            ) by {
                if board.is_reduced_image(max_stone_count) {
                    let origin = choose|origin: EfficientPlayField| #[trigger]
                        origin.is_reduced_position(max_stone_count) && board == origin.canonical();
                    assert(start@.contains(origin.canonical()));
                } else {
                    let origin = choose|origin: EfficientPlayField| #[trigger]
                        origin.is_enclosed_position(max_stone_count) && board
                            == origin.canonical();
                    assert(start@.contains(origin.canonical()));
                }
            }
            assert(all =~= start@);
            if max_stone_count <= 9 {
                let ranks = choose|
                    rank_won: Map<EfficientPlayField, nat>,
                    rank_stuck: Map<EfficientPlayField, nat>,
                | #[trigger]
                    ranked(
                        start@,
                        stuck_of(result.1@),
                        result.0@,
                        rank_won,
                        rank_stuck,
                        max_stone_count,
                    );
                crate::game::efficient_state::disjoint::lemma_won_lost_disjoint(
                    result.0@,
                    result.1@,
                    ranks.0,
                    ranks.1,
                    max_stone_count,
                );
            }
        }
        result
    }

    /// The value of the position for White to move: 2 where `won` holds its
    /// canonical form, else 0 where `lost` holds it, else 1.
    pub fn classify(&mut self, won: &PlayFieldSet, lost: &PlayFieldSet) -> (value: u8)
        ensures
            *final(self) == *old(self),
            value == if won@.contains(old(self).canonical()) {
                2u8
            } else if lost@.contains(old(self).canonical()) {
                0u8
            } else {
                1u8
            },
    {
        let canonical = self.get_canonical_form();
        if won.contains(&canonical) {
            2
        } else if lost.contains(&canonical) {
            0
        } else {
            1
        }
    }
}

} // verus!
