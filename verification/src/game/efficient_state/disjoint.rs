//! No position is both won and lost for White to move, where neither side has more
//! than nine stones.
use vstd::prelude::*;

use crate::game::PlayerColor;
use crate::game::efficient_state::EfficientPlayField;
use crate::game::efficient_state::start_set_generation::template_cells;
use crate::game::efficient_state::win_decider::{
    lost_form, ranked, solved, start_positions, stuck_of,
};

verus! {

broadcast use crate::game::efficient_state::lemma_board_len;

/// The number that tells how late a position that Black has lost was found, with
/// its lost form among the won positions: the sum of the two numbers, where a
/// position in which White has won already counts 0.
pub open spec fn found_at(
    board: EfficientPlayField,
    start: Set<EfficientPlayField>,
    rank_won: Map<EfficientPlayField, nat>,
    rank_stuck: Map<EfficientPlayField, nat>,
) -> nat {
    rank_won[lost_form(board)] + if start.contains(board) {
        0
    } else {
        rank_stuck[board]
    }
}

impl EfficientPlayField {
    /// A board with a white mill holds three white stones or more.
    pub proof fn lemma_template_count(self, k: int)
        requires
            0 <= k < 3,
            self.has_template(k),
        ensures
            self.count(1) >= 3,
    {
        self.lemma_no_stone_upto(1, 24);
        let cells = template_cells(k);
        assert(self@[cells.0] == 1 && self@[cells.1] == 1 && self@[cells.2] == 1);
        if self.count(1) == 1 {
            let place = self.lemma_one_stone_upto(1, 24);
        } else if self.count(1) == 2 {
            let places = self.lemma_two_stones_upto(1, 24);
        }
    }

    /// A position in which White has won already holds three white stones or more,
    /// where neither side has more than nine stones.
    pub proof fn lemma_start_whites(self, max_stone_count: usize)
        requires
            self.is_start_position(max_stone_count),
            max_stone_count <= 9,
        ensures
            self.count(1) >= 3,
    {
        if self.is_reduced_image(max_stone_count) {
            let origin = choose|origin: EfficientPlayField| #[trigger]
                origin.is_reduced_position(max_stone_count) && self == origin.canonical();
            origin.lemma_canonical_counts();
            if origin.has_template(0) {
                origin.lemma_template_count(0);
            } else if origin.has_template(1) {
                origin.lemma_template_count(1);
            } else {
                origin.lemma_template_count(2);
            }
        } else {
            let origin = choose|origin: EfficientPlayField| #[trigger]
                origin.is_enclosed_position(max_stone_count) && self == origin.canonical();
            origin.lemma_canonical_counts();
            origin.lemma_enclosed_whites(max_stone_count);
        }
    }

    /// A board of which an image reaches a board reaches an image of that board.
    pub proof fn lemma_reaches_from_image(self, k: int, color: PlayerColor, next: EfficientPlayField) -> (image:
        EfficientPlayField)
        requires
            0 <= k < 16,
            self.image(k).reaches(color, next),
        ensures
            self.reaches(color, image),
            image.canonical() == next.canonical(),
            image.count(1) == next.count(1),
            image.count(2) == next.count(2),
    {
        assert(self.image(0) == self) by {
            reveal(EfficientPlayField::image);
        }
        assert(self.in_orbit_of(self));
        self.lemma_orbit_of_image(k, self);
        let back = choose|back: int| 0 <= back < 16 && self == #[trigger] self.image(k).image(back);
        self.image(k).lemma_image_reaches(back, color, next);
        next.lemma_canonical_of_image(back);
        next.lemma_image_counts(back);
        next.image(back)
    }
}

/// Every position that White has won, and every position that Black has lost,
/// holds three white stones or more, where neither side has more than nine stones:
/// said of the positions with a number below `n`.
pub proof fn lemma_white_stones(
    won: Set<EfficientPlayField>,
    lost: Set<EfficientPlayField>,
    rank_won: Map<EfficientPlayField, nat>,
    rank_stuck: Map<EfficientPlayField, nat>,
    max_stone_count: usize,
    n: nat,
)
    requires
        ranked(
            start_positions(max_stone_count),
            stuck_of(lost),
            won,
            rank_won,
            rank_stuck,
            max_stone_count,
        ),
        max_stone_count <= 9,
    ensures
        forall|board: EfficientPlayField| #[trigger]
            won.contains(board) && rank_won[board] < n ==> board.count(1) >= 3,
        forall|board: EfficientPlayField| #[trigger]
            stuck_of(lost).contains(board) && rank_stuck[board] < n ==> board.count(1) >= 3,
    decreases n,
{
    if n > 0 {
        lemma_white_stones(won, lost, rank_won, rank_stuck, max_stone_count, (n - 1) as nat);
        let start = start_positions(max_stone_count);
        let stuck = stuck_of(lost);
        assert forall|board: EfficientPlayField| #[trigger]
            won.contains(board) && rank_won[board] < n implies board.count(1) >= 3 by {
            let target = choose|target: EfficientPlayField|
                (start.contains(target) || (stuck.contains(target) && rank_stuck[target]
                    < rank_won[board])) && #[trigger] board.is_white_origin_of(
                    target,
                    max_stone_count,
                );
            if start.contains(target) {
                target.lemma_start_whites(max_stone_count);
            }
            let previous = choose|previous: EfficientPlayField| #[trigger]
                previous.reaches(PlayerColor::White, target) && previous.within_limit(
                    max_stone_count,
                ) && board == previous.canonical();
            previous.lemma_reaches_counts(PlayerColor::White, target);
            previous.lemma_canonical_counts();
        }
        assert forall|board: EfficientPlayField| #[trigger]
            stuck.contains(board) && rank_stuck[board] < n implies board.count(1) >= 3 by {
            let target = choose|target: EfficientPlayField|
                won.contains(target) && rank_won[target] < rank_stuck[board]
                    && #[trigger] board.is_black_origin_of(target, max_stone_count);
            let previous = choose|previous: EfficientPlayField| #[trigger]
                previous.reaches(PlayerColor::Black, target) && previous.within_limit(
                    max_stone_count,
                ) && board == previous.canonical();
            previous.lemma_reaches_counts(PlayerColor::Black, target);
            previous.lemma_canonical_counts();
        }
    }
}

/// No position that Black, to move, has lost is, with the colours exchanged, a
/// position that White, to move, has won: said of the positions found before `n`.
pub proof fn lemma_not_both(
    board: EfficientPlayField,
    won: Set<EfficientPlayField>,
    lost: Set<EfficientPlayField>,
    rank_won: Map<EfficientPlayField, nat>,
    rank_stuck: Map<EfficientPlayField, nat>,
    max_stone_count: usize,
    n: nat,
)
    requires
        ranked(
            start_positions(max_stone_count),
            stuck_of(lost),
            won,
            rank_won,
            rank_stuck,
            max_stone_count,
        ),
        max_stone_count <= 9,
        start_positions(max_stone_count).contains(board) || stuck_of(lost).contains(board),
    ensures
        !(won.contains(lost_form(board)) && found_at(board, start_positions(max_stone_count), rank_won, rank_stuck)
            < n),
    decreases n,
{
    if !(won.contains(lost_form(board)) && found_at(board, start_positions(max_stone_count), rank_won, rank_stuck)
        < n) {
        return ;
    }
    let start = start_positions(max_stone_count);
    let stuck = stuck_of(lost);
    let winning = lost_form(board);
    let target = choose|target: EfficientPlayField|
        (start.contains(target) || (stuck.contains(target) && rank_stuck[target]
            < rank_won[winning])) && #[trigger] winning.is_white_origin_of(target, max_stone_count);
    let previous = choose|previous: EfficientPlayField| #[trigger]
        previous.reaches(PlayerColor::White, target) && previous.within_limit(max_stone_count)
            && winning == previous.canonical();
    // The board from which White reaches the target is an image of the inverted
    // board, so Black reaches the inverted target from an image of the board.
    board.inverted().lemma_same_canonical(previous);
    let k = choose|k: int| 0 <= k < 16 && previous == #[trigger] board.inverted().image(k);
    board.lemma_inverted_image(k);
    previous.lemma_inverted_reaches(PlayerColor::White, target);
    board.image(k).lemma_inverted_twice();
    assert(previous.inverted() == board.image(k));
    let reached = board.lemma_reaches_from_image(k, PlayerColor::Black, target.inverted());
    target.lemma_inverted_counts();
    lemma_white_stones(
        won,
        lost,
        rank_won,
        rank_stuck,
        max_stone_count,
        rank_won[winning] + 1,
    );
    if start.contains(target) {
        target.lemma_start_whites(max_stone_count);
    }
    assert(target.count(1) >= 3);
    if start.contains(board) {
        if board.is_reduced_image(max_stone_count) {
            let origin = choose|origin: EfficientPlayField| #[trigger]
                origin.is_reduced_position(max_stone_count) && board == origin.canonical();
            origin.lemma_canonical_counts();
            board.lemma_reaches_counts(PlayerColor::Black, reached);
        } else {
            let origin = choose|origin: EfficientPlayField| #[trigger]
                origin.is_enclosed_position(max_stone_count) && board == origin.canonical();
            origin.lemma_canonical();
            let j = choose|j: int| 0 <= j < 16 && board == #[trigger] origin.image(j);
            let other = origin.lemma_reaches_from_image(j, PlayerColor::Black, reached);
            origin.lemma_enclosed_no_ply(max_stone_count, other);
        }
    } else {
        assert(won.contains(reached.canonical()) && rank_won[reached.canonical()]
            < rank_stuck[board]);
        assert(reached.canonical() == lost_form(target));
        lemma_not_both(
            target,
            won,
            lost,
            rank_won,
            rank_stuck,
            max_stone_count,
            found_at(board, start, rank_won, rank_stuck),
        );
    }
}

/// No position is both won and lost for White to move, where neither side has
/// more than nine stones.
pub proof fn lemma_won_lost_disjoint(
    won: Set<EfficientPlayField>,
    lost: Set<EfficientPlayField>,
    rank_won: Map<EfficientPlayField, nat>,
    rank_stuck: Map<EfficientPlayField, nat>,
    max_stone_count: usize,
)
    requires
        solved(start_positions(max_stone_count), won, lost, max_stone_count),
        ranked(
            start_positions(max_stone_count),
            stuck_of(lost),
            won,
            rank_won,
            rank_stuck,
            max_stone_count,
        ),
        max_stone_count <= 9,
    ensures
        won.disjoint(lost),
{
    let stuck = stuck_of(lost);
    assert forall|board: EfficientPlayField| !(won.contains(board) && lost.contains(board)) by {
        if won.contains(board) && lost.contains(board) {
            let origin = choose|origin: EfficientPlayField| #[trigger]
                stuck.contains(origin) && board == lost_form(origin);
            lemma_not_both(
                origin,
                won,
                lost,
                rank_won,
                rank_stuck,
                max_stone_count,
                found_at(origin, start_positions(max_stone_count), rank_won, rank_stuck) + 1,
            );
        }
    }
}

} // verus!
