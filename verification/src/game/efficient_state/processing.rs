//! What is asked of a list of boards: where each was seen first, the move triple
//! of each, the value of each.
use vstd::prelude::*;
use std::collections::HashMap;

use crate::game::PlayerColor;
use crate::game::efficient_state::EfficientPlayField;
use crate::game::efficient_state::field_set::PlayFieldSet;

verus! {

broadcast use {crate::game::efficient_state::lemma_board_len, vstd::std_specs::hash::group_hash_axioms};

/// What to work out for each board of a list.
#[derive(Debug, Clone, Copy, PartialEq, Eq, Structural)]
pub enum ToWhatToProcess {
    CanonicalForm,
    MoveTripel,
}

/// What was worked out for each board of a list.
#[derive(Debug, PartialEq, Eq)]
pub enum Processed {
    /// For each board the number, from 1, of the first board of the list with the
    /// same canonical form.
    CanonicalForm(Vec<usize>),
    /// For each board its move triple for White.
    MoveTripel(Vec<(u32, u32, u32)>),
}

/// `line` is the number, from 1, of the first board of `boards` with the canonical
/// form of the board at `index`.
pub open spec fn is_first_match(boards: Seq<EfficientPlayField>, index: int, line: int) -> bool {
    &&& 1 <= line <= index + 1
    &&& boards[line - 1].canonical() == boards[index].canonical()
    &&& forall|j: int| 0 <= j < line - 1 ==> (#[trigger] boards[j]).canonical() != boards[index].canonical()
}

/// For each board of `boards` the number, from 1, of the first board of the list
/// with the same canonical form: its own number where no earlier board has it.
pub fn first_canonical_matches(boards: &Vec<EfficientPlayField>) -> (lines: Vec<usize>)
    ensures
        lines.len() == boards.len(),
        forall|i: int| 0 <= i < boards.len() ==> is_first_match(boards@, i, #[trigger] lines[i] as int),
{
    let mut seen: HashMap<u64, usize> = HashMap::new();
    let mut lines: Vec<usize> = Vec::new();
    let mut index: usize = 0;
    while index < boards.len()
        invariant
            index <= boards.len(),
            lines.len() == index,
            forall|i: int| 0 <= i < index ==> is_first_match(boards@, i, #[trigger] lines[i] as int),
            forall|key: u64| #[trigger]
                seen@.contains_key(key) ==> 1 <= seen@[key] <= index && boards[seen@[key] - 1].canonical().key()
                    == key && forall|j: int|
                    0 <= j < seen@[key] - 1 ==> (#[trigger] boards[j]).canonical().key() != key,
            forall|j: int| 0 <= j < index ==> seen@.contains_key((#[trigger] boards[j]).canonical().key() as u64),
        decreases boards.len() - index,
    {
        let mut playfield = boards[index];
        let canonical_form = playfield.get_canonical_form();
        let key = canonical_form.set_key();
        let line = match seen.get(&key) {
            Some(previous_canonical_match) => *previous_canonical_match,
            None => {
                seen.insert(key, index + 1);
                index + 1
            },
        };
        proof {
            assert forall|j: int| 0 <= j < line - 1 implies (#[trigger] boards[j]).canonical()
                != boards[index as int].canonical() by {
                if boards[j].canonical() == boards[index as int].canonical() {
                    assert(boards[j].canonical().key() == key);
                }
            }
            boards[line - 1].canonical().lemma_key_fixes_board(canonical_form);
        }
        lines.push(line);
        index += 1;
    }
    lines
}

/// The move triple for White of each board of `boards`.
pub fn move_triples(boards: &Vec<EfficientPlayField>) -> (triples: Vec<(u32, u32, u32)>)
    ensures
        triples.len() == boards.len(),
        forall|i: int|
            0 <= i < boards.len() ==> (#[trigger] triples[i]).0 == boards[i].move_count_upto(
                PlayerColor::White,
                576,
            ) && triples[i].1 == boards[i].mill_move_count_upto(PlayerColor::White, 576)
                && triples[i].2 == boards[i].takeable_count_upto(PlayerColor::White, 24),
{
    let mut triples: Vec<(u32, u32, u32)> = Vec::new();
    let mut index: usize = 0;
    while index < boards.len()
        invariant
            index <= boards.len(),
            triples.len() == index,
            forall|i: int|
                0 <= i < index ==> (#[trigger] triples[i]).0 == boards[i].move_count_upto(
                    PlayerColor::White,
                    576,
                ) && triples[i].1 == boards[i].mill_move_count_upto(PlayerColor::White, 576)
                    && triples[i].2 == boards[i].takeable_count_upto(PlayerColor::White, 24),
        decreases boards.len() - index,
    {
        let mut playfield = boards[index];
        triples.push(playfield.get_move_triple(PlayerColor::White));
        index += 1;
    }
    triples
}

/// Works out for each board of `boards` what `outputs_contents` asks for.
pub fn process_felder(outputs_contents: ToWhatToProcess, boards: &Vec<EfficientPlayField>) -> (processed:
    Processed)
    ensures
        match processed {
            Processed::CanonicalForm(lines) => outputs_contents == ToWhatToProcess::CanonicalForm
                && lines.len() == boards.len() && forall|i: int|
                0 <= i < boards.len() ==> is_first_match(boards@, i, #[trigger] lines[i] as int),
            Processed::MoveTripel(triples) => outputs_contents == ToWhatToProcess::MoveTripel
                && triples.len() == boards.len() && forall|i: int|
                0 <= i < boards.len() ==> (#[trigger] triples[i]).0 == boards[i].move_count_upto(
                    PlayerColor::White,
                    576,
                ) && triples[i].1 == boards[i].mill_move_count_upto(PlayerColor::White, 576)
                    && triples[i].2 == boards[i].takeable_count_upto(PlayerColor::White, 24),
        },
{
    match outputs_contents {
        ToWhatToProcess::CanonicalForm => Processed::CanonicalForm(first_canonical_matches(boards)),
        ToWhatToProcess::MoveTripel => Processed::MoveTripel(move_triples(boards)),
    }
}

/// The value of a position for White to move: 2 where `won` holds its canonical
/// form, else 0 where `lost` holds it, else 1.
pub open spec fn value_of(
    board: EfficientPlayField,
    won: Set<EfficientPlayField>,
    lost: Set<EfficientPlayField>,
) -> u8 {
    if won.contains(board.canonical()) {
        2
    } else if lost.contains(board.canonical()) {
        0
    } else {
        1
    }
}

/// The value of each board of `boards` for White to move, by the positions `won`
/// and `lost`.
pub fn game_states(boards: &Vec<EfficientPlayField>, won: &PlayFieldSet, lost: &PlayFieldSet) -> (values:
    Vec<u8>)
    ensures
        values.len() == boards.len(),
        forall|i: int|
            0 <= i < boards.len() ==> #[trigger] values[i] == value_of(boards[i], won@, lost@),
{
    let mut values: Vec<u8> = Vec::new();
    let mut index: usize = 0;
    while index < boards.len()
        invariant
            index <= boards.len(),
            values.len() == index,
            forall|i: int| 0 <= i < index ==> #[trigger] values[i] == value_of(boards[i], won@, lost@),
        decreases boards.len() - index,
    {
        let mut playfield = boards[index];
        values.push(playfield.classify(won, lost));
        index += 1;
    }
    values
}

} // verus!
