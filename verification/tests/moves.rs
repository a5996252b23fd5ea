use muehle::game::efficient_state::simulations::MoveDirection;
use muehle::game::efficient_state::{EfficientPlayField, FieldPos};
use muehle::game::PlayerColor;

fn jump_board() -> EfficientPlayField {
    // white: outer 7, outer 0, inner 3; black: middle 0, 1, 2 and 4
    EfficientPlayField::from_coded("WEEEEEEWEEEBEBBBEEEEWEEE")
}

#[test]
fn move_triple_counts_moves_mills_and_takes() {
    let mut board = EfficientPlayField::from_coded("BEEEWEWBEEWWEEWEWEEWWWBB");
    assert_eq!(board.get_move_triple(PlayerColor::White), (11, 1, 4));
    assert_eq!(board.get_move_triple(PlayerColor::Black), (3, 0, 9));
    assert_eq!(board, EfficientPlayField::from_coded("BEEEWEWBEEWWEEWEWEEWWWBB"));

    let mut jumping = jump_board();
    assert_eq!(jumping.get_move_triple(PlayerColor::White), (51, 1, 4));
    assert_eq!(jumping.get_move_triple(PlayerColor::Black), (9, 1, 3));
    let mut empty = EfficientPlayField::default();
    assert_eq!(empty.get_move_triple(PlayerColor::White), (0, 0, 0));
}

#[test]
fn forward_moves_slide_jump_and_take() {
    let mut board = EfficientPlayField::from_coded("BEEEWEWBEEWWEEWEWEEWWWBB");
    let white = board.get_forward_moves(PlayerColor::White);
    // eleven moves, one of them closes a mill and takes one of four stones
    assert_eq!(white.len(), 14);
    assert_eq!(board.get_forward_moves(PlayerColor::Black).len(), 3);
    for next in &white {
        assert_eq!(next.get_stone_count_of(PlayerColor::White), 9);
        let black = next.get_stone_count_of(PlayerColor::Black);
        assert!(black == 4 || black == 3);
    }
    assert_eq!(white.iter().filter(|next| next.get_stone_count_of(PlayerColor::Black) == 3).count(), 4);

    let mut jumping = jump_board();
    let jumps = jumping.get_forward_moves(PlayerColor::White);
    assert_eq!(jumps.len(), 54);
    let closed = EfficientPlayField::from_coded("WEEEEEWWEEEBEBBBEEEEEEEE");
    assert!(jumps.contains(&closed.put(FieldPos { ring_index: 1, field_index: 4 }, 0)));
    assert!(jumps.contains(&closed.put(FieldPos { ring_index: 1, field_index: 0 }, 0)));
    assert!(!jumps.contains(&closed));
    assert_eq!(jumping.get_forward_moves(PlayerColor::Black).len(), 11);
}

#[test]
fn stones_in_mills_are_taken_only_when_all_are() {
    // black: the right side of the middle ring and one stone more
    let mut board = EfficientPlayField::from_coded("WEEEEEEWEEEEBBBEEEEEWEEE");
    assert_eq!(
        board.get_fields_to_take(PlayerColor::White).to_vec(),
        vec![FieldPos { ring_index: 1, field_index: 1 }, FieldPos { ring_index: 1, field_index: 2 }, FieldPos { ring_index: 1, field_index: 3 }]
    );
    board.set_field(1, 6, 2);
    assert_eq!(board.get_fields_to_take(PlayerColor::White).to_vec(), vec![FieldPos { ring_index: 1, field_index: 6 }]);
    assert_eq!(board.get_fields_to_take(PlayerColor::Black).len(), 3);
    assert_eq!(board.get_empty_fields().to_vec()[0], FieldPos { ring_index: 0, field_index: 0 });
    assert!(board.is_takeable(FieldPos { ring_index: 1, field_index: 6 }, PlayerColor::White));
    assert!(!board.is_takeable(FieldPos { ring_index: 1, field_index: 2 }, PlayerColor::White));
    assert!(!board.is_takeable(FieldPos { ring_index: 2, field_index: 7 }, PlayerColor::White));
    assert!(board.is_takeable(FieldPos { ring_index: 2, field_index: 7 }, PlayerColor::Black));
    assert_eq!(board.get_empty_fields().len(), 17);
}

#[test]
fn backward_moves_are_the_boards_that_lead_here() {
    for (text, color) in [
        ("BEEEWEWBEEWWEEWEWEEWWWBB", PlayerColor::White),
        ("BEEEWEWBEEWWEEWEWEEWWWBB", PlayerColor::Black),
        ("WEEEEEEWEEEBEBBBEEEEWEEE", PlayerColor::White),
        ("WEEEEEWWEEEBEBBBEEEEEEEE", PlayerColor::White),
        ("WWEEEEEWEEEEEEEEEEEEEEEE", PlayerColor::White),
    ] {
        let mut board = EfficientPlayField::from_coded(text);
        let before = board.get_backward_moves(color);
        assert_eq!(board, EfficientPlayField::from_coded(text));
        for previous in &before {
            let mut previous = *previous;
            assert!(previous.get_forward_moves(color).contains(&board));
        }
        // a board that leads here by a slide of one stone is found
        for next in board.get_forward_moves(color) {
            let mut next = next;
            if next.get_stone_count_of(color.opponent()) == board.get_stone_count_of(color.opponent()) {
                assert!(next.get_backward_moves(color).contains(&board));
            }
        }
    }
}

#[test]
fn backward_moves_of_three_stones_are_jumps() {
    let mut board = EfficientPlayField::from_coded("WWEEEEEWEEEEEEEEEEEEEEEE");
    assert_eq!(board.get_stone_count_of(PlayerColor::White), 3);
    let before = board.get_backward_moves(PlayerColor::White);
    // no stone stands in a mill: each of the three stones came from any of 21 cells
    assert_eq!(before.len(), 63);
    for previous in &before {
        assert_eq!(previous.get_stone_count_of(PlayerColor::White), 3);
        assert_eq!(previous.get_stone_count_of(PlayerColor::Black), 0);
    }
}

#[test]
fn backward_moves_put_a_taken_stone_back() {
    // the white mill on the top of the outer ring, and two black stones
    let mut board = EfficientPlayField::from_coded("WEEEEEWWEEEEEEBBEEEEEEEE");
    let before = board.get_backward_moves(PlayerColor::White);
    for previous in &before {
        assert_eq!(previous.get_stone_count_of(PlayerColor::White), 3);
        assert_eq!(previous.get_stone_count_of(PlayerColor::Black), 3);
    }
    // three stones, 19 cells to come from, 18 cells for the stone put back: a third
    // black stone stands in no mill, or in a mill with both others
    assert_eq!(before.len(), 3 * 19 * 18);
    assert!(before.contains(&EfficientPlayField::from_coded("EEEEEEWWEEEEEBBBEEEEEEEW")));
    assert!(before.contains(&EfficientPlayField::from_coded("EEEEEEWWEEEEBEBBEEEEEEEW")));

    // with a third black stone elsewhere, a stone put back into a black mill could
    // not have been taken
    let mut board = EfficientPlayField::from_coded("WEEEEEWWEEEBEEBBEEEEEEEE");
    let before = board.get_backward_moves(PlayerColor::White);
    assert_eq!(before.len(), 867);
    assert!(!before.contains(&EfficientPlayField::from_coded("WEEEEEEWBEEBEEBBEEWEEEEE")));
    assert!(before.contains(&EfficientPlayField::from_coded("WEEEEEEWEEBBEEBBEEWEEEEE")));
}

#[test]
fn one_move_is_simulated_with_its_takes() {
    let mut board = jump_board();
    let takes = board.get_fields_to_take(PlayerColor::White);
    let mut out = Vec::new();
    board.simulate_all_possible_moves(
        &takes,
        FieldPos { ring_index: 2, field_index: 7 },
        MoveDirection::OnRing { target_field_index: 6 },
        PlayerColor::White,
        &mut out,
    );
    assert_eq!(out, vec![EfficientPlayField::from_coded("EWEEEEEWEEEBEBBBEEEEWEEE")]);
    board.simulate_all_possible_moves(
        &takes,
        FieldPos { ring_index: 0, field_index: 3 },
        MoveDirection::AcrossRings { target_ring_index: 2 },
        PlayerColor::White,
        &mut out,
    );
    assert_eq!(out.len(), 2);
    assert_eq!(out[1], EfficientPlayField::from_coded("WEEEWEEWEEEBEBBBEEEEEEEE"));

    let mut back = Vec::new();
    board.simulate_backward_move_get_playfields(
        FieldPos { ring_index: 2, field_index: 7 },
        MoveDirection::OnRing { target_field_index: 6 },
        PlayerColor::White,
        &mut back,
    );
    assert_eq!(back, vec![EfficientPlayField::from_coded("EWEEEEEWEEEBEBBBEEEEWEEE")]);
}

#[test]
fn generators_list_each_board_once() {
    for (text, color) in [
        ("BEEEWEWBEEWWEEWEWEEWWWBB", PlayerColor::White),
        ("BEEEWEWBEEWWEEWEWEEWWWBB", PlayerColor::Black),
        ("WEEEEEEWEEEBEBBBEEEEWEEE", PlayerColor::White),
        ("WEEEEEWWEEEBEEBBEEEEEEEE", PlayerColor::White),
    ] {
        let mut board = EfficientPlayField::from_coded(text);
        let forward = board.get_forward_moves(color);
        let mut keys: Vec<u64> = forward.iter().map(|next| next.set_key()).collect();
        keys.sort();
        keys.dedup();
        assert_eq!(keys.len(), forward.len());
        let backward = board.get_backward_moves(color);
        let mut keys: Vec<u64> = backward.iter().map(|previous| previous.set_key()).collect();
        keys.sort();
        keys.dedup();
        assert_eq!(keys.len(), backward.len());
    }
}

#[test]
fn a_simulated_move_counts_its_mills() {
    let mut board = jump_board();
    // the stone of the inner ring goes beside the two stones of the outer ring
    let closing = board.simulate_move_get_mill_count(
        0,
        3,
        MoveDirection::AcrossRings { target_ring_index: 2 },
        PlayerColor::White,
    );
    assert_eq!(closing, 0);
    let mut two = EfficientPlayField::from_coded("WEEEEEEWEEEEEEEEEEEEEEEE");
    two.set_field(2, 2, 1);
    assert_eq!(
        two.simulate_move_get_mill_count(2, 2, MoveDirection::OnRing { target_field_index: 1 }, PlayerColor::White),
        1
    );
    assert_eq!(
        two.simulate_move_get_mill_count(2, 2, MoveDirection::OnRing { target_field_index: 3 }, PlayerColor::White),
        0
    );
    assert_eq!(two.get_field_state_at(2, 2), 1);
}
