use muehle::game::efficient_state::field_set::{CanonicalCollection, PlayFieldSet};
use muehle::game::efficient_state::processing::{
    first_canonical_matches, game_states, move_triples, process_felder, Processed, ToWhatToProcess,
};
use muehle::game::efficient_state::win_decider::propagate_won_playfields;
use muehle::game::efficient_state::{EfficientPlayField, FieldPos};
use muehle::game::PlayerColor;

#[test]
fn number_of_base_won_playfields_is_correct_test() {
    let incremental_won_set = EfficientPlayField::generate_won_configs_white(9);

    let mut enclosed_won_set = CanonicalCollection::new();
    EfficientPlayField::add_white_won_configurations_enclosed(9, &mut enclosed_won_set);

    assert_eq!(7825361, (incremental_won_set.len() - enclosed_won_set.len()));
    assert_eq!(567794, enclosed_won_set.len());
    assert_eq!(8393155, incremental_won_set.len());
}

#[test]
fn t3vs3_all_won_loose_playfields_count_correct() {
    let (won, lost) = EfficientPlayField::generate_all_won_playfields(3);

    assert_eq!(140621, won.len());
    assert_eq!(28736, lost.len());
}

#[test]
fn won_and_lost_share_no_position() {
    let (won, lost) = EfficientPlayField::generate_all_won_playfields(3);
    let start = EfficientPlayField::generate_won_configs_white(3);
    assert_eq!(start.len(), 243);
    let mut checked = 0;
    for board in &start.boards {
        let mut board = *board;
        for previous in board.get_backward_moves(PlayerColor::White) {
            if !previous.is_within_limit(3) {
                continue;
            }
            let mut previous = previous;
            let canonical = previous.get_canonical_form();
            assert!(won.contains(&canonical));
            assert!(!lost.contains(&canonical));
            assert_eq!(previous.classify(&won, &lost), 2);
            checked += 1;
        }
    }
    assert!(checked > 0);
}

#[test]
fn every_won_position_has_a_winning_ply() {
    let start = EfficientPlayField::generate_won_configs_white(3);
    let (won, lost) = propagate_won_playfields(&start, 3);
    // White closes a mill and takes the third black stone
    let mut about_to_win = EfficientPlayField::from_coded("WEEEEEEWEEEEEEBBEEEWEEEB");
    assert_eq!(about_to_win.classify(&won, &lost), 2);
    let mut found = false;
    for next in about_to_win.get_forward_moves(PlayerColor::White) {
        let mut next = next;
        if start.contains(&next.get_canonical_form()) {
            found = true;
        }
    }
    assert!(found);
    let mut empty = EfficientPlayField::default();
    assert_eq!(empty.classify(&won, &lost), 1);
    // every ply of Black from a lost position, seen from Black, leads into the won set
    let mut seen = 0;
    for board in &start.boards {
        let mut board = *board;
        for previous in board.get_backward_moves(PlayerColor::White) {
            if !previous.is_within_limit(3) {
                continue;
            }
            let mut previous = previous;
            let mut won_position = previous.get_canonical_form();
            for stuck in won_position.get_backward_moves(PlayerColor::Black) {
                let mut stuck = stuck;
                let mut canonical = stuck.get_canonical_form();
                let mut inverted = canonical.invert_playfields_stone_colors();
                if stuck.is_within_limit(3) && lost.contains(&inverted.get_canonical_form()) {
                    assert!(canonical.first_move_outside(PlayerColor::Black, &won).is_none());
                    assert_eq!(inverted.classify(&won, &lost), 0);
                    seen += 1;
                }
            }
        }
        if seen > 50 {
            break;
        }
    }
    assert!(seen > 0);
}

#[test]
fn start_set_of_three_stones() {
    let start = EfficientPlayField::generate_won_configs_white(3);
    assert_eq!(start.len(), 243);
    let mut enclosed = CanonicalCollection::new();
    EfficientPlayField::add_white_won_configurations_enclosed(3, &mut enclosed);
    assert_eq!(enclosed.len(), 0);
    for board in &start.boards {
        assert_eq!(board.get_stone_count_of(PlayerColor::White), 3);
        assert_eq!(board.get_stone_count_of(PlayerColor::Black), 2);
        let mut copy = *board;
        assert_eq!(copy.get_canonical_form(), *board);
        assert!(start.contains(board));
    }
    let mills = EfficientPlayField::generate_3_canon_mills();
    assert_eq!(mills.len(), 3);
    assert_eq!(mills[0].to_string_representation(), "WEEEEEWWEEEEEEEEEEEEEEEE");
    assert_eq!(mills[1].to_string_representation(), "EEEEEEEEWEEEEEWWEEEEEEEE");
    assert_eq!(mills[2].to_string_representation(), "EEEEEEEWEEEEEEEWEEEEEEEW");
}

#[test]
fn black_stones_are_enclosed() {
    // four black stones side by side on the outer ring
    let mut board = EfficientPlayField::from_coded("EEEEBBBBEEEEEEEEEEEEEEEE");
    let placements = board.get_forward_move_placements();
    assert_eq!(placements, vec![(1, 1), (1, 1 << 4), (2, 1 << 8), (2, 1 << 14)]);
    assert!(board.is_beside_stone(FieldPos { ring_index: 1, field_index: 2 }));
    assert!(!board.is_beside_stone(FieldPos { ring_index: 1, field_index: 3 }));
    let (enclosed, count) = board.enclosed();
    assert_eq!(count, 4);
    assert_eq!(enclosed.to_string_representation(), "WEEWBBBBEEEEEWEWEEEEEEEE");

    let mut set = CanonicalCollection::new();
    let mut three = board;
    three.enclose_if_possible(3, &mut set);
    assert_eq!(set.len(), 0);
    assert_eq!(three, board);
    let mut four = board;
    four.enclose_if_possible(4, &mut set);
    assert_eq!(set.len(), 1);
    assert_eq!(four, enclosed);
    let mut five = board;
    five.enclose_if_possible(5, &mut set);
    // the enclosed board again, and one more white stone on each of 16 empty cells
    assert_eq!(set.len(), 1 + 16);
    let mut collected = CanonicalCollection::new();
    EfficientPlayField::add_white_won_configurations_enclosed(4, &mut collected);
    let mut canonical = enclosed;
    assert!(collected.contains(&canonical.get_canonical_form()));
    for board in &collected.boards {
        assert_eq!(board.get_stone_count_of(PlayerColor::Black), 4);
        assert!(board.get_stone_count_of(PlayerColor::White) <= 4);
        let mut copy = *board;
        assert_eq!(copy.get_move_triple(PlayerColor::Black).0, 0);
    }
}

#[test]
fn stones_are_distributed_in_every_way() {
    let empty = EfficientPlayField::default();
    let mut one = CanonicalCollection::new();
    empty.distribute_stones_and_add(PlayerColor::White, 1, 0, &mut one);
    // a stone on an even or an odd position, of the middle ring or of another
    assert_eq!(one.len(), 4);
    let mut none = CanonicalCollection::new();
    empty.distribute_stones_and_add(PlayerColor::White, 0, 0, &mut none);
    assert_eq!(none.len(), 0);
    let mut late = CanonicalCollection::new();
    empty.distribute_stones_and_add(PlayerColor::Black, 1, 23, &mut late);
    assert_eq!(late.len(), 1);
    let mut pairs = CanonicalCollection::new();
    empty.distribute_more_stones(PlayerColor::White, 1, 2, 0, &mut pairs);
    for board in &pairs.boards {
        assert_eq!(board.get_stone_count_of(PlayerColor::White), 2);
    }
    let mut up_to_two = CanonicalCollection::new();
    empty.distribute_stones_and_add(PlayerColor::White, 2, 0, &mut up_to_two);
    assert_eq!(up_to_two.len(), pairs.len() + 4);
}

#[test]
fn a_set_holds_what_was_inserted() {
    let mut set = PlayFieldSet::new();
    let first = EfficientPlayField::from_coded("BEEEWEWBEEWWEEWEWEEWWWBB");
    let second = EfficientPlayField::from_coded("BBEEEEEBEEEEWEWWBWWEEEBE");
    assert_eq!(set.len(), 0);
    assert!(!set.contains(&first));
    assert!(set.insert(first));
    assert!(!set.insert(first));
    assert!(set.contains(&first));
    assert!(!set.contains(&second));
    assert_eq!(set.len(), 1);
    assert!(set.insert(second));
    assert_eq!(set.len(), 2);

    let mut collection = CanonicalCollection::new();
    assert!(collection.add(second));
    let mut turned = second;
    turned.rotate_self_right(1);
    assert!(!collection.add(turned));
    assert_eq!(collection.len(), 1);
    assert_eq!(collection.boards[0].to_string_representation(), "BEBEEEWWEWWEWEEEBBEEEEEB");
}

#[test]
fn boards_of_a_list_are_matched_and_judged() {
    let first = EfficientPlayField::from_coded("BBEEEEEBEEEEWEWWBWWEEEBE");
    let mut turned = first;
    turned.rotate_self_right(3);
    let other = EfficientPlayField::from_coded("BEEEWEWBEEWWEEWEWEEWWWBB");
    let mut mirrored = other;
    mirrored.mirror_on_y();
    let boards = vec![first, other, turned, mirrored, first, EfficientPlayField::default()];
    assert_eq!(first_canonical_matches(&boards), vec![1, 2, 1, 2, 1, 6]);
    assert_eq!(
        process_felder(ToWhatToProcess::CanonicalForm, &boards),
        Processed::CanonicalForm(vec![1, 2, 1, 2, 1, 6])
    );
    assert_eq!(move_triples(&boards)[1], (11, 1, 4));
    assert_eq!(
        process_felder(ToWhatToProcess::MoveTripel, &vec![other, EfficientPlayField::default()]),
        Processed::MoveTripel(vec![(11, 1, 4), (0, 0, 0)])
    );
    let mut won = PlayFieldSet::new();
    let mut lost = PlayFieldSet::new();
    let mut canonical = first;
    won.insert(canonical.get_canonical_form());
    let mut canonical = other;
    lost.insert(canonical.get_canonical_form());
    assert_eq!(game_states(&boards, &won, &lost), vec![2, 0, 2, 0, 2, 1]);
}
