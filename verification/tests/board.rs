use muehle::game::efficient_state::de_encode::EncodingError;
use muehle::game::efficient_state::mills::DirectionToCheck;
use muehle::game::efficient_state::{EfficientPlayField, FieldError, FieldPos};
use muehle::game::PlayerColor;

fn all_images(board: EfficientPlayField) -> Vec<EfficientPlayField> {
    let mut images = Vec::new();
    let mut current = board;
    for _ in 0..2 {
        for _ in 0..4 {
            images.push(current);
            let mut mirrored = current;
            mirrored.mirror_on_y();
            images.push(mirrored);
            current.rotate_self_right(1);
        }
        current.swap_rings();
    }
    images
}

#[test]
fn assignment5_dbg() {
    let mut test_epf = EfficientPlayField::from_coded("BEEEWEWBEEWWEEWEWEEWWWBB");

    test_epf.get_move_triple(PlayerColor::White);
}

#[test]
fn canonical1() {
    let test = "BBEEEEEBEEEEWEWWBWWEEEBE";
    println!("Input: {test}");

    let mut epf = EfficientPlayField::from_coded(test);

    println!("{}", epf.to_string_representation());

    let epf = epf.get_canonical_form();

    println!("Output: {}", epf.to_string_representation());
}

#[test]
fn set_field_normal() {
    let mut epf = EfficientPlayField::default();

    epf.set_field(2, 7, 2); // ring 2, index 7, to black
    epf.set_field(1, 7, 1); // ring 1, index 7, to white
    epf.set_field(0, 7, 1); // ring 0, index 7, to white

    epf.set_field(1, 0, 2); // ring 1, index 0, to black
    epf.set_field(1, 1, 2); // ring 1, index 1, to black
    epf.set_field(1, 2, 2); // ring 1, index 2, to black
    epf.set_field(1, 3, 2); // ring 1, index 3, to black
    epf.set_field(1, 4, 2); // ring 1, index 4, to black
    epf.set_field(1, 5, 2); // ring 1, index 5, to black
    epf.set_field(1, 6, 2); // ring 1, index 6, to black

    epf.set_field(0, 6, 2);
    epf.set_field(2, 2, 2);
    epf.set_field(2, 4, 1);

    println!("\nAfter some added stones: {}", epf.to_string_representation());
    assert_eq!(epf.to_string_representation(), "BEEWEBEEWBBBBBBBWBEEEEEE");
    assert_eq!(epf.get_stone_count_of(PlayerColor::White), 3);
    assert_eq!(epf.get_stone_count_of(PlayerColor::Black), 10);
}

#[test]
fn rotate1() {
    let mut epf = EfficientPlayField::default();

    epf.set_field(2, 0, 1);
    epf.set_field(1, 1, 2);
    epf.set_field(0, 2, 1);

    println!("\nInitial state: {}", epf.to_string_representation());
    epf.rotate_self_right(1);
    println!("First rotation: {}", epf.to_string_representation());
    assert_eq!(epf.get_field_state_at(2, 2), 1);
    assert_eq!(epf.get_field_state_at(1, 3), 2);
    assert_eq!(epf.get_field_state_at(0, 4), 1);
    epf.rotate_self_right(1);
    println!("Second rotation: {}", epf.to_string_representation());
    epf.rotate_self_right(1);
    println!("Third rotation: {}", epf.to_string_representation());
    assert_eq!(epf.get_field_state_at(2, 6), 1);
    assert_eq!(epf.get_field_state_at(1, 7), 2);
    assert_eq!(epf.get_field_state_at(0, 0), 1);

    epf.rotate_self_right(2);
    assert_eq!(epf.get_field_state_at(2, 2), 1);

    epf.rotate_self_right(3);
    assert_eq!(epf.get_field_state_at(2, 0), 1);
    assert_eq!(epf.get_field_state_at(1, 1), 2);
    assert_eq!(epf.get_field_state_at(0, 2), 1);
}

#[test]
fn mirror1() {
    let mut epf = EfficientPlayField::default();

    epf.set_field(2, 0, 1);
    epf.set_field(1, 1, 2);
    epf.set_field(0, 2, 1);
    epf.set_field(2, 3, 2);

    println!("\nNot mirrored:{}", epf.to_string_representation());

    epf.mirror_on_y();

    println!("Mirrored: {}", epf.to_string_representation());
    assert_eq!(epf.get_field_state_at(2, 0), 1);
    assert_eq!(epf.get_field_state_at(1, 7), 2);
    assert_eq!(epf.get_field_state_at(0, 6), 1);
    assert_eq!(epf.get_field_state_at(2, 5), 2);
    assert_eq!(epf.get_stone_count_of(PlayerColor::White), 2);
    assert_eq!(epf.get_stone_count_of(PlayerColor::Black), 2);
}

#[test]
fn set_field_reports_each_error() {
    let mut epf = EfficientPlayField::default();
    assert_eq!(epf.try_set_field(2, 7, 2), Ok(()));
    assert_eq!(epf.try_set_field(2, 7, 1), Err(FieldError::Occupancy));
    assert_eq!(epf.try_set_field(2, 7, 2), Err(FieldError::Occupancy));
    assert_eq!(epf.try_set_field(1, 3, 0), Err(FieldError::Occupancy));
    assert_eq!(epf.try_set_field(1, 3, 4), Err(FieldError::State));
    assert_eq!(epf.try_set_field(1, 3, 3), Err(FieldError::State));
    assert_eq!(epf.try_set_field(3, 1, 2), Err(FieldError::Index));
    assert_eq!(epf.try_set_field(0, 8, 2), Err(FieldError::Index));
    assert_eq!(epf.get_field_state_at(2, 7), 2);
    assert_eq!(epf.try_set_field(2, 7, 0), Ok(()));
    assert_eq!(epf, EfficientPlayField::default());
}

#[test]
fn words_hold_two_bits_a_cell() {
    let mut epf = EfficientPlayField::default();
    epf.set_field(0, 0, 1);
    epf.set_field(1, 1, 2);
    epf.set_field(2, 7, 2);
    assert_eq!(epf.inner, 0b01);
    assert_eq!(epf.middle, 0b1000);
    assert_eq!(epf.outer, 0b10 << 14);
    assert_eq!(epf.ring_word(1), 0b1000);
    assert_eq!(epf.get(FieldPos { ring_index: 1, field_index: 1 }), 2);
    let put = epf.put(FieldPos { ring_index: 1, field_index: 1 }, 0);
    assert_eq!(put.middle, 0);
    assert_eq!(epf.set_key(), (1u64 << 32) | (8u64 << 16) | (2u64 << 14));
    assert_eq!(EfficientPlayField::from_key(epf.set_key()), epf);
}

#[test]
fn no_produced_board_holds_the_forbidden_code() {
    let mut board = EfficientPlayField::from_coded("BEEEWEWBEEWWEEWEWEEWWWBB");
    let mut produced = vec![board, board.get_canonical_form(), board.invert_playfields_stone_colors()];
    produced.extend(board.get_forward_moves(PlayerColor::White));
    produced.extend(board.get_backward_moves(PlayerColor::Black));
    for next in produced {
        for ring in 0..3 {
            for pos in 0..8 {
                assert!(next.get_field_state_at(ring, pos) < 3);
            }
        }
        let white = next.get_stone_count_of(PlayerColor::White);
        let black = next.get_stone_count_of(PlayerColor::Black);
        assert!(white + black <= 24);
    }
}

#[test]
fn text_round_trips() {
    for text in [
        "BEEEWEWBEEWWEEWEWEEWWWBB",
        "BBEEEEEBEEEEWEWWBWWEEEBE",
        "EEEEEEEEEEEEEEEEEEEEEEEE",
        "WWWWWWWWBBBBBBBBEEEEEEEE",
    ] {
        let board = EfficientPlayField::decode_from_text(text).unwrap();
        assert_eq!(board.to_string_representation(), text);
        assert_eq!(EfficientPlayField::from_coded(&board.to_string_representation()), board);
    }
}

#[test]
fn text_runs_from_the_outer_ring_down() {
    let board = EfficientPlayField::from_coded("WBEEEEEEEEEEEEEEEEEEEEEB");
    assert_eq!(board.get_field_state_at(2, 7), 1);
    assert_eq!(board.get_field_state_at(2, 6), 2);
    assert_eq!(board.get_field_state_at(0, 0), 2);
    assert_eq!(board.outer, (1 << 14) | (2 << 12));
    assert_eq!(board.middle, 0);
    assert_eq!(board.inner, 2);
}

#[test]
fn decoding_reports_each_error() {
    assert_eq!(EfficientPlayField::decode_from_text(""), Err(EncodingError::Length));
    assert_eq!(
        EfficientPlayField::decode_from_text("BEEEWEWBEEWWEEWEWEEWWWB"),
        Err(EncodingError::Length)
    );
    assert_eq!(
        EfficientPlayField::decode_from_text("BEEEWEWBEEWWEEWEWEEWWWBBE"),
        Err(EncodingError::Length)
    );
    assert_eq!(
        EfficientPlayField::decode_from_text("BEEEWEWBEEWWEEWEWEEWWWBX"),
        Err(EncodingError::Character)
    );
    assert_eq!(
        EfficientPlayField::decode_from_text("bEEEWEWBEEWWEEWEWEEWWWBB"),
        Err(EncodingError::Character)
    );
}

#[test]
fn canonical_form_is_the_greatest_image() {
    let mut board = EfficientPlayField::from_coded("BBEEEEEBEEEEWEWWBWWEEEBE");
    let canonical = board.get_canonical_form();
    assert_eq!(board, EfficientPlayField::from_coded("BBEEEEEBEEEEWEWWBWWEEEBE"));
    assert_eq!(canonical.to_string_representation(), "BEBEEEWWEWWEWEEEBBEEEEEB");
    assert_eq!((canonical.inner, canonical.middle, canonical.outer), (40962, 5184, 34821));
    let images = all_images(board);
    assert_eq!(images.len(), 16);
    assert!(images.contains(&canonical));
    for image in &images {
        assert!(!image.is_greater_than(&canonical));
        assert!(*image <= canonical);
        let mut copy = *image;
        assert_eq!(copy.get_canonical_form(), canonical);
    }
    let mut again = canonical;
    assert_eq!(again.get_canonical_form(), canonical);
}

#[test]
fn distinct_orbits_have_distinct_canonical_forms() {
    let mut line = EfficientPlayField::default();
    line.set_field(2, 0, 1);
    line.set_field(2, 1, 1);
    line.set_field(2, 2, 1);
    let mut mill = EfficientPlayField::default();
    mill.set_field(2, 0, 1);
    mill.set_field(2, 1, 1);
    mill.set_field(2, 7, 1);
    let line_form = line.get_canonical_form();
    let mill_form = mill.get_canonical_form();
    assert_ne!(line_form, mill_form);
    assert_eq!(line_form.to_string_representation(), "EEEEEEEEEEEEEEEEWWEEEEEW");
    assert_eq!(mill_form.to_string_representation(), "EEEEEEEEEEEEEEEEWWWEEEEE");

    let mut turned = EfficientPlayField::default();
    turned.set_field(2, 2, 1);
    turned.set_field(2, 3, 1);
    turned.set_field(2, 4, 1);
    assert_eq!(turned.get_canonical_form(), line_form);
    let mut mirrored = EfficientPlayField::default();
    mirrored.set_field(2, 0, 1);
    mirrored.set_field(2, 7, 1);
    mirrored.set_field(2, 6, 1);
    assert_eq!(mirrored.get_canonical_form(), line_form);
    let mut inner = EfficientPlayField::default();
    inner.set_field(0, 0, 1);
    inner.set_field(0, 1, 1);
    inner.set_field(0, 2, 1);
    assert_eq!(inner.get_canonical_form(), line_form);
    let mut middle = EfficientPlayField::default();
    middle.set_field(1, 0, 1);
    middle.set_field(1, 1, 1);
    middle.set_field(1, 2, 1);
    assert_ne!(middle.get_canonical_form(), line_form);
}

#[test]
fn inverting_twice_gives_the_board() {
    let board = EfficientPlayField::from_coded("BEEEWEWBEEWWEEWEWEEWWWBB");
    let inverted = board.invert_playfields_stone_colors();
    assert_eq!(inverted.to_string_representation(), "WEEEBEBWEEBBEEBEBEEBBBWW");
    assert_eq!(inverted.invert_playfields_stone_colors(), board);
    assert_eq!(inverted.get_stone_count_of(PlayerColor::White), 4);
    assert_eq!(inverted.get_stone_count_of(PlayerColor::Black), 9);
}

#[test]
fn mills_are_counted_through_a_cell() {
    let mut board = EfficientPlayField::default();
    // white: top of the outer ring, and the line across the rings at position 0
    board.set_field(2, 7, 1);
    board.set_field(2, 0, 1);
    board.set_field(2, 1, 1);
    board.set_field(1, 0, 1);
    board.set_field(0, 0, 1);
    // black: right side of the inner ring, and two more
    board.set_field(0, 1, 2);
    board.set_field(0, 2, 2);
    board.set_field(0, 3, 2);
    board.set_field(1, 2, 2);
    let white = DirectionToCheck::OnAndAcrossRings { player_color: PlayerColor::White };
    let black = DirectionToCheck::OnAndAcrossRings { player_color: PlayerColor::Black };
    assert_eq!(board.get_mill_count(2, 0, white), 2);
    assert_eq!(board.get_mill_count(2, 0, DirectionToCheck::OnRing), 1);
    assert_eq!(board.get_mill_count(2, 7, white), 1);
    assert_eq!(board.get_mill_count(2, 1, white), 1);
    assert_eq!(board.get_mill_count(1, 0, white), 1);
    assert_eq!(board.get_mill_count(1, 0, DirectionToCheck::OnRing), 0);
    assert_eq!(board.get_mill_count(0, 0, white), 1);
    assert_eq!(board.get_mill_count(0, 2, black), 1);
    assert_eq!(board.get_mill_count(0, 2, white), 0);
    assert_eq!(board.get_mill_count(0, 1, black), 1);
    assert_eq!(board.get_mill_count(0, 3, DirectionToCheck::OnRing), 1);
    assert_eq!(board.get_mill_count(1, 2, black), 0);
    assert_eq!(board.get_mill_count(2, 4, white), 0);

    let mut corner = EfficientPlayField::default();
    for pos in [7, 0, 1, 2, 3] {
        corner.set_field(1, pos, 2);
    }
    assert_eq!(corner.get_mill_count(1, 1, black), 2);
    assert_eq!(corner.get_mill_count(1, 1, DirectionToCheck::OnRing), 2);
    assert_eq!(corner.get_mill_count(1, 3, black), 1);
}

#[test]
fn mill_count_is_the_same_on_every_image() {
    let board = EfficientPlayField::from_coded("BEEEWEWBEEWWEEWEWEEWWWBB");
    let white = DirectionToCheck::OnAndAcrossRings { player_color: PlayerColor::White };
    for ring in 0..3usize {
        for pos in 0..8u32 {
            let count = board.get_mill_count(ring, pos, white);
            let on_ring = board.get_mill_count(ring, pos, DirectionToCheck::OnRing);
            assert!(count <= 2);
            let mut turned = board;
            turned.rotate_self_right(1);
            assert_eq!(turned.get_mill_count(ring, (pos + 2) % 8, white), count);
            assert_eq!(turned.get_mill_count(ring, (pos + 2) % 8, DirectionToCheck::OnRing), on_ring);
            let mut mirrored = board;
            mirrored.mirror_on_y();
            assert_eq!(mirrored.get_mill_count(ring, (8 - pos) % 8, white), count);
            let mut swapped = board;
            swapped.swap_rings();
            assert_eq!(swapped.get_mill_count(2 - ring, pos, white), count);
        }
    }
}

#[test]
fn the_forbidden_code_is_found() {
    let board = EfficientPlayField::from_coded("BEEEWEWBEEWWEEWEWEEWWWBB");
    assert_eq!(board.assert_state_invariant(), None);
    let broken = EfficientPlayField { inner: 0b11 << 4, middle: 0, outer: 0b11 };
    assert_eq!(broken.assert_state_invariant(), Some((0, 4)));
    let later = EfficientPlayField { inner: 0b01, middle: 0b10, outer: 0b11 << 14 };
    assert_eq!(later.assert_state_invariant(), Some((2, 14)));
}

#[test]
fn images_share_their_canonical_form() {
    let mut board = EfficientPlayField::from_coded("BBEEEEEBEEEEWEWWBWWEEEBE");
    let mut image = board;
    image.mirror_on_y();
    image.rotate_self_right(3);
    image.swap_rings();
    let shared = board.in_same_equivalence_class_as(&mut image);
    assert_eq!(shared, Some(EfficientPlayField::from_coded("BEBEEEWWEWWEWEEEBBEEEEEB")));
    let mut other = EfficientPlayField::from_coded("BEEEWEWBEEWWEEWEWEEWWWBB");
    assert_eq!(board.in_same_equivalence_class_as(&mut other), None);
    assert_eq!(board, EfficientPlayField::from_coded("BBEEEEEBEEEEWEWWBWWEEEBE"));
}
