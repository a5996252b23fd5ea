use muehle::game::logic::game_phases::GamePhase;
use muehle::game::logic::{get_player_color, which_players_turn};
use muehle::game::state::representation::{field_at, state_index_of, FieldState, FIELD_COUNT};
use muehle::game::state::{stone_state, GameFieldStateError, PlayField};
use muehle::game::PlayerColor;

#[test]
fn fields_are_mapped_to_the_state() {
    let field = PlayField::new();
    assert_eq!(FIELD_COUNT, 24);
    assert_eq!(field.map_to_state_index(('A', 1)), Ok(0));
    assert_eq!(field.map_to_state_index(('a', 1)), Ok(0));
    assert_eq!(field.map_to_state_index(('d', 3)), Ok(7));
    assert_eq!(field.map_to_state_index(('G', 7)), Ok(23));
    assert_eq!(state_index_of(('E', 4)), Ok(12));
    for index in 0..24 {
        assert_eq!(field.map_to_state_index(field_at(index)), Ok(index));
    }
    assert_eq!(
        field.map_to_state_index(('h', 1)),
        Err(GameFieldStateError::FieldTranslationMappingError {
            erroneous_field: ('H', 1),
            message: "Specified field is no valid game field.",
        })
    );
    assert_eq!(
        state_index_of(('a', 1)),
        Err(GameFieldStateError::FieldTranslationMappingError {
            erroneous_field: ('a', 1),
            message: "Specified field is no valid game field.",
        })
    );
    assert!(field.map_to_state_index(('B', 1)).is_err());
    assert!(field.map_to_state_index(('A', 8)).is_err());
}

#[test]
fn stones_are_set_on_free_fields() {
    let mut field = PlayField::new();
    assert_eq!(field.get_status_of(('B', 4)), Ok(FieldState::Free));
    assert_eq!(field.try_set(('B', 4), PlayerColor::White), Ok(()));
    assert_eq!(field.get_status_of(('b', 4)), Ok(FieldState::White));
    assert_eq!(field.state[10], FieldState::White);
    assert_eq!(
        field.try_set(('B', 4), PlayerColor::Black),
        Err(GameFieldStateError::FieldSetError {
            player: PlayerColor::Black,
            field: ('B', 4),
            field_state: FieldState::White,
            message: "Stone must be placed upon free field.",
        })
    );
    assert!(matches!(
        field.try_set(('B', 5), PlayerColor::Black),
        Err(GameFieldStateError::FieldTranslationMappingError { .. })
    ));
    assert_eq!(field.try_set(('G', 7), PlayerColor::Black), Ok(()));
    assert_eq!(field.state[23], FieldState::Black);
    assert_eq!(field.amount_of_stones, (0, 0));
}

#[test]
fn stones_are_swapped_to_other_fields() {
    let mut field = PlayField::new();
    field.try_set(('A', 1), PlayerColor::White).unwrap();
    assert_eq!(field.swap(('A', 1), ('D', 1)), Ok(()));
    assert_eq!(field.get_status_of(('A', 1)), Ok(FieldState::Free));
    assert_eq!(field.get_status_of(('D', 1)), Ok(FieldState::White));
    assert!(field.swap(('A', 2), ('D', 1)).is_err());
    assert!(field.swap(('D', 1), ('E', 1)).is_err());
    assert_eq!(field.get_status_of(('D', 1)), Ok(FieldState::White));
}

#[test]
fn moves_follow_the_rules_of_moving() {
    let mut field = PlayField::new();
    field.try_set(('A', 1), PlayerColor::White).unwrap();
    field.try_set(('A', 4), PlayerColor::Black).unwrap();
    assert_eq!(
        field.try_move(('A', 1), ('A', 1), PlayerColor::White),
        Err(GameFieldStateError::InvalidMovementError {
            start: ('A', 1),
            target: ('A', 1),
            stone_count: 0,
            message: "The stone can't stay on the same field after moving.",
        })
    );
    assert_eq!(
        field.try_move(('A', 1), ('D', 1), PlayerColor::White),
        Err(GameFieldStateError::InvalidMovementError {
            start: ('A', 1),
            target: ('D', 1),
            stone_count: 0,
            message: "Stone can't be moved two fields ahead.",
        })
    );
    assert_eq!(
        field.try_move(('A', 1), ('B', 2), PlayerColor::White),
        Err(GameFieldStateError::InvalidProgramStateError {
            message: "State should never be reached in try_move method. Might be caused an stone count < 3",
        })
    );
    assert_eq!(
        field.try_move(('A', 4), ('B', 4), PlayerColor::White),
        Err(GameFieldStateError::InvalidMovementError {
            start: ('A', 4),
            target: ('B', 4),
            stone_count: 0,
            message: "Player tried to move stone in the opposite color.",
        })
    );
    assert_eq!(
        field.try_move(('C', 4), ('B', 4), PlayerColor::White),
        Err(GameFieldStateError::InvalidMovementError {
            start: ('C', 4),
            target: ('B', 4),
            stone_count: 0,
            message: "Player tried to move a blank field.",
        })
    );
    field.try_set(('B', 4), PlayerColor::White).unwrap();
    assert_eq!(
        field.try_move(('B', 4), ('A', 4), PlayerColor::White),
        Err(GameFieldStateError::InvalidMovementError {
            start: ('B', 4),
            target: ('A', 4),
            stone_count: 0,
            message: "Target field is not free.",
        })
    );
    assert_eq!(field.try_move(('B', 4), ('C', 4), PlayerColor::White), Ok(()));
    assert_eq!(field.get_status_of(('C', 4)), Ok(FieldState::White));
    assert_eq!(field.get_status_of(('B', 4)), Ok(FieldState::Free));

    field.amount_of_stones = (4, 3);
    assert_eq!(
        field.try_move(('C', 4), ('D', 5), PlayerColor::White),
        Err(GameFieldStateError::InvalidMovementError {
            start: ('C', 4),
            target: ('D', 5),
            stone_count: 4,
            message: "The movement of a stone must occur horizontally or vertically.",
        })
    );
    // with three stones a stone jumps
    assert_eq!(field.try_move(('A', 4), ('G', 7), PlayerColor::Black), Ok(()));
    assert_eq!(field.get_status_of(('G', 7)), Ok(FieldState::Black));
    assert_eq!(field.move_stone(('G', 7), ('A', 4), PlayerColor::Black, 3), Ok(()));
}

#[test]
fn rounds_alternate_between_the_colours() {
    assert_eq!(get_player_color(1), PlayerColor::White);
    assert_eq!(get_player_color(2), PlayerColor::Black);
    assert_eq!(get_player_color(0), PlayerColor::Black);
    assert_eq!(which_players_turn(false), 1);
    assert_eq!(which_players_turn(true), 2);
    assert_ne!(GamePhase::Start, GamePhase::Terminated);
    assert_eq!(PlayerColor::White.opponent(), PlayerColor::Black);
    assert_eq!(PlayerColor::Black.to_code(), 2);
    assert_eq!(stone_state(PlayerColor::White), FieldState::White);
    assert_eq!(stone_state(PlayerColor::Black), FieldState::Black);
}

#[test]
fn mills_are_found_and_stones_taken() {
    let mut field = PlayField::new();
    for pos in [('A', 1), ('D', 1), ('G', 1), ('A', 4), ('A', 7)] {
        field.try_set(pos, PlayerColor::White).unwrap();
    }
    field.try_set(('D', 2), PlayerColor::Black).unwrap();
    assert_eq!(field.get_mill_crossing(('D', 1)), vec![('A', 1), ('D', 1), ('G', 1)]);
    assert_eq!(
        field.get_mill_crossing(('a', 1)),
        vec![('A', 1), ('D', 1), ('G', 1), ('A', 1), ('A', 4), ('A', 7)]
    );
    assert_eq!(field.get_mill_crossing(('A', 7)), vec![('A', 1), ('A', 4), ('A', 7)]);
    assert_eq!(field.get_mill_crossing(('D', 2)), vec![]);
    assert_eq!(field.get_mill_crossing(('D', 3)), vec![]);
    assert_eq!(field.get_mill_crossing(('H', 3)), vec![]);

    assert_eq!(field.try_take(('A', 1), PlayerColor::White), Err("A player can't take an own stone."));
    assert_eq!(field.try_take(('B', 2), PlayerColor::White), Err("There is no stone on this field."));
    assert_eq!(field.try_take(('B', 3), PlayerColor::White), Err("Specified field is no valid game field."));
    assert_eq!(field.try_take(('D', 2), PlayerColor::White), Ok(()));
    assert_eq!(field.get_status_of(('D', 2)), Ok(FieldState::Free));
    assert_eq!(field.try_take(('G', 1), PlayerColor::Black), Ok(()));
    assert_eq!(field.get_mill_crossing(('D', 1)), vec![]);
}
