use quoridor::action::Action;
use quoridor::board_state::BoardState;
use quoridor::validation::{
    get_valid_player_moves, is_either_player_trapped, is_player_trapped, validate_action,
};
use quoridor::vector2::Vector2;
use quoridor::wall_orientation::WallOrientation;

#[test]
fn player_1_is_trapped() {
    let mut board_state = BoardState::new();
    board_state.set_wall(Vector2::new(3, 0), WallOrientation::Horizontal);
    board_state.set_wall(Vector2::new(2, 0), WallOrientation::Vertical);
    board_state.set_wall(Vector2::new(4, 0), WallOrientation::Vertical);

    assert_eq!(true, is_player_trapped(&board_state, 0));
    assert_eq!(true, is_either_player_trapped(&board_state));
}

#[test]
fn player_2_is_trapped() {
    let mut board_state = BoardState::new();
    board_state.set_wall(Vector2::new(3, 7), WallOrientation::Horizontal);
    board_state.set_wall(Vector2::new(2, 7), WallOrientation::Vertical);
    board_state.set_wall(Vector2::new(4, 7), WallOrientation::Vertical);

    assert_eq!(true, is_player_trapped(&board_state, 1));
    assert_eq!(true, is_either_player_trapped(&board_state));
}

#[test]
fn player_1_is_not_trapped() {
    let board_state = BoardState::new();

    assert_eq!(false, is_player_trapped(&board_state, 0));
    assert_eq!(false, is_either_player_trapped(&board_state));
}

#[test]
fn player_2_is_not_trapped() {
    let board_state = BoardState::new();

    assert_eq!(false, is_player_trapped(&board_state, 1));
    assert_eq!(false, is_either_player_trapped(&board_state));
}

#[test]
fn validate_action_move_is_invalid() {
    let board_state = BoardState::new();
    let action = Action::create_move(Vector2::new(6, 0));

    assert_eq!(false, validate_action(&board_state, 0, &action));
}

#[test]
fn validate_action_player_has_no_walls() {
    let mut board_state = BoardState::new();
    board_state.set_player_wall_count(0, 0);
    let action = Action::create_block(Vector2::new(0, 0), WallOrientation::Horizontal);

    assert_eq!(false, validate_action(&board_state, 0, &action));
}

#[test]
fn validate_action_wall_is_out_of_bounds() {
    let board_state = BoardState::new();
    let action = Action::create_block(Vector2::new(-1, 0), WallOrientation::Horizontal);

    assert_eq!(false, validate_action(&board_state, 0, &action));
}

#[test]
fn validate_action_wall_is_overlapping() {
    let mut board_state = BoardState::new();
    board_state.set_wall(Vector2::new(3, 7), WallOrientation::Horizontal);
    let action = Action::create_block(Vector2::new(3, 7), WallOrientation::Horizontal);

    assert_eq!(false, validate_action(&board_state, 0, &action));
}

#[test]
fn validate_action_wall_is_partially_overlapping() {
    let mut board_state = BoardState::new();
    board_state.set_wall(Vector2::new(4, 7), WallOrientation::Horizontal);
    let action = Action::create_block(Vector2::new(3, 7), WallOrientation::Horizontal);

    assert_eq!(false, validate_action(&board_state, 0, &action));
}

#[test]
fn validate_action_wall_traps_player() {
    let mut board_state = BoardState::new();
    board_state.set_wall(Vector2::new(3, 0), WallOrientation::Horizontal);
    board_state.set_wall(Vector2::new(2, 0), WallOrientation::Vertical);
    let action = Action::create_block(Vector2::new(4, 0), WallOrientation::Vertical);

    assert_eq!(false, validate_action(&board_state, 0, &action));
}

#[test]
fn validate_action_wall_traps_opponent() {
    let mut board_state = BoardState::new();
    board_state.set_wall(Vector2::new(3, 7), WallOrientation::Horizontal);
    board_state.set_wall(Vector2::new(2, 7), WallOrientation::Vertical);
    let action = Action::create_block(Vector2::new(4, 7), WallOrientation::Vertical);

    assert_eq!(false, validate_action(&board_state, 0, &action));
}

#[test]
fn get_valid_player_moves_on_edge_with_walls() {
    let mut board_state = BoardState::new();
    board_state.set_wall(Vector2::new(3, 0), WallOrientation::Horizontal);
    board_state.set_wall(Vector2::new(2, 0), WallOrientation::Vertical);

    let valid_moves = get_valid_player_moves(&board_state, 0);

    assert_eq!(true, valid_moves.iter().any(|x| *x == Vector2::new(3, 0)));
    assert_eq!(true, valid_moves.iter().any(|x| *x == Vector2::new(5, 0)));
}

#[test]
fn get_valid_player_moves_no_walls() {
    let mut board_state = BoardState::new();
    board_state.set_player_position(0, Vector2::new(3, 3));

    let valid_moves = get_valid_player_moves(&board_state, 0);

    assert_eq!(true, valid_moves.iter().any(|x| *x == Vector2::new(3, 2)));
    assert_eq!(true, valid_moves.iter().any(|x| *x == Vector2::new(3, 4)));
    assert_eq!(true, valid_moves.iter().any(|x| *x == Vector2::new(2, 3)));
    assert_eq!(true, valid_moves.iter().any(|x| *x == Vector2::new(4, 3)));
    assert_eq!(4, valid_moves.len());
}

#[test]
fn get_valid_player_moves_valid_jump_no_walls() {
    let mut board_state = BoardState::new();
    board_state.set_player_position(0, Vector2::new(3, 3));
    board_state.set_player_position(1, Vector2::new(3, 4));

    let valid_moves = get_valid_player_moves(&board_state, 0);

    // 3 normal moves
    assert_eq!(true, valid_moves.iter().any(|x| *x == Vector2::new(3, 2)));
    assert_eq!(true, valid_moves.iter().any(|x| *x == Vector2::new(2, 3)));
    assert_eq!(true, valid_moves.iter().any(|x| *x == Vector2::new(4, 3)));
    // 3 jump moves
    assert_eq!(true, valid_moves.iter().any(|x| *x == Vector2::new(2, 4)));
    assert_eq!(true, valid_moves.iter().any(|x| *x == Vector2::new(3, 5)));
    assert_eq!(true, valid_moves.iter().any(|x| *x == Vector2::new(4, 4)));
    assert_eq!(6, valid_moves.len());
}

#[test]
fn get_valid_player_moves_valid_jump_with_walls() {
    let mut board_state = BoardState::new();
    board_state.set_player_position(0, Vector2::new(3, 3));
    board_state.set_player_position(1, Vector2::new(3, 4));
    board_state.set_wall(Vector2::new(2, 4), WallOrientation::Horizontal);

    let valid_moves = get_valid_player_moves(&board_state, 0);

    // 3 normal moves
    assert_eq!(true, valid_moves.iter().any(|x| *x == Vector2::new(3, 2)));
    assert_eq!(true, valid_moves.iter().any(|x| *x == Vector2::new(2, 3)));
    assert_eq!(true, valid_moves.iter().any(|x| *x == Vector2::new(4, 3)));
    // 2 jump moves
    assert_eq!(true, valid_moves.iter().any(|x| *x == Vector2::new(2, 4)));
    assert_eq!(true, valid_moves.iter().any(|x| *x == Vector2::new(4, 4)));
    assert_eq!(5, valid_moves.len());
}
