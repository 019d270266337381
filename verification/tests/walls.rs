use quoridor::board_state::BoardState;
use quoridor::vector2::Vector2;
use quoridor::wall_orientation::WallOrientation;

fn board_with_seven_walls() -> BoardState {
    let mut board_state = BoardState::new();
    board_state.set_wall(Vector2::new(0, 0), WallOrientation::Horizontal);
    board_state.set_wall(Vector2::new(2, 0), WallOrientation::Horizontal);
    board_state.set_wall(Vector2::new(4, 0), WallOrientation::Horizontal);
    board_state.set_wall(Vector2::new(5, 1), WallOrientation::Vertical);
    board_state.set_wall(Vector2::new(4, 2), WallOrientation::Horizontal);
    board_state.set_wall(Vector2::new(1, 1), WallOrientation::Vertical);
    board_state.set_wall(Vector2::new(0, 2), WallOrientation::Horizontal);
    board_state
}

#[test]
fn set_wall() {
    let expected = WallOrientation::Vertical;
    let pos = Vector2::new(3, 5);
    let mut board_state = BoardState::new();
    board_state.set_wall(pos, expected);

    assert_eq!(Some(expected), board_state.get_wall(pos));
}

#[test]
fn set_player_position() {
    let expected = Vector2::new(5, 1);
    let mut board_state = BoardState::new();
    board_state.set_player_position(1, expected);

    assert_eq!(expected, board_state.get_player_position(1));
}

#[test]
fn is_wall_index_in_bounds() {
    assert_eq!(true, BoardState::is_wall_index_in_bounds(Vector2::new(5, 1)));
    assert_eq!(true, BoardState::is_wall_index_in_bounds(Vector2::new(1, 5)));
    assert_eq!(false, BoardState::is_wall_index_in_bounds(Vector2::new(-1, 4)));
    assert_eq!(false, BoardState::is_wall_index_in_bounds(Vector2::new(8, 4)));
    assert_eq!(false, BoardState::is_wall_index_in_bounds(Vector2::new(4, -1)));
    assert_eq!(false, BoardState::is_wall_index_in_bounds(Vector2::new(4, 8)));
}

#[test]
fn is_cell_index_in_bounds() {
    assert_eq!(true, BoardState::is_cell_index_in_bounds(Vector2::new(1, 5)));
    assert_eq!(true, BoardState::is_cell_index_in_bounds(Vector2::new(1, 5)));
    assert_eq!(false, BoardState::is_cell_index_in_bounds(Vector2::new(-1, 4)));
    assert_eq!(false, BoardState::is_cell_index_in_bounds(Vector2::new(9, 4)));
    assert_eq!(false, BoardState::is_cell_index_in_bounds(Vector2::new(4, -1)));
    assert_eq!(false, BoardState::is_cell_index_in_bounds(Vector2::new(4, 9)));
}

#[test]
fn get_player_distance() {
    let mut board_state = BoardState::new();
    board_state.set_wall(Vector2::new(5, 5), WallOrientation::Horizontal);
    board_state.set_player_position(0, Vector2::new(5, 5));
    assert_eq!(4, board_state.get_player_distance(0));
}

#[test]
fn get_distance_matrix_player_1() {
    let board_state = board_with_seven_walls();

    let matrix = board_state.get_distance_matrix(0);

    assert_eq!(0, matrix[4][8]);
    assert_eq!(10, matrix[4][0]);
    assert_eq!(8, matrix[4][1]);
    assert_eq!(-1, matrix[1][1]);
}

#[test]
fn get_distance_matrix_player_2() {
    let board_state = board_with_seven_walls();

    let matrix = board_state.get_distance_matrix(1);

    assert_eq!(0, matrix[4][0]);
    assert_eq!(10, matrix[4][8]);
    assert_eq!(9, matrix[4][1]);
    assert_eq!(-1, matrix[1][1]);
}
