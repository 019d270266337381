use quoridor::board_state::BoardState;
use quoridor::grid::{DOWN, LEFT, RIGHT, UP};
use quoridor::vector2::Vector2;
use quoridor::wall_orientation::WallOrientation;

#[test]
fn board_state_set_wall() {
    let expected = WallOrientation::Vertical;
    let pos = Vector2::new(3, 5);
    let mut board_state = BoardState::new();
    board_state.set_wall(pos, expected);

    assert_eq!(Some(expected), board_state.get_wall(pos));
}

#[test]
fn set_wall_horizontal_blocks_paths() {
    let mut board_state = BoardState::new();
    board_state.set_wall(Vector2::new(5, 5), WallOrientation::Horizontal);

    assert_eq!(true, board_state.cell_connections[4][5][UP]);
    assert_eq!(false, board_state.cell_connections[5][5][UP]);
    assert_eq!(false, board_state.cell_connections[6][5][UP]);
    assert_eq!(true, board_state.cell_connections[7][5][UP]);
    assert_eq!(true, board_state.cell_connections[4][6][DOWN]);
    assert_eq!(false, board_state.cell_connections[5][6][DOWN]);
    assert_eq!(false, board_state.cell_connections[6][6][DOWN]);
    assert_eq!(true, board_state.cell_connections[7][6][DOWN]);
}

#[test]
fn set_wall_vertical_blocks_paths() {
    let mut board_state = BoardState::new();
    board_state.set_wall(Vector2::new(5, 5), WallOrientation::Vertical);

    assert_eq!(true, board_state.cell_connections[5][4][RIGHT]);
    assert_eq!(false, board_state.cell_connections[5][5][RIGHT]);
    assert_eq!(false, board_state.cell_connections[5][6][RIGHT]);
    assert_eq!(true, board_state.cell_connections[5][7][RIGHT]);
    assert_eq!(true, board_state.cell_connections[6][4][LEFT]);
    assert_eq!(false, board_state.cell_connections[6][5][LEFT]);
    assert_eq!(false, board_state.cell_connections[6][6][LEFT]);
    assert_eq!(true, board_state.cell_connections[6][7][LEFT]);
}

#[test]
fn board_state_set_player_position() {
    let expected = Vector2::new(5, 1);
    let mut board_state = BoardState::new();
    board_state.set_player_position(1, expected);

    assert_eq!(expected, board_state.get_player_position(1));
}

#[test]
fn is_path_blocked_no_walls() {
    let board_state = BoardState::new();

    assert_eq!(false, board_state.is_path_blocked(Vector2::new(5, 5), Vector2::new(0, 1)));
    assert_eq!(false, board_state.is_path_blocked(Vector2::new(5, 5), Vector2::new(1, 0)));
}

#[test]
fn is_path_blocked_horizontal() {
    let mut board_state = BoardState::new();
    board_state.set_wall(Vector2::new(5, 5), WallOrientation::Horizontal);

    assert_eq!(false, board_state.is_path_blocked(Vector2::new(4, 5), Vector2::new(0, 1)));
    assert_eq!(true, board_state.is_path_blocked(Vector2::new(5, 5), Vector2::new(0, 1)));
    assert_eq!(true, board_state.is_path_blocked(Vector2::new(6, 5), Vector2::new(0, 1)));
    assert_eq!(false, board_state.is_path_blocked(Vector2::new(7, 5), Vector2::new(0, 1)));
}

#[test]
fn is_path_blocked_vertical() {
    let mut board_state = BoardState::new();
    board_state.set_wall(Vector2::new(5, 5), WallOrientation::Vertical);

    assert_eq!(false, board_state.is_path_blocked(Vector2::new(5, 4), Vector2::new(1, 0)));
    assert_eq!(true, board_state.is_path_blocked(Vector2::new(5, 5), Vector2::new(1, 0)));
    assert_eq!(true, board_state.is_path_blocked(Vector2::new(5, 6), Vector2::new(1, 0)));
    assert_eq!(false, board_state.is_path_blocked(Vector2::new(5, 7), Vector2::new(1, 0)));
}

#[test]
fn board_state_is_wall_index_in_bounds() {
    assert_eq!(true, BoardState::is_wall_index_in_bounds(Vector2::new(5, 1)));
    assert_eq!(true, BoardState::is_wall_index_in_bounds(Vector2::new(1, 5)));
    assert_eq!(false, BoardState::is_wall_index_in_bounds(Vector2::new(-1, 4)));
    assert_eq!(false, BoardState::is_wall_index_in_bounds(Vector2::new(8, 4)));
    assert_eq!(false, BoardState::is_wall_index_in_bounds(Vector2::new(4, -1)));
    assert_eq!(false, BoardState::is_wall_index_in_bounds(Vector2::new(4, 8)));
}

#[test]
fn board_state_is_cell_index_in_bounds() {
    assert_eq!(true, BoardState::is_cell_index_in_bounds(Vector2::new(1, 5)));
    assert_eq!(true, BoardState::is_cell_index_in_bounds(Vector2::new(1, 5)));
    assert_eq!(false, BoardState::is_cell_index_in_bounds(Vector2::new(-1, 4)));
    assert_eq!(false, BoardState::is_cell_index_in_bounds(Vector2::new(9, 4)));
    assert_eq!(false, BoardState::is_cell_index_in_bounds(Vector2::new(4, -1)));
    assert_eq!(false, BoardState::is_cell_index_in_bounds(Vector2::new(4, 9)));
}

#[test]
fn board_state_get_player_distance() {
    let mut board_state = BoardState::new();
    board_state.set_wall(Vector2::new(5, 5), WallOrientation::Horizontal);
    board_state.set_player_position(0, Vector2::new(5, 5));
    assert_eq!(4, board_state.get_player_distance(0));
}

fn walled_board() -> BoardState {
    let mut board_state = BoardState::new();
    board_state.set_wall(Vector2::new(0, 0), WallOrientation::Horizontal);
    board_state.set_wall(Vector2::new(2, 0), WallOrientation::Horizontal);
    board_state.set_wall(Vector2::new(4, 0), WallOrientation::Horizontal);
    board_state.set_wall(Vector2::new(5, 1), WallOrientation::Vertical);
    board_state.set_wall(Vector2::new(4, 2), WallOrientation::Horizontal);
    board_state.set_wall(Vector2::new(1, 1), WallOrientation::Vertical);
    board_state.set_wall(Vector2::new(0, 2), WallOrientation::Horizontal);
    board_state
}

#[test]
fn board_state_get_distance_matrix_player_1() {
    let board_state = walled_board();

    let matrix = board_state.get_distance_matrix(0);

    assert_eq!(0, matrix[4][8]);
    assert_eq!(10, matrix[4][0]);
    assert_eq!(8, matrix[4][1]);
    assert_eq!(-1, matrix[1][1]);
}

#[test]
fn board_state_get_distance_matrix_player_2() {
    let board_state = walled_board();

    let matrix = board_state.get_distance_matrix(1);

    assert_eq!(0, matrix[4][0]);
    assert_eq!(10, matrix[4][8]);
    assert_eq!(9, matrix[4][1]);
    assert_eq!(-1, matrix[1][1]);
}

#[test]
fn new_board_is_the_start_layout() {
    let board_state = BoardState::new();

    assert_eq!(Vector2::new(4, 0), board_state.get_player_position(0));
    assert_eq!(Vector2::new(4, 8), board_state.get_player_position(1));
    assert_eq!(10, board_state.get_player_wall_count(0));
    assert_eq!(10, board_state.get_player_wall_count(1));
    assert_eq!(8, board_state.get_player_distance(0));
    assert_eq!(8, board_state.get_player_distance(1));
    for x in 0..8 {
        for y in 0..8 {
            assert_eq!(None, board_state.get_wall(Vector2::new(x, y)));
            assert_eq!(-1, board_state.player_walls[x as usize][y as usize]);
        }
    }
    for x in 0..9usize {
        for y in 0..9usize {
            assert_eq!(x < 8, board_state.cell_connections[x][y][RIGHT]);
            assert_eq!(y < 8, board_state.cell_connections[x][y][UP]);
            assert_eq!(x > 0, board_state.cell_connections[x][y][LEFT]);
            assert_eq!(y > 0, board_state.cell_connections[x][y][DOWN]);
            assert_eq!(8 - y as isize, board_state.get_distance_matrix(0)[x][y]);
            assert_eq!(y as isize, board_state.get_distance_matrix(1)[x][y]);
        }
    }
}

#[test]
fn set_player_wall_and_wall_count() {
    let mut board_state = BoardState::new();
    board_state.set_player_wall(Vector2::new(2, 3), 1);
    board_state.set_player_wall_count(0, 7);

    assert_eq!(1, board_state.player_walls[2][3]);
    assert_eq!(-1, board_state.player_walls[3][2]);
    assert_eq!(7, board_state.get_player_wall_count(0));
    assert_eq!(10, board_state.get_player_wall_count(1));
}

#[test]
fn get_wall_points_for_each_direction() {
    let cell = Vector2::new(4, 5);

    assert_eq!(
        [Vector2::new(4, 5), Vector2::new(4, 4)],
        BoardState::get_wall_points(cell, Vector2::new(1, 0))
    );
    assert_eq!(
        [Vector2::new(3, 4), Vector2::new(3, 5)],
        BoardState::get_wall_points(cell, Vector2::new(-1, 0))
    );
    assert_eq!(
        [Vector2::new(4, 5), Vector2::new(3, 5)],
        BoardState::get_wall_points(cell, Vector2::new(0, 1))
    );
    assert_eq!(
        [Vector2::new(3, 4), Vector2::new(4, 4)],
        BoardState::get_wall_points(cell, Vector2::new(0, -1))
    );
}

#[test]
fn is_path_blocked_at_the_corner_of_the_board() {
    let mut board_state = BoardState::new();
    board_state.set_wall(Vector2::new(0, 0), WallOrientation::Vertical);

    assert_eq!(true, board_state.is_path_blocked(Vector2::new(0, 0), Vector2::new(1, 0)));
    assert_eq!(true, board_state.is_path_blocked(Vector2::new(1, 1), Vector2::new(-1, 0)));
    assert_eq!(false, board_state.is_path_blocked(Vector2::new(0, 0), Vector2::new(-1, 0)));
    assert_eq!(false, board_state.is_path_blocked(Vector2::new(0, 0), Vector2::new(0, -1)));
}

fn assert_matrices_are_fresh(board_state: &BoardState) {
    assert_eq!(
        board_state.calculate_distance_matrix(8),
        board_state.get_distance_matrix(0)
    );
    assert_eq!(
        board_state.calculate_distance_matrix(0),
        board_state.get_distance_matrix(1)
    );
}

#[test]
fn updated_matrices_equal_a_fresh_search() {
    let mut board_state = BoardState::new();
    assert_matrices_are_fresh(&board_state);
    let walls = [
        (0, 0, WallOrientation::Horizontal),
        (2, 0, WallOrientation::Horizontal),
        (4, 0, WallOrientation::Horizontal),
        (5, 1, WallOrientation::Vertical),
        (4, 2, WallOrientation::Horizontal),
        (1, 1, WallOrientation::Vertical),
        (0, 2, WallOrientation::Horizontal),
        (6, 0, WallOrientation::Horizontal),
        (7, 1, WallOrientation::Vertical),
        (7, 3, WallOrientation::Vertical),
        (6, 4, WallOrientation::Horizontal),
        (3, 3, WallOrientation::Vertical),
        (3, 5, WallOrientation::Vertical),
        (2, 6, WallOrientation::Horizontal),
        (0, 6, WallOrientation::Horizontal),
        (4, 6, WallOrientation::Horizontal),
        (6, 6, WallOrientation::Horizontal),
        (7, 7, WallOrientation::Vertical),
        (3, 4, WallOrientation::Horizontal),
        (5, 5, WallOrientation::Vertical),
    ];
    for (x, y, orientation) in walls {
        board_state.set_wall(Vector2::new(x, y), orientation);
        assert_matrices_are_fresh(&board_state);
    }
}

#[test]
fn updated_matrices_equal_a_fresh_search_on_every_single_wall() {
    for x in 0..8 {
        for y in 0..8 {
            for orientation in [WallOrientation::Vertical, WallOrientation::Horizontal] {
                let mut board_state = walled_board();
                if board_state.get_wall(Vector2::new(x, y)).is_none() {
                    board_state.set_wall(Vector2::new(x, y), orientation);
                    assert_matrices_are_fresh(&board_state);
                }
            }
        }
    }
}

#[test]
fn a_wall_across_the_whole_board_leaves_no_distance() {
    let mut board_state = BoardState::new();
    for x in [0, 2, 4, 6] {
        board_state.set_wall(Vector2::new(x, 3), WallOrientation::Horizontal);
    }
    // The only way round leads through the last column.
    assert_eq!(12, board_state.get_player_distance(0));
    assert_eq!(12, board_state.get_player_distance(1));
    board_state.set_wall(Vector2::new(7, 3), WallOrientation::Horizontal);

    assert_eq!(-1, board_state.get_player_distance(0));
    assert_eq!(-1, board_state.get_player_distance(1));
    assert_eq!(0, board_state.get_distance_matrix(0)[0][8]);
    assert_eq!(4, board_state.get_distance_matrix(0)[0][4]);
    assert_eq!(-1, board_state.get_distance_matrix(0)[0][3]);
    assert_eq!(3, board_state.get_distance_matrix(1)[8][3]);
    assert_matrices_are_fresh(&board_state);
}

#[test]
fn updated_matrices_equal_a_fresh_search_on_scattered_walls() {
    // Walls in slots that a simple generator picks, on boards that start
    // empty: some of them close a player in.
    let mut seed: u64 = 12345;
    for _ in 0..40 {
        let mut board_state = BoardState::new();
        for _ in 0..24 {
            seed = seed.wrapping_mul(6364136223846793005).wrapping_add(1442695040888963407);
            let x = ((seed >> 33) % 8) as isize;
            let y = ((seed >> 40) % 8) as isize;
            let orientation = if (seed >> 50) % 2 == 0 {
                WallOrientation::Vertical
            } else {
                WallOrientation::Horizontal
            };
            if board_state.get_wall(Vector2::new(x, y)).is_none() {
                board_state.set_wall(Vector2::new(x, y), orientation);
                assert_matrices_are_fresh(&board_state);
            }
        }
    }
}

#[test]
fn directions_are_right_up_left_down() {
    assert_eq!(Vector2::new(1, 0), quoridor::distance::direction(RIGHT));
    assert_eq!(Vector2::new(0, 1), quoridor::distance::direction(UP));
    assert_eq!(Vector2::new(-1, 0), quoridor::distance::direction(LEFT));
    assert_eq!(Vector2::new(0, -1), quoridor::distance::direction(DOWN));
}
