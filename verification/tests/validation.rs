use quoridor::action::Action;
use quoridor::board_state::BoardState;
use quoridor::validation::{
    get_accessible_adjacent_cells, get_accessible_cells, get_valid_block_actions,
    get_valid_move_actions, get_valid_move_positions, get_valid_moves, get_valid_player_moves,
    is_either_player_trapped, is_player_trapped, is_valid_wall, is_wall_overlapping,
    validate_action,
};
use quoridor::vector2::Vector2;
use quoridor::wall_orientation::WallOrientation;

#[test]
fn validation_player_1_is_trapped() {
    let mut board_state = BoardState::new();
    board_state.set_wall(Vector2::new(3, 0), WallOrientation::Horizontal);
    board_state.set_wall(Vector2::new(2, 0), WallOrientation::Vertical);
    board_state.set_wall(Vector2::new(4, 0), WallOrientation::Vertical);

    assert_eq!(true, is_player_trapped(&board_state, 0));
    assert_eq!(true, is_either_player_trapped(&board_state));
}

#[test]
fn validation_player_2_is_trapped() {
    let mut board_state = BoardState::new();
    board_state.set_wall(Vector2::new(3, 7), WallOrientation::Horizontal);
    board_state.set_wall(Vector2::new(2, 7), WallOrientation::Vertical);
    board_state.set_wall(Vector2::new(4, 7), WallOrientation::Vertical);

    assert_eq!(true, is_player_trapped(&board_state, 1));
    assert_eq!(true, is_either_player_trapped(&board_state));
}

#[test]
fn validation_player_1_is_not_trapped() {
    let board_state = BoardState::new();

    assert_eq!(false, is_player_trapped(&board_state, 0));
    assert_eq!(false, is_either_player_trapped(&board_state));
}

#[test]
fn validation_player_2_is_not_trapped() {
    let board_state = BoardState::new();

    assert_eq!(false, is_player_trapped(&board_state, 1));
    assert_eq!(false, is_either_player_trapped(&board_state));
}

#[test]
fn validation_validate_action_move_is_invalid() {
    let board_state = BoardState::new();
    let action = Action::create_move(Vector2::new(6, 0));

    assert_eq!(false, validate_action(&board_state, 0, &action));
}

#[test]
fn validation_validate_action_player_has_no_walls() {
    let mut board_state = BoardState::new();
    board_state.set_player_wall_count(0, 0);
    let action = Action::create_block(Vector2::new(0, 0), WallOrientation::Horizontal);

    assert_eq!(false, validate_action(&board_state, 0, &action));
}

#[test]
fn validation_validate_action_wall_is_out_of_bounds() {
    let board_state = BoardState::new();
    let action = Action::create_block(Vector2::new(-1, 0), WallOrientation::Horizontal);

    assert_eq!(false, validate_action(&board_state, 0, &action));
}

#[test]
fn validation_validate_action_wall_is_overlapping() {
    let mut board_state = BoardState::new();
    board_state.set_wall(Vector2::new(3, 7), WallOrientation::Horizontal);
    let action = Action::create_block(Vector2::new(3, 7), WallOrientation::Horizontal);

    assert_eq!(false, validate_action(&board_state, 0, &action));
}

#[test]
fn validation_validate_action_wall_is_partially_overlapping() {
    let mut board_state = BoardState::new();
    board_state.set_wall(Vector2::new(4, 7), WallOrientation::Horizontal);
    let action = Action::create_block(Vector2::new(3, 7), WallOrientation::Horizontal);

    assert_eq!(false, validate_action(&board_state, 0, &action));
}

#[test]
fn validation_validate_action_wall_traps_player() {
    let mut board_state = BoardState::new();
    board_state.set_wall(Vector2::new(3, 0), WallOrientation::Horizontal);
    board_state.set_wall(Vector2::new(2, 0), WallOrientation::Vertical);
    let action = Action::create_block(Vector2::new(4, 0), WallOrientation::Vertical);

    assert_eq!(false, validate_action(&board_state, 0, &action));
}

#[test]
fn validation_validate_action_wall_traps_opponent() {
    let mut board_state = BoardState::new();
    board_state.set_wall(Vector2::new(3, 7), WallOrientation::Horizontal);
    board_state.set_wall(Vector2::new(2, 7), WallOrientation::Vertical);
    let action = Action::create_block(Vector2::new(4, 7), WallOrientation::Vertical);

    assert_eq!(false, validate_action(&board_state, 0, &action));
}

#[test]
fn validation_get_valid_player_moves_on_edge_with_walls() {
    let mut board_state = BoardState::new();
    board_state.set_wall(Vector2::new(3, 0), WallOrientation::Horizontal);
    board_state.set_wall(Vector2::new(2, 0), WallOrientation::Vertical);

    let valid_moves = get_valid_player_moves(&board_state, 0);

    assert_eq!(true, valid_moves.iter().any(|x| *x == Vector2::new(3, 0)));
    assert_eq!(true, valid_moves.iter().any(|x| *x == Vector2::new(5, 0)));
}

#[test]
fn validation_get_valid_player_moves_no_walls() {
    let mut board_state = BoardState::new();
    board_state.set_player_position(0, Vector2::new(3, 3));

    let valid_moves = get_valid_player_moves(&board_state, 0);

    assert_eq!(true, valid_moves.iter().any(|x| *x == Vector2::new(3, 2)));
    assert_eq!(true, valid_moves.iter().any(|x| *x == Vector2::new(3, 4)));
    assert_eq!(true, valid_moves.iter().any(|x| *x == Vector2::new(2, 3)));
    assert_eq!(true, valid_moves.iter().any(|x| *x == Vector2::new(4, 3)));
    assert_eq!(4, valid_moves.len());
}

#[test]
fn validation_get_valid_player_moves_valid_jump_no_walls() {
    let mut board_state = BoardState::new();
    board_state.set_player_position(0, Vector2::new(3, 3));
    board_state.set_player_position(1, Vector2::new(3, 4));

    let valid_moves = get_valid_player_moves(&board_state, 0);

    // 3 normal moves
    assert_eq!(true, valid_moves.iter().any(|x| *x == Vector2::new(3, 2)));
    assert_eq!(true, valid_moves.iter().any(|x| *x == Vector2::new(2, 3)));
    assert_eq!(true, valid_moves.iter().any(|x| *x == Vector2::new(4, 3)));
    // 3 jump moves
    assert_eq!(true, valid_moves.iter().any(|x| *x == Vector2::new(2, 4)));
    assert_eq!(true, valid_moves.iter().any(|x| *x == Vector2::new(3, 5)));
    assert_eq!(true, valid_moves.iter().any(|x| *x == Vector2::new(4, 4)));
    assert_eq!(6, valid_moves.len());
}

#[test]
fn validation_get_valid_player_moves_valid_jump_with_walls() {
    let mut board_state = BoardState::new();
    board_state.set_player_position(0, Vector2::new(3, 3));
    board_state.set_player_position(1, Vector2::new(3, 4));
    board_state.set_wall(Vector2::new(2, 4), WallOrientation::Horizontal);

    let valid_moves = get_valid_player_moves(&board_state, 0);

    // 3 normal moves
    assert_eq!(true, valid_moves.iter().any(|x| *x == Vector2::new(3, 2)));
    assert_eq!(true, valid_moves.iter().any(|x| *x == Vector2::new(2, 3)));
    assert_eq!(true, valid_moves.iter().any(|x| *x == Vector2::new(4, 3)));
    // 2 jump moves
    assert_eq!(true, valid_moves.iter().any(|x| *x == Vector2::new(2, 4)));
    assert_eq!(true, valid_moves.iter().any(|x| *x == Vector2::new(4, 4)));
    assert_eq!(5, valid_moves.len());
}

#[test]
fn jump_moves_come_in_the_order_of_the_directions() {
    let mut board_state = BoardState::new();
    board_state.set_player_position(0, Vector2::new(3, 3));
    board_state.set_player_position(1, Vector2::new(3, 4));

    let expected = vec![
        Vector2::new(4, 3),
        Vector2::new(4, 4),
        Vector2::new(3, 5),
        Vector2::new(2, 4),
        Vector2::new(2, 3),
        Vector2::new(3, 2),
    ];

    assert_eq!(expected, get_valid_move_positions(&board_state, 0));
    assert_eq!(expected, get_valid_player_moves(&board_state, 0));
    assert_eq!(
        expected,
        get_valid_moves(&board_state, Vector2::new(3, 3), Vector2::new(3, 4))
    );
    assert_eq!(
        expected,
        get_accessible_cells(&board_state, Vector2::new(3, 3), Vector2::new(3, 4))
    );
    let actions = get_valid_move_actions(&board_state, 0);
    assert_eq!(6, actions.len());
    for (action, cell) in actions.iter().zip(expected.iter()) {
        assert!(matches!(action, Action::Move(p) if p == cell));
    }
}

#[test]
fn accessible_adjacent_cells_stop_at_borders_and_walls() {
    let mut board_state = BoardState::new();

    assert_eq!(
        vec![Vector2::new(1, 0), Vector2::new(0, 1)],
        get_accessible_adjacent_cells(&board_state, Vector2::new(0, 0))
    );
    assert_eq!(
        vec![Vector2::new(7, 8), Vector2::new(8, 7)],
        get_accessible_adjacent_cells(&board_state, Vector2::new(8, 8))
    );
    board_state.set_wall(Vector2::new(4, 4), WallOrientation::Horizontal);
    board_state.set_wall(Vector2::new(3, 3), WallOrientation::Vertical);
    assert_eq!(
        vec![Vector2::new(5, 4), Vector2::new(4, 3)],
        get_accessible_adjacent_cells(&board_state, Vector2::new(4, 4))
    );
}

#[test]
fn overlapping_is_mutual_along_the_axis_of_the_wall() {
    let mut first = BoardState::new();
    first.set_wall(Vector2::new(3, 3), WallOrientation::Horizontal);
    assert_eq!(true, is_wall_overlapping(&first, Vector2::new(4, 3), WallOrientation::Horizontal));
    assert_eq!(true, is_wall_overlapping(&first, Vector2::new(2, 3), WallOrientation::Horizontal));
    assert_eq!(true, is_wall_overlapping(&first, Vector2::new(3, 3), WallOrientation::Vertical));
    assert_eq!(false, is_wall_overlapping(&first, Vector2::new(3, 4), WallOrientation::Horizontal));
    assert_eq!(false, is_wall_overlapping(&first, Vector2::new(4, 3), WallOrientation::Vertical));
    assert_eq!(false, is_valid_wall(&first, Vector2::new(4, 3), WallOrientation::Horizontal));
    assert_eq!(true, is_valid_wall(&first, Vector2::new(4, 3), WallOrientation::Vertical));

    let mut second = BoardState::new();
    second.set_wall(Vector2::new(4, 3), WallOrientation::Horizontal);
    assert_eq!(true, is_wall_overlapping(&second, Vector2::new(3, 3), WallOrientation::Horizontal));

    let mut upright = BoardState::new();
    upright.set_wall(Vector2::new(0, 0), WallOrientation::Vertical);
    assert_eq!(true, is_wall_overlapping(&upright, Vector2::new(0, 1), WallOrientation::Vertical));
    assert_eq!(false, is_wall_overlapping(&upright, Vector2::new(1, 0), WallOrientation::Vertical));
    let mut other = BoardState::new();
    other.set_wall(Vector2::new(0, 1), WallOrientation::Vertical);
    assert_eq!(true, is_wall_overlapping(&other, Vector2::new(0, 0), WallOrientation::Vertical));
}

#[test]
fn no_approved_wall_traps_a_player() {
    let mut board_state = BoardState::new();
    board_state.set_wall(Vector2::new(3, 0), WallOrientation::Horizontal);
    board_state.set_wall(Vector2::new(2, 0), WallOrientation::Vertical);
    board_state.set_wall(Vector2::new(3, 7), WallOrientation::Horizontal);
    board_state.set_wall(Vector2::new(2, 7), WallOrientation::Vertical);
    let mut approved = 0;
    for x in 0..8 {
        for y in 0..8 {
            for orientation in [WallOrientation::Vertical, WallOrientation::Horizontal] {
                let action = Action::create_block(Vector2::new(x, y), orientation);
                if validate_action(&board_state, 0, &action) {
                    let mut copy = board_state;
                    action.apply(&mut copy, 0);
                    assert_ne!(-1, copy.get_player_distance(0));
                    assert_ne!(-1, copy.get_player_distance(1));
                    approved += 1;
                }
            }
        }
    }
    assert_eq!(approved, get_valid_block_actions(&board_state, 0).len());
    assert_eq!(
        false,
        get_valid_block_actions(&board_state, 0)
            .iter()
            .any(|a| matches!(a, Action::Block(p, WallOrientation::Vertical) if *p == Vector2::new(4, 0)))
    );
    assert_eq!(-1, {
        let mut copy = board_state;
        copy.set_wall(Vector2::new(4, 0), WallOrientation::Vertical);
        copy.get_player_distance(0)
    });
}

#[test]
fn no_walls_left_means_no_block_actions() {
    let mut board_state = BoardState::new();
    assert_eq!(128, get_valid_block_actions(&board_state, 0).len());
    board_state.set_player_wall_count(0, 0);

    assert_eq!(0, get_valid_block_actions(&board_state, 0).len());
    assert_eq!(128, get_valid_block_actions(&board_state, 1).len());
}

#[test]
fn block_actions_come_slot_by_slot_vertical_first() {
    let mut board_state = BoardState::new();
    board_state.set_wall(Vector2::new(0, 1), WallOrientation::Vertical);
    let actions = get_valid_block_actions(&board_state, 1);

    // Slot (0, 0) cannot take a vertical wall, slot (0, 1) is taken, and slot
    // (0, 2) cannot take a vertical wall either.
    assert!(matches!(actions[0], Action::Block(p, WallOrientation::Horizontal) if p == Vector2::new(0, 0)));
    assert!(matches!(actions[1], Action::Block(p, WallOrientation::Horizontal) if p == Vector2::new(0, 2)));
    assert!(matches!(actions[2], Action::Block(p, WallOrientation::Vertical) if p == Vector2::new(0, 3)));
    assert!(matches!(actions[3], Action::Block(p, WallOrientation::Horizontal) if p == Vector2::new(0, 3)));
    assert_eq!(128 - 4, actions.len());
    assert!(matches!(actions[123], Action::Block(p, WallOrientation::Horizontal) if p == Vector2::new(7, 7)));
}

#[test]
fn validate_action_approves_what_is_legal() {
    let board_state = BoardState::new();

    assert_eq!(true, validate_action(&board_state, 0, &Action::create_move(Vector2::new(4, 1))));
    assert_eq!(true, validate_action(&board_state, 0, &Action::create_move(Vector2::new(3, 0))));
    assert_eq!(false, validate_action(&board_state, 0, &Action::create_move(Vector2::new(4, 0))));
    assert_eq!(false, validate_action(&board_state, 0, &Action::create_move(Vector2::new(4, 2))));
    assert_eq!(false, validate_action(&board_state, 0, &Action::create_move(Vector2::new(4, -1))));
    assert_eq!(true, validate_action(&board_state, 1, &Action::create_move(Vector2::new(4, 7))));
    assert_eq!(
        true,
        validate_action(
            &board_state,
            0,
            &Action::create_block(Vector2::new(7, 7), WallOrientation::Vertical)
        )
    );
    assert_eq!(
        false,
        validate_action(
            &board_state,
            0,
            &Action::create_block(Vector2::new(8, 7), WallOrientation::Vertical)
        )
    );
    assert_eq!(
        false,
        validate_action(
            &board_state,
            0,
            &Action::create_block(Vector2::new(0, 8), WallOrientation::Horizontal)
        )
    );
    // Validation leaves the board as it was.
    assert_eq!(None, board_state.get_wall(Vector2::new(7, 7)));
    assert_eq!(10, board_state.get_player_wall_count(0));
}

#[test]
fn walls_that_trap_one_player_leave_the_other_a_way_round() {
    let mut board_state = BoardState::new();
    board_state.set_wall(Vector2::new(3, 0), WallOrientation::Horizontal);
    board_state.set_wall(Vector2::new(2, 0), WallOrientation::Vertical);
    board_state.set_wall(Vector2::new(4, 0), WallOrientation::Vertical);

    // The second player cannot go down the column of the first to the goal
    // row, and has to leave it two rows above.
    assert_eq!(-1, board_state.get_player_distance(0));
    assert_eq!(9, board_state.get_player_distance(1));
    assert_eq!(true, is_player_trapped(&board_state, 0));
    assert_eq!(false, is_player_trapped(&board_state, 1));
}
