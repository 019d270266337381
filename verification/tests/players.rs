use quoridor::action::Action;
use quoridor::board_state::BoardState;
use quoridor::game::Game;
use quoridor::minimax_player::MinimaxPlayer;
use quoridor::player::Player;
use quoridor::random_player::RandomPlayer;
use quoridor::shortest_path_player::{get_best_move, ShortestPathPlayer};
use quoridor::turn::Turn;
use quoridor::validation::{
    get_valid_block_actions, get_valid_move_actions, is_either_player_trapped, validate_action,
};
use quoridor::vector2::Vector2;
use quoridor::wall_orientation::WallOrientation;

fn is_move_to(action: &Action, x: isize, y: isize) -> bool {
    matches!(action, Action::Move(p) if *p == Vector2::new(x, y))
}

fn is_block_at(action: &Action, x: isize, y: isize, orientation: WallOrientation) -> bool {
    matches!(action, Action::Block(p, o) if *p == Vector2::new(x, y) && *o == orientation)
}

fn same_action(a: &Action, b: &Action) -> bool {
    match (a, b) {
        (Action::Move(p), Action::Move(q)) => p == q,
        (Action::Block(p, o), Action::Block(q, r)) => p == q && o == r,
        _ => false,
    }
}

fn legal_actions(board_state: &BoardState, player_index: usize) -> Vec<Action> {
    let mut actions = get_valid_move_actions(board_state, player_index);
    actions.append(&mut get_valid_block_actions(board_state, player_index));
    actions
}

/// The value of a board by a search without bounds.
fn plain_value(
    board_state: &BoardState,
    player_index: usize,
    depth: usize,
    scoring_player: usize,
    maximizing: bool,
) -> isize {
    let own = board_state.get_player_distance(scoring_player);
    let other = board_state.get_player_distance(1 - scoring_player);
    if depth == 0 || own == 0 || other == 0 {
        return other - own;
    }
    let mut best = if maximizing { isize::MIN } else { isize::MAX };
    for action in legal_actions(board_state, player_index) {
        let mut child = *board_state;
        action.apply(&mut child, player_index);
        let value = plain_value(&child, 1 - player_index, depth - 1, scoring_player, !maximizing);
        if maximizing {
            best = best.max(value);
        } else {
            best = best.min(value);
        }
    }
    best
}

/// The first of the legal actions with the highest value by a search without
/// bounds.
fn plain_best(board_state: &BoardState, player_index: usize, depth: usize) -> Action {
    let actions = legal_actions(board_state, player_index);
    let mut best: Option<(isize, Action)> = None;
    for action in actions {
        let mut child = *board_state;
        action.apply(&mut child, player_index);
        let value = plain_value(&child, 1 - player_index, depth - 1, player_index, false);
        if best.map_or(true, |(held, _)| value > held) {
            best = Some((value, action));
        }
    }
    best.unwrap().1
}

fn walled_board() -> BoardState {
    let mut board_state = BoardState::new();
    board_state.set_wall(Vector2::new(0, 0), WallOrientation::Horizontal);
    board_state.set_wall(Vector2::new(2, 0), WallOrientation::Horizontal);
    board_state.set_wall(Vector2::new(4, 0), WallOrientation::Horizontal);
    board_state.set_wall(Vector2::new(5, 1), WallOrientation::Vertical);
    board_state.set_wall(Vector2::new(4, 2), WallOrientation::Horizontal);
    board_state.set_wall(Vector2::new(7, 1), WallOrientation::Vertical);
    board_state.set_wall(Vector2::new(0, 2), WallOrientation::Horizontal);
    board_state
}

#[test]
fn minimax_of_depth_one_steps_towards_the_goal() {
    let board_state = BoardState::new();

    let action = MinimaxPlayer::take_action(&board_state, 0, 1);

    assert!(is_move_to(&action, 4, 1));
    let mut after = board_state;
    action.apply(&mut after, 0);
    assert_eq!(8, board_state.get_player_distance(0));
    assert_eq!(7, after.get_player_distance(0));
    assert_eq!(8, after.get_player_distance(1));
}

#[test]
fn minimax_of_depth_one_for_the_second_player() {
    let board_state = BoardState::new();

    let action = MinimaxPlayer::take_action(&board_state, 1, 1);

    assert!(is_move_to(&action, 4, 7));
}

#[test]
fn minimax_takes_the_first_best_action_of_a_plain_search() {
    let open = BoardState::new();
    let walled = walled_board();
    assert_eq!(false, is_either_player_trapped(&walled));
    for board_state in [open, walled] {
        for player_index in 0..2 {
            for depth in 1..3 {
                let expected = plain_best(&board_state, player_index, depth);
                let action = MinimaxPlayer::take_action(&board_state, player_index, depth);
                assert!(same_action(&expected, &action));
                assert!(validate_action(&board_state, player_index, &action));
            }
        }
    }
}

#[test]
fn minimax_blocks_where_a_wall_gains_more_than_a_step() {
    // A wall in slot (4, 0) closes the gap in a row of walls before the goal
    // row of the second player, who then has to go round by the last column.
    // The first player has left that row behind.
    let mut board_state = BoardState::new();
    board_state.set_wall(Vector2::new(0, 0), WallOrientation::Horizontal);
    board_state.set_wall(Vector2::new(2, 0), WallOrientation::Horizontal);
    board_state.set_wall(Vector2::new(6, 0), WallOrientation::Horizontal);
    board_state.set_player_position(0, Vector2::new(4, 4));
    let action = MinimaxPlayer::take_action(&board_state, 0, 1);

    let expected = plain_best(&board_state, 0, 1);
    assert!(same_action(&expected, &action));
    assert!(is_block_at(&action, 4, 0, WallOrientation::Horizontal));
    let mut after = board_state;
    action.apply(&mut after, 0);
    assert_eq!(8, board_state.get_player_distance(1));
    assert_eq!(12, after.get_player_distance(1));
    assert_eq!(4, after.get_player_distance(0));
}

#[test]
fn shortest_path_player_steps_or_bars_the_way() {
    let board_state = BoardState::new();

    let step = ShortestPathPlayer::choose_action(&board_state, 0, true);
    let wall = ShortestPathPlayer::choose_action(&board_state, 0, false);

    assert!(is_move_to(&step, 4, 1));
    assert!(is_block_at(&wall, 3, 7, WallOrientation::Horizontal));
    let wall = ShortestPathPlayer::choose_action(&board_state, 1, false);
    assert!(is_block_at(&wall, 4, 0, WallOrientation::Horizontal));
}

#[test]
fn shortest_path_player_without_walls_steps() {
    let mut board_state = BoardState::new();
    board_state.set_player_wall_count(0, 0);

    let action = ShortestPathPlayer::choose_action(&board_state, 0, false);

    assert!(is_move_to(&action, 4, 1));
}

#[test]
fn shortest_path_player_takes_the_second_wall_where_the_first_does_not_fit() {
    let mut board_state = BoardState::new();
    board_state.set_wall(Vector2::new(2, 7), WallOrientation::Horizontal);

    let action = ShortestPathPlayer::choose_action(&board_state, 0, false);

    assert!(is_block_at(&action, 4, 7, WallOrientation::Horizontal));
}

#[test]
fn shortest_path_player_bars_a_jump_from_its_own_cell() {
    let mut board_state = BoardState::new();
    board_state.set_player_position(0, Vector2::new(4, 4));
    board_state.set_player_position(1, Vector2::new(4, 5));

    // The second player jumps from (4, 5) over (4, 4) to (4, 3).
    assert_eq!(
        Vector2::new(4, 3),
        get_best_move(&board_state, 1, &board_state.get_distance_matrix(1))
    );
    let action = ShortestPathPlayer::choose_action(&board_state, 0, false);

    assert!(is_block_at(&action, 3, 3, WallOrientation::Horizontal));
}

#[test]
fn shortest_path_player_follows_its_chance_to_move() {
    let board_state = BoardState::new();
    for _ in 0..50 {
        let always = ShortestPathPlayer::take_action(&board_state, 0, 100);
        let never = ShortestPathPlayer::take_action(&board_state, 0, 0);
        assert!(is_move_to(&always, 4, 1));
        assert!(is_block_at(&never, 3, 7, WallOrientation::Horizontal));
    }
}

#[test]
fn best_move_is_the_first_of_the_nearest() {
    let mut board_state = BoardState::new();
    board_state.set_player_position(0, Vector2::new(4, 8));
    board_state.set_player_position(1, Vector2::new(0, 4));

    // On the goal row the neighbours to the right and to the left are as
    // near as can be, and the one to the right comes first.
    assert_eq!(
        Vector2::new(5, 8),
        get_best_move(&board_state, 0, &board_state.get_distance_matrix(0))
    );
    assert_eq!(
        Vector2::new(0, 3),
        get_best_move(&board_state, 1, &board_state.get_distance_matrix(1))
    );
}

#[test]
fn random_player_draws_legal_actions() {
    let mover = RandomPlayer::new(100);
    let builder = RandomPlayer::new(0);
    let mut board_state = walled_board();
    for _ in 0..200 {
        let step = mover.take_action(&board_state, 0);
        let wall = builder.take_action(&board_state, 1);
        assert!(matches!(step, Action::Move(_)));
        assert!(matches!(wall, Action::Block(_, _)));
        assert!(validate_action(&board_state, 0, &step));
        assert!(validate_action(&board_state, 1, &wall));
    }
    board_state.set_player_wall_count(1, 0);
    for _ in 0..50 {
        let step = builder.take_action(&board_state, 1);
        assert!(matches!(step, Action::Move(_)));
        assert!(validate_action(&board_state, 1, &step));
    }
}

#[test]
fn random_player_draws_from_walls_or_from_moves() {
    let mut board_state = BoardState::new();

    assert_eq!(3, RandomPlayer::candidates(&board_state, 0, true).len());
    assert_eq!(128, RandomPlayer::candidates(&board_state, 0, false).len());
    assert!(RandomPlayer::candidates(&board_state, 0, true)
        .iter()
        .all(|a| matches!(a, Action::Move(_))));
    assert!(RandomPlayer::candidates(&board_state, 0, false)
        .iter()
        .all(|a| matches!(a, Action::Block(_, _))));
    board_state.set_player_wall_count(0, 0);
    assert_eq!(3, RandomPlayer::candidates(&board_state, 0, false).len());
    assert!(RandomPlayer::candidates(&board_state, 0, false)
        .iter()
        .all(|a| matches!(a, Action::Move(_))));
}

#[test]
fn random_player_draws_what_it_wants_if_it_can() {
    let mut board_state = BoardState::new();
    for _ in 0..100 {
        let step = RandomPlayer::draw_action(&board_state, 1, true);
        let wall = RandomPlayer::draw_action(&board_state, 1, false);
        assert!(matches!(step, Action::Move(_)));
        assert!(matches!(wall, Action::Block(_, _)));
        assert!(validate_action(&board_state, 1, &step));
        assert!(validate_action(&board_state, 1, &wall));
    }
    board_state.set_player_wall_count(1, 0);
    for _ in 0..20 {
        let step = RandomPlayer::draw_action(&board_state, 1, false);
        assert!(matches!(step, Action::Move(_)));
    }
}

#[test]
fn random_player_reaches_every_move() {
    let player = RandomPlayer::new(100);
    let board_state = BoardState::new();
    let mut seen = [false; 3];
    for _ in 0..400 {
        match player.take_action(&board_state, 0) {
            Action::Move(p) if p == Vector2::new(5, 0) => seen[0] = true,
            Action::Move(p) if p == Vector2::new(4, 1) => seen[1] = true,
            Action::Move(p) if p == Vector2::new(3, 0) => seen[2] = true,
            _ => panic!("not a legal move"),
        }
    }
    assert_eq!([true; 3], seen);
}

struct Runner {}

impl Player for Runner {
    fn take_action(&self, board_state: &BoardState, player_index: usize) -> Action {
        ShortestPathPlayer::choose_action(board_state, player_index, true)
    }
}

#[test]
fn game_of_two_runners() {
    let first = Runner {};
    let second = Runner {};
    let mut game = Game::new(&first, &second);
    assert_eq!(false, game.is_game_over());
    assert_eq!(0, game.get_current_player_index());

    assert_eq!(false, game.take_turn());
    assert_eq!(1, game.get_current_player_index());
    assert_eq!(1, game.turns.len());
    assert_eq!(0, game.turns[0].player_index);
    assert!(is_move_to(&game.turns[0].action, 4, 1));
    assert_eq!(Vector2::new(4, 0), game.turns[0].board_state.get_player_position(0));

    let mut count = 1;
    while !game.take_turn() {
        count += 1;
        assert!(count < 100);
    }
    // The second player jumps over the first in the middle of the board and
    // arrives first.
    assert_eq!(true, game.is_game_over());
    assert_eq!(1, game.get_current_player_index());
    assert_eq!(14, game.turns.len());
    assert!(is_move_to(&game.turns[7].action, 4, 3));
    assert!(is_move_to(&game.turns[13].action, 4, 0));

    // Nothing happens once the game is over.
    assert_eq!(true, game.take_turn());
    assert_eq!(14, game.turns.len());

    game.reset();
    assert_eq!(false, game.is_game_over());
    assert_eq!(0, game.get_current_player_index());
    assert_eq!(0, game.turns.len());
    assert_eq!(false, game.take_turn());
}

#[test]
fn game_of_two_random_players_keeps_to_the_rules() {
    let first = RandomPlayer::new(70);
    let second = RandomPlayer::new(70);
    let mut game = Game::new(&first, &second);
    let mut count = 0;
    while !game.take_turn() && count < 300 {
        count += 1;
    }
    for turn in game.turns.iter() {
        assert!(validate_action(&turn.board_state, turn.player_index, &turn.action));
        assert_eq!(false, is_either_player_trapped(&turn.board_state));
    }
}

#[test]
fn turn_holds_what_it_was_made_of() {
    let board_state = BoardState::new();
    let turn = Turn::new(board_state, 1, Action::create_move(Vector2::new(4, 7)));

    assert_eq!(1, turn.player_index);
    assert!(is_move_to(&turn.action, 4, 7));
    assert_eq!(Vector2::new(4, 8), turn.board_state.get_player_position(1));
}

#[test]
fn magnitude_squared_of_a_step_and_of_a_jump() {
    assert_eq!(1, Vector2::new(0isize, -1).magnitude_squared());
    assert_eq!(4, Vector2::new(-2isize, 0).magnitude_squared());
    assert_eq!(2, Vector2::new(1isize, 1).magnitude_squared());
    assert_eq!(25, Vector2::new(3isize, -4).magnitude_squared());
}

#[test]
fn game_keeps_its_players_over_a_reset() {
    struct Builder {}
    impl Player for Builder {
        fn take_action(&self, board_state: &BoardState, player_index: usize) -> Action {
            ShortestPathPlayer::choose_action(board_state, player_index, false)
        }
    }
    let first = Runner {};
    let second = Builder {};
    let mut game = Game::new(&first, &second);
    for _ in 0..2 {
        assert_eq!(false, game.take_turn());
        assert_eq!(false, game.take_turn());
        // The first player steps, the second one builds.
        assert!(matches!(game.turns[0].action, Action::Move(_)));
        assert!(matches!(game.turns[1].action, Action::Block(_, _)));
        game.reset();
    }
}
