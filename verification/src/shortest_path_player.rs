//! A player that goes the shortest way and bars the opponent's.

use vstd::prelude::*;
use crate::action::Action;
use crate::board_state::{blocking_orientation, wall_points, BoardState};
use crate::chance::random_in_range;
use crate::grid::{cell_in_bounds, dist_at, DistanceMatrix};
use crate::legality::{lemma_move_stays_connected, lemma_moves_in_bounds, lemma_some_move};
use crate::minimax_player::game_over;
use crate::player::wants_move;
use crate::validation::{
    get_valid_move_positions, legal, lemma_trapped_distance, player_moves, trapped,
    validate_action,
};
use crate::vector2::Vector2;

verus! {

/// A player that follows the shortest way to the goal row, or puts a wall
/// across the opponent's.
pub struct ShortestPathPlayer {}

/// The place among the first `n` of `cells` of the one that the search for
/// the nearest cell holds on to: the first cell, until one follows with a
/// smaller distance, and any cell without a distance gives way to the next.
pub open spec fn nearest_index(m: DistanceMatrix, cells: Seq<Vector2<isize>>, n: nat) -> int
    decreases n,
{
    if n <= 1 {
        0
    } else {
        let held = nearest_index(m, cells, (n - 1) as nat);
        let held_distance = dist_at(m, cells[held].x as int, cells[held].y as int);
        let distance = dist_at(m, cells[n - 1].x as int, cells[n - 1].y as int);
        if held_distance == -1 || distance < held_distance {
            n - 1
        } else {
            held
        }
    }
}

/// The cell that the search for the nearest cell ends with, or `(-1, -1)`
/// where there is no cell.
pub open spec fn nearest(m: DistanceMatrix, cells: Seq<Vector2<isize>>) -> Vector2<isize> {
    if cells.len() == 0 {
        Vector2 { x: -1isize, y: -1isize }
    } else {
        cells[nearest_index(m, cells, cells.len())]
    }
}

/// Where every cell has a distance, the nearest cell is the first of those
/// with the least distance.
pub proof fn lemma_nearest_is_first_least(m: DistanceMatrix, cells: Seq<Vector2<isize>>, n: nat)
    requires
        0 < n <= cells.len(),
        forall|j: int|
            0 <= j < cells.len() ==> dist_at(m, (#[trigger] cells[j]).x as int, cells[j].y as int)
                >= 0,
    ensures
        0 <= nearest_index(m, cells, n) < n,
        forall|j: int|
            0 <= j < n ==> dist_at(
                m,
                cells[nearest_index(m, cells, n)].x as int,
                cells[nearest_index(m, cells, n)].y as int,
            ) <= dist_at(m, (#[trigger] cells[j]).x as int, cells[j].y as int),
        forall|j: int|
            0 <= j < nearest_index(m, cells, n) ==> dist_at(
                m,
                cells[nearest_index(m, cells, n)].x as int,
                cells[nearest_index(m, cells, n)].y as int,
            ) < dist_at(m, (#[trigger] cells[j]).x as int, cells[j].y as int),
    decreases n,
{
    if n > 1 {
        lemma_nearest_is_first_least(m, cells, (n - 1) as nat);
    }
}

/// The cell that player `player_index` goes to on the shortest way.
pub open spec fn best_move(board_state: BoardState, player_index: int) -> Vector2<isize> {
    nearest(board_state.distance_matrices[player_index], player_moves(board_state, player_index))
}

/// The cell from which, and the direction in which, the opponent of player
/// `player_index` takes the next step of the shortest way: from the
/// opponent's own cell, or, where the opponent jumps, from the cell of the
/// player that is jumped over.
pub open spec fn barred_step(board_state: BoardState, player_index: int) -> (
    Vector2<isize>,
    Vector2<isize>,
) {
    let target = best_move(board_state, 1 - player_index);
    let start = board_state.player_positions[1 - player_index];
    let dx = target.x - start.x;
    let dy = target.y - start.y;
    if dx * dx + dy * dy == 1 {
        (start, Vector2 { x: dx as isize, y: dy as isize })
    } else {
        let own = board_state.player_positions[player_index];
        (own, Vector2 { x: (target.x - own.x) as isize, y: (target.y - own.y) as isize })
    }
}

/// The `i`-th of the two walls with which player `player_index` can bar the
/// opponent's next step.
pub open spec fn barring_wall(board_state: BoardState, player_index: int, i: int) -> Action {
    let (start, direction) = barred_step(board_state, player_index);
    let points = wall_points(start, direction);
    let point = if i == 0 {
        points.0
    } else {
        points.1
    };
    Action::Block(
        Vector2 { x: point.0 as isize, y: point.1 as isize },
        blocking_orientation(direction),
    )
}

/// What the player does: the step on the shortest way where the player
/// wants to move or has no wall left; else the first of the two walls across
/// the opponent's next step that is legal; and the step where neither is.
pub open spec fn chosen(board_state: BoardState, player_index: int, wants_move: bool) -> Action {
    if wants_move || board_state.player_wall_counts[player_index] == 0 {
        Action::Move(best_move(board_state, player_index))
    } else if legal(board_state, player_index, barring_wall(board_state, player_index, 0)) {
        barring_wall(board_state, player_index, 0)
    } else if legal(board_state, player_index, barring_wall(board_state, player_index, 1)) {
        barring_wall(board_state, player_index, 1)
    } else {
        Action::Move(best_move(board_state, player_index))
    }
}

/// The cells that a player can go to lie on the board, and have a distance
/// to the goal row if the player's own cell has one.
proof fn lemma_moves_have_distances(board_state: BoardState, player_index: int)
    requires
        board_state.well_formed(),
        0 <= player_index < 2,
        !trapped(board_state, player_index),
    ensures
        forall|j: int|
            0 <= j < player_moves(board_state, player_index).len() ==> cell_in_bounds(
                (#[trigger] player_moves(board_state, player_index)[j]).x as int,
                player_moves(board_state, player_index)[j].y as int,
            ) && dist_at(
                board_state.distance_matrices[player_index],
                player_moves(board_state, player_index)[j].x as int,
                player_moves(board_state, player_index)[j].y as int,
            ) != -1,
{
    let moves = player_moves(board_state, player_index);
    lemma_trapped_distance(board_state, player_index);
    assert forall|j: int| 0 <= j < moves.len() implies cell_in_bounds(
        (#[trigger] moves[j]).x as int,
        moves[j].y as int,
    ) && dist_at(
        board_state.distance_matrices[player_index],
        moves[j].x as int,
        moves[j].y as int,
    ) != -1 by {
        assert(moves.contains(moves[j]));
        lemma_move_stays_connected(board_state, player_index, player_index, moves[j]);
    }
}

impl ShortestPathPlayer {
    /// Rolls a die with the faces 0 to 99. Where the roll is below
    /// `move_chance` the player takes the next step of the shortest way, and
    /// else tries to put a wall across the opponent's.
    pub fn take_action(board_state: &BoardState, player_index: usize, move_chance: isize) -> (action:
        Action)
        requires
            board_state.well_formed(),
            player_index < 2,
            !game_over(*board_state),
            !trapped(*board_state, 0),
            !trapped(*board_state, 1),
        ensures
            legal(*board_state, player_index as int, action),
            exists|roll: int|
                0 <= roll < 100 && action == chosen(
                    *board_state,
                    player_index as int,
                    #[trigger] wants_move(roll, move_chance as int),
                ),
    {
        let roll = random_in_range(0, 100);
        let action = ShortestPathPlayer::choose_action(
            board_state,
            player_index,
            roll < move_chance,
        );
        assert(action == chosen(
            *board_state,
            player_index as int,
            wants_move(roll as int, move_chance as int),
        ));
        action
    }

    /// What the player does on the board, given whether the player wants to
    /// move.
    pub fn choose_action(board_state: &BoardState, player_index: usize, wants_move: bool) -> (action:
        Action)
        requires
            board_state.well_formed(),
            player_index < 2,
            !game_over(*board_state),
            !trapped(*board_state, 0),
            !trapped(*board_state, 1),
        ensures
            action == chosen(*board_state, player_index as int, wants_move),
            legal(*board_state, player_index as int, action),
    {
        proof {
            lemma_moves_have_distances(*board_state, 0);
            lemma_moves_have_distances(*board_state, 1);
            let own = lemma_some_move(*board_state, player_index as int);
            let other = lemma_some_move(*board_state, 1 - player_index as int);
            let moves = player_moves(*board_state, player_index as int);
            lemma_nearest_is_first_least(
                board_state.distance_matrices[player_index as int],
                moves,
                moves.len(),
            );
            assert(moves.contains(best_move(*board_state, player_index as int)));
            let answers = player_moves(*board_state, 1 - player_index as int);
            lemma_nearest_is_first_least(
                board_state.distance_matrices[1 - player_index as int],
                answers,
                answers.len(),
            );
        }
        if !wants_move && board_state.get_player_wall_count(player_index) > 0 {
            // Put a wall across the next step of the opponent's shortest way.
            let opp_index = 1 - player_index;
            let distance_matrix = board_state.get_distance_matrix(opp_index);
            let mut old_position = board_state.get_player_position(opp_index);
            let new_position = get_best_move(board_state, opp_index, &distance_matrix);
            let mut direction = new_position - old_position;
            assert(direction.x * direction.x + direction.y * direction.y <= 162) by (nonlinear_arith)
                requires
                    -9 <= direction.x <= 9,
                    -9 <= direction.y <= 9,
            ;
            // A jump is longer than one step: the wall then goes between the
            // player's own cell and the cell that the opponent jumps to.
            if direction.magnitude_squared() != 1 {
                old_position = board_state.get_player_position(player_index);
                direction = new_position - old_position;
            }
            let orientation = if direction.y == 0 {
                crate::wall_orientation::WallOrientation::Vertical
            } else {
                crate::wall_orientation::WallOrientation::Horizontal
            };
            let points = BoardState::get_wall_points(old_position, direction);
            let mut i: usize = 0;
            while i < 2
                invariant
                    i <= 2,
                    board_state.well_formed(),
                    player_index < 2,
                    !wants_move,
                    board_state.player_wall_counts[player_index as int] > 0,
                    forall|k: int|
                        0 <= k < 2 ==> Action::Block(points[k], orientation) == barring_wall(
                            *board_state,
                            player_index as int,
                            k,
                        ),
                    forall|k: int|
                        0 <= k < i ==> !legal(
                            *board_state,
                            player_index as int,
                            barring_wall(*board_state, player_index as int, k),
                        ),
                decreases 2 - i,
            {
                let action = Action::create_block(points[i], orientation);
                if validate_action(board_state, player_index, &action) {
                    return action;
                }
                i += 1;
            }
        }
        // Take the next step of the shortest way.
        let distance_matrix = board_state.get_distance_matrix(player_index);
        let best_move = get_best_move(board_state, player_index, &distance_matrix);
        Action::create_move(best_move)
    }
}

/// The first of the cells that player `player_index` can go to with the
/// least distance in `distance_matrix`, or `(-1, -1)` where the player
/// cannot go anywhere.
pub fn get_best_move(
    board_state: &BoardState,
    player_index: usize,
    distance_matrix: &DistanceMatrix,
) -> (best_move: Vector2<isize>)
    requires
        board_state.well_formed(),
        player_index < 2,
    ensures
        best_move == nearest(*distance_matrix, player_moves(*board_state, player_index as int)),
{
    proof {
        lemma_moves_in_bounds(*board_state, player_index as int);
    }
    let mut best_distance: isize = -1;
    let mut best_move: Vector2<isize> = Vector2::new(-1, -1);
    let positions = get_valid_move_positions(board_state, player_index);
    let mut i: usize = 0;
    while i < positions.len()
        invariant
            i <= positions.len(),
            positions@ == player_moves(*board_state, player_index as int),
            forall|j: int|
                0 <= j < positions@.len() ==> cell_in_bounds(
                    (#[trigger] positions@[j]).x as int,
                    positions@[j].y as int,
                ),
            i == 0 ==> best_distance == -1 && best_move == (Vector2::<isize> { x: -1isize, y: -1isize }),
            i > 0 ==> 0 <= nearest_index(*distance_matrix, positions@, i as nat) < i && best_move
                == positions@[nearest_index(*distance_matrix, positions@, i as nat)]
                && best_distance == dist_at(*distance_matrix, best_move.x as int, best_move.y as int),
        decreases positions.len() - i,
    {
        let position = positions[i];
        let distance = distance_matrix[position.x as usize][position.y as usize];
        assert(distance == dist_at(*distance_matrix, position.x as int, position.y as int));
        if best_distance == -1 || distance < best_distance {
            best_distance = distance;
            best_move = position;
        }
        i += 1;
    }
    best_move
}

} // verus!
