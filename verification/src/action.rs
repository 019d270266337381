//! The actions that a player can take, and what they do to a board.

use vstd::prelude::*;
use crate::action_type::ActionType;
use crate::board_state::{connections_match, BoardState};
use crate::grid::{
    cell_in_bounds, is_distance_matrix, lemma_distance_matrix_unique, open_at, wall_in_bounds,
};
use crate::vector2::Vector2;
use crate::wall_orientation::WallOrientation;

verus! {

/// What a player does in a turn: step to a cell, or place a wall in a slot.
#[derive(Copy, Clone, Debug)]
pub enum Action {
    Move(Vector2<isize>),
    Block(Vector2<isize>, WallOrientation),
}

/// `after` is `before` once player `player_index` has taken `action`.
pub open spec fn is_applied(
    before: BoardState,
    player_index: int,
    action: Action,
    after: BoardState,
) -> bool {
    match action {
        Action::Move(position) => {
            &&& after.player_positions[player_index] == position
            &&& after.player_positions[1 - player_index] == before.player_positions[1
                - player_index]
            &&& after.walls == before.walls
            &&& after.cell_connections == before.cell_connections
            &&& after.player_wall_counts == before.player_wall_counts
            &&& after.player_walls == before.player_walls
            &&& after.distance_matrices == before.distance_matrices
        },
        Action::Block(position, orientation) => {
            &&& after.walls[position.x as int][position.y as int] == Some(orientation)
            &&& forall|x: int, y: int|
                wall_in_bounds(x, y) && !(x == position.x && y == position.y)
                    ==> #[trigger] after.walls[x][y] == before.walls[x][y]
            &&& connections_match(after.walls, after.cell_connections)
            &&& after.player_positions == before.player_positions
            &&& after.player_wall_counts[player_index] == before.player_wall_counts[player_index]
                - 1
            &&& after.player_wall_counts[1 - player_index] == before.player_wall_counts[1
                - player_index]
            &&& after.player_walls[position.x as int][position.y as int] == player_index
            &&& forall|x: int, y: int|
                wall_in_bounds(x, y) && !(x == position.x && y == position.y)
                    ==> #[trigger] after.player_walls[x][y] == before.player_walls[x][y]
            &&& is_distance_matrix(after.cell_connections, 8, after.distance_matrices[0])
            &&& is_distance_matrix(after.cell_connections, 0, after.distance_matrices[1])
        },
    }
}

/// Player `player_index` can take `action` on `board_state`: a step ends on
/// the board, a wall goes into an empty slot and the player has one left.
pub open spec fn can_apply(board_state: BoardState, player_index: int, action: Action) -> bool {
    match action {
        Action::Move(position) => cell_in_bounds(position.x as int, position.y as int),
        Action::Block(position, orientation) => {
            &&& wall_in_bounds(position.x as int, position.y as int)
            &&& board_state.walls[position.x as int][position.y as int] is None
            &&& board_state.player_wall_counts[player_index] > 0
        },
    }
}

/// The board after player `player_index` has taken `action`.
pub open spec fn applied(before: BoardState, player_index: int, action: Action) -> BoardState {
    choose|after: BoardState| is_applied(before, player_index, action, after)
}

/// An action leads to one board only.
pub proof fn lemma_applied_unique(
    before: BoardState,
    player_index: int,
    action: Action,
    first: BoardState,
    second: BoardState,
)
    requires
        0 <= player_index < 2,
        match action {
            Action::Move(_) => true,
            Action::Block(position, _) => wall_in_bounds(position.x as int, position.y as int),
        },
        is_applied(before, player_index, action, first),
        is_applied(before, player_index, action, second),
    ensures
        first == second,
{
    match action {
        Action::Move(position) => {
            assert(first.player_positions =~= second.player_positions);
        },
        Action::Block(position, orientation) => {
            assert forall|x: int| 0 <= x < 8 implies first.walls[x] == second.walls[x] by {
                assert forall|y: int| 0 <= y < 8 implies first.walls[x][y]
                    == second.walls[x][y] by {
                    assert(wall_in_bounds(x, y));
                }
                assert(first.walls[x] =~= second.walls[x]);
            }
            assert(first.walls =~= second.walls);
            assert forall|x: int| 0 <= x < 8 implies first.player_walls[x]
                == second.player_walls[x] by {
                assert forall|y: int| 0 <= y < 8 implies first.player_walls[x][y]
                    == second.player_walls[x][y] by {
                    assert(wall_in_bounds(x, y));
                }
                assert(first.player_walls[x] =~= second.player_walls[x]);
            }
            assert(first.player_walls =~= second.player_walls);
            assert forall|x: int| 0 <= x < 9 implies first.cell_connections[x]
                == second.cell_connections[x] by {
                assert forall|y: int| 0 <= y < 9 implies first.cell_connections[x][y]
                    == second.cell_connections[x][y] by {
                    assert forall|d: int| 0 <= d < 4 implies first.cell_connections[x][y][d]
                        == second.cell_connections[x][y][d] by {
                        assert(open_at(first.cell_connections, x, y, d) == open_at(
                            second.cell_connections,
                            x,
                            y,
                            d,
                        ));
                    }
                    assert(first.cell_connections[x][y] =~= second.cell_connections[x][y]);
                }
                assert(first.cell_connections[x] =~= second.cell_connections[x]);
            }
            assert(first.cell_connections =~= second.cell_connections);
            lemma_distance_matrix_unique(
                first.cell_connections,
                8,
                first.distance_matrices[0],
                second.distance_matrices[0],
            );
            lemma_distance_matrix_unique(
                first.cell_connections,
                0,
                first.distance_matrices[1],
                second.distance_matrices[1],
            );
            assert(first.distance_matrices =~= second.distance_matrices);
            assert(first.player_wall_counts =~= second.player_wall_counts);
        },
    }
}

impl Action {
    /// The action of stepping to the cell at `position`.
    pub fn create_move(position: Vector2<isize>) -> (action: Action)
        ensures
            action == Action::Move(position),
    {
        Action::Move(position)
    }

    /// The action of placing a wall with orientation `orientation` in the
    /// slot at `position`.
    pub fn create_block(position: Vector2<isize>, orientation: WallOrientation) -> (action: Action)
        ensures
            action == Action::Block(position, orientation),
    {
        Action::Block(position, orientation)
    }

    /// The kind of the action.
    pub fn action_type(&self) -> (kind: ActionType)
        ensures
            kind == (match *self {
                Action::Move(_) => ActionType::Move,
                Action::Block(_, _) => ActionType::Block,
            }),
    {
        match self {
            Action::Move(_) => ActionType::Move,
            Action::Block(_, _) => ActionType::Block,
        }
    }

    /// Takes the action for player `player_index`: moves the player, or
    /// places the wall, notes whose it is and takes it from the player's
    /// supply.
    pub fn apply(&self, board_state: &mut BoardState, player_index: usize)
        requires
            player_index < 2,
            old(board_state).well_formed(),
            can_apply(*old(board_state), player_index as int, *self),
        ensures
            final(board_state).well_formed(),
            is_applied(*old(board_state), player_index as int, *self, *final(board_state)),
            *final(board_state) == applied(*old(board_state), player_index as int, *self),
    {
        let ghost before = *board_state;
        match self {
            Action::Move(position) => {
                board_state.set_player_position(player_index, *position);
            },
            Action::Block(position, orientation) => {
                board_state.set_wall(*position, *orientation);
                board_state.set_player_wall(*position, player_index);
                let count = board_state.get_player_wall_count(player_index);
                board_state.set_player_wall_count(player_index, count - 1);
            },
        }
        proof {
            assert(is_applied(before, player_index as int, *self, *board_state));
            lemma_applied_unique(
                before,
                player_index as int,
                *self,
                *board_state,
                applied(before, player_index as int, *self),
            );
        }
    }
}

} // verus!
