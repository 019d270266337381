//! What follows from an action being legal, and that there always is one.

use vstd::prelude::*;
use vstd::seq_lib::lemma_seq_contains_after_push;
use crate::action::{can_apply, is_applied, Action};
use crate::board_state::{goal_row, lemma_connections_match_valid, BoardState};
use crate::grid::{
    cell_in_bounds, dist_at, edge_open, has_parent, lemma_distance_matrix_settled,
    lemma_distance_matrix_sound, lemma_distance_matrix_supported, parent_via, settled, step_x,
    step_y, Connections, DistanceMatrix,
};
use crate::tally::lemma_supported_bounded;
use crate::validation::{
    is_neighbour, legal, legal_block, legal_actions, legal_blocks, legal_blocks_upto,
    lemma_keeps_paths_after, lemma_legal_moves_are, lemma_trapped_distance, player_moves, step_cell,
    trapped, block_candidate,
};
use crate::vector2::Vector2;

verus! {

/// A direction in which a cell has a neighbour with the label below.
pub proof fn lemma_parent_direction(conn: Connections, m: DistanceMatrix, x: int, y: int) -> (d:
    int)
    requires
        has_parent(conn, m, x, y),
    ensures
        0 <= d < 4,
        parent_via(conn, m, x, y, d),
{
    if parent_via(conn, m, x, y, 0) {
        0
    } else if parent_via(conn, m, x, y, 1) {
        1
    } else if parent_via(conn, m, x, y, 2) {
        2
    } else {
        3
    }
}

/// On a well-formed board every distance that a matrix holds lies between -1
/// and 80.
pub proof fn lemma_distances_bounded(board_state: BoardState, player_index: int)
    requires
        board_state.well_formed(),
        0 <= player_index < 2,
    ensures
        forall|x: int, y: int|
            cell_in_bounds(x, y) ==> -1 <= #[trigger] dist_at(
                board_state.distance_matrices[player_index],
                x,
                y,
            ) <= 80,
{
    let conn = board_state.cell_connections;
    let m = board_state.distance_matrices[player_index];
    lemma_distance_matrix_sound(conn, goal_row(player_index), m);
    lemma_distance_matrix_supported(conn, goal_row(player_index), m);
    lemma_supported_bounded(conn, m);
}

/// The cells that a player can go to lie on the board.
pub proof fn lemma_moves_in_bounds(board_state: BoardState, player_index: int)
    requires
        board_state.well_formed(),
        0 <= player_index < 2,
    ensures
        forall|j: int|
            0 <= j < player_moves(board_state, player_index).len() ==> cell_in_bounds(
                (#[trigger] player_moves(board_state, player_index)[j]).x as int,
                player_moves(board_state, player_index)[j].y as int,
            ),
{
    let conn = board_state.cell_connections;
    let moves = player_moves(board_state, player_index);
    let from = board_state.player_positions[player_index];
    let opponent = board_state.player_positions[1 - player_index];
    assert forall|j: int| 0 <= j < moves.len() implies cell_in_bounds(
        (#[trigger] moves[j]).x as int,
        moves[j].y as int,
    ) by {
        let cell = moves[j];
        assert(moves.contains(cell));
        lemma_legal_moves_are(conn, from, opponent, cell);
        if is_neighbour(conn, from, cell) {
            let d = choose|d: int| #[trigger]
                edge_open(conn, from.x as int, from.y as int, d) && cell == step_cell(from, d);
        } else {
            let e = choose|e: int| #[trigger]
                edge_open(conn, opponent.x as int, opponent.y as int, e) && cell == step_cell(
                    opponent,
                    e,
                );
        }
    }
}

/// A cell that a player can go to has a way to a goal row if the player's
/// own cell has one.
pub proof fn lemma_move_stays_connected(
    board_state: BoardState,
    player_index: int,
    matrix_index: int,
    cell: Vector2<isize>,
)
    requires
        board_state.well_formed(),
        0 <= player_index < 2,
        0 <= matrix_index < 2,
        player_moves(board_state, player_index).contains(cell),
        dist_at(
            board_state.distance_matrices[matrix_index],
            board_state.position(player_index).0,
            board_state.position(player_index).1,
        ) != -1,
    ensures
        cell_in_bounds(cell.x as int, cell.y as int),
        dist_at(board_state.distance_matrices[matrix_index], cell.x as int, cell.y as int) != -1,
{
    let conn = board_state.cell_connections;
    let m = board_state.distance_matrices[matrix_index];
    let from = board_state.player_positions[player_index];
    let opponent = board_state.player_positions[1 - player_index];
    lemma_connections_match_valid(board_state.walls, conn);
    lemma_distance_matrix_settled(conn, goal_row(matrix_index), m);
    lemma_legal_moves_are(conn, from, opponent, cell);
    if is_neighbour(conn, from, cell) && cell != opponent {
        let d = choose|d: int| #[trigger]
            edge_open(conn, from.x as int, from.y as int, d) && cell == step_cell(from, d);
        assert(settled(conn, m, from.x as int, from.y as int, d));
    } else {
        let d = choose|d: int| #[trigger]
            edge_open(conn, from.x as int, from.y as int, d) && opponent == step_cell(from, d);
        assert(settled(conn, m, from.x as int, from.y as int, d));
        let e = choose|e: int| #[trigger]
            edge_open(conn, opponent.x as int, opponent.y as int, e) && cell == step_cell(
                opponent,
                e,
            );
        assert(settled(conn, m, opponent.x as int, opponent.y as int, e));
    }
}

/// Whoever is not trapped and not on the goal row has a cell to go to.
pub proof fn lemma_some_move(board_state: BoardState, player_index: int) -> (cell: Vector2<isize>)
    requires
        board_state.well_formed(),
        0 <= player_index < 2,
        !trapped(board_state, 0),
        !trapped(board_state, 1),
        board_state.player_distance(player_index) != 0,
    ensures
        player_moves(board_state, player_index).contains(cell),
{
    let conn = board_state.cell_connections;
    let own = board_state.distance_matrices[player_index];
    let other = board_state.distance_matrices[1 - player_index];
    let from = board_state.player_positions[player_index];
    let opponent = board_state.player_positions[1 - player_index];
    let (px, py) = (from.x as int, from.y as int);
    let (ox, oy) = (opponent.x as int, opponent.y as int);
    lemma_trapped_distance(board_state, 0);
    lemma_trapped_distance(board_state, 1);
    lemma_distance_matrix_supported(conn, goal_row(player_index), own);
    lemma_distance_matrix_supported(conn, goal_row(1 - player_index), other);
    lemma_distance_matrix_sound(conn, goal_row(player_index), own);
    lemma_distance_matrix_sound(conn, goal_row(1 - player_index), other);
    assert(dist_at(own, px, py) > 0);
    let d = lemma_parent_direction(conn, own, px, py);
    let first = step_cell(from, d);
    assert(is_neighbour(conn, from, first));
    let cell = if first != opponent {
        first
    } else if dist_at(own, ox, oy) > 0 {
        let e = lemma_parent_direction(conn, own, ox, oy);
        let second = step_cell(opponent, e);
        assert(is_neighbour(conn, opponent, second));
        second
    } else {
        assert(oy == goal_row(player_index));
        assert(dist_at(other, ox, oy) != 0);
        assert(dist_at(other, ox, oy) > 0);
        let e = lemma_parent_direction(conn, other, ox, oy);
        let second = step_cell(opponent, e);
        assert(is_neighbour(conn, opponent, second));
        if second != from {
            second
        } else if dist_at(other, px, py) > 0 {
            let f = lemma_parent_direction(conn, other, px, py);
            let third = step_cell(from, f);
            assert(is_neighbour(conn, from, third));
            assert(third != opponent);
            third
        } else {
            assert(py == goal_row(1 - player_index));
            assert(false);
            from
        }
    };
    lemma_legal_moves_are(conn, from, opponent, cell);
    cell
}

/// A step to one of the cells that the player can go to ends on the board
/// and traps nobody.
pub proof fn lemma_move_traps_nobody(
    before: BoardState,
    player_index: int,
    cell: Vector2<isize>,
    after: BoardState,
)
    requires
        before.well_formed(),
        0 <= player_index < 2,
        !trapped(before, 0),
        !trapped(before, 1),
        player_moves(before, player_index).contains(cell),
        is_applied(before, player_index, Action::Move(cell), after),
    ensures
        can_apply(before, player_index, Action::Move(cell)),
        after.well_formed(),
        !trapped(after, 0),
        !trapped(after, 1),
{
    lemma_trapped_distance(before, 0);
    lemma_trapped_distance(before, 1);
    lemma_move_stays_connected(before, player_index, player_index, cell);
    assert(after.player_positions[player_index] == cell);
    assert(after.player_positions[1 - player_index] == before.player_positions[1 - player_index]);
    assert(after.well_formed());
    lemma_trapped_distance(after, 0);
    lemma_trapped_distance(after, 1);
}

/// Every wall among the candidates that a player may place is one of the 128
/// candidates, and is legal.
pub proof fn lemma_legal_blocks_are(board_state: BoardState, player_index: int, n: nat, j: int)
    requires
        0 <= j < legal_blocks_upto(board_state, player_index, n).len(),
    ensures
        legal(board_state, player_index, legal_blocks_upto(board_state, player_index, n)[j]),
        legal_blocks_upto(board_state, player_index, n)[j] is Block,
    decreases n,
{
    if n > 0 {
        let before = legal_blocks_upto(board_state, player_index, (n - 1) as nat);
        if j < before.len() {
            lemma_legal_blocks_are(board_state, player_index, (n - 1) as nat, j);
        }
    }
}

/// Every action in the list of the legal actions is legal and can be
/// applied.
pub proof fn lemma_legal_action_applies(before: BoardState, player_index: int, j: int)
    requires
        before.well_formed(),
        0 <= player_index < 2,
        !trapped(before, 0),
        !trapped(before, 1),
        0 <= j < legal_actions(before, player_index).len(),
    ensures
        legal(before, player_index, legal_actions(before, player_index)[j]),
        can_apply(before, player_index, legal_actions(before, player_index)[j]),
{
    let moves = player_moves(before, player_index);
    let action = legal_actions(before, player_index)[j];
    if j < moves.len() {
        assert(action == Action::Move(moves[j]));
        assert(moves.contains(moves[j]));
        lemma_trapped_distance(before, player_index);
        lemma_move_stays_connected(before, player_index, player_index, moves[j]);
    } else {
        let blocks = legal_blocks(before, player_index);
        assert(action == blocks[j - moves.len()]);
        lemma_legal_blocks_are(before, player_index, 128, j - moves.len());
    }
}

/// Every action in the list of the legal actions leaves a well-formed board
/// on which nobody is trapped.
pub proof fn lemma_legal_action_sound(
    before: BoardState,
    player_index: int,
    j: int,
    after: BoardState,
)
    requires
        before.well_formed(),
        0 <= player_index < 2,
        !trapped(before, 0),
        !trapped(before, 1),
        0 <= j < legal_actions(before, player_index).len(),
        is_applied(before, player_index, legal_actions(before, player_index)[j], after),
    ensures
        legal(before, player_index, legal_actions(before, player_index)[j]),
        can_apply(before, player_index, legal_actions(before, player_index)[j]),
        after.well_formed(),
        !trapped(after, 0),
        !trapped(after, 1),
{
    let moves = player_moves(before, player_index);
    let action = legal_actions(before, player_index)[j];
    if j < moves.len() {
        assert(action == Action::Move(moves[j]));
        assert(moves.contains(moves[j]));
        lemma_move_traps_nobody(before, player_index, moves[j], after);
    } else {
        let blocks = legal_blocks(before, player_index);
        assert(action == blocks[j - moves.len()]);
        lemma_legal_blocks_are(before, player_index, 128, j - moves.len());
        match action {
            Action::Block(position, o) => {
                lemma_keeps_paths_after(before, player_index, position, o, after);
                crate::validation::lemma_block_severs(before, player_index, position, o, after);
            },
            Action::Move(_) => {},
        }
    }
}

/// Whoever is not trapped and not on the goal row has a legal action.
pub proof fn lemma_some_legal_action(board_state: BoardState, player_index: int)
    requires
        board_state.well_formed(),
        0 <= player_index < 2,
        !trapped(board_state, 0),
        !trapped(board_state, 1),
        board_state.player_distance(player_index) != 0,
    ensures
        legal_actions(board_state, player_index).len() > 0,
{
    let cell = lemma_some_move(board_state, player_index);
    assert(player_moves(board_state, player_index).len() > 0);
}


/// A legal action can be applied.
pub proof fn lemma_legal_applies(before: BoardState, player_index: int, action: Action)
    requires
        before.well_formed(),
        0 <= player_index < 2,
        !trapped(before, 0),
        !trapped(before, 1),
        legal(before, player_index, action),
    ensures
        can_apply(before, player_index, action),
{
    match action {
        Action::Move(cell) => {
            lemma_trapped_distance(before, player_index);
            lemma_move_stays_connected(before, player_index, player_index, cell);
        },
        Action::Block(position, o) => {},
    }
}

/// A legal action leaves a well-formed board on which nobody is trapped.
pub proof fn lemma_legal_sound(
    before: BoardState,
    player_index: int,
    action: Action,
    after: BoardState,
)
    requires
        before.well_formed(),
        0 <= player_index < 2,
        !trapped(before, 0),
        !trapped(before, 1),
        legal(before, player_index, action),
        is_applied(before, player_index, action, after),
    ensures
        after.well_formed(),
        !trapped(after, 0),
        !trapped(after, 1),
{
    match action {
        Action::Move(cell) => {
            lemma_move_traps_nobody(before, player_index, cell, after);
        },
        Action::Block(position, o) => {
            lemma_keeps_paths_after(before, player_index, position, o, after);
            crate::validation::lemma_block_severs(before, player_index, position, o, after);
        },
    }
}

/// An action does not bring the other player to the goal row: whoever has
/// not arrived before another's turn has not arrived after it.
pub proof fn lemma_distance_kept(
    before: BoardState,
    player_index: int,
    action: Action,
    after: BoardState,
)
    requires
        before.well_formed(),
        after.well_formed(),
        0 <= player_index < 2,
        is_applied(before, player_index, action, after),
    ensures
        (before.player_distance(1 - player_index) == 0) == (after.player_distance(
            1 - player_index,
        ) == 0),
{
    let other = 1 - player_index;
    lemma_distance_matrix_sound(
        before.cell_connections,
        goal_row(other),
        before.distance_matrices[other],
    );
    lemma_distance_matrix_sound(
        after.cell_connections,
        goal_row(other),
        after.distance_matrices[other],
    );
    assert(after.player_positions[other] == before.player_positions[other]);
}

/// On the board at the start of a game both players are eight steps from
/// their goal rows.
pub proof fn lemma_new_board_distances(board_state: BoardState)
    requires
        board_state.is_start_layout(),
    ensures
        board_state.player_distance(0) == 8,
        board_state.player_distance(1) == 8,
{
    let conn = board_state.cell_connections;
    lemma_open_column(board_state, 8, 4, 0, 8);
    lemma_open_column(board_state, 0, 4, 8, 8);
    lemma_rows_apart(conn, 8, 4, 0, 8);
    lemma_rows_apart(conn, 0, 4, 8, 8);
    let a = board_state.player_distance(0);
    assert(crate::grid::is_shortest_distance(conn, 8, 4, 0, a));
    let b = board_state.player_distance(1);
    assert(crate::grid::is_shortest_distance(conn, 0, 4, 8, b));
    assert forall|k: nat| k < 8 implies !crate::grid::reaches(conn, 8, 4, 0, k) by {
        lemma_rows_apart(conn, 8, 4, 0, k);
    }
    assert forall|k: nat| k < 8 implies !crate::grid::reaches(conn, 0, 4, 8, k) by {
        lemma_rows_apart(conn, 0, 4, 8, k);
    }
}

/// On a board without walls a cell reaches any row straight along its
/// column.
proof fn lemma_open_column(board_state: BoardState, row: int, x: int, y: int, k: nat)
    requires
        board_state.well_formed(),
        forall|a: int, b: int|
            crate::grid::wall_in_bounds(a, b) ==> board_state.walls[a][b] is None,
        cell_in_bounds(x, y),
        0 <= row < 9,
        k == if row >= y {
            row - y
        } else {
            y - row
        },
    ensures
        crate::grid::reaches(board_state.cell_connections, row, x, y, k),
    decreases k,
{
    let conn = board_state.cell_connections;
    if k > 0 {
        let d: int = if row > y {
            1
        } else {
            3
        };
        assert(!crate::board_state::path_blocked(board_state.walls, x, y, d));
        assert(crate::grid::open_at(conn, x, y, d));
        lemma_open_column(board_state, row, x, y + step_y(d), (k - 1) as nat);
        crate::grid::lemma_reaches_step(conn, row, x, y, d, (k - 1) as nat);
    }
}

/// A walk to a row takes at least as many steps as the rows are apart.
proof fn lemma_rows_apart(conn: Connections, row: int, x: int, y: int, k: nat)
    ensures
        crate::grid::reaches(conn, row, x, y, k) ==> k >= row - y && k >= y - row,
    decreases k,
{
    if k > 0 && crate::grid::reaches(conn, row, x, y, k) {
        let d = crate::grid::lemma_reaches_first(conn, row, x, y, k);
        lemma_rows_apart(conn, row, x + step_x(d), y + step_y(d), (k - 1) as nat);
    }
}


/// No wall that validation approves leaves a player without a distance to
/// the goal row.
pub proof fn lemma_approved_wall_keeps_distances(
    before: BoardState,
    player_index: int,
    position: Vector2<isize>,
    o: crate::wall_orientation::WallOrientation,
    after: BoardState,
)
    requires
        before.well_formed(),
        0 <= player_index < 2,
        legal(before, player_index, Action::Block(position, o)),
        is_applied(before, player_index, Action::Block(position, o), after),
    ensures
        after.well_formed(),
        after.player_distance(0) != -1,
        after.player_distance(1) != -1,
{
    lemma_keeps_paths_after(before, player_index, position, o, after);
    crate::validation::lemma_block_severs(before, player_index, position, o, after);
    lemma_trapped_distance(after, 0);
    lemma_trapped_distance(after, 1);
}


/// The walls among the first `n` candidates that a player may place are the
/// legal ones of these candidates.
proof fn lemma_blocks_upto_are(board_state: BoardState, player_index: int, n: nat, action: Action)
    ensures
        legal_blocks_upto(board_state, player_index, n).contains(action) <==> legal(
            board_state,
            player_index,
            action,
        ) && exists|j: int| 0 <= j < n && #[trigger] block_candidate(j) == action,
    decreases n,
{
    if n > 0 {
        lemma_blocks_upto_are(board_state, player_index, (n - 1) as nat, action);
        lemma_seq_contains_after_push(
            legal_blocks_upto(board_state, player_index, (n - 1) as nat),
            block_candidate(n - 1),
            action,
        );
    }
}

/// The list of the walls that a player may place holds every legal wall and
/// nothing else.
pub proof fn lemma_legal_blocks_complete(
    board_state: BoardState,
    player_index: int,
    position: Vector2<isize>,
    o: crate::wall_orientation::WallOrientation,
)
    ensures
        legal_blocks(board_state, player_index).contains(Action::Block(position, o)) <==> legal(
            board_state,
            player_index,
            Action::Block(position, o),
        ),
{
    let action = Action::Block(position, o);
    lemma_blocks_upto_are(board_state, player_index, 128, action);
    if legal(board_state, player_index, action) {
        let j = position.x * 16 + position.y * 2 + if o
            == crate::wall_orientation::WallOrientation::Vertical {
            0int
        } else {
            1
        };
        assert(block_candidate(j) == action);
    }
}

/// A player without walls has no wall to place: no wall is legal, and the
/// list of the legal actions holds moves only.
pub proof fn lemma_no_walls_no_blocks(board_state: BoardState, player_index: int)
    requires
        board_state.player_wall_counts[player_index] == 0,
    ensures
        legal_blocks(board_state, player_index).len() == 0,
        forall|position: Vector2<isize>, o: crate::wall_orientation::WallOrientation|
            !#[trigger] legal_block(board_state, player_index, position, o),
        forall|j: int|
            0 <= j < legal_actions(board_state, player_index).len() ==> #[trigger] legal_actions(
                board_state,
                player_index,
            )[j] is Move,
{
}

} // verus!
