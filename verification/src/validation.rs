//! Which actions are legal: where a player can go, where a wall fits, and
//! that no wall may take a player's last way to the goal row.

use vstd::prelude::*;
use vstd::seq_lib::{lemma_seq_concat_contains_all_elements, lemma_seq_contains_after_push};
use crate::action::{can_apply, is_applied, Action};
use crate::board_state::{goal_row, lemma_connections_match_valid, wall_is, BoardState, Walls};
use crate::distance::direction;
use crate::grid::{
    cell_in_bounds, crosses, dist_at, edge_open, is_shortest_distance, lemma_reaches_subgraph,
    open_at, reachable, reaches, severed, step_x, step_y, subgraph, wall_in_bounds, Connections,
};
use crate::vector2::Vector2;
use crate::wall_orientation::WallOrientation;

verus! {

/// The slot next to `(x, y)` along the axis of a wall with orientation `o`,
/// `side` steps further: one step is one slot to the right for a horizontal
/// wall, one slot up for a vertical one.
pub open spec fn along(x: int, y: int, o: WallOrientation, side: int) -> (int, int) {
    match o {
        WallOrientation::Horizontal => (x + side, y),
        WallOrientation::Vertical => (x, y + side),
    }
}

/// A wall with orientation `o` cannot go into slot `(x, y)`: the slot is
/// taken, or one of the two slots next to it along the wall's axis holds a
/// wall of the same orientation.
pub open spec fn overlapping(walls: Walls, x: int, y: int, o: WallOrientation) -> bool {
    ||| walls[x][y] is Some
    ||| wall_is(walls, along(x, y, o, 1).0, along(x, y, o, 1).1, o)
    ||| wall_is(walls, along(x, y, o, -1).0, along(x, y, o, -1).1, o)
}

/// Two slots next to one another along a wall's axis exclude each other: a
/// wall in either makes the other overlapping for a wall of the same
/// orientation, whichever is placed first.
pub proof fn lemma_overlapping_symmetric(
    first: Walls,
    second: Walls,
    x: int,
    y: int,
    o: WallOrientation,
    side: int,
)
    requires
        side == 1 || side == -1,
        wall_in_bounds(x, y),
        wall_in_bounds(along(x, y, o, side).0, along(x, y, o, side).1),
    ensures
        wall_is(first, x, y, o) ==> overlapping(
            first,
            along(x, y, o, side).0,
            along(x, y, o, side).1,
            o,
        ),
        wall_is(second, along(x, y, o, side).0, along(x, y, o, side).1, o) ==> overlapping(
            second,
            x,
            y,
            o,
        ),
{
}

/// Whether a wall with orientation `orientation` cannot go into the slot at
/// `position`.
pub fn is_wall_overlapping(
    board_state: &BoardState,
    position: Vector2<isize>,
    orientation: WallOrientation,
) -> (overlaps: bool)
    requires
        wall_in_bounds(position.x as int, position.y as int),
    ensures
        overlaps == overlapping(
            board_state.walls,
            position.x as int,
            position.y as int,
            orientation,
        ),
{
    // The slot is taken.
    if board_state.get_wall(position).is_some() {
        return true;
    }
    let shift_amount: Vector2<isize> = match orientation {
        WallOrientation::Horizontal => Vector2::new(1, 0),
        WallOrientation::Vertical => Vector2::new(0, 1),
    };
    // A wall of the same orientation lies directly next to the slot.
    let point_a = position + shift_amount;
    if BoardState::is_wall_index_in_bounds(point_a) && holds(
        board_state.get_wall(point_a),
        orientation,
    ) {
        return true;
    }
    let point_b = position - shift_amount;
    if BoardState::is_wall_index_in_bounds(point_b) && holds(
        board_state.get_wall(point_b),
        orientation,
    ) {
        return true;
    }
    false
}

/// Whether a slot holds a wall with the given orientation.
fn holds(wall: Option<WallOrientation>, orientation: WallOrientation) -> (same: bool)
    ensures
        same == (wall == Some(orientation)),
{
    match wall {
        Some(found) => found == orientation,
        None => false,
    }
}

/// Whether a wall with orientation `orientation` can go into the slot at
/// `position` as far as the other walls are concerned.
pub fn is_valid_wall(
    board_state: &BoardState,
    position: Vector2<isize>,
    orientation: WallOrientation,
) -> (valid: bool)
    requires
        wall_in_bounds(position.x as int, position.y as int),
    ensures
        valid == !overlapping(board_state.walls, position.x as int, position.y as int, orientation),
{
    !is_wall_overlapping(board_state, position, orientation)
}

/// Player `player_index` has no way to the goal row.
pub open spec fn trapped(board_state: BoardState, player_index: int) -> bool {
    !reachable(
        board_state.cell_connections,
        goal_row(player_index),
        board_state.position(player_index).0,
        board_state.position(player_index).1,
    )
}

/// On a well-formed board the distance that the matrix holds for a player is
/// -1 exactly where the player has no way to the goal row.
pub proof fn lemma_trapped_distance(board_state: BoardState, player_index: int)
    requires
        board_state.well_formed(),
        0 <= player_index < 2,
    ensures
        trapped(board_state, player_index) <==> board_state.player_distance(player_index) == -1,
        board_state.player_distance(player_index) >= -1,
{
    let (x, y) = board_state.position(player_index);
    let m = board_state.distance_matrices[player_index];
    assert(is_shortest_distance(
        board_state.cell_connections,
        goal_row(player_index),
        x,
        y,
        dist_at(m, x, y),
    ));
    if dist_at(m, x, y) != -1 {
        assert(reaches(
            board_state.cell_connections,
            goal_row(player_index),
            x,
            y,
            dist_at(m, x, y) as nat,
        ));
    }
}

/// Whether player `player_index` has no way to the goal row.
pub fn is_player_trapped(board_state: &BoardState, player_index: usize) -> (is_trapped: bool)
    requires
        player_index < 2,
        board_state.well_formed(),
    ensures
        is_trapped == trapped(*board_state, player_index as int),
        is_trapped == (board_state.player_distance(player_index as int) == -1),
{
    proof {
        lemma_trapped_distance(*board_state, player_index as int);
    }
    board_state.get_player_distance(player_index) == -1
}

/// Whether one of the two players has no way to the goal row.
pub fn is_either_player_trapped(board_state: &BoardState) -> (is_trapped: bool)
    requires
        board_state.well_formed(),
    ensures
        is_trapped == (trapped(*board_state, 0) || trapped(*board_state, 1)),
{
    is_player_trapped(board_state, 0) || is_player_trapped(board_state, 1)
}

/// The cell one step from `cell` in direction `d`.
pub open spec fn step_cell(cell: Vector2<isize>, d: int) -> Vector2<isize> {
    Vector2 { x: (cell.x + step_x(d)) as isize, y: (cell.y + step_y(d)) as isize }
}

/// The neighbours of `cell` over open edges in the first `n` directions, in
/// the order of the directions.
pub open spec fn neighbours_upto(conn: Connections, cell: Vector2<isize>, n: nat) -> Seq<
    Vector2<isize>,
>
    decreases n,
{
    if n == 0 {
        Seq::empty()
    } else {
        let before = neighbours_upto(conn, cell, (n - 1) as nat);
        if edge_open(conn, cell.x as int, cell.y as int, n - 1) {
            before.push(step_cell(cell, n - 1))
        } else {
            before
        }
    }
}

/// The neighbours of `cell` over open edges: right, up, left, down.
pub open spec fn neighbours(conn: Connections, cell: Vector2<isize>) -> Seq<Vector2<isize>> {
    neighbours_upto(conn, cell, 4)
}

/// The first `n` of `cells` without those that are `skip`.
pub open spec fn without_upto(cells: Seq<Vector2<isize>>, skip: Vector2<isize>, n: nat) -> Seq<
    Vector2<isize>,
>
    decreases n,
{
    if n == 0 {
        Seq::empty()
    } else {
        let before = without_upto(cells, skip, (n - 1) as nat);
        if cells[n - 1] == skip {
            before
        } else {
            before.push(cells[n - 1])
        }
    }
}

/// The cells to which a player at `from` can go past the first `n` of the
/// neighbours `cells`, with the opponent at `opponent`: each neighbour
/// itself, but in place of the opponent's cell the neighbours of that cell
/// other than `from`.
pub open spec fn moves_upto(
    conn: Connections,
    cells: Seq<Vector2<isize>>,
    from: Vector2<isize>,
    opponent: Vector2<isize>,
    n: nat,
) -> Seq<Vector2<isize>>
    decreases n,
{
    if n == 0 {
        Seq::empty()
    } else {
        let before = moves_upto(conn, cells, from, opponent, (n - 1) as nat);
        if cells[n - 1] == opponent {
            before + without_upto(
                neighbours(conn, opponent),
                from,
                neighbours(conn, opponent).len(),
            )
        } else {
            before.push(cells[n - 1])
        }
    }
}

/// The cells to which a player at `from` can go, with the opponent at
/// `opponent`.
pub open spec fn legal_moves(conn: Connections, from: Vector2<isize>, opponent: Vector2<isize>) -> Seq<
    Vector2<isize>,
> {
    moves_upto(conn, neighbours(conn, from), from, opponent, neighbours(conn, from).len())
}

/// The cells to which player `player_index` can go.
pub open spec fn player_moves(board_state: BoardState, player_index: int) -> Seq<Vector2<isize>> {
    legal_moves(
        board_state.cell_connections,
        board_state.player_positions[player_index],
        board_state.player_positions[1 - player_index],
    )
}

/// The neighbours of `cell` over open edges: right, up, left, down.
pub fn get_accessible_adjacent_cells(board_state: &BoardState, cell: Vector2<isize>) -> (cells:
    Vec<Vector2<isize>>)
    requires
        board_state.well_formed(),
        cell_in_bounds(cell.x as int, cell.y as int),
    ensures
        cells@ == neighbours(board_state.cell_connections, cell),
{
    proof {
        lemma_connections_match_valid(board_state.walls, board_state.cell_connections);
    }
    let mut cells: Vec<Vector2<isize>> = Vec::new();
    let mut i: usize = 0;
    while i < 4
        invariant
            i <= 4,
            cell_in_bounds(cell.x as int, cell.y as int),
            crate::grid::borders_closed(board_state.cell_connections),
            cells@ == neighbours_upto(board_state.cell_connections, cell, i as nat),
        decreases 4 - i,
    {
        let open = board_state.cell_connections[cell.x as usize][cell.y as usize][i];
        assert(open == open_at(board_state.cell_connections, cell.x as int, cell.y as int, i as int));
        if open {
            cells.push(cell + direction(i));
        }
        i += 1;
    }
    cells
}

/// The cells to which a player at `player_pos` can go, with the opponent at
/// `opponent_pos`: over each open edge to the neighbour, and where that is
/// the opponent's cell, on from there over each open edge but not back.
pub fn get_accessible_cells(
    board_state: &BoardState,
    player_pos: Vector2<isize>,
    opponent_pos: Vector2<isize>,
) -> (cells: Vec<Vector2<isize>>)
    requires
        board_state.well_formed(),
        cell_in_bounds(player_pos.x as int, player_pos.y as int),
        cell_in_bounds(opponent_pos.x as int, opponent_pos.y as int),
    ensures
        cells@ == legal_moves(board_state.cell_connections, player_pos, opponent_pos),
{
    let ghost conn = board_state.cell_connections;
    let mut cells: Vec<Vector2<isize>> = Vec::new();
    let adjacent = get_accessible_adjacent_cells(board_state, player_pos);
    let mut i: usize = 0;
    while i < adjacent.len()
        invariant
            i <= adjacent.len(),
            board_state.well_formed(),
            conn == board_state.cell_connections,
            cell_in_bounds(opponent_pos.x as int, opponent_pos.y as int),
            adjacent@ == neighbours(conn, player_pos),
            cells@ == moves_upto(conn, adjacent@, player_pos, opponent_pos, i as nat),
        decreases adjacent.len() - i,
    {
        let position = adjacent[i];
        if position.x == opponent_pos.x && position.y == opponent_pos.y {
            let ghost base = cells@;
            let jumps = get_accessible_adjacent_cells(board_state, opponent_pos);
            let mut j: usize = 0;
            while j < jumps.len()
                invariant
                    j <= jumps.len(),
                    jumps@ == neighbours(conn, opponent_pos),
                    cells@ == base + without_upto(jumps@, player_pos, j as nat),
                decreases jumps.len() - j,
            {
                let jump_pos = jumps[j];
                if jump_pos.x != player_pos.x || jump_pos.y != player_pos.y {
                    cells.push(jump_pos);
                    assert(cells@ =~= base + without_upto(jumps@, player_pos, (j + 1) as nat));
                }
                j += 1;
            }
        } else {
            cells.push(position);
        }
        i += 1;
    }
    cells
}

/// The cells to which a player at `from_pos` can go, with the opponent at
/// `opponent_pos`.
pub fn get_valid_moves(
    board_state: &BoardState,
    from_pos: Vector2<isize>,
    opponent_pos: Vector2<isize>,
) -> (cells: Vec<Vector2<isize>>)
    requires
        board_state.well_formed(),
        cell_in_bounds(from_pos.x as int, from_pos.y as int),
        cell_in_bounds(opponent_pos.x as int, opponent_pos.y as int),
    ensures
        cells@ == legal_moves(board_state.cell_connections, from_pos, opponent_pos),
{
    get_accessible_cells(board_state, from_pos, opponent_pos)
}

/// The cells to which player `player_index` can go.
pub fn get_valid_move_positions(board_state: &BoardState, player_index: usize) -> (cells: Vec<
    Vector2<isize>,
>)
    requires
        board_state.well_formed(),
        player_index < 2,
    ensures
        cells@ == player_moves(*board_state, player_index as int),
{
    let player_position = board_state.get_player_position(player_index);
    let opponent_position = board_state.get_player_position(1 - player_index);
    get_accessible_cells(board_state, player_position, opponent_position)
}

/// The cells to which player `player_index` can go.
pub fn get_valid_player_moves(board_state: &BoardState, player_index: usize) -> (cells: Vec<
    Vector2<isize>,
>)
    requires
        board_state.well_formed(),
        player_index < 2,
    ensures
        cells@ == player_moves(*board_state, player_index as int),
{
    get_valid_move_positions(board_state, player_index)
}


/// The cells as moves, in their order.
pub open spec fn as_moves(cells: Seq<Vector2<isize>>) -> Seq<Action> {
    Seq::new(cells.len(), |j: int| Action::Move(cells[j]))
}

/// The moves that player `player_index` can make.
pub fn get_valid_move_actions(board_state: &BoardState, player_index: usize) -> (actions: Vec<
    Action,
>)
    requires
        board_state.well_formed(),
        player_index < 2,
    ensures
        actions@ == as_moves(player_moves(*board_state, player_index as int)),
{
    let positions = get_valid_move_positions(board_state, player_index);
    let mut actions: Vec<Action> = Vec::new();
    let mut i: usize = 0;
    while i < positions.len()
        invariant
            i <= positions.len(),
            actions@ == as_moves(positions@.take(i as int)),
        decreases positions.len() - i,
    {
        actions.push(Action::create_move(positions[i]));
        assert(actions@ =~= as_moves(positions@.take(i + 1)));
        i += 1;
    }
    assert(positions@.take(positions.len() as int) =~= positions@);
    actions
}

/// With the wall in slot `(x, y)` both players still have a way to their
/// goal rows: over the edges of the board that the wall does not lie across.
pub open spec fn wall_keeps_paths(board_state: BoardState, x: int, y: int, o: WallOrientation) -> bool {
    exists|conn: Connections|
        {
            &&& #[trigger] severed(board_state.cell_connections, conn, x, y, o)
            &&& reachable(conn, 8, board_state.position(0).0, board_state.position(0).1)
            &&& reachable(conn, 0, board_state.position(1).0, board_state.position(1).1)
        }
}

/// Player `player_index` may place a wall with orientation `o` in the slot
/// at `position`: the player has a wall left, the slot is on the board, the
/// wall fits between the others, and it takes nobody's last way.
pub open spec fn legal_block(
    board_state: BoardState,
    player_index: int,
    position: Vector2<isize>,
    o: WallOrientation,
) -> bool {
    &&& board_state.player_wall_counts[player_index] > 0
    &&& wall_in_bounds(position.x as int, position.y as int)
    &&& !overlapping(board_state.walls, position.x as int, position.y as int, o)
    &&& wall_keeps_paths(board_state, position.x as int, position.y as int, o)
}

/// Player `player_index` may take `action`.
pub open spec fn legal(board_state: BoardState, player_index: int, action: Action) -> bool {
    match action {
        Action::Move(position) => player_moves(board_state, player_index).contains(position),
        Action::Block(position, o) => legal_block(board_state, player_index, position, o),
    }
}

/// A wall that was placed on a well-formed board closed the edges that it
/// lies across and no others.
pub proof fn lemma_block_severs(
    before: BoardState,
    player_index: int,
    position: Vector2<isize>,
    o: WallOrientation,
    after: BoardState,
)
    requires
        before.well_formed(),
        can_apply(before, player_index, Action::Block(position, o)),
        is_applied(before, player_index, Action::Block(position, o), after),
    ensures
        after.well_formed(),
        severed(
            before.cell_connections,
            after.cell_connections,
            position.x as int,
            position.y as int,
            o,
        ),
{
    let wx = position.x as int;
    let wy = position.y as int;
    assert forall|x: int, y: int, d: int| cell_in_bounds(x, y) && 0 <= d < 4 implies (
    #[trigger] edge_open(after.cell_connections, x, y, d) <==> edge_open(
        before.cell_connections,
        x,
        y,
        d,
    ) && !crosses(wx, wy, o, x, y, d)) by {
        crate::board_state::lemma_path_blocked_after(
            before.walls,
            after.walls,
            wx,
            wy,
            o,
            x,
            y,
            d,
        );
        assert(open_at(after.cell_connections, x, y, d) <==> cell_in_bounds(
            x + step_x(d),
            y + step_y(d),
        ) && !crate::board_state::path_blocked(after.walls, x, y, d));
        assert(open_at(before.cell_connections, x, y, d) <==> cell_in_bounds(
            x + step_x(d),
            y + step_y(d),
        ) && !crate::board_state::path_blocked(before.walls, x, y, d));
    }
}

/// A wall keeps both players' ways exactly where, on the board with the
/// wall, neither player is trapped.
pub proof fn lemma_keeps_paths_after(
    before: BoardState,
    player_index: int,
    position: Vector2<isize>,
    o: WallOrientation,
    after: BoardState,
)
    requires
        before.well_formed(),
        can_apply(before, player_index, Action::Block(position, o)),
        is_applied(before, player_index, Action::Block(position, o), after),
    ensures
        wall_keeps_paths(before, position.x as int, position.y as int, o) <==> !trapped(after, 0)
            && !trapped(after, 1),
{
    let wx = position.x as int;
    let wy = position.y as int;
    lemma_block_severs(before, player_index, position, o, after);
    let c = after.cell_connections;
    if wall_keeps_paths(before, wx, wy, o) {
        let conn = choose|conn: Connections|
            {
                &&& #[trigger] severed(before.cell_connections, conn, wx, wy, o)
                &&& reachable(conn, 8, before.position(0).0, before.position(0).1)
                &&& reachable(conn, 0, before.position(1).0, before.position(1).1)
            };
        assert(subgraph(conn, c)) by {
            assert forall|x: int, y: int, d: int| #[trigger]
                edge_open(conn, x, y, d) implies edge_open(c, x, y, d) by {
                assert(edge_open(c, x, y, d) <==> edge_open(before.cell_connections, x, y, d)
                    && !crosses(wx, wy, o, x, y, d));
            }
        }
        let k0 = choose|k: nat| reaches(conn, 8, before.position(0).0, before.position(0).1, k);
        lemma_reaches_subgraph(conn, c, 8, before.position(0).0, before.position(0).1, k0);
        let k1 = choose|k: nat| reaches(conn, 0, before.position(1).0, before.position(1).1, k);
        lemma_reaches_subgraph(conn, c, 0, before.position(1).0, before.position(1).1, k1);
    }
    if !trapped(after, 0) && !trapped(after, 1) {
        assert(severed(before.cell_connections, c, wx, wy, o));
    }
}

/// Whether `cell` is one of `cells`.
fn contains_cell(cells: &Vec<Vector2<isize>>, cell: Vector2<isize>) -> (found: bool)
    ensures
        found == cells@.contains(cell),
{
    let mut i: usize = 0;
    while i < cells.len()
        invariant
            i <= cells.len(),
            forall|j: int| 0 <= j < i ==> cells@[j] != cell,
        decreases cells.len() - i,
    {
        if cells[i].x == cell.x && cells[i].y == cell.y {
            return true;
        }
        i += 1;
    }
    false
}

/// Whether player `player_index` may take `action`. A move has to end on one
/// of the cells that the player can go to. A wall needs a wall in the
/// player's supply, a slot on the board, room between the other walls, and
/// must leave both players a way to their goal rows.
pub fn validate_action(board_state: &BoardState, player_index: usize, action: &Action) -> (valid:
    bool)
    requires
        board_state.well_formed(),
        player_index < 2,
    ensures
        valid == legal(*board_state, player_index as int, *action),
{
    match action {
        Action::Move(position) => {
            let positions = get_valid_move_positions(board_state, player_index);
            contains_cell(&positions, *position)
        },
        Action::Block(position, orientation) => {
            if board_state.get_player_wall_count(player_index) == 0 {
                return false;
            }
            if !BoardState::is_wall_index_in_bounds(*position) {
                return false;
            }
            if is_wall_overlapping(board_state, *position, *orientation) {
                return false;
            }
            // The wall is tried on a copy, so that the board itself stays as
            // it is.
            let mut copy = *board_state;
            action.apply(&mut copy, player_index);
            proof {
                lemma_keeps_paths_after(
                    *board_state,
                    player_index as int,
                    *position,
                    *orientation,
                    copy,
                );
            }
            !is_either_player_trapped(&copy)
        },
    }
}

/// The `n`-th candidate for a wall: slots column by column, in each column
/// from the bottom up, and in each slot first the vertical, then the
/// horizontal wall.
pub open spec fn block_candidate(n: int) -> Action {
    Action::Block(
        Vector2 { x: (n / 16) as isize, y: ((n / 2) % 8) as isize },
        if n % 2 == 0 {
            WallOrientation::Vertical
        } else {
            WallOrientation::Horizontal
        },
    )
}

/// The walls among the first `n` candidates that player `player_index` may
/// place.
pub open spec fn legal_blocks_upto(board_state: BoardState, player_index: int, n: nat) -> Seq<
    Action,
>
    decreases n,
{
    if n == 0 {
        Seq::empty()
    } else {
        let before = legal_blocks_upto(board_state, player_index, (n - 1) as nat);
        if legal(board_state, player_index, block_candidate(n - 1)) {
            before.push(block_candidate(n - 1))
        } else {
            before
        }
    }
}

/// The walls that player `player_index` may place, in the order of the
/// candidates.
pub open spec fn legal_blocks(board_state: BoardState, player_index: int) -> Seq<Action> {
    if board_state.player_wall_counts[player_index] > 0 {
        legal_blocks_upto(board_state, player_index, 128)
    } else {
        Seq::empty()
    }
}

/// All that player `player_index` may do: the moves first, then the walls.
pub open spec fn legal_actions(board_state: BoardState, player_index: int) -> Seq<Action> {
    as_moves(player_moves(board_state, player_index)) + legal_blocks(board_state, player_index)
}

/// The walls that player `player_index` may place: none without a wall in
/// the supply.
pub fn get_valid_block_actions(board_state: &BoardState, player_index: usize) -> (actions: Vec<
    Action,
>)
    requires
        board_state.well_formed(),
        player_index < 2,
    ensures
        actions@ == legal_blocks(*board_state, player_index as int),
        board_state.player_wall_counts[player_index as int] == 0 ==> actions@.len() == 0,
{
    let mut actions: Vec<Action> = Vec::new();
    if board_state.get_player_wall_count(player_index) > 0 {
        let mut x: isize = 0;
        while x < 8
            invariant
                0 <= x <= 8,
                board_state.well_formed(),
                player_index < 2,
                actions@ == legal_blocks_upto(*board_state, player_index as int, (x * 16) as nat),
            decreases 8 - x,
        {
            let mut y: isize = 0;
            while y < 8
                invariant
                    0 <= x < 8,
                    0 <= y <= 8,
                    board_state.well_formed(),
                    player_index < 2,
                    actions@ == legal_blocks_upto(
                        *board_state,
                        player_index as int,
                        (x * 16 + y * 2) as nat,
                    ),
                decreases 8 - y,
            {
                let pos = Vector2::new(x, y);
                let mut o: usize = 0;
                while o < 2
                    invariant
                        0 <= x < 8,
                        0 <= y < 8,
                        o <= 2,
                        pos.x == x,
                        pos.y == y,
                        board_state.well_formed(),
                        player_index < 2,
                        actions@ == legal_blocks_upto(
                            *board_state,
                            player_index as int,
                            (x * 16 + y * 2 + o) as nat,
                        ),
                    decreases 2 - o,
                {
                    let orientation = if o == 0 {
                        WallOrientation::Vertical
                    } else {
                        WallOrientation::Horizontal
                    };
                    let action = Action::create_block(pos, orientation);
                    assert(action == block_candidate(x * 16 + y * 2 + o));
                    if validate_action(board_state, player_index, &action) {
                        actions.push(action);
                    }
                    o += 1;
                }
                y += 1;
            }
            x += 1;
        }
    }
    actions
}

/// `cell` lies one step over an open edge from `from`.
pub open spec fn is_neighbour(conn: Connections, from: Vector2<isize>, cell: Vector2<isize>) -> bool {
    exists|d: int| #[trigger]
        edge_open(conn, from.x as int, from.y as int, d) && cell == step_cell(from, d)
}

/// `cell` is one of the cells that a player at `from` can go to with the
/// opponent at `opponent`: a neighbour of `from` other than the opponent's
/// cell, or, where the opponent stands on a neighbour, a neighbour of the
/// opponent's cell other than `from`.
pub open spec fn is_move(
    conn: Connections,
    from: Vector2<isize>,
    opponent: Vector2<isize>,
    cell: Vector2<isize>,
) -> bool {
    ||| is_neighbour(conn, from, cell) && cell != opponent
    ||| is_neighbour(conn, from, opponent) && is_neighbour(conn, opponent, cell) && cell != from
}

/// The neighbours of a cell in the first `n` directions are the cells one
/// step over an open edge from it in one of these directions.
proof fn lemma_neighbours_upto_are(
    conn: Connections,
    from: Vector2<isize>,
    cell: Vector2<isize>,
    n: nat,
)
    ensures
        neighbours_upto(conn, from, n).contains(cell) <==> exists|d: int|
            0 <= d < n && #[trigger] edge_open(conn, from.x as int, from.y as int, d) && cell
                == step_cell(from, d),
    decreases n,
{
    if n > 0 {
        lemma_neighbours_upto_are(conn, from, cell, (n - 1) as nat);
        lemma_seq_contains_after_push(
            neighbours_upto(conn, from, (n - 1) as nat),
            step_cell(from, n - 1),
            cell,
        );
    }
}

/// The neighbours of a cell are the cells one step over an open edge from it.
pub proof fn lemma_neighbours_are(conn: Connections, from: Vector2<isize>, cell: Vector2<isize>)
    ensures
        neighbours(conn, from).contains(cell) <==> is_neighbour(conn, from, cell),
{
    lemma_neighbours_upto_are(conn, from, cell, 4);
}

/// Leaving a cell out of a list keeps the other cells and nothing else.
proof fn lemma_without_is(
    cells: Seq<Vector2<isize>>,
    skip: Vector2<isize>,
    cell: Vector2<isize>,
    n: nat,
)
    requires
        n <= cells.len(),
    ensures
        without_upto(cells, skip, n).contains(cell) <==> cell != skip && cells.take(
            n as int,
        ).contains(cell),
    decreases n,
{
    if n > 0 {
        lemma_without_is(cells, skip, cell, (n - 1) as nat);
        lemma_seq_contains_after_push(without_upto(cells, skip, (n - 1) as nat), cells[n - 1], cell);
        lemma_seq_contains_after_push(cells.take(n - 1), cells[n - 1], cell);
        assert(cells.take(n as int) =~= cells.take(n - 1).push(cells[n - 1]));
    } else {
        assert(cells.take(0) =~= Seq::empty());
    }
}

/// What a player can go to past the first `n` neighbours are those of them
/// that are not the opponent's cell and, where the opponent stands on one of
/// them, the neighbours of that cell other than the player's own.
proof fn lemma_moves_upto_are(
    conn: Connections,
    cells: Seq<Vector2<isize>>,
    from: Vector2<isize>,
    opponent: Vector2<isize>,
    cell: Vector2<isize>,
    n: nat,
)
    requires
        n <= cells.len(),
    ensures
        moves_upto(conn, cells, from, opponent, n).contains(cell) <==> {
            ||| cells.take(n as int).contains(cell) && cell != opponent
            ||| cells.take(n as int).contains(opponent) && is_neighbour(conn, opponent, cell)
                && cell != from
        },
    decreases n,
{
    if n > 0 {
        let before = moves_upto(conn, cells, from, opponent, (n - 1) as nat);
        let jumps = neighbours(conn, opponent);
        lemma_moves_upto_are(conn, cells, from, opponent, cell, (n - 1) as nat);
        lemma_seq_contains_after_push(cells.take(n - 1), cells[n - 1], cell);
        lemma_seq_contains_after_push(cells.take(n - 1), cells[n - 1], opponent);
        assert(cells.take(n as int) =~= cells.take(n - 1).push(cells[n - 1]));
        if cells[n - 1] == opponent {
            lemma_without_is(jumps, from, cell, jumps.len());
            assert(jumps.take(jumps.len() as int) =~= jumps);
            lemma_neighbours_are(conn, opponent, cell);
            lemma_seq_concat_contains_all_elements(
                before,
                without_upto(jumps, from, jumps.len()),
                cell,
            );
        } else {
            lemma_seq_contains_after_push(before, cells[n - 1], cell);
        }
    } else {
        assert(cells.take(0) =~= Seq::empty());
    }
}

/// The cells that a player can go to are the neighbours other than the
/// opponent's cell and, where the opponent stands on a neighbour, the
/// neighbours of that cell other than the player's own.
pub proof fn lemma_legal_moves_are(
    conn: Connections,
    from: Vector2<isize>,
    opponent: Vector2<isize>,
    cell: Vector2<isize>,
)
    ensures
        legal_moves(conn, from, opponent).contains(cell) <==> is_move(conn, from, opponent, cell),
{
    let cells = neighbours(conn, from);
    lemma_moves_upto_are(conn, cells, from, opponent, cell, cells.len());
    assert(cells.take(cells.len() as int) =~= cells);
    lemma_neighbours_are(conn, from, cell);
    lemma_neighbours_are(conn, from, opponent);
}

} // verus!
