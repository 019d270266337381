//! The board: walls, open edges, players, and the distances to the goal rows.

use vstd::prelude::*;
use crate::distance;
use crate::grid::{
    borders_closed, cell_in_bounds, crosses, dist_at, edge_open, is_distance_matrix,
    lemma_distance_matrix_unique, lemma_shortest_distance, open_at, opposite, severed,
    shortest_distance, step_x, step_y, symmetric, wall_in_bounds, Connections, DistanceMatrix, DOWN, LEFT, RIGHT, UP,
};
use crate::vector2::Vector2;
use crate::wall_orientation::WallOrientation;

verus! {

/// What each of the 64 wall slots holds.
pub type Walls = [[Option<WallOrientation>; 8]; 8];

/// The row that a player has to reach: the far one from where the player
/// starts.
pub open spec fn goal_row(player_index: int) -> int {
    if player_index == 0 {
        8
    } else {
        0
    }
}

/// The slot `(wx, wy)` is on the board and holds a wall with orientation `o`.
pub open spec fn wall_is(walls: Walls, wx: int, wy: int, o: WallOrientation) -> bool {
    wall_in_bounds(wx, wy) && walls[wx][wy] == Some(o)
}

/// A wall lies across the edge from cell `(x, y)` in direction `d`.
pub open spec fn path_blocked(walls: Walls, x: int, y: int, d: int) -> bool {
    if d == 0 {
        wall_is(walls, x, y, WallOrientation::Vertical) || wall_is(
            walls,
            x,
            y - 1,
            WallOrientation::Vertical,
        )
    } else if d == 1 {
        wall_is(walls, x, y, WallOrientation::Horizontal) || wall_is(
            walls,
            x - 1,
            y,
            WallOrientation::Horizontal,
        )
    } else if d == 2 {
        wall_is(walls, x - 1, y - 1, WallOrientation::Vertical) || wall_is(
            walls,
            x - 1,
            y,
            WallOrientation::Vertical,
        )
    } else {
        wall_is(walls, x - 1, y - 1, WallOrientation::Horizontal) || wall_is(
            walls,
            x,
            y - 1,
            WallOrientation::Horizontal,
        )
    }
}

/// An edge is open exactly where it stays on the board and no wall lies
/// across it.
pub open spec fn connections_match(walls: Walls, conn: Connections) -> bool {
    forall|x: int, y: int, d: int|
        cell_in_bounds(x, y) && 0 <= d < 4 ==> (#[trigger] open_at(conn, x, y, d) <==> cell_in_bounds(
            x + step_x(d),
            y + step_y(d),
        ) && !path_blocked(walls, x, y, d))
}

/// Connections that follow the walls are closed at the borders and can be
/// crossed both ways.
pub proof fn lemma_connections_match_valid(walls: Walls, conn: Connections)
    requires
        connections_match(walls, conn),
    ensures
        borders_closed(conn),
        symmetric(conn),
{
    assert forall|x: int, y: int, d: int| #[trigger] edge_open(conn, x, y, d) implies edge_open(
        conn,
        x + step_x(d),
        y + step_y(d),
        opposite(d),
    ) by {
        assert(open_at(conn, x, y, d));
        let nx = x + step_x(d);
        let ny = y + step_y(d);
        assert(open_at(conn, nx, ny, opposite(d)) <==> cell_in_bounds(
            nx + step_x(opposite(d)),
            ny + step_y(opposite(d)),
        ) && !path_blocked(walls, nx, ny, opposite(d)));
    }
}

/// The orientation of a wall that can lie across an edge towards
/// `direction`.
pub open spec fn blocking_orientation(direction: Vector2<isize>) -> WallOrientation {
    if direction.y == 0 {
        WallOrientation::Vertical
    } else {
        WallOrientation::Horizontal
    }
}

/// The two wall slots from which a wall can lie across the edge from `cell`
/// towards `direction`.
pub open spec fn wall_points(cell: Vector2<isize>, direction: Vector2<isize>) -> (
    (int, int),
    (int, int),
) {
    if direction.x == 1 {
        ((cell.x as int, cell.y as int), (cell.x as int, cell.y - 1))
    } else if direction.x == -1 {
        ((cell.x - 1, cell.y - 1), (cell.x - 1, cell.y as int))
    } else if direction.y == 1 {
        ((cell.x as int, cell.y as int), (cell.x - 1, cell.y as int))
    } else {
        ((cell.x - 1, cell.y - 1), (cell.x as int, cell.y - 1))
    }
}

/// With one more wall, in a slot that was empty, an edge is blocked exactly
/// where it was blocked before or the new wall lies across it.
pub proof fn lemma_path_blocked_after(
    before: Walls,
    after: Walls,
    wx: int,
    wy: int,
    o: WallOrientation,
    x: int,
    y: int,
    d: int,
)
    requires
        wall_in_bounds(wx, wy),
        before[wx][wy] is None,
        after[wx][wy] == Some(o),
        forall|a: int, b: int|
            wall_in_bounds(a, b) && !(a == wx && b == wy) ==> #[trigger] after[a][b]
                == before[a][b],
        0 <= d < 4,
    ensures
        path_blocked(after, x, y, d) <==> path_blocked(before, x, y, d) || crosses(
            wx,
            wy,
            o,
            x,
            y,
            d,
        ),
{
}

/// The matrices of a well-formed board, which are brought up to date wall by
/// wall, are the matrices that a search from scratch gives: whatever holds
/// the shortest distances for the board's connections is the matrix that the
/// board holds.
pub proof fn lemma_matrices_are_fresh(
    board_state: BoardState,
    player_index: int,
    fresh: DistanceMatrix,
)
    requires
        board_state.well_formed(),
        0 <= player_index < 2,
        is_distance_matrix(board_state.cell_connections, goal_row(player_index), fresh),
    ensures
        board_state.distance_matrices[player_index] == fresh,
{
    lemma_distance_matrix_unique(
        board_state.cell_connections,
        goal_row(player_index),
        board_state.distance_matrices[player_index],
        fresh,
    );
}

/// The state of a game: the walls, the edges that they leave open, the
/// players, and each player's distances to the goal row.
#[derive(Copy, Clone)]
pub struct BoardState {
    pub walls: Walls,
    pub cell_connections: Connections,
    pub player_positions: [Vector2<isize>; 2],
    pub player_wall_counts: [usize; 2],
    pub player_walls: [[isize; 8]; 8],
    pub distance_matrices: [DistanceMatrix; 2],
}

/// Closes the record for the step from cell `(x, y)` in direction `d`.
fn close_edge(conn: &mut Connections, x: usize, y: usize, d: usize)
    requires
        x < 9,
        y < 9,
        d < 4,
    ensures
        forall|a: int, b: int, k: int|
            cell_in_bounds(a, b) && 0 <= k < 4 ==> (#[trigger] open_at(*final(conn), a, b, k)
                <==> open_at(*old(conn), a, b, k) && !(a == x && b == y && k == d)),
{
    conn[x][y][d] = false;
}

impl BoardState {
    /// The place of player `player_index`, as a pair of mathematical integers.
    pub open spec fn position(&self, player_index: int) -> (int, int) {
        (self.player_positions[player_index].x as int, self.player_positions[player_index].y as int)
    }

    /// The connections follow the walls, both players stand on the board, and
    /// each player's matrix holds the shortest distances to that player's
    /// goal row.
    pub open spec fn well_formed(&self) -> bool {
        &&& connections_match(self.walls, self.cell_connections)
        &&& cell_in_bounds(self.position(0).0, self.position(0).1)
        &&& cell_in_bounds(self.position(1).0, self.position(1).1)
        &&& is_distance_matrix(self.cell_connections, 8, self.distance_matrices[0])
        &&& is_distance_matrix(self.cell_connections, 0, self.distance_matrices[1])
    }

    /// The board is as at the start of a game: well-formed, without walls,
    /// the players in the middle of the bottom and of the top row, ten walls
    /// each.
    pub open spec fn is_start_layout(&self) -> bool {
        &&& self.well_formed()
        &&& forall|x: int, y: int|
            wall_in_bounds(x, y) ==> (#[trigger] self.walls[x][y]) is None
        &&& forall|x: int, y: int|
            wall_in_bounds(x, y) ==> #[trigger] self.player_walls[x][y] == -1
        &&& self.position(0) == (4int, 0int)
        &&& self.position(1) == (4int, 8int)
        &&& self.player_wall_counts[0] == 10
        &&& self.player_wall_counts[1] == 10
    }

    /// The board at the start of a game.
    pub fn new() -> (board_state: Self)
        ensures
            board_state.is_start_layout(),
    {
        let mut board_state = BoardState {
            walls: [[None; 8]; 8],
            cell_connections: [[[true; 4]; 9]; 9],
            player_positions: [Vector2::new(4, 0), Vector2::new(4, 8)],
            player_wall_counts: [10; 2],
            player_walls: [[-1; 8]; 8],
            distance_matrices: [[[-1; 9]; 9]; 2],
        };
        let mut connections: Connections = board_state.cell_connections;
        assert forall|a: int, b: int, k: int| cell_in_bounds(a, b) && 0 <= k < 4 implies #[trigger] open_at(
            connections,
            a,
            b,
            k,
        ) by {
            assert(connections[a][b][k]);
        }
        let mut x: usize = 0;
        while x < 9
            invariant
                x <= 9,
                forall|a: int, b: int, k: int|
                    cell_in_bounds(a, b) && 0 <= k < 4 ==> (#[trigger] open_at(connections, a, b, k)
                        <==> !(a < x && ((b == 8 && k == 1) || (b == 0 && k == 3)))),
            decreases 9 - x,
        {
            // The top row has nothing above it, the bottom row nothing below.
            close_edge(&mut connections, x, 8, UP);
            close_edge(&mut connections, x, 0, DOWN);
            x += 1;
        }
        let mut y: usize = 0;
        while y < 9
            invariant
                y <= 9,
                forall|a: int, b: int, k: int|
                    cell_in_bounds(a, b) && 0 <= k < 4 ==> (#[trigger] open_at(connections, a, b, k)
                        <==> !((b == 8 && k == 1) || (b == 0 && k == 3) || (b < y && ((a == 0 && k
                        == 2) || (a == 8 && k == 0))))),
            decreases 9 - y,
        {
            // The left column has nothing to its left, the right column
            // nothing to its right.
            close_edge(&mut connections, 0, y, LEFT);
            close_edge(&mut connections, 8, y, RIGHT);
            y += 1;
        }
        board_state.cell_connections = connections;
        proof {
            assert forall|a: int, b: int| wall_in_bounds(a, b) implies board_state.walls[a][b]
                is None by {}
            assert forall|a: int, b: int, k: int| cell_in_bounds(a, b) && 0 <= k < 4 implies !path_blocked(
                board_state.walls,
                a,
                b,
                k,
            ) by {}
            lemma_connections_match_valid(board_state.walls, board_state.cell_connections);
        }
        board_state.distance_matrices[0] = board_state.calculate_distance_matrix(8);
        board_state.distance_matrices[1] = board_state.calculate_distance_matrix(0);
        board_state
    }

    /// What the wall slot at `position` holds.
    pub fn get_wall(&self, position: Vector2<isize>) -> (wall: Option<WallOrientation>)
        requires
            wall_in_bounds(position.x as int, position.y as int),
        ensures
            wall == self.walls[position.x as int][position.y as int],
    {
        self.walls[position.x as usize][position.y as usize]
    }

    /// Places a wall in the empty slot at `position`: closes the edges that
    /// it lies across and brings both distance matrices up to date.
    pub fn set_wall(&mut self, position: Vector2<isize>, value: WallOrientation)
        requires
            old(self).well_formed(),
            wall_in_bounds(position.x as int, position.y as int),
            old(self).walls[position.x as int][position.y as int] is None,
        ensures
            final(self).well_formed(),
            final(self).walls[position.x as int][position.y as int] == Some(value),
            forall|x: int, y: int|
                wall_in_bounds(x, y) && !(x == position.x && y == position.y)
                    ==> #[trigger] final(self).walls[x][y] == old(self).walls[x][y],
            severed(
                old(self).cell_connections,
                final(self).cell_connections,
                position.x as int,
                position.y as int,
                value,
            ),
            final(self).player_positions == old(self).player_positions,
            final(self).player_wall_counts == old(self).player_wall_counts,
            final(self).player_walls == old(self).player_walls,
    {
        let x = position.x as usize;
        let y = position.y as usize;
        let ghost before = *self;
        self.walls[x][y] = Some(value);
        let mut connections: Connections = self.cell_connections;
        match value {
            WallOrientation::Horizontal => {
                close_edge(&mut connections, x, y, UP);
                close_edge(&mut connections, x, y + 1, DOWN);
                close_edge(&mut connections, x + 1, y, UP);
                close_edge(&mut connections, x + 1, y + 1, DOWN);
            },
            WallOrientation::Vertical => {
                close_edge(&mut connections, x, y, RIGHT);
                close_edge(&mut connections, x + 1, y, LEFT);
                close_edge(&mut connections, x, y + 1, RIGHT);
                close_edge(&mut connections, x + 1, y + 1, LEFT);
            },
        }
        self.cell_connections = connections;
        proof {
            let wx = position.x as int;
            let wy = position.y as int;
            assert forall|a: int, b: int, k: int| cell_in_bounds(a, b) && 0 <= k < 4 implies (
            #[trigger] open_at(connections, a, b, k) <==> open_at(
                before.cell_connections,
                a,
                b,
                k,
            ) && !crosses(wx, wy, value, a, b, k)) by {}
            assert forall|a: int, b: int, k: int| cell_in_bounds(a, b) && 0 <= k < 4 implies (
            path_blocked(self.walls, a, b, k) <==> path_blocked(before.walls, a, b, k) || crosses(
                wx,
                wy,
                value,
                a,
                b,
                k,
            )) by {
                lemma_path_blocked_after(before.walls, self.walls, wx, wy, value, a, b, k);
            }
            assert forall|a: int, b: int, k: int| cell_in_bounds(a, b) && 0 <= k < 4 implies (
            #[trigger] open_at(connections, a, b, k) <==> cell_in_bounds(
                a + step_x(k),
                b + step_y(k),
            ) && !path_blocked(self.walls, a, b, k)) by {
                assert(open_at(before.cell_connections, a, b, k) <==> cell_in_bounds(
                    a + step_x(k),
                    b + step_y(k),
                ) && !path_blocked(before.walls, a, b, k));
            }
            lemma_connections_match_valid(before.walls, before.cell_connections);
            lemma_connections_match_valid(self.walls, self.cell_connections);
            assert forall|a: int, b: int, k: int| cell_in_bounds(a, b) && 0 <= k < 4 implies (
            #[trigger] edge_open(connections, a, b, k) <==> edge_open(
                before.cell_connections,
                a,
                b,
                k,
            ) && !crosses(wx, wy, value, a, b, k)) by {
                assert(open_at(connections, a, b, k) <==> open_at(
                    before.cell_connections,
                    a,
                    b,
                    k,
                ) && !crosses(wx, wy, value, a, b, k));
            }
        }
        self.update_distance_matrix(0, position, Ghost(before.cell_connections));
        self.update_distance_matrix(1, position, Ghost(before.cell_connections));
    }

    /// Records that the wall in the slot at `position` belongs to player
    /// `player_index`.
    pub fn set_player_wall(&mut self, position: Vector2<isize>, player_index: usize)
        requires
            wall_in_bounds(position.x as int, position.y as int),
            player_index < 2,
        ensures
            final(self).player_walls[position.x as int][position.y as int] == player_index,
            forall|x: int, y: int|
                wall_in_bounds(x, y) && !(x == position.x && y == position.y)
                    ==> #[trigger] final(self).player_walls[x][y] == old(self).player_walls[x][y],
            final(self).walls == old(self).walls,
            final(self).cell_connections == old(self).cell_connections,
            final(self).player_positions == old(self).player_positions,
            final(self).player_wall_counts == old(self).player_wall_counts,
            final(self).distance_matrices == old(self).distance_matrices,
    {
        self.player_walls[position.x as usize][position.y as usize] = player_index as isize;
    }

    /// The cell on which player `player_index` stands.
    pub fn get_player_position(&self, player_index: usize) -> (position: Vector2<isize>)
        requires
            player_index < 2,
        ensures
            position == self.player_positions[player_index as int],
    {
        self.player_positions[player_index]
    }

    /// Puts player `player_index` on the cell at `position`.
    pub fn set_player_position(&mut self, player_index: usize, position: Vector2<isize>)
        requires
            player_index < 2,
        ensures
            final(self).player_positions[player_index as int] == position,
            final(self).player_positions[1 - player_index as int] == old(self).player_positions[1 - player_index as int],
            final(self).walls == old(self).walls,
            final(self).cell_connections == old(self).cell_connections,
            final(self).player_wall_counts == old(self).player_wall_counts,
            final(self).player_walls == old(self).player_walls,
            final(self).distance_matrices == old(self).distance_matrices,
            old(self).well_formed() && cell_in_bounds(position.x as int, position.y as int)
                ==> final(self).well_formed(),
    {
        self.player_positions[player_index] = position;
    }

    /// How many walls player `player_index` has left.
    pub fn get_player_wall_count(&self, player_index: usize) -> (count: usize)
        requires
            player_index < 2,
        ensures
            count == self.player_wall_counts[player_index as int],
    {
        self.player_wall_counts[player_index]
    }

    /// Sets how many walls player `player_index` has left.
    pub fn set_player_wall_count(&mut self, player_index: usize, value: usize)
        requires
            player_index < 2,
        ensures
            final(self).player_wall_counts[player_index as int] == value,
            final(self).player_wall_counts[1 - player_index as int] == old(self).player_wall_counts[1 - player_index as int],
            final(self).walls == old(self).walls,
            final(self).cell_connections == old(self).cell_connections,
            final(self).player_positions == old(self).player_positions,
            final(self).player_walls == old(self).player_walls,
            final(self).distance_matrices == old(self).distance_matrices,
            old(self).well_formed() ==> final(self).well_formed(),
    {
        self.player_wall_counts[player_index] = value;
    }

    /// Whether a wall lies across the edge from `cell` towards `direction`,
    /// one of the four unit steps.
    pub fn is_path_blocked(&self, cell: Vector2<isize>, direction: Vector2<isize>) -> (blocked:
        bool)
        requires
            isize::MIN < cell.x,
            isize::MIN < cell.y,
        ensures
            blocked == (wall_is(
                self.walls,
                wall_points(cell, direction).0.0,
                wall_points(cell, direction).0.1,
                blocking_orientation(direction),
            ) || wall_is(
                self.walls,
                wall_points(cell, direction).1.0,
                wall_points(cell, direction).1.1,
                blocking_orientation(direction),
            )),
            forall|d: int|
                0 <= d < 4 && direction.x == step_x(d) && direction.y == step_y(d) ==> blocked
                    == path_blocked(self.walls, cell.x as int, cell.y as int, d),
    {
        let orientation = if direction.y == 0 {
            WallOrientation::Vertical
        } else {
            WallOrientation::Horizontal
        };
        let points = BoardState::get_wall_points(cell, direction);
        let mut blocked = false;
        let mut i: usize = 0;
        while i < 2
            invariant
                i <= 2,
                points[0].x == wall_points(cell, direction).0.0,
                points[0].y == wall_points(cell, direction).0.1,
                points[1].x == wall_points(cell, direction).1.0,
                points[1].y == wall_points(cell, direction).1.1,
                orientation == blocking_orientation(direction),
                blocked == ((i > 0 && wall_is(
                    self.walls,
                    points[0].x as int,
                    points[0].y as int,
                    orientation,
                )) || (i > 1 && wall_is(
                    self.walls,
                    points[1].x as int,
                    points[1].y as int,
                    orientation,
                ))),
            decreases 2 - i,
        {
            let point = points[i];
            if BoardState::is_wall_index_in_bounds(point) {
                match self.get_wall(point) {
                    Some(wall) => {
                        if wall == orientation {
                            blocked = true;
                        }
                    },
                    None => {},
                }
            }
            i += 1;
        }
        blocked
    }

    /// The two wall slots from which a wall can lie across the edge from
    /// `cell` towards `direction`.
    pub fn get_wall_points(cell: Vector2<isize>, direction: Vector2<isize>) -> (points: [Vector2<
        isize,
    >; 2])
        requires
            isize::MIN < cell.x,
            isize::MIN < cell.y,
        ensures
            points[0].x == wall_points(cell, direction).0.0,
            points[0].y == wall_points(cell, direction).0.1,
            points[1].x == wall_points(cell, direction).1.0,
            points[1].y == wall_points(cell, direction).1.1,
    {
        if direction.x == 1 {
            [Vector2::new(cell.x, cell.y), Vector2::new(cell.x, cell.y - 1)]
        } else if direction.x == -1 {
            [Vector2::new(cell.x - 1, cell.y - 1), Vector2::new(cell.x - 1, cell.y)]
        } else if direction.y == 1 {
            [Vector2::new(cell.x, cell.y), Vector2::new(cell.x - 1, cell.y)]
        } else {
            [Vector2::new(cell.x - 1, cell.y - 1), Vector2::new(cell.x, cell.y - 1)]
        }
    }

    /// Whether `wall` is one of the 64 wall slots.
    pub fn is_wall_index_in_bounds(wall: Vector2<isize>) -> (in_bounds: bool)
        ensures
            in_bounds == wall_in_bounds(wall.x as int, wall.y as int),
    {
        wall.x >= 0 && wall.y >= 0 && wall.x < 8 && wall.y < 8
    }

    /// Whether `cell` is one of the 81 cells.
    pub fn is_cell_index_in_bounds(cell: Vector2<isize>) -> (in_bounds: bool)
        ensures
            in_bounds == cell_in_bounds(cell.x as int, cell.y as int),
    {
        cell.x >= 0 && cell.y >= 0 && cell.x < 9 && cell.y < 9
    }

    /// The distance of player `player_index` to that player's goal row, as
    /// the matrix holds it.
    pub open spec fn player_distance(&self, player_index: int) -> int {
        dist_at(
            self.distance_matrices[player_index],
            self.position(player_index).0,
            self.position(player_index).1,
        )
    }

    /// The length of the shortest way of player `player_index` to the goal
    /// row, or -1 if there is none.
    pub fn get_player_distance(&self, player_index: usize) -> (distance: isize)
        requires
            player_index < 2,
            cell_in_bounds(self.position(player_index as int).0, self.position(player_index as int).1),
        ensures
            distance == self.player_distance(player_index as int),
            self.well_formed() ==> distance == shortest_distance(
                self.cell_connections,
                goal_row(player_index as int),
                self.position(player_index as int).0,
                self.position(player_index as int).1,
            ),
    {
        proof {
            if self.well_formed() {
                lemma_shortest_distance(
                    self.cell_connections,
                    goal_row(player_index as int),
                    self.position(player_index as int).0,
                    self.position(player_index as int).1,
                    self.player_distance(player_index as int),
                );
            }
        }
        let player_position = self.get_player_position(player_index);
        self.distance_matrices[player_index][player_position.x as usize][player_position.y as usize]
    }

    /// The distances of all cells to the goal row of player `player_index`.
    pub fn get_distance_matrix(&self, player_index: usize) -> (matrix: DistanceMatrix)
        requires
            player_index < 2,
        ensures
            matrix == self.distance_matrices[player_index as int],
    {
        self.distance_matrices[player_index]
    }

    /// Brings the matrix of player `player_index` up to date after the wall
    /// in the slot at `new_wall` was placed. `before` is the graph without
    /// that wall.
    fn update_distance_matrix(
        &mut self,
        player_index: usize,
        new_wall: Vector2<isize>,
        Ghost(before): Ghost<Connections>,
    )
        requires
            player_index < 2,
            wall_in_bounds(new_wall.x as int, new_wall.y as int),
            old(self).walls[new_wall.x as int][new_wall.y as int] is Some,
            borders_closed(old(self).cell_connections),
            symmetric(old(self).cell_connections),
            symmetric(before),
            severed(
                before,
                old(self).cell_connections,
                new_wall.x as int,
                new_wall.y as int,
                old(self).walls[new_wall.x as int][new_wall.y as int]->0,
            ),
            is_distance_matrix(
                before,
                goal_row(player_index as int),
                old(self).distance_matrices[player_index as int],
            ),
        ensures
            is_distance_matrix(
                final(self).cell_connections,
                goal_row(player_index as int),
                final(self).distance_matrices[player_index as int],
            ),
            final(self).distance_matrices[1 - player_index as int] == old(self).distance_matrices[1 - player_index as int],
            final(self).walls == old(self).walls,
            final(self).cell_connections == old(self).cell_connections,
            final(self).player_positions == old(self).player_positions,
            final(self).player_wall_counts == old(self).player_wall_counts,
            final(self).player_walls == old(self).player_walls,
    {
        match self.walls[new_wall.x as usize][new_wall.y as usize] {
            Some(orientation) => {
                let row: usize = if player_index == 0 {
                    8
                } else {
                    0
                };
                let mut matrix: DistanceMatrix = self.distance_matrices[player_index];
                distance::update_distance_matrix(
                    &self.cell_connections,
                    row,
                    &mut matrix,
                    new_wall,
                    orientation,
                    Ghost(before),
                );
                self.distance_matrices[player_index] = matrix;
            },
            None => {},
        }
    }

    /// The shortest distance of every cell to row `row`, computed from
    /// scratch.
    pub fn calculate_distance_matrix(&self, row: usize) -> (matrix: DistanceMatrix)
        requires
            row < 9,
            borders_closed(self.cell_connections),
            symmetric(self.cell_connections),
        ensures
            is_distance_matrix(self.cell_connections, row as int, matrix),
            self.well_formed() && row == 8 ==> matrix == self.distance_matrices[0],
            self.well_formed() && row == 0 ==> matrix == self.distance_matrices[1],
    {
        let matrix = distance::calculate_distance_matrix(&self.cell_connections, row);
        proof {
            if self.well_formed() && row == 8 {
                lemma_distance_matrix_unique(
                    self.cell_connections,
                    8,
                    matrix,
                    self.distance_matrices[0],
                );
            }
            if self.well_formed() && row == 0 {
                lemma_distance_matrix_unique(
                    self.cell_connections,
                    0,
                    matrix,
                    self.distance_matrices[1],
                );
            }
        }
        matrix
    }
}

} // verus!
