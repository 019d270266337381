//! The grid of cells as a graph, walks on it, and what makes a matrix of
//! labels the matrix of the shortest distances to a row.

use vstd::prelude::*;
use crate::wall_orientation::WallOrientation;

verus! {

/// For each of the 81 cells, whether the edge towards each of the four
/// directions can be crossed.
pub type Connections = [[[bool; 4]; 9]; 9];

/// For each of the 81 cells, a distance to a goal row, or -1.
pub type DistanceMatrix = [[isize; 9]; 9];

/// The direction towards larger `x`.
pub const RIGHT: usize = 0;

/// The direction towards larger `y`.
pub const UP: usize = 1;

/// The direction towards smaller `x`.
pub const LEFT: usize = 2;

/// The direction towards smaller `y`.
pub const DOWN: usize = 3;

/// `(x, y)` is one of the 81 cells.
pub open spec fn cell_in_bounds(x: int, y: int) -> bool {
    0 <= x < 9 && 0 <= y < 9
}

/// `(x, y)` is one of the 64 wall slots.
pub open spec fn wall_in_bounds(x: int, y: int) -> bool {
    0 <= x < 8 && 0 <= y < 8
}

/// Horizontal offset of one step in direction `d`.
pub open spec fn step_x(d: int) -> int {
    if d == 0 {
        1
    } else if d == 2 {
        -1
    } else {
        0
    }
}

/// Vertical offset of one step in direction `d`.
pub open spec fn step_y(d: int) -> int {
    if d == 1 {
        1
    } else if d == 3 {
        -1
    } else {
        0
    }
}

/// The direction that undoes a step in direction `d`.
pub open spec fn opposite(d: int) -> int {
    if d == 0 {
        2
    } else if d == 1 {
        3
    } else if d == 2 {
        0
    } else {
        1
    }
}

/// The record of `conn` for cell `(x, y)` and direction `d`.
pub open spec fn open_at(conn: Connections, x: int, y: int, d: int) -> bool {
    conn[x][y][d]
}

/// One can step from cell `(x, y)` in direction `d` and stay on the board.
pub open spec fn edge_open(conn: Connections, x: int, y: int, d: int) -> bool {
    &&& cell_in_bounds(x, y)
    &&& 0 <= d < 4
    &&& open_at(conn, x, y, d)
    &&& cell_in_bounds(x + step_x(d), y + step_y(d))
}

/// No record of `conn` leads off the board.
pub open spec fn borders_closed(conn: Connections) -> bool {
    forall|x: int, y: int, d: int|
        cell_in_bounds(x, y) && 0 <= d < 4 && #[trigger] open_at(conn, x, y, d) ==> cell_in_bounds(
            x + step_x(d),
            y + step_y(d),
        )
}

/// Every open edge can be crossed both ways.
pub open spec fn symmetric(conn: Connections) -> bool {
    forall|x: int, y: int, d: int| #[trigger]
        edge_open(conn, x, y, d) ==> edge_open(conn, x + step_x(d), y + step_y(d), opposite(d))
}

/// Every edge that is open in `inner` is open in `outer`.
pub open spec fn subgraph(inner: Connections, outer: Connections) -> bool {
    forall|x: int, y: int, d: int| #[trigger]
        edge_open(inner, x, y, d) ==> edge_open(outer, x, y, d)
}

/// There is a walk of exactly `k` steps over open edges from `(x, y)` to a
/// cell of row `row`.
pub open spec fn reaches(conn: Connections, row: int, x: int, y: int, k: nat) -> bool
    decreases k,
{
    if k == 0 {
        cell_in_bounds(x, y) && y == row
    } else {
        ||| edge_open(conn, x, y, 0) && reaches(conn, row, x + 1, y, (k - 1) as nat)
        ||| edge_open(conn, x, y, 1) && reaches(conn, row, x, y + 1, (k - 1) as nat)
        ||| edge_open(conn, x, y, 2) && reaches(conn, row, x - 1, y, (k - 1) as nat)
        ||| edge_open(conn, x, y, 3) && reaches(conn, row, x, y - 1, (k - 1) as nat)
    }
}

/// Some walk over open edges leads from `(x, y)` to row `row`.
pub open spec fn reachable(conn: Connections, row: int, x: int, y: int) -> bool {
    exists|k: nat| reaches(conn, row, x, y, k)
}

/// `v` is the length of a shortest walk from `(x, y)` to row `row`, or -1
/// where there is no walk at all.
pub open spec fn is_shortest_distance(conn: Connections, row: int, x: int, y: int, v: int) -> bool {
    if v == -1 {
        forall|k: nat| !reaches(conn, row, x, y, k)
    } else {
        &&& v >= 0
        &&& reaches(conn, row, x, y, v as nat)
        &&& forall|k: nat| k < v ==> !reaches(conn, row, x, y, k)
    }
}

/// The length of a shortest walk from `(x, y)` to row `row`, or -1 where
/// there is no walk at all.
pub open spec fn shortest_distance(conn: Connections, row: int, x: int, y: int) -> int {
    choose|v: int| is_shortest_distance(conn, row, x, y, v)
}

/// The entry of `m` for cell `(x, y)`.
pub open spec fn dist_at(m: DistanceMatrix, x: int, y: int) -> int {
    m[x][y] as int
}

/// Every entry of `m` is the shortest distance of its cell to row `row`.
pub open spec fn is_distance_matrix(conn: Connections, row: int, m: DistanceMatrix) -> bool {
    forall|x: int, y: int|
        cell_in_bounds(x, y) ==> is_shortest_distance(conn, row, x, y, #[trigger] dist_at(m, x, y))
}

/// The step from a labelled cell `(x, y)` in direction `d` cannot improve the
/// label beyond the edge.
pub open spec fn settled(conn: Connections, m: DistanceMatrix, x: int, y: int, d: int) -> bool {
    edge_open(conn, x, y, d) && dist_at(m, x, y) != -1 ==> {
        &&& dist_at(m, x + step_x(d), y + step_y(d)) != -1
        &&& dist_at(m, x + step_x(d), y + step_y(d)) <= dist_at(m, x, y) + 1
    }
}

/// No step over an open edge can improve a label.
pub open spec fn all_settled(conn: Connections, m: DistanceMatrix) -> bool {
    forall|x: int, y: int, d: int|
        cell_in_bounds(x, y) && 0 <= d < 4 ==> #[trigger] settled(conn, m, x, y, d)
}

/// The label of `(x, y)` is -1 or the length of some walk to row `row`.
pub open spec fn sound_at(conn: Connections, row: int, m: DistanceMatrix, x: int, y: int) -> bool {
    &&& dist_at(m, x, y) >= -1
    &&& dist_at(m, x, y) != -1 ==> reaches(conn, row, x, y, dist_at(m, x, y) as nat)
}

/// Every label is -1 or the length of some walk to row `row`.
pub open spec fn sound(conn: Connections, row: int, m: DistanceMatrix) -> bool {
    forall|x: int, y: int| cell_in_bounds(x, y) ==> #[trigger] sound_at(conn, row, m, x, y)
}

/// The cells of row `row`, and no others, carry the label 0.
pub open spec fn goal_labelled(row: int, m: DistanceMatrix) -> bool {
    forall|x: int, y: int|
        cell_in_bounds(x, y) ==> ((#[trigger] dist_at(m, x, y) == 0) <==> y == row)
}

/// The neighbour of `(x, y)` in direction `d` carries a label one below.
pub open spec fn parent_via(conn: Connections, m: DistanceMatrix, x: int, y: int, d: int) -> bool {
    edge_open(conn, x, y, d) && dist_at(m, x + step_x(d), y + step_y(d)) == dist_at(m, x, y) - 1
}

/// Some neighbour of `(x, y)` over an open edge carries a label one below.
pub open spec fn has_parent(conn: Connections, m: DistanceMatrix, x: int, y: int) -> bool {
    ||| parent_via(conn, m, x, y, 0)
    ||| parent_via(conn, m, x, y, 1)
    ||| parent_via(conn, m, x, y, 2)
    ||| parent_via(conn, m, x, y, 3)
}

/// Every cell with a positive label has a neighbour with the label below.
pub open spec fn supported(conn: Connections, m: DistanceMatrix) -> bool {
    forall|x: int, y: int|
        cell_in_bounds(x, y) && #[trigger] dist_at(m, x, y) > 0 ==> has_parent(conn, m, x, y)
}

/// No label is below `low`.
pub open spec fn labels_from(m: DistanceMatrix, low: int) -> bool {
    forall|x: int, y: int| cell_in_bounds(x, y) ==> #[trigger] dist_at(m, x, y) >= low
}

/// A walk can be extended at its start by one open edge.
pub proof fn lemma_reaches_step(conn: Connections, row: int, x: int, y: int, d: int, k: nat)
    requires
        edge_open(conn, x, y, d),
        reaches(conn, row, x + step_x(d), y + step_y(d), k),
    ensures
        reaches(conn, row, x, y, k + 1),
{
}

/// A walk of at least one step starts with some open edge.
pub proof fn lemma_reaches_first(conn: Connections, row: int, x: int, y: int, k: nat) -> (d: int)
    requires
        k > 0,
        reaches(conn, row, x, y, k),
    ensures
        edge_open(conn, x, y, d),
        reaches(conn, row, x + step_x(d), y + step_y(d), (k - 1) as nat),
{
    if edge_open(conn, x, y, 0) && reaches(conn, row, x + 1, y, (k - 1) as nat) {
        0
    } else if edge_open(conn, x, y, 1) && reaches(conn, row, x, y + 1, (k - 1) as nat) {
        1
    } else if edge_open(conn, x, y, 2) && reaches(conn, row, x - 1, y, (k - 1) as nat) {
        2
    } else {
        3
    }
}

/// A walk in a graph is a walk in every graph that has all its edges.
pub proof fn lemma_reaches_subgraph(
    inner: Connections,
    outer: Connections,
    row: int,
    x: int,
    y: int,
    k: nat,
)
    requires
        subgraph(inner, outer),
        reaches(inner, row, x, y, k),
    ensures
        reaches(outer, row, x, y, k),
    decreases k,
{
    if k > 0 {
        let d = lemma_reaches_first(inner, row, x, y, k);
        lemma_reaches_subgraph(inner, outer, row, x + step_x(d), y + step_y(d), (k - 1) as nat);
        assert(edge_open(outer, x, y, d));
        lemma_reaches_step(outer, row, x, y, d, (k - 1) as nat);
    }
}

/// Where no edge can improve a label and the goal row is labelled 0, every
/// cell with a walk of `k` steps carries a label of at most `k`.
pub proof fn lemma_settled_bounds_walk(
    conn: Connections,
    row: int,
    m: DistanceMatrix,
    x: int,
    y: int,
    k: nat,
)
    requires
        symmetric(conn),
        all_settled(conn, m),
        goal_labelled(row, m),
        labels_from(m, -1),
        reaches(conn, row, x, y, k),
    ensures
        dist_at(m, x, y) != -1,
        dist_at(m, x, y) <= k,
    decreases k,
{
    if k == 0 {
        assert(dist_at(m, x, y) == 0);
    } else {
        let d = lemma_reaches_first(conn, row, x, y, k);
        let nx = x + step_x(d);
        let ny = y + step_y(d);
        lemma_settled_bounds_walk(conn, row, m, nx, ny, (k - 1) as nat);
        assert(edge_open(conn, nx, ny, opposite(d)));
        assert(settled(conn, m, nx, ny, opposite(d)));
        assert(dist_at(m, x, y) >= -1);
    }
}

/// Labels that are lengths of walks, that no edge can improve, and that are
/// 0 on the goal row, are the shortest distances.
pub proof fn lemma_certificate(conn: Connections, row: int, m: DistanceMatrix)
    requires
        symmetric(conn),
        all_settled(conn, m),
        goal_labelled(row, m),
        sound(conn, row, m),
    ensures
        is_distance_matrix(conn, row, m),
{
    assert(labels_from(m, -1)) by {
        assert forall|x: int, y: int| cell_in_bounds(x, y) implies #[trigger] dist_at(m, x, y)
            >= -1 by {
            assert(sound_at(conn, row, m, x, y));
        }
    }
    assert forall|x: int, y: int| cell_in_bounds(x, y) implies is_shortest_distance(
        conn,
        row,
        x,
        y,
        #[trigger] dist_at(m, x, y),
    ) by {
        let v = dist_at(m, x, y);
        assert(sound_at(conn, row, m, x, y));
        assert forall|k: nat| reaches(conn, row, x, y, k) implies v != -1 && v <= k by {
            lemma_settled_bounds_walk(conn, row, m, x, y, k);
        }
    }
}

/// In a matrix of shortest distances every label is at least -1, and is the
/// length of a walk.
pub proof fn lemma_distance_matrix_sound(conn: Connections, row: int, m: DistanceMatrix)
    requires
        is_distance_matrix(conn, row, m),
    ensures
        sound(conn, row, m),
        labels_from(m, -1),
        goal_labelled(row, m),
{
    assert forall|x: int, y: int| cell_in_bounds(x, y) implies #[trigger] sound_at(
        conn,
        row,
        m,
        x,
        y,
    ) by {
        assert(is_shortest_distance(conn, row, x, y, dist_at(m, x, y)));
    }
    assert forall|x: int, y: int| cell_in_bounds(x, y) implies #[trigger] dist_at(m, x, y)
        >= -1 by {
        assert(sound_at(conn, row, m, x, y));
    }
    assert forall|x: int, y: int| cell_in_bounds(x, y) implies ((#[trigger] dist_at(m, x, y) == 0)
        <==> y == row) by {
        assert(is_shortest_distance(conn, row, x, y, dist_at(m, x, y)));
        if y == row {
            assert(reaches(conn, row, x, y, 0));
        }
    }
}

/// In a matrix of shortest distances over an undirected graph no edge can
/// improve a label.
pub proof fn lemma_distance_matrix_settled(conn: Connections, row: int, m: DistanceMatrix)
    requires
        symmetric(conn),
        is_distance_matrix(conn, row, m),
    ensures
        all_settled(conn, m),
{
    assert forall|x: int, y: int, d: int| cell_in_bounds(x, y) && 0 <= d < 4 implies #[trigger] settled(
        conn,
        m,
        x,
        y,
        d,
    ) by {
        if edge_open(conn, x, y, d) && dist_at(m, x, y) != -1 {
            let nx = x + step_x(d);
            let ny = y + step_y(d);
            let v = dist_at(m, x, y);
            assert(is_shortest_distance(conn, row, x, y, v));
            assert(edge_open(conn, nx, ny, opposite(d)));
            lemma_reaches_step(conn, row, nx, ny, opposite(d), v as nat);
            assert(is_shortest_distance(conn, row, nx, ny, dist_at(m, nx, ny)));
        }
    }
}

/// In a matrix of shortest distances every cell off the goal row that has a
/// label has a neighbour whose label is one less.
pub proof fn lemma_distance_matrix_supported(conn: Connections, row: int, m: DistanceMatrix)
    requires
        is_distance_matrix(conn, row, m),
    ensures
        supported(conn, m),
{
    assert forall|x: int, y: int| cell_in_bounds(x, y) && #[trigger] dist_at(m, x, y)
        > 0 implies has_parent(conn, m, x, y) by {
        let v = dist_at(m, x, y);
        assert(is_shortest_distance(conn, row, x, y, v));
        let d = lemma_reaches_first(conn, row, x, y, v as nat);
        let nx = x + step_x(d);
        let ny = y + step_y(d);
        let w = dist_at(m, nx, ny);
        assert(is_shortest_distance(conn, row, nx, ny, w));
        assert(w != -1);
        assert(w <= v - 1);
        lemma_reaches_step(conn, row, x, y, d, w as nat);
        assert(w + 1 >= v);
        assert(parent_via(conn, m, x, y, d));
    }
}

/// Labels that step down to 0 through open edges are lengths of walks.
pub proof fn lemma_supported_walk(conn: Connections, row: int, m: DistanceMatrix, x: int, y: int)
    requires
        supported(conn, m),
        goal_labelled(row, m),
        labels_from(m, -1),
        cell_in_bounds(x, y),
        dist_at(m, x, y) != -1,
    ensures
        reaches(conn, row, x, y, dist_at(m, x, y) as nat),
    decreases dist_at(m, x, y),
{
    let v = dist_at(m, x, y);
    assert(v >= -1);
    if v > 0 {
        assert(has_parent(conn, m, x, y));
        let d = if parent_via(conn, m, x, y, 0) {
            0
        } else if parent_via(conn, m, x, y, 1) {
            1
        } else if parent_via(conn, m, x, y, 2) {
            2
        } else {
            3int
        };
        lemma_supported_walk(conn, row, m, x + step_x(d), y + step_y(d));
        lemma_reaches_step(conn, row, x, y, d, (v - 1) as nat);
    }
}

/// Labels that step down to 0 through open edges, and are 0 on the goal row
/// only, are all lengths of walks.
pub proof fn lemma_supported_sound(conn: Connections, row: int, m: DistanceMatrix)
    requires
        supported(conn, m),
        goal_labelled(row, m),
        labels_from(m, -1),
    ensures
        sound(conn, row, m),
{
    assert forall|x: int, y: int| cell_in_bounds(x, y) implies #[trigger] sound_at(
        conn,
        row,
        m,
        x,
        y,
    ) by {
        assert(dist_at(m, x, y) >= -1);
        if dist_at(m, x, y) != -1 {
            lemma_supported_walk(conn, row, m, x, y);
        }
    }
}

/// A cell has one shortest distance.
pub proof fn lemma_shortest_distance_unique(
    conn: Connections,
    row: int,
    x: int,
    y: int,
    v: int,
    w: int,
)
    requires
        is_shortest_distance(conn, row, x, y, v),
        is_shortest_distance(conn, row, x, y, w),
    ensures
        v == w,
{
}

/// What is a shortest distance of a cell is the shortest distance of the
/// cell.
pub proof fn lemma_shortest_distance(conn: Connections, row: int, x: int, y: int, v: int)
    requires
        is_shortest_distance(conn, row, x, y, v),
    ensures
        v == shortest_distance(conn, row, x, y),
{
    lemma_shortest_distance_unique(conn, row, x, y, v, shortest_distance(conn, row, x, y));
}

/// Two matrices of shortest distances for the same graph and goal row are
/// the same matrix.
pub proof fn lemma_distance_matrix_unique(
    conn: Connections,
    row: int,
    m1: DistanceMatrix,
    m2: DistanceMatrix,
)
    requires
        is_distance_matrix(conn, row, m1),
        is_distance_matrix(conn, row, m2),
    ensures
        m1 == m2,
{
    assert forall|x: int| 0 <= x < 9 implies m1[x] == m2[x] by {
        assert forall|y: int| 0 <= y < 9 implies m1[x][y] == m2[x][y] by {
            assert(is_shortest_distance(conn, row, x, y, dist_at(m1, x, y)));
            assert(is_shortest_distance(conn, row, x, y, dist_at(m2, x, y)));
            lemma_shortest_distance_unique(conn, row, x, y, dist_at(m1, x, y), dist_at(m2, x, y));
        }
        assert(m1[x] =~= m2[x]);
    }
    assert(m1 =~= m2);
}


/// A wall in slot `(wx, wy)` with orientation `o` lies across the edge from
/// cell `(x, y)` in direction `d`.
pub open spec fn crosses(wx: int, wy: int, o: WallOrientation, x: int, y: int, d: int) -> bool {
    match o {
        WallOrientation::Horizontal => {
            ||| d == 1 && y == wy && (x == wx || x == wx + 1)
            ||| d == 3 && y == wy + 1 && (x == wx || x == wx + 1)
        },
        WallOrientation::Vertical => {
            ||| d == 0 && x == wx && (y == wy || y == wy + 1)
            ||| d == 2 && x == wx + 1 && (y == wy || y == wy + 1)
        },
    }
}

/// `conn` is `before` with the edges closed that a wall in slot `(wx, wy)`
/// with orientation `o` lies across.
pub open spec fn severed(
    before: Connections,
    conn: Connections,
    wx: int,
    wy: int,
    o: WallOrientation,
) -> bool {
    forall|x: int, y: int, d: int|
        cell_in_bounds(x, y) && 0 <= d < 4 ==> (#[trigger] edge_open(conn, x, y, d) <==> edge_open(
            before,
            x,
            y,
            d,
        ) && !crosses(wx, wy, o, x, y, d))
}

} // verus!
