//! Shortest distances to a goal row: computed from scratch by a breadth-first
//! search, and brought up to date after a wall by clearing and refilling the
//! labels that the wall may have changed.

use vstd::prelude::*;
use std::collections::VecDeque;
use crate::grid::{
    borders_closed, cell_in_bounds, crosses, dist_at, edge_open, goal_labelled, has_parent,
    is_distance_matrix, labels_from, lemma_certificate, lemma_distance_matrix_settled,
    lemma_distance_matrix_sound, lemma_distance_matrix_supported, lemma_reaches_step,
    lemma_supported_sound, open_at, opposite, parent_via, settled, severed, sound, sound_at,
    step_x, step_y, supported, symmetric, wall_in_bounds, Connections, DistanceMatrix, LEFT, RIGHT,
    UP,
};
use crate::tally::{
    count_unlabelled, differ_at, lemma_potential_nonnegative, lemma_supported_bounded,
    lemma_tally_count, lemma_tally_update, potential, Weight,
};
use crate::vector2::Vector2;
use crate::wall_orientation::WallOrientation;

verus! {

/// The offset of one step in direction `i`.
pub fn direction(i: usize) -> (v: Vector2<isize>)
    requires
        i < 4,
    ensures
        v.x == step_x(i as int),
        v.y == step_y(i as int),
{
    if i == RIGHT {
        Vector2::new(1, 0)
    } else if i == UP {
        Vector2::new(0, 1)
    } else if i == LEFT {
        Vector2::new(-1, 0)
    } else {
        Vector2::new(0, -1)
    }
}

/// The shortest distance of every cell to row `row`, by a breadth-first
/// search that starts from all cells of that row at once.
pub fn calculate_distance_matrix(conn: &Connections, row: usize) -> (matrix: DistanceMatrix)
    requires
        row < 9,
        borders_closed(*conn),
        symmetric(*conn),
    ensures
        is_distance_matrix(*conn, row as int, matrix),
{
    let mut matrix: DistanceMatrix = [[-1; 9]; 9];
    let mut queue: VecDeque<Vector2<isize>> = VecDeque::new();
    let ghost blank = matrix;
    proof {
        assert forall|x: int, y: int| cell_in_bounds(x, y) implies #[trigger] dist_at(blank, x, y)
            == -1 by {
            assert(blank[x][y] == -1);
        }
    }
    // Every cell of the row has the distance 0, and the search starts there.
    let mut x: usize = 0;
    while x < 9
        invariant
            x <= 9,
            row < 9,
            queue@.len() == x,
            forall|j: int|
                0 <= j < x ==> (#[trigger] queue@[j]).x == j && queue@[j].y == row as int,
            forall|a: int, b: int|
                cell_in_bounds(a, b) ==> #[trigger] dist_at(matrix, a, b) == if a < x && b
                    == row as int {
                    0int
                } else {
                    -1
                },
        decreases 9 - x,
    {
        let cell: Vector2<isize> = Vector2::new(x as isize, row as isize);
        let ghost before = matrix;
        set_label(&mut matrix, cell, 0);
        queue.push_back(cell);
        proof {
            assert forall|a: int, b: int| cell_in_bounds(a, b) implies #[trigger] dist_at(
                matrix,
                a,
                b,
            ) == if a < x + 1 && b == row as int {
                0int
            } else {
                -1
            } by {
                if !(a == x && b == row) {
                    assert(dist_at(matrix, a, b) == dist_at(before, a, b));
                }
            }
        }
        x += 1;
    }
    proof {
        let q = queue@;
        lemma_tally_count(matrix, Weight::Unlabelled, 81);
        assert forall|a: int, b: int| cell_in_bounds(a, b) implies #[trigger] sound_at(
            *conn,
            row as int,
            matrix,
            a,
            b,
        ) by {
            assert(dist_at(matrix, a, b) == 0 <==> b == row as int);
        }
        assert forall|a: int, b: int, d: int|
            cell_in_bounds(a, b) && 0 <= d < 4 implies #[trigger] relax_ok(
            *conn,
            matrix,
            q,
            0,
            0,
            4,
            a,
            b,
            d,
        ) by {
            if dist_at(matrix, a, b) != -1 {
                assert(q[a].x == a && q[a].y == b);
            }
        }
        assert forall|a: int, b: int| cell_in_bounds(a, b) implies #[trigger] dist_at(
            matrix,
            a,
            b,
        ) + count_unlabelled(matrix) <= 161 by {}
    }
    // The cells leave the queue in the order of their distances: `level` is
    // the distance of the cell that left it last.
    let ghost mut level: int = 0;
    while queue.len() > 0
        invariant
            spreading(*conn, row as int, matrix, queue@),
            all_relax_ok(*conn, matrix, queue@, 0, 0, 4),
            level >= 0,
            level_ok(matrix, queue@, level),
        decreases count_unlabelled(matrix), queue@.len(),
    {
        let ghost waiting = queue@;
        let ghost unlabelled = count_unlabelled(matrix);
        let cell = queue.pop_front().unwrap();
        let ghost rest = queue@;
        proof {
            assert(cell == waiting[0]);
            lemma_pop_in_bounds(waiting);
            lemma_relax_ok_pop(*conn, matrix, waiting, 0);
            lemma_level_pop(matrix, waiting, level);
            lemma_tally_count(matrix, Weight::Unlabelled, 81);
            level = dist_at(matrix, cell.x as int, cell.y as int);
        }
        let mut i: usize = 0;
        while i < 4
            invariant
                i <= 4,
                spreading(*conn, row as int, matrix, queue@),
                cell_in_bounds(cell.x as int, cell.y as int),
                dist_at(matrix, cell.x as int, cell.y as int) == level,
                level >= 0,
                level_ok(matrix, queue@, level),
                all_relax_ok(*conn, matrix, queue@, cell.x as int, cell.y as int, i as int),
                (count_unlabelled(matrix) == unlabelled && queue@ == rest) || count_unlabelled(
                    matrix,
                ) < unlabelled,
            decreases 4 - i,
        {
            visit(conn, row, &mut matrix, &mut queue, cell, i);
            i += 1;
        }
        proof {
            lemma_relax_ok_done(*conn, matrix, queue@, cell.x as int, cell.y as int);
            lemma_tally_count(matrix, Weight::Unlabelled, 81);
        }
    }
    proof {
        lemma_all_settled(*conn, matrix, queue@);
        lemma_certificate(*conn, row as int, matrix);
    }
    matrix
}

/// Brings a matrix of shortest distances up to date after a wall was placed:
/// clears the labels that may have rested on an edge that the wall closed,
/// and spreads labels into the cleared cells again from their neighbours.
/// `before` is the graph that the matrix was computed for.
pub(crate) fn update_distance_matrix(
    conn: &Connections,
    row: usize,
    matrix: &mut DistanceMatrix,
    new_wall: Vector2<isize>,
    orientation: WallOrientation,
    Ghost(before): Ghost<Connections>,
)
    requires
        row < 9,
        wall_in_bounds(new_wall.x as int, new_wall.y as int),
        borders_closed(*conn),
        symmetric(*conn),
        symmetric(before),
        severed(before, *conn, new_wall.x as int, new_wall.y as int, orientation),
        is_distance_matrix(before, row as int, *old(matrix)),
    ensures
        is_distance_matrix(*conn, row as int, *final(matrix)),
{
    let ghost stale = *matrix;
    let ghost wx = new_wall.x as int;
    let ghost wy = new_wall.y as int;
    // The four cells that touch the slot of the wall.
    let bottom_left = Vector2::new(new_wall.x, new_wall.y);
    let bottom_right = Vector2::new(new_wall.x + 1, new_wall.y);
    let top_left = Vector2::new(new_wall.x, new_wall.y + 1);
    let top_right = Vector2::new(new_wall.x + 1, new_wall.y + 1);

    // Of two cells across the wall from one another, the one with the larger
    // label may have had it over the edge that is now closed.
    let mut downstream: VecDeque<Vector2<isize>> = VecDeque::new();
    match orientation {
        WallOrientation::Horizontal => {
            seed_pair(matrix, &mut downstream, bottom_left, top_left);
            seed_pair(matrix, &mut downstream, bottom_right, top_right);
        },
        WallOrientation::Vertical => {
            seed_pair(matrix, &mut downstream, top_left, top_right);
            seed_pair(matrix, &mut downstream, bottom_left, bottom_right);
        },
    }
    proof {
        lemma_distance_matrix_sound(before, row as int, stale);
        lemma_distance_matrix_supported(before, row as int, stale);
        assert forall|x: int, y: int| cell_in_bounds(x, y) implies #[trigger] support_ok(
            *conn,
            stale,
            downstream@,
            0,
            0,
            4,
            0,
            x,
            y,
        ) by {
            if dist_at(stale, x, y) > 0 {
                assert(has_parent(before, stale, x, y));
                lemma_parent_or_seed(before, *conn, stale, wx, wy, orientation, x, y, 0);
                lemma_parent_or_seed(before, *conn, stale, wx, wy, orientation, x, y, 1);
                lemma_parent_or_seed(before, *conn, stale, wx, wy, orientation, x, y, 2);
                lemma_parent_or_seed(before, *conn, stale, wx, wy, orientation, x, y, 3);
                assert(queued(downstream@, x, y) || !queued(downstream@, x, y));
            }
        }
    }
    // Clear what may be out of date, and fill it in again from what is not.
    proof {
        assert(cleared(stale, stale));
    }
    let upstream = clear_stale(conn, row, matrix, downstream);
    proof {
        let cleared = *matrix;
        lemma_supported_sound(*conn, row as int, cleared);
        lemma_supported_bounded(before, stale);
        lemma_distance_matrix_settled(before, row as int, stale);
        lemma_tally_count(cleared, Weight::Unlabelled, 81);
        assert forall|x: int, y: int| cell_in_bounds(x, y) implies #[trigger] dist_at(
            cleared,
            x,
            y,
        ) + count_unlabelled(cleared) <= 161 by {
            assert(dist_at(stale, x, y) <= 80);
        }
        assert forall|x: int, y: int, d: int|
            cell_in_bounds(x, y) && 0 <= d < 4 implies #[trigger] relax_ok(
            *conn,
            cleared,
            upstream@,
            0,
            0,
            4,
            x,
            y,
            d,
        ) by {
            if edge_open(*conn, x, y, d) && dist_at(cleared, x, y) != -1 {
                let tx = x + step_x(d);
                let ty = y + step_y(d);
                assert(edge_open(before, x, y, d));
                assert(settled(before, stale, x, y, d));
                assert(dist_at(cleared, x, y) == dist_at(stale, x, y));
                assert(dist_at(cleared, tx, ty) == dist_at(stale, tx, ty) || dist_at(
                    cleared,
                    tx,
                    ty,
                ) == -1);
                if dist_at(cleared, tx, ty) == -1 {
                    assert(edge_open(*conn, tx, ty, opposite(d)));
                    assert(frontier_ok(
                        *conn,
                        stale,
                        cleared,
                        upstream@,
                        Seq::empty(),
                        0,
                        0,
                        4,
                        tx,
                        ty,
                        opposite(d),
                    ));
                }
            }
        }
    }
    propagate(conn, row, matrix, upstream);
}

/// The cell `(x, y)` occurs in the queue.
spec fn queued(q: Seq<Vector2<isize>>, x: int, y: int) -> bool {
    exists|j: int| 0 <= j < q.len() && (#[trigger] q[j]).x == x && q[j].y == y
}

/// Every cell in the queue is a cell of the board.
spec fn queue_in_bounds(q: Seq<Vector2<isize>>) -> bool {
    forall|j: int| 0 <= j < q.len() ==> cell_in_bounds((#[trigger] q[j]).x as int, q[j].y as int)
}

proof fn lemma_queued_push(q: Seq<Vector2<isize>>, c: Vector2<isize>, x: int, y: int)
    ensures
        queued(q.push(c), x, y) <==> queued(q, x, y) || (c.x == x && c.y == y),
{
    let p = q.push(c);
    if queued(q, x, y) {
        let j = choose|j: int| 0 <= j < q.len() && (#[trigger] q[j]).x == x && q[j].y == y;
        assert(p[j].x == x && p[j].y == y);
    }
    if c.x == x && c.y == y {
        assert(p[q.len() as int].x == x);
    }
    if queued(p, x, y) {
        let j = choose|j: int| 0 <= j < p.len() && (#[trigger] p[j]).x == x && p[j].y == y;
        if j < q.len() {
            assert(q[j].x == x && q[j].y == y);
        }
    }
}

proof fn lemma_queued_pop(q: Seq<Vector2<isize>>, x: int, y: int)
    requires
        q.len() > 0,
    ensures
        queued(q, x, y) <==> queued(q.subrange(1, q.len() as int), x, y) || (q[0].x == x && q[0].y
            == y),
{
    let p = q.subrange(1, q.len() as int);
    if queued(q, x, y) {
        let j = choose|j: int| 0 <= j < q.len() && (#[trigger] q[j]).x == x && q[j].y == y;
        if j > 0 {
            assert(p[j - 1].x == x && p[j - 1].y == y);
        }
    }
    if queued(p, x, y) {
        let j = choose|j: int| 0 <= j < p.len() && (#[trigger] p[j]).x == x && p[j].y == y;
        assert(q[j + 1].x == x && q[j + 1].y == y);
    }
}

proof fn lemma_push_in_bounds(q: Seq<Vector2<isize>>, c: Vector2<isize>)
    requires
        queue_in_bounds(q),
        cell_in_bounds(c.x as int, c.y as int),
    ensures
        queue_in_bounds(q.push(c)),
{
    let p = q.push(c);
    assert forall|j: int| 0 <= j < p.len() implies cell_in_bounds(
        (#[trigger] p[j]).x as int,
        p[j].y as int,
    ) by {
        if j < q.len() {
            assert(p[j] == q[j]);
        }
    }
}

proof fn lemma_pop_in_bounds(q: Seq<Vector2<isize>>)
    requires
        queue_in_bounds(q),
        q.len() > 0,
    ensures
        queue_in_bounds(q.subrange(1, q.len() as int)),
        cell_in_bounds(q[0].x as int, q[0].y as int),
{
    let p = q.subrange(1, q.len() as int);
    assert forall|j: int| 0 <= j < p.len() implies cell_in_bounds(
        (#[trigger] p[j]).x as int,
        p[j].y as int,
    ) by {
        assert(p[j] == q[j + 1]);
    }
}

fn label(m: &DistanceMatrix, cell: Vector2<isize>) -> (v: isize)
    requires
        cell_in_bounds(cell.x as int, cell.y as int),
    ensures
        v == dist_at(*m, cell.x as int, cell.y as int),
{
    m[cell.x as usize][cell.y as usize]
}

fn set_label(m: &mut DistanceMatrix, cell: Vector2<isize>, v: isize)
    requires
        cell_in_bounds(cell.x as int, cell.y as int),
    ensures
        dist_at(*final(m), cell.x as int, cell.y as int) == v,
        differ_at(*old(m), *final(m), cell.x as int, cell.y as int),
{
    m[cell.x as usize][cell.y as usize] = v;
}

fn is_open(conn: &Connections, cell: Vector2<isize>, i: usize) -> (open: bool)
    requires
        cell_in_bounds(cell.x as int, cell.y as int),
        i < 4,
        borders_closed(*conn),
    ensures
        open == edge_open(*conn, cell.x as int, cell.y as int, i as int),
{
    let open = conn[cell.x as usize][cell.y as usize][i];
    assert(open == open_at(*conn, cell.x as int, cell.y as int, i as int));
    open
}

/// No label exceeds `limit` less the number of cells without a label.
spec fn capped(m: DistanceMatrix, limit: int) -> bool {
    forall|x: int, y: int|
        cell_in_bounds(x, y) ==> #[trigger] dist_at(m, x, y) + count_unlabelled(m) <= limit
}

/// What holds while labels spread over the graph: the graph is undirected
/// and closed at the borders, the cells of the goal row and no others have
/// the label 0, every label is the length of a walk to the goal row, the
/// queue holds cells of the board, and the labels are not too large.
spec fn spreading(conn: Connections, row: int, m: DistanceMatrix, q: Seq<Vector2<isize>>) -> bool {
    &&& 0 <= row < 9
    &&& borders_closed(conn)
    &&& symmetric(conn)
    &&& goal_labelled(row, m)
    &&& sound(conn, row, m)
    &&& queue_in_bounds(q)
    &&& capped(m, 161)
}

/// The step from `(x, y)` in direction `d` is settled, or the cell waits in
/// the queue, or it is the cell `(ax, ay)` whose directions from `i` on are
/// still to be looked at.
spec fn relax_ok(
    conn: Connections,
    m: DistanceMatrix,
    q: Seq<Vector2<isize>>,
    ax: int,
    ay: int,
    i: int,
    x: int,
    y: int,
    d: int,
) -> bool {
    settled(conn, m, x, y, d) || queued(q, x, y) || (x == ax && y == ay && d >= i)
}

spec fn all_relax_ok(
    conn: Connections,
    m: DistanceMatrix,
    q: Seq<Vector2<isize>>,
    ax: int,
    ay: int,
    i: int,
) -> bool {
    forall|x: int, y: int, d: int|
        cell_in_bounds(x, y) && 0 <= d < 4 ==> #[trigger] relax_ok(conn, m, q, ax, ay, i, x, y, d)
}

/// Once the first cell has left the queue, its directions are the ones still
/// to be looked at; none of them, where it has no label.
proof fn lemma_relax_ok_pop(conn: Connections, m: DistanceMatrix, q: Seq<Vector2<isize>>, from: int)
    requires
        q.len() > 0,
        all_relax_ok(conn, m, q, 0, 0, 4),
        from == 0 || (from == 4 && dist_at(m, q[0].x as int, q[0].y as int) == -1),
    ensures
        all_relax_ok(conn, m, q.subrange(1, q.len() as int), q[0].x as int, q[0].y as int, from),
{
    let rest = q.subrange(1, q.len() as int);
    assert forall|x: int, y: int, d: int| cell_in_bounds(x, y) && 0 <= d < 4 implies #[trigger] relax_ok(
        conn,
        m,
        rest,
        q[0].x as int,
        q[0].y as int,
        from,
        x,
        y,
        d,
    ) by {
        assert(relax_ok(conn, m, q, 0, 0, 4, x, y, d));
        lemma_queued_pop(q, x, y);
    }
}

/// A direction that needs no change counts as looked at.
proof fn lemma_relax_ok_next(
    conn: Connections,
    m: DistanceMatrix,
    q: Seq<Vector2<isize>>,
    ax: int,
    ay: int,
    i: int,
)
    requires
        all_relax_ok(conn, m, q, ax, ay, i),
        settled(conn, m, ax, ay, i),
    ensures
        all_relax_ok(conn, m, q, ax, ay, i + 1),
{
    assert forall|x: int, y: int, d: int| cell_in_bounds(x, y) && 0 <= d < 4 implies #[trigger] relax_ok(
        conn,
        m,
        q,
        ax,
        ay,
        i + 1,
        x,
        y,
        d,
    ) by {
        assert(relax_ok(conn, m, q, ax, ay, i, x, y, d));
    }
}

/// Once all four directions of a cell are looked at, no cell is left over.
proof fn lemma_relax_ok_done(
    conn: Connections,
    m: DistanceMatrix,
    q: Seq<Vector2<isize>>,
    ax: int,
    ay: int,
)
    requires
        all_relax_ok(conn, m, q, ax, ay, 4),
    ensures
        all_relax_ok(conn, m, q, 0, 0, 4),
{
    assert forall|x: int, y: int, d: int| cell_in_bounds(x, y) && 0 <= d < 4 implies #[trigger] relax_ok(
        conn,
        m,
        q,
        0,
        0,
        4,
        x,
        y,
        d,
    ) by {
        assert(relax_ok(conn, m, q, ax, ay, 4, x, y, d));
    }
}

/// With an empty queue every step is settled.
proof fn lemma_all_settled(conn: Connections, m: DistanceMatrix, q: Seq<Vector2<isize>>)
    requires
        q.len() == 0,
        all_relax_ok(conn, m, q, 0, 0, 4),
    ensures
        crate::grid::all_settled(conn, m),
{
    assert forall|x: int, y: int, d: int| cell_in_bounds(x, y) && 0 <= d < 4 implies #[trigger] settled(
        conn,
        m,
        x,
        y,
        d,
    ) by {
        assert(relax_ok(conn, m, q, 0, 0, 4, x, y, d));
    }
}

/// What a new label does: the neighbour of `(ax, ay)` in direction `i` gets
/// one more than the label of that cell, in place of no label or of a larger
/// one, and joins the queue.
spec fn relabelled(
    conn: Connections,
    before: DistanceMatrix,
    after: DistanceMatrix,
    ax: int,
    ay: int,
    i: int,
) -> bool {
    let nx = ax + step_x(i);
    let ny = ay + step_y(i);
    &&& edge_open(conn, ax, ay, i)
    &&& dist_at(before, ax, ay) >= 0
    &&& differ_at(before, after, nx, ny)
    &&& dist_at(after, nx, ny) == dist_at(before, ax, ay) + 1
    &&& dist_at(before, nx, ny) == -1 || dist_at(before, nx, ny) > dist_at(after, nx, ny)
}

/// A new label keeps what holds while labels spread, and brings the labels
/// closer to their end: the potential falls, and the number of cells without
/// a label falls where the cell had none.
proof fn lemma_relabelled(
    conn: Connections,
    row: int,
    before: DistanceMatrix,
    after: DistanceMatrix,
    q: Seq<Vector2<isize>>,
    ax: int,
    ay: int,
    i: int,
)
    requires
        spreading(conn, row, before, q),
        relabelled(conn, before, after, ax, ay, i),
    ensures
        spreading(
            conn,
            row,
            after,
            q.push(Vector2 { x: (ax + step_x(i)) as isize, y: (ay + step_y(i)) as isize }),
        ),
        dist_at(after, ax, ay) == dist_at(before, ax, ay),
        potential(after) < potential(before),
        count_unlabelled(after) == count_unlabelled(before) - if dist_at(
            before,
            ax + step_x(i),
            ay + step_y(i),
        ) == -1 {
            1int
        } else {
            0
        },
{
    let nx = ax + step_x(i);
    let ny = ay + step_y(i);
    let cell = Vector2 { x: nx as isize, y: ny as isize };
    let distance = dist_at(before, ax, ay);
    assert(sound_at(conn, row, before, ax, ay));
    assert(sound_at(conn, row, before, nx, ny));
    assert(dist_at(before, ax, ay) + count_unlabelled(before) <= 161);
    lemma_tally_count(before, Weight::Unlabelled, 81);
    lemma_tally_update(before, after, Weight::Unlabelled, nx, ny, 81);
    lemma_tally_update(before, after, Weight::Potential, nx, ny, 81);
    lemma_tally_count(after, Weight::Unlabelled, 81);
    assert(edge_open(conn, nx, ny, opposite(i)));
    lemma_reaches_step(conn, row, nx, ny, opposite(i), distance as nat);
    assert forall|x: int, y: int| cell_in_bounds(x, y) implies #[trigger] sound_at(
        conn,
        row,
        after,
        x,
        y,
    ) by {
        assert(sound_at(conn, row, before, x, y));
        if !(x == nx && y == ny) {
            assert(dist_at(after, x, y) == dist_at(before, x, y));
        }
    }
    assert forall|x: int, y: int| cell_in_bounds(x, y) implies ((#[trigger] dist_at(after, x, y)
        == 0) <==> y == row) by {
        assert((dist_at(before, x, y) == 0) <==> y == row);
        if !(x == nx && y == ny) {
            assert(dist_at(after, x, y) == dist_at(before, x, y));
        }
    }
    assert forall|x: int, y: int| cell_in_bounds(x, y) implies #[trigger] dist_at(after, x, y)
        + count_unlabelled(after) <= 161 by {
        assert(dist_at(before, x, y) + count_unlabelled(before) <= 161);
        if !(x == nx && y == ny) {
            assert(dist_at(after, x, y) == dist_at(before, x, y));
        }
    }
    lemma_push_in_bounds(q, cell);
}

/// After a new label the direction counts as looked at: the neighbour waits
/// in the queue, and a smaller label unsettles no step towards it.
proof fn lemma_relax_ok_relabelled(
    conn: Connections,
    before: DistanceMatrix,
    after: DistanceMatrix,
    q: Seq<Vector2<isize>>,
    ax: int,
    ay: int,
    i: int,
)
    requires
        cell_in_bounds(ax, ay),
        relabelled(conn, before, after, ax, ay, i),
        all_relax_ok(conn, before, q, ax, ay, i),
    ensures
        all_relax_ok(
            conn,
            after,
            q.push(Vector2 { x: (ax + step_x(i)) as isize, y: (ay + step_y(i)) as isize }),
            ax,
            ay,
            i + 1,
        ),
{
    let nx = ax + step_x(i);
    let ny = ay + step_y(i);
    let cell = Vector2 { x: nx as isize, y: ny as isize };
    assert forall|x: int, y: int, d: int| cell_in_bounds(x, y) && 0 <= d < 4 implies #[trigger] relax_ok(
        conn,
        after,
        q.push(cell),
        ax,
        ay,
        i + 1,
        x,
        y,
        d,
    ) by {
        assert(relax_ok(conn, before, q, ax, ay, i, x, y, d));
        lemma_queued_push(q, cell, x, y);
        let tx = x + step_x(d);
        let ty = y + step_y(d);
        if !(x == nx && y == ny) {
            assert(dist_at(after, x, y) == dist_at(before, x, y));
            if cell_in_bounds(tx, ty) && !(tx == nx && ty == ny) {
                assert(dist_at(after, tx, ty) == dist_at(before, tx, ty));
            }
        }
    }
}

/// Lowers the label of the neighbour of `cell` in direction `i` to one more
/// than the label of `cell`, where the edge is open and that is an
/// improvement, and queues the neighbour if so.
fn relax(
    conn: &Connections,
    row: usize,
    matrix: &mut DistanceMatrix,
    queue: &mut VecDeque<Vector2<isize>>,
    cell: Vector2<isize>,
    i: usize,
)
    requires
        i < 4,
        spreading(*conn, row as int, *old(matrix), old(queue)@),
        cell_in_bounds(cell.x as int, cell.y as int),
        dist_at(*old(matrix), cell.x as int, cell.y as int) != -1,
        all_relax_ok(*conn, *old(matrix), old(queue)@, cell.x as int, cell.y as int, i as int),
    ensures
        spreading(*conn, row as int, *final(matrix), final(queue)@),
        dist_at(*final(matrix), cell.x as int, cell.y as int) == dist_at(
            *old(matrix),
            cell.x as int,
            cell.y as int,
        ),
        all_relax_ok(
            *conn,
            *final(matrix),
            final(queue)@,
            cell.x as int,
            cell.y as int,
            i as int + 1,
        ),
        (potential(*final(matrix)) == potential(*old(matrix)) && final(queue)@ == old(queue)@)
            || potential(*final(matrix)) < potential(*old(matrix)),
{
    let ghost before = *matrix;
    let ghost waiting = queue@;
    let distance = label(matrix, cell);
    proof {
        assert(sound_at(*conn, row as int, before, cell.x as int, cell.y as int));
        assert(dist_at(before, cell.x as int, cell.y as int) + count_unlabelled(before) <= 161);
        lemma_tally_count(before, Weight::Unlabelled, 81);
    }
    if is_open(conn, cell, i) {
        let adjacent_cell = cell + direction(i);
        let adjacent_distance = label(matrix, adjacent_cell);
        if adjacent_distance == -1 || adjacent_distance > distance + 1 {
            set_label(matrix, adjacent_cell, distance + 1);
            queue.push_back(adjacent_cell);
            proof {
                lemma_relabelled(
                    *conn,
                    row as int,
                    before,
                    *matrix,
                    waiting,
                    cell.x as int,
                    cell.y as int,
                    i as int,
                );
                lemma_relax_ok_relabelled(
                    *conn,
                    before,
                    *matrix,
                    waiting,
                    cell.x as int,
                    cell.y as int,
                    i as int,
                );
            }
            return ;
        }
    }
    proof {
        lemma_relax_ok_next(*conn, before, waiting, cell.x as int, cell.y as int, i as int);
    }
}

/// Spreads labels from the queued cells over open edges until no edge can
/// improve a label.
fn propagate(
    conn: &Connections,
    row: usize,
    matrix: &mut DistanceMatrix,
    queue: VecDeque<Vector2<isize>>,
)
    requires
        spreading(*conn, row as int, *old(matrix), queue@),
        all_relax_ok(*conn, *old(matrix), queue@, 0, 0, 4),
    ensures
        is_distance_matrix(*conn, row as int, *final(matrix)),
{
    let mut queue = queue;
    while queue.len() > 0
        invariant
            spreading(*conn, row as int, *matrix, queue@),
            all_relax_ok(*conn, *matrix, queue@, 0, 0, 4),
        decreases potential(*matrix), queue@.len(),
    {
        let ghost waiting = queue@;
        let ghost start = potential(*matrix);
        let cell = queue.pop_front().unwrap();
        let ghost rest = queue@;
        let distance = label(matrix, cell);
        proof {
            assert(cell == waiting[0]);
            lemma_pop_in_bounds(waiting);
            lemma_relax_ok_pop(*conn, *matrix, waiting, if distance == -1 {
                4
            } else {
                0
            });
            lemma_potential_bounded(*conn, row as int, *matrix);
        }
        // A cell that was taken for settled and then cleared has nothing to
        // hand on.
        if distance != -1 {
            let mut i: usize = 0;
            while i < 4
                invariant
                    i <= 4,
                    spreading(*conn, row as int, *matrix, queue@),
                    cell_in_bounds(cell.x as int, cell.y as int),
                    dist_at(*matrix, cell.x as int, cell.y as int) != -1,
                    all_relax_ok(*conn, *matrix, queue@, cell.x as int, cell.y as int, i as int),
                    (potential(*matrix) == start && queue@ == rest) || potential(*matrix) < start,
                decreases 4 - i,
            {
                relax(conn, row, matrix, &mut queue, cell, i);
                i += 1;
            }
        }
        proof {
            lemma_relax_ok_done(*conn, *matrix, queue@, cell.x as int, cell.y as int);
            lemma_potential_bounded(*conn, row as int, *matrix);
        }
    }
    proof {
        lemma_all_settled(*conn, *matrix, queue@);
        lemma_certificate(*conn, row as int, *matrix);
    }
}

/// The potential of labels that are -1 or lengths of walks is not negative.
proof fn lemma_potential_bounded(conn: Connections, row: int, m: DistanceMatrix)
    requires
        sound(conn, row, m),
    ensures
        0 <= potential(m),
{
    assert(labels_from(m, -1)) by {
        assert forall|x: int, y: int| cell_in_bounds(x, y) implies #[trigger] dist_at(m, x, y)
            >= -1 by {
            assert(sound_at(conn, row, m, x, y));
        }
    }
    lemma_potential_nonnegative(m, 81);
}

/// The labels of the queued cells are at least `level` and do not fall along
/// the queue, and no label is above `level + 1`.
spec fn level_ok(m: DistanceMatrix, q: Seq<Vector2<isize>>, level: int) -> bool {
    &&& forall|x: int, y: int| cell_in_bounds(x, y) ==> #[trigger] dist_at(m, x, y) <= level + 1
    &&& forall|j: int|
        0 <= j < q.len() ==> level <= dist_at(m, (#[trigger] q[j]).x as int, q[j].y as int)
    &&& forall|j: int, k: int|
        0 <= j < k < q.len() ==> dist_at(m, (#[trigger] q[j]).x as int, q[j].y as int) <= dist_at(
            m,
            (#[trigger] q[k]).x as int,
            q[k].y as int,
        )
}

/// The cell that leaves the queue sets the level for the cells that stay.
proof fn lemma_level_pop(m: DistanceMatrix, q: Seq<Vector2<isize>>, level: int)
    requires
        q.len() > 0,
        level_ok(m, q, level),
    ensures
        level <= dist_at(m, q[0].x as int, q[0].y as int),
        level_ok(m, q.subrange(1, q.len() as int), dist_at(m, q[0].x as int, q[0].y as int)),
{
    let rest = q.subrange(1, q.len() as int);
    let first = dist_at(m, q[0].x as int, q[0].y as int);
    assert(level <= dist_at(m, q[0].x as int, q[0].y as int));
    assert forall|j: int| 0 <= j < rest.len() implies first <= dist_at(
        m,
        (#[trigger] rest[j]).x as int,
        rest[j].y as int,
    ) by {
        assert(rest[j] == q[j + 1]);
    }
    assert forall|j: int, k: int| 0 <= j < k < rest.len() implies dist_at(
        m,
        (#[trigger] rest[j]).x as int,
        rest[j].y as int,
    ) <= dist_at(m, (#[trigger] rest[k]).x as int, rest[k].y as int) by {
        assert(rest[j] == q[j + 1]);
        assert(rest[k] == q[k + 1]);
    }
    assert forall|x: int, y: int| cell_in_bounds(x, y) implies #[trigger] dist_at(m, x, y) <= first
        + 1 by {
        assert(dist_at(m, x, y) <= level + 1);
    }
}

/// A cell that gets its first label, one above the level, keeps the order
/// of the queue when it joins it at the end.
proof fn lemma_level_relabelled(
    conn: Connections,
    before: DistanceMatrix,
    after: DistanceMatrix,
    q: Seq<Vector2<isize>>,
    ax: int,
    ay: int,
    i: int,
)
    requires
        queue_in_bounds(q),
        relabelled(conn, before, after, ax, ay, i),
        dist_at(before, ax + step_x(i), ay + step_y(i)) == -1,
        level_ok(before, q, dist_at(before, ax, ay)),
    ensures
        level_ok(
            after,
            q.push(Vector2 { x: (ax + step_x(i)) as isize, y: (ay + step_y(i)) as isize }),
            dist_at(before, ax, ay),
        ),
{
    let nx = ax + step_x(i);
    let ny = ay + step_y(i);
    let level = dist_at(before, ax, ay);
    let p = q.push(Vector2 { x: nx as isize, y: ny as isize });
    assert forall|x: int, y: int| cell_in_bounds(x, y) implies #[trigger] dist_at(after, x, y)
        <= level + 1 by {
        assert(dist_at(before, x, y) <= level + 1);
        if !(x == nx && y == ny) {
            assert(dist_at(after, x, y) == dist_at(before, x, y));
        }
    }
    assert forall|j: int| 0 <= j < q.len() implies dist_at(
        after,
        (#[trigger] q[j]).x as int,
        q[j].y as int,
    ) == dist_at(before, q[j].x as int, q[j].y as int) && level <= dist_at(
        before,
        q[j].x as int,
        q[j].y as int,
    ) <= level + 1 by {
        assert(level <= dist_at(before, q[j].x as int, q[j].y as int));
        assert(dist_at(before, q[j].x as int, q[j].y as int) <= level + 1);
    }
    assert forall|j: int| 0 <= j < p.len() implies level <= dist_at(
        after,
        (#[trigger] p[j]).x as int,
        p[j].y as int,
    ) by {
        if j < q.len() {
            assert(p[j] == q[j]);
        }
    }
    assert forall|j: int, k: int| 0 <= j < k < p.len() implies dist_at(
        after,
        (#[trigger] p[j]).x as int,
        p[j].y as int,
    ) <= dist_at(after, (#[trigger] p[k]).x as int, p[k].y as int) by {
        assert(p[j] == q[j]);
        if k < q.len() {
            assert(p[k] == q[k]);
        }
    }
}

/// Labels the neighbour of `cell` in direction `i` with one more than the
/// label of `cell`, where the edge is open and the neighbour has no label
/// yet, and queues the neighbour if so.
fn visit(
    conn: &Connections,
    row: usize,
    matrix: &mut DistanceMatrix,
    queue: &mut VecDeque<Vector2<isize>>,
    cell: Vector2<isize>,
    i: usize,
)
    requires
        i < 4,
        spreading(*conn, row as int, *old(matrix), old(queue)@),
        cell_in_bounds(cell.x as int, cell.y as int),
        dist_at(*old(matrix), cell.x as int, cell.y as int) >= 0,
        level_ok(*old(matrix), old(queue)@, dist_at(*old(matrix), cell.x as int, cell.y as int)),
        all_relax_ok(*conn, *old(matrix), old(queue)@, cell.x as int, cell.y as int, i as int),
    ensures
        spreading(*conn, row as int, *final(matrix), final(queue)@),
        dist_at(*final(matrix), cell.x as int, cell.y as int) == dist_at(
            *old(matrix),
            cell.x as int,
            cell.y as int,
        ),
        level_ok(
            *final(matrix),
            final(queue)@,
            dist_at(*old(matrix), cell.x as int, cell.y as int),
        ),
        all_relax_ok(
            *conn,
            *final(matrix),
            final(queue)@,
            cell.x as int,
            cell.y as int,
            i as int + 1,
        ),
        (count_unlabelled(*final(matrix)) == count_unlabelled(*old(matrix)) && final(queue)@
            == old(queue)@) || count_unlabelled(*final(matrix)) < count_unlabelled(*old(matrix)),
{
    let ghost before = *matrix;
    let ghost waiting = queue@;
    let distance = label(matrix, cell);
    proof {
        assert(dist_at(before, cell.x as int, cell.y as int) + count_unlabelled(before) <= 161);
        lemma_tally_count(before, Weight::Unlabelled, 81);
    }
    if is_open(conn, cell, i) {
        let adjacent_cell = cell + direction(i);
        if label(matrix, adjacent_cell) == -1 {
            set_label(matrix, adjacent_cell, distance + 1);
            queue.push_back(adjacent_cell);
            proof {
                lemma_relabelled(
                    *conn,
                    row as int,
                    before,
                    *matrix,
                    waiting,
                    cell.x as int,
                    cell.y as int,
                    i as int,
                );
                lemma_relax_ok_relabelled(
                    *conn,
                    before,
                    *matrix,
                    waiting,
                    cell.x as int,
                    cell.y as int,
                    i as int,
                );
                lemma_level_relabelled(
                    *conn,
                    before,
                    *matrix,
                    waiting,
                    cell.x as int,
                    cell.y as int,
                    i as int,
                );
            }
            return ;
        }
        assert(dist_at(before, adjacent_cell.x as int, adjacent_cell.y as int) <= distance + 1);
    }
    proof {
        lemma_relax_ok_next(*conn, before, waiting, cell.x as int, cell.y as int, i as int);
    }
}

/// The cell `(x, y)` is a neighbour of `(cx, cy)` over an open edge in one of
/// the directions from `i` on.
spec fn pending(conn: Connections, cx: int, cy: int, i: int, x: int, y: int) -> bool {
    ||| i <= 0 && edge_open(conn, cx, cy, 0) && x == cx + 1 && y == cy
    ||| i <= 1 && edge_open(conn, cx, cy, 1) && x == cx && y == cy + 1
    ||| i <= 2 && edge_open(conn, cx, cy, 2) && x == cx - 1 && y == cy
    ||| i <= 3 && edge_open(conn, cx, cy, 3) && x == cx && y == cy - 1
}

/// A cell with a positive label has a neighbour with the label below, or
/// waits in the queue of stale cells, or is a neighbour of the cell
/// `(cx, cy)` that is still to be looked at and has a label above `level`.
spec fn support_ok(
    conn: Connections,
    m: DistanceMatrix,
    down: Seq<Vector2<isize>>,
    cx: int,
    cy: int,
    i: int,
    level: int,
    x: int,
    y: int,
) -> bool {
    dist_at(m, x, y) > 0 ==> {
        ||| has_parent(conn, m, x, y)
        ||| queued(down, x, y)
        ||| dist_at(m, x, y) > level && pending(conn, cx, cy, i, x, y)
    }
}

spec fn all_support_ok(
    conn: Connections,
    m: DistanceMatrix,
    down: Seq<Vector2<isize>>,
    cx: int,
    cy: int,
    i: int,
    level: int,
) -> bool {
    forall|x: int, y: int|
        cell_in_bounds(x, y) ==> #[trigger] support_ok(conn, m, down, cx, cy, i, level, x, y)
}

/// A labelled neighbour of a cell whose label was cleared waits in one of
/// the two queues, unless the cleared cell is `(cx, cy)` and the direction
/// is still to be looked at.
spec fn frontier_ok(
    conn: Connections,
    m0: DistanceMatrix,
    m: DistanceMatrix,
    up: Seq<Vector2<isize>>,
    down: Seq<Vector2<isize>>,
    cx: int,
    cy: int,
    i: int,
    x: int,
    y: int,
    d: int,
) -> bool {
    edge_open(conn, x, y, d) && dist_at(m0, x, y) != -1 && dist_at(m, x, y) == -1 && dist_at(
        m,
        x + step_x(d),
        y + step_y(d),
    ) != -1 ==> {
        ||| queued(up, x + step_x(d), y + step_y(d))
        ||| queued(down, x + step_x(d), y + step_y(d)) && dist_at(
            m,
            x + step_x(d),
            y + step_y(d),
        ) >= 1
        ||| x == cx && y == cy && d >= i
    }
}

spec fn all_frontier_ok(
    conn: Connections,
    m0: DistanceMatrix,
    m: DistanceMatrix,
    up: Seq<Vector2<isize>>,
    down: Seq<Vector2<isize>>,
    cx: int,
    cy: int,
    i: int,
) -> bool {
    forall|x: int, y: int, d: int|
        cell_in_bounds(x, y) && 0 <= d < 4 ==> #[trigger] frontier_ok(
            conn,
            m0,
            m,
            up,
            down,
            cx,
            cy,
            i,
            x,
            y,
            d,
        )
}

/// Every label of `m` is the label of `m0` or -1.
spec fn cleared(m0: DistanceMatrix, m: DistanceMatrix) -> bool {
    forall|x: int, y: int|
        cell_in_bounds(x, y) ==> (#[trigger] dist_at(m, x, y) == dist_at(m0, x, y) || dist_at(
            m,
            x,
            y,
        ) == -1)
}

/// What holds while stale labels are cleared: the graph is undirected and
/// closed at the borders, every label is at least -1 and is the label that
/// the cell had at the start or -1, the cells of the goal row and no others
/// have the label 0, and the queues hold cells of the board.
spec fn clearing(
    conn: Connections,
    row: int,
    stale: DistanceMatrix,
    m: DistanceMatrix,
    up: Seq<Vector2<isize>>,
    down: Seq<Vector2<isize>>,
) -> bool {
    &&& 0 <= row < 9
    &&& borders_closed(conn)
    &&& symmetric(conn)
    &&& labels_from(m, -1)
    &&& goal_labelled(row, m)
    &&& cleared(stale, m)
    &&& queue_in_bounds(up)
    &&& queue_in_bounds(down)
}

/// A cell that leaves the queue of stale cells with the label 0 or without
/// a label leaves everything as it is.
proof fn lemma_pop_settled(
    conn: Connections,
    stale: DistanceMatrix,
    m: DistanceMatrix,
    up: Seq<Vector2<isize>>,
    down: Seq<Vector2<isize>>,
)
    requires
        down.len() > 0,
        queue_in_bounds(down),
        dist_at(m, down[0].x as int, down[0].y as int) <= 0,
        all_support_ok(conn, m, down, 0, 0, 4, 0),
        all_frontier_ok(conn, stale, m, up, down, 0, 0, 4),
    ensures
        all_support_ok(conn, m, down.subrange(1, down.len() as int), 0, 0, 4, 0),
        all_frontier_ok(conn, stale, m, up, down.subrange(1, down.len() as int), 0, 0, 4),
{
    let rest = down.subrange(1, down.len() as int);
    assert forall|x: int, y: int| cell_in_bounds(x, y) implies #[trigger] support_ok(
        conn,
        m,
        rest,
        0,
        0,
        4,
        0,
        x,
        y,
    ) by {
        assert(support_ok(conn, m, down, 0, 0, 4, 0, x, y));
        lemma_queued_pop(down, x, y);
    }
    assert forall|x: int, y: int, d: int| cell_in_bounds(x, y) && 0 <= d < 4 implies #[trigger] frontier_ok(
        conn,
        stale,
        m,
        up,
        rest,
        0,
        0,
        4,
        x,
        y,
        d,
    ) by {
        assert(frontier_ok(conn, stale, m, up, down, 0, 0, 4, x, y, d));
        lemma_queued_pop(down, x + step_x(d), y + step_y(d));
    }
}

/// Clearing the label of the first cell of the queue of stale cells leaves
/// the neighbours of that cell to be looked at: those that had their label
/// from it, and those from which it can get a label again.
proof fn lemma_label_cleared(
    conn: Connections,
    row: int,
    stale: DistanceMatrix,
    before: DistanceMatrix,
    after: DistanceMatrix,
    up: Seq<Vector2<isize>>,
    down: Seq<Vector2<isize>>,
)
    requires
        down.len() > 0,
        clearing(conn, row, stale, before, up, down),
        dist_at(before, down[0].x as int, down[0].y as int) >= 1,
        differ_at(before, after, down[0].x as int, down[0].y as int),
        dist_at(after, down[0].x as int, down[0].y as int) == -1,
        all_support_ok(conn, before, down, 0, 0, 4, 0),
        all_frontier_ok(conn, stale, before, up, down, 0, 0, 4),
    ensures
        clearing(conn, row, stale, after, up, down.subrange(1, down.len() as int)),
        count_unlabelled(after) == count_unlabelled(before) + 1,
        count_unlabelled(after) <= 81,
        all_support_ok(
            conn,
            after,
            down.subrange(1, down.len() as int),
            down[0].x as int,
            down[0].y as int,
            0,
            dist_at(before, down[0].x as int, down[0].y as int),
        ),
        all_frontier_ok(
            conn,
            stale,
            after,
            up,
            down.subrange(1, down.len() as int),
            down[0].x as int,
            down[0].y as int,
            0,
        ),
{
    let rest = down.subrange(1, down.len() as int);
    let cx = down[0].x as int;
    let cy = down[0].y as int;
    let distance = dist_at(before, cx, cy);
    lemma_pop_in_bounds(down);
    lemma_tally_update(before, after, Weight::Unlabelled, cx, cy, 81);
    lemma_tally_count(after, Weight::Unlabelled, 81);
    assert forall|x: int, y: int| cell_in_bounds(x, y) implies #[trigger] dist_at(after, x, y)
        >= -1 by {
        assert(dist_at(before, x, y) >= -1);
        if !(x == cx && y == cy) {
            assert(dist_at(after, x, y) == dist_at(before, x, y));
        }
    }
    assert forall|x: int, y: int| cell_in_bounds(x, y) implies ((#[trigger] dist_at(after, x, y)
        == 0) <==> y == row) by {
        assert((dist_at(before, x, y) == 0) <==> y == row);
        if !(x == cx && y == cy) {
            assert(dist_at(after, x, y) == dist_at(before, x, y));
        }
    }
    assert forall|x: int, y: int| cell_in_bounds(x, y) implies (#[trigger] dist_at(after, x, y)
        == dist_at(stale, x, y) || dist_at(after, x, y) == -1) by {
        assert(dist_at(before, x, y) == dist_at(stale, x, y) || dist_at(before, x, y) == -1);
        if !(x == cx && y == cy) {
            assert(dist_at(after, x, y) == dist_at(before, x, y));
        }
    }
    assert forall|x: int, y: int| cell_in_bounds(x, y) implies #[trigger] support_ok(
        conn,
        after,
        rest,
        cx,
        cy,
        0,
        distance,
        x,
        y,
    ) by {
        assert(support_ok(conn, before, down, 0, 0, 4, 0, x, y));
        lemma_queued_pop(down, x, y);
        if !(x == cx && y == cy) {
            assert(dist_at(after, x, y) == dist_at(before, x, y));
            lemma_parent_kept(conn, before, after, cx, cy, x, y, 0);
            lemma_parent_kept(conn, before, after, cx, cy, x, y, 1);
            lemma_parent_kept(conn, before, after, cx, cy, x, y, 2);
            lemma_parent_kept(conn, before, after, cx, cy, x, y, 3);
        }
    }
    assert forall|x: int, y: int, d: int| cell_in_bounds(x, y) && 0 <= d < 4 implies #[trigger] frontier_ok(
        conn,
        stale,
        after,
        up,
        rest,
        cx,
        cy,
        0,
        x,
        y,
        d,
    ) by {
        assert(frontier_ok(conn, stale, before, up, down, 0, 0, 4, x, y, d));
        let tx = x + step_x(d);
        let ty = y + step_y(d);
        lemma_queued_pop(down, tx, ty);
        if !(x == cx && y == cy) {
            assert(dist_at(after, x, y) == dist_at(before, x, y));
        }
        if cell_in_bounds(tx, ty) && !(tx == cx && ty == cy) {
            assert(dist_at(after, tx, ty) == dist_at(before, tx, ty));
        }
    }
}

/// A neighbour of the cleared cell that has joined the queue that is meant
/// for it counts as looked at; so does a direction in which the edge is
/// closed.
proof fn lemma_neighbour_marked(
    conn: Connections,
    stale: DistanceMatrix,
    m: DistanceMatrix,
    up: Seq<Vector2<isize>>,
    down: Seq<Vector2<isize>>,
    now_up: Seq<Vector2<isize>>,
    now_down: Seq<Vector2<isize>>,
    cx: int,
    cy: int,
    i: int,
    level: int,
)
    requires
        0 <= i < 4,
        level >= 1,
        all_support_ok(conn, m, down, cx, cy, i, level),
        all_frontier_ok(conn, stale, m, up, down, cx, cy, i),
        ({
            let cell = Vector2 { x: (cx + step_x(i)) as isize, y: (cy + step_y(i)) as isize };
            if !edge_open(conn, cx, cy, i) {
                now_up == up && now_down == down
            } else if dist_at(m, cx + step_x(i), cy + step_y(i)) > level {
                now_up == up && now_down == down.push(cell)
            } else {
                now_up == up.push(cell) && now_down == down
            }
        }),
    ensures
        all_support_ok(conn, m, now_down, cx, cy, i + 1, level),
        all_frontier_ok(conn, stale, m, now_up, now_down, cx, cy, i + 1),
{
    let cell = Vector2 { x: (cx + step_x(i)) as isize, y: (cy + step_y(i)) as isize };
    assert forall|x: int, y: int| cell_in_bounds(x, y) implies #[trigger] support_ok(
        conn,
        m,
        now_down,
        cx,
        cy,
        i + 1,
        level,
        x,
        y,
    ) by {
        assert(support_ok(conn, m, down, cx, cy, i, level, x, y));
        lemma_queued_push(down, cell, x, y);
    }
    assert forall|x: int, y: int, d: int| cell_in_bounds(x, y) && 0 <= d < 4 implies #[trigger] frontier_ok(
        conn,
        stale,
        m,
        now_up,
        now_down,
        cx,
        cy,
        i + 1,
        x,
        y,
        d,
    ) by {
        assert(frontier_ok(conn, stale, m, up, down, cx, cy, i, x, y, d));
        lemma_queued_push(down, cell, x + step_x(d), y + step_y(d));
        lemma_queued_push(up, cell, x + step_x(d), y + step_y(d));
    }
}

/// Once all four neighbours of the cleared cell are looked at, no cell is
/// left over.
proof fn lemma_neighbours_marked(
    conn: Connections,
    stale: DistanceMatrix,
    m: DistanceMatrix,
    up: Seq<Vector2<isize>>,
    down: Seq<Vector2<isize>>,
    cx: int,
    cy: int,
    level: int,
)
    requires
        all_support_ok(conn, m, down, cx, cy, 4, level),
        all_frontier_ok(conn, stale, m, up, down, cx, cy, 4),
    ensures
        all_support_ok(conn, m, down, 0, 0, 4, 0),
        all_frontier_ok(conn, stale, m, up, down, 0, 0, 4),
{
    assert forall|x: int, y: int| cell_in_bounds(x, y) implies #[trigger] support_ok(
        conn,
        m,
        down,
        0,
        0,
        4,
        0,
        x,
        y,
    ) by {
        assert(support_ok(conn, m, down, cx, cy, 4, level, x, y));
    }
    assert forall|x: int, y: int, d: int| cell_in_bounds(x, y) && 0 <= d < 4 implies #[trigger] frontier_ok(
        conn,
        stale,
        m,
        up,
        down,
        0,
        0,
        4,
        x,
        y,
        d,
    ) by {
        assert(frontier_ok(conn, stale, m, up, down, cx, cy, 4, x, y, d));
    }
}

/// Sorts the neighbour of the cleared cell `cell` in direction `i` into the
/// stale cells, where its label was above that of `cell`, or else into the
/// cells from which labels are spread again.
fn mark_neighbour(
    conn: &Connections,
    matrix: &DistanceMatrix,
    downstream: &mut VecDeque<Vector2<isize>>,
    upstream: &mut VecDeque<Vector2<isize>>,
    cell: Vector2<isize>,
    distance: isize,
    i: usize,
    Ghost(row): Ghost<int>,
    Ghost(stale): Ghost<DistanceMatrix>,
)
    requires
        i < 4,
        distance >= 1,
        cell_in_bounds(cell.x as int, cell.y as int),
        clearing(*conn, row, stale, *matrix, old(upstream)@, old(downstream)@),
        all_support_ok(
            *conn,
            *matrix,
            old(downstream)@,
            cell.x as int,
            cell.y as int,
            i as int,
            distance as int,
        ),
        all_frontier_ok(
            *conn,
            stale,
            *matrix,
            old(upstream)@,
            old(downstream)@,
            cell.x as int,
            cell.y as int,
            i as int,
        ),
    ensures
        clearing(*conn, row, stale, *matrix, final(upstream)@, final(downstream)@),
        all_support_ok(
            *conn,
            *matrix,
            final(downstream)@,
            cell.x as int,
            cell.y as int,
            i as int + 1,
            distance as int,
        ),
        all_frontier_ok(
            *conn,
            stale,
            *matrix,
            final(upstream)@,
            final(downstream)@,
            cell.x as int,
            cell.y as int,
            i as int + 1,
        ),
{
    let ghost up = upstream@;
    let ghost down = downstream@;
    if is_open(conn, cell, i) {
        let adjacent_cell = cell + direction(i);
        let adjacent_distance = label(matrix, adjacent_cell);
        if adjacent_distance > distance {
            // The neighbour may have had its label from the cleared cell.
            downstream.push_back(adjacent_cell);
        } else {
            // The neighbour keeps its label and can hand it on again.
            upstream.push_back(adjacent_cell);
        }
        proof {
            lemma_push_in_bounds(down, adjacent_cell);
            lemma_push_in_bounds(up, adjacent_cell);
        }
    }
    proof {
        lemma_neighbour_marked(
            *conn,
            stale,
            *matrix,
            up,
            down,
            upstream@,
            downstream@,
            cell.x as int,
            cell.y as int,
            i as int,
            distance as int,
        );
    }
}

/// Clears the label of every queued cell and of every cell that may have had
/// its label from one of them, and returns the neighbours of the cleared
/// cells whose labels still stand.
fn clear_stale(
    conn: &Connections,
    row: usize,
    matrix: &mut DistanceMatrix,
    downstream: VecDeque<Vector2<isize>>,
) -> (upstream: VecDeque<Vector2<isize>>)
    requires
        clearing(*conn, row as int, *old(matrix), *old(matrix), Seq::empty(), downstream@),
        all_support_ok(*conn, *old(matrix), downstream@, 0, 0, 4, 0),
    ensures
        clearing(*conn, row as int, *old(matrix), *final(matrix), upstream@, Seq::empty()),
        supported(*conn, *final(matrix)),
        all_frontier_ok(
            *conn,
            *old(matrix),
            *final(matrix),
            upstream@,
            Seq::empty(),
            0,
            0,
            4,
        ),
{
    let ghost stale = *matrix;
    let mut downstream = downstream;
    let mut upstream: VecDeque<Vector2<isize>> = VecDeque::new();
    proof {
        assert(upstream@ =~= Seq::empty());
        assert forall|x: int, y: int, d: int|
            cell_in_bounds(x, y) && 0 <= d < 4 implies #[trigger] frontier_ok(
            *conn,
            stale,
            *matrix,
            upstream@,
            downstream@,
            0,
            0,
            4,
            x,
            y,
            d,
        ) by {}
    }
    while downstream.len() > 0
        invariant
            clearing(*conn, row as int, stale, *matrix, upstream@, downstream@),
            all_support_ok(*conn, *matrix, downstream@, 0, 0, 4, 0),
            all_frontier_ok(*conn, stale, *matrix, upstream@, downstream@, 0, 0, 4),
        decreases 81 - count_unlabelled(*matrix), downstream@.len(),
    {
        let ghost waiting = downstream@;
        let ghost before = *matrix;
        let cell = downstream.pop_front().unwrap();
        let distance = label(matrix, cell);
        proof {
            assert(cell == waiting[0]);
            lemma_pop_in_bounds(waiting);
            lemma_tally_count(before, Weight::Unlabelled, 81);
        }
        // The cells of the goal row keep their labels, and a cell that was
        // cleared before has nothing left to clear.
        if distance == 0 || distance == -1 {
            proof {
                assert(dist_at(before, cell.x as int, cell.y as int) <= 0);
                lemma_pop_settled(*conn, stale, before, upstream@, waiting);
            }
        } else {
            set_label(matrix, cell, -1);
            proof {
                assert(dist_at(before, cell.x as int, cell.y as int) >= -1);
                lemma_label_cleared(
                    *conn,
                    row as int,
                    stale,
                    before,
                    *matrix,
                    upstream@,
                    waiting,
                );
            }
            let ghost now = *matrix;
            let mut i: usize = 0;
            while i < 4
                invariant
                    i <= 4,
                    distance >= 1,
                    cell_in_bounds(cell.x as int, cell.y as int),
                    *matrix == now,
                    clearing(*conn, row as int, stale, *matrix, upstream@, downstream@),
                    all_support_ok(
                        *conn,
                        *matrix,
                        downstream@,
                        cell.x as int,
                        cell.y as int,
                        i as int,
                        distance as int,
                    ),
                    all_frontier_ok(
                        *conn,
                        stale,
                        *matrix,
                        upstream@,
                        downstream@,
                        cell.x as int,
                        cell.y as int,
                        i as int,
                    ),
                decreases 4 - i,
            {
                mark_neighbour(
                    conn,
                    matrix,
                    &mut downstream,
                    &mut upstream,
                    cell,
                    distance,
                    i,
                    Ghost(row as int),
                    Ghost(stale),
                );
                i += 1;
            }
            proof {
                lemma_neighbours_marked(
                    *conn,
                    stale,
                    *matrix,
                    upstream@,
                    downstream@,
                    cell.x as int,
                    cell.y as int,
                    distance as int,
                );
            }
        }
    }
    proof {
        assert(downstream@ =~= Seq::empty());
        assert forall|x: int, y: int| cell_in_bounds(x, y) && #[trigger] dist_at(*matrix, x, y)
            > 0 implies has_parent(*conn, *matrix, x, y) by {
            assert(support_ok(*conn, *matrix, downstream@, 0, 0, 4, 0, x, y));
        }
    }
    upstream
}

/// A neighbour with the label below stays one when another cell's label is
/// cleared; where the cleared cell is that neighbour, the cell lies across an
/// open edge from it.
proof fn lemma_parent_kept(
    conn: Connections,
    m1: DistanceMatrix,
    m2: DistanceMatrix,
    cx: int,
    cy: int,
    x: int,
    y: int,
    d: int,
)
    requires
        symmetric(conn),
        cell_in_bounds(cx, cy),
        cell_in_bounds(x, y),
        !(x == cx && y == cy),
        differ_at(m1, m2, cx, cy),
        0 <= d < 4,
    ensures
        parent_via(conn, m1, x, y, d) ==> parent_via(conn, m2, x, y, d) || (dist_at(m1, x, y)
            == dist_at(m1, cx, cy) + 1 && pending(conn, cx, cy, 0, x, y)),
{
    if parent_via(conn, m1, x, y, d) {
        let tx = x + step_x(d);
        let ty = y + step_y(d);
        assert(dist_at(m2, x, y) == dist_at(m1, x, y));
        if tx == cx && ty == cy {
            assert(edge_open(conn, tx, ty, opposite(d)));
        } else {
            assert(dist_at(m2, tx, ty) == dist_at(m1, tx, ty));
        }
    }
}


/// Queues the one of two cells that face each other across a new wall whose
/// label is above the other's, if either is.
fn seed_pair(
    matrix: &DistanceMatrix,
    downstream: &mut VecDeque<Vector2<isize>>,
    first: Vector2<isize>,
    second: Vector2<isize>,
)
    requires
        cell_in_bounds(first.x as int, first.y as int),
        cell_in_bounds(second.x as int, second.y as int),
        queue_in_bounds(old(downstream)@),
    ensures
        queue_in_bounds(final(downstream)@),
        forall|x: int, y: int| #[trigger]
            queued(final(downstream)@, x, y) <==> {
                ||| queued(old(downstream)@, x, y)
                ||| x == first.x && y == first.y && dist_at(*matrix, x, y) > dist_at(
                    *matrix,
                    second.x as int,
                    second.y as int,
                )
                ||| x == second.x && y == second.y && dist_at(*matrix, x, y) > dist_at(
                    *matrix,
                    first.x as int,
                    first.y as int,
                )
            },
{
    let ghost q0 = downstream@;
    let first_distance = label(matrix, first);
    let second_distance = label(matrix, second);
    if first_distance > second_distance {
        downstream.push_back(first);
        proof {
            let q1 = downstream@;
            assert forall|j: int| 0 <= j < q1.len() implies cell_in_bounds(
                (#[trigger] q1[j]).x as int,
                q1[j].y as int,
            ) by {
                if j < q0.len() {
                    assert(q1[j] == q0[j]);
                }
            }
            assert forall|x: int, y: int| #[trigger]
                queued(q1, x, y) <==> queued(q0, x, y) || (first.x == x && first.y == y) by {
                lemma_queued_push(q0, first, x, y);
            }
        }
    } else if second_distance > first_distance {
        downstream.push_back(second);
        proof {
            let q1 = downstream@;
            assert forall|j: int| 0 <= j < q1.len() implies cell_in_bounds(
                (#[trigger] q1[j]).x as int,
                q1[j].y as int,
            ) by {
                if j < q0.len() {
                    assert(q1[j] == q0[j]);
                }
            }
            assert forall|x: int, y: int| #[trigger]
                queued(q1, x, y) <==> queued(q0, x, y) || (second.x == x && second.y == y) by {
                lemma_queued_push(q0, second, x, y);
            }
        }
    }
}

/// A neighbour with the label below, over an edge of the graph before the
/// wall, is one in the graph with the wall, or the wall lies across that edge
/// and the cell has the larger label of the two that face each other there.
proof fn lemma_parent_or_seed(
    before: Connections,
    conn: Connections,
    m: DistanceMatrix,
    wx: int,
    wy: int,
    o: WallOrientation,
    x: int,
    y: int,
    d: int,
)
    requires
        cell_in_bounds(x, y),
        0 <= d < 4,
        severed(before, conn, wx, wy, o),
    ensures
        parent_via(before, m, x, y, d) ==> parent_via(conn, m, x, y, d) || (crosses(
            wx,
            wy,
            o,
            x,
            y,
            d,
        ) && dist_at(m, x, y) > dist_at(m, x + step_x(d), y + step_y(d))),
{
    assert(edge_open(conn, x, y, d) <==> edge_open(before, x, y, d) && !crosses(
        wx,
        wy,
        o,
        x,
        y,
        d,
    ));
}

} // verus!
