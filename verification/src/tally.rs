//! Sums over the labels of a distance matrix, by which loops over the matrix
//! are shown to end and labels are shown to stay small.

use vstd::prelude::*;
use crate::grid::{cell_in_bounds, dist_at, has_parent, labels_from, parent_via, step_x, step_y, supported, Connections, DistanceMatrix};

verus! {

/// A way to weigh one label of a distance matrix.
pub enum Weight {
    /// 1 for the label -1, 0 for every other label.
    Unlabelled,
    /// The label itself, and 200 for the label -1.
    Potential,
    /// 1 for a label from 0 up to the bound, 0 for every other label.
    AtMost(int),
}

/// The weight of the label `v`.
pub open spec fn weight(w: Weight, v: int) -> int {
    match w {
        Weight::Unlabelled => if v == -1 {
            1
        } else {
            0
        },
        Weight::Potential => if v == -1 {
            200
        } else {
            v
        },
        Weight::AtMost(j) => if 0 <= v <= j {
            1
        } else {
            0
        },
    }
}

/// The weight of the cell with row-major index `i`.
pub open spec fn cell_weight(m: DistanceMatrix, w: Weight, i: int) -> int {
    weight(w, dist_at(m, i / 9, i % 9))
}

/// The sum of the weights of the first `n` cells in row-major order.
pub open spec fn tally(m: DistanceMatrix, w: Weight, n: nat) -> int
    decreases n,
{
    if n == 0 {
        0
    } else {
        tally(m, w, (n - 1) as nat) + cell_weight(m, w, n - 1)
    }
}

/// The number of cells without a label.
pub open spec fn count_unlabelled(m: DistanceMatrix) -> int {
    tally(m, Weight::Unlabelled, 81)
}

/// The sum of all labels, a cell without a label counting 200.
pub open spec fn potential(m: DistanceMatrix) -> int {
    tally(m, Weight::Potential, 81)
}

/// `m2` is `m1` but for the label of cell `(cx, cy)`.
pub open spec fn differ_at(m1: DistanceMatrix, m2: DistanceMatrix, cx: int, cy: int) -> bool {
    forall|x: int, y: int|
        cell_in_bounds(x, y) && !(x == cx && y == cy) ==> #[trigger] dist_at(m2, x, y) == dist_at(
            m1,
            x,
            y,
        )
}

/// Changing one label changes the tally by the change of that cell's weight.
pub proof fn lemma_tally_update(
    m1: DistanceMatrix,
    m2: DistanceMatrix,
    w: Weight,
    cx: int,
    cy: int,
    n: nat,
)
    requires
        cell_in_bounds(cx, cy),
        differ_at(m1, m2, cx, cy),
        n <= 81,
    ensures
        tally(m2, w, n) == tally(m1, w, n) + if cx * 9 + cy < n {
            weight(w, dist_at(m2, cx, cy)) - weight(w, dist_at(m1, cx, cy))
        } else {
            0
        },
    decreases n,
{
    if n > 0 {
        lemma_tally_update(m1, m2, w, cx, cy, (n - 1) as nat);
        let i = n - 1;
        if i != cx * 9 + cy {
            assert(!(i / 9 == cx && i % 9 == cy));
            assert(dist_at(m2, i / 9, i % 9) == dist_at(m1, i / 9, i % 9));
        } else {
            assert(i / 9 == cx && i % 9 == cy);
        }
    }
}

/// The weight `w1` is nowhere on `m` above the weight `w2`.
pub open spec fn dominated(m: DistanceMatrix, w1: Weight, w2: Weight) -> bool {
    forall|x: int, y: int|
        cell_in_bounds(x, y) ==> weight(w1, #[trigger] dist_at(m, x, y)) <= weight(
            w2,
            dist_at(m, x, y),
        )
}

/// Two tallies differ at least by the difference at any one cell, where one
/// weight is nowhere above the other.
pub proof fn lemma_tally_gap(
    m: DistanceMatrix,
    w1: Weight,
    w2: Weight,
    cx: int,
    cy: int,
    n: nat,
)
    requires
        cell_in_bounds(cx, cy),
        dominated(m, w1, w2),
        n <= 81,
    ensures
        tally(m, w2, n) - tally(m, w1, n) >= if cx * 9 + cy < n {
            weight(w2, dist_at(m, cx, cy)) - weight(w1, dist_at(m, cx, cy))
        } else {
            0
        },
    decreases n,
{
    if n > 0 {
        lemma_tally_gap(m, w1, w2, cx, cy, (n - 1) as nat);
        let i = n - 1;
        assert(cell_in_bounds(i / 9, i % 9));
        assert(weight(w1, dist_at(m, i / 9, i % 9)) <= weight(w2, dist_at(m, i / 9, i % 9)));
        if i == cx * 9 + cy {
            assert(i / 9 == cx && i % 9 == cy);
        }
    }
}

/// A tally of weights between 0 and 1 lies between 0 and the number of cells.
pub proof fn lemma_tally_count(m: DistanceMatrix, w: Weight, n: nat)
    requires
        w is Unlabelled || w is AtMost,
    ensures
        0 <= tally(m, w, n) <= n,
    decreases n,
{
    if n > 0 {
        lemma_tally_count(m, w, (n - 1) as nat);
    }
}

/// The potential of a matrix whose labels are at least -1 is not negative.
pub proof fn lemma_potential_nonnegative(m: DistanceMatrix, n: nat)
    requires
        labels_from(m, -1),
        n <= 81,
    ensures
        0 <= tally(m, Weight::Potential, n),
    decreases n,
{
    if n > 0 {
        lemma_potential_nonnegative(m, (n - 1) as nat);
        let i = n - 1;
        assert(cell_in_bounds(i / 9, i % 9));
        assert(dist_at(m, i / 9, i % 9) >= -1);
    }
}

/// Where every positive label has a neighbour with the label below, a label
/// `k` shows `k + 1` cells with labels from 0 to `k`.
pub proof fn lemma_labels_below(conn: Connections, m: DistanceMatrix, x: int, y: int)
    requires
        supported(conn, m),
        cell_in_bounds(x, y),
        dist_at(m, x, y) >= 0,
    ensures
        tally(m, Weight::AtMost(dist_at(m, x, y)), 81) >= dist_at(m, x, y) + 1,
    decreases dist_at(m, x, y),
{
    let k = dist_at(m, x, y);
    if k == 0 {
        lemma_tally_count(m, Weight::AtMost(-1), 81);
        lemma_tally_gap(m, Weight::AtMost(-1), Weight::AtMost(0), x, y, 81);
    } else {
        assert(has_parent(conn, m, x, y));
        let d = if parent_via(conn, m, x, y, 0) {
            0
        } else if parent_via(conn, m, x, y, 1) {
            1
        } else if parent_via(conn, m, x, y, 2) {
            2
        } else {
            3int
        };
        lemma_labels_below(conn, m, x + step_x(d), y + step_y(d));
        lemma_tally_gap(m, Weight::AtMost(k - 1), Weight::AtMost(k), x, y, 81);
    }
}

/// Where every positive label has a neighbour with the label below, no label
/// exceeds 80: the board has 81 cells.
pub proof fn lemma_supported_bounded(conn: Connections, m: DistanceMatrix)
    requires
        supported(conn, m),
    ensures
        forall|x: int, y: int| cell_in_bounds(x, y) ==> #[trigger] dist_at(m, x, y) <= 80,
{
    assert forall|x: int, y: int| cell_in_bounds(x, y) implies #[trigger] dist_at(m, x, y)
        <= 80 by {
        if dist_at(m, x, y) >= 0 {
            lemma_labels_below(conn, m, x, y);
            lemma_tally_count(m, Weight::AtMost(dist_at(m, x, y)), 81);
        }
    }
}

} // verus!
