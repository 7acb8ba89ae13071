//! Why filling the contour of a region covers the region.

use vstd::prelude::*;
use crate::array_2d::{lemma_offset_in_range, Grid};
use crate::contour_laws::{
    arrival,
    back,
    lemma_walk_along_rim_closes,
    lemma_walk_stays_on_rim,
    on_rim,
    quarter,
    starts_on_rim,
};
use crate::regions::adjacent;
use crate::trace_contours::{
    at_corner,
    contour,
    contour_closes,
    contour_len,
    crosses_row,
    crossings,
    edge_end,
    enclosed,
    first_return,
    inside,
    lemma_walk_on_grid,
    row_crossings,
    step,
    step_limit,
    try_from,
    walk,
    Walker,
};

verus! {

/// Every edge of the closed path runs along a row or along a column.
pub open spec fn axis_parallel(path: Seq<(i32, i32)>) -> bool {
    forall|i: int|
        0 <= i < path.len() ==> (#[trigger] path[i]).0 == edge_end(path, i).0 || path[i].1
            == edge_end(path, i).1
}

/// 1 for a corner that lies to the upper left of the middle of the cell
/// `(x, y)`, its own upper left corner counted in, and 0 for any other.
pub open spec fn upper_left(p: (i32, i32), x: int, y: int) -> int {
    if p.0 <= x && p.1 <= y {
        1
    } else {
        0
    }
}

/// What the `i`-th edge adds to the count of the edges that run past the
/// row `y` at or to the left of the cell `(x, y)`: 1 running down, -1
/// running up.
pub open spec fn left_sign(path: Seq<(i32, i32)>, i: int, x: int, y: int) -> int {
    left_sign_of(path[i], edge_end(path, i), x, y)
}

/// What the edge from `p` to `q` adds to the count of the edges that run
/// past the row `y` at or to the left of the cell `(x, y)`.
pub open spec fn left_sign_of(p: (i32, i32), q: (i32, i32), x: int, y: int) -> int {
    if p.0 == q.0 && p.0 <= x {
        if p.1 <= y < q.1 {
            1
        } else if q.1 <= y < p.1 {
            -1
        } else {
            0
        }
    } else {
        0
    }
}

/// What the `i`-th edge adds to the count of the edges that run past the
/// column `x` at or above the cell `(x, y)`: 1 running to the right, -1
/// running to the left.
pub open spec fn up_sign(path: Seq<(i32, i32)>, i: int, x: int, y: int) -> int {
    up_sign_of(path[i], edge_end(path, i), x, y)
}

/// What the edge from `p` to `q` adds to the count of the edges that run
/// past the column `x` at or above the cell `(x, y)`.
pub open spec fn up_sign_of(p: (i32, i32), q: (i32, i32), x: int, y: int) -> int {
    if p.1 == q.1 && p.1 <= y {
        if p.0 <= x < q.0 {
            1
        } else if q.0 <= x < p.0 {
            -1
        } else {
            0
        }
    } else {
        0
    }
}

/// The edges among the first `k` that run down past the row `y` at or to
/// the left of the cell `(x, y)`, less those that run up.
pub open spec fn left_sum(path: Seq<(i32, i32)>, k: nat, x: int, y: int) -> int
    decreases k,
{
    if k == 0 {
        0
    } else {
        left_sum(path, (k - 1) as nat, x, y) + left_sign(path, k - 1, x, y)
    }
}

/// The edges among the first `k` that run to the right past the column `x`
/// at or above the cell `(x, y)`, less those that run to the left.
pub open spec fn up_sum(path: Seq<(i32, i32)>, k: nat, x: int, y: int) -> int
    decreases k,
{
    if k == 0 {
        0
    } else {
        up_sum(path, (k - 1) as nat, x, y) + up_sign(path, k - 1, x, y)
    }
}

/// Along the path, what the edges add to the two counts is what the
/// corners lose of lying to the upper left.
proof fn lemma_sums_telescope(path: Seq<(i32, i32)>, k: nat, x: int, y: int)
    requires
        axis_parallel(path),
        k <= path.len(),
        path.len() > 0,
    ensures
        left_sum(path, k, x, y) + up_sum(path, k, x, y) == upper_left(path[0], x, y) - upper_left(
            path[k as int % (path.len() as int)],
            x,
            y,
        ),
    decreases k,
{
    let n = path.len() as int;
    if k == 0 {
        vstd::arithmetic::div_mod::lemma_small_mod(0, n as nat);
    } else {
        lemma_sums_telescope(path, (k - 1) as nat, x, y);
        vstd::arithmetic::div_mod::lemma_small_mod((k - 1) as nat, n as nat);
        assert(edge_end(path, k - 1) == path[k as int % n]);
        assert(path[k - 1].0 == edge_end(path, k - 1).0 || path[k - 1].1 == edge_end(
            path,
            k - 1,
        ).1);
    }
}

/// Around a closed path the two counts cancel.
pub proof fn lemma_sums_cancel(path: Seq<(i32, i32)>, x: int, y: int)
    requires
        axis_parallel(path),
    ensures
        left_sum(path, path.len(), x, y) + up_sum(path, path.len(), x, y) == 0,
{
    if path.len() > 0 {
        lemma_sums_telescope(path, path.len(), x, y);
        vstd::arithmetic::div_mod::lemma_mod_self_0(path.len() as int);
    }
}

/// The count of the edges that run past a row is odd where the count with
/// those running up taken off is.
proof fn lemma_crossings_parity(path: Seq<(i32, i32)>, k: nat, x: int, y: int)
    requires
        axis_parallel(path),
        k <= path.len(),
    ensures
        (crossings(path, k, y, x) - left_sum(path, k, x, y)) % 2 == 0,
    decreases k,
{
    if k > 0 {
        lemma_crossings_parity(path, (k - 1) as nat, x, y);
        let i = k - 1;
        assert(path[i].0 == edge_end(path, i).0 || path[i].1 == edge_end(path, i).1);
        let add: int = if crosses_row(path, i, y) && path[i].0 <= x {
            1
        } else {
            0
        };
        let sign = left_sign(path, i, x, y);
        assert(add == sign || add == -sign);
        let before = crossings(path, i as nat, y, x) - left_sum(path, i as nat, x, y);
        assert(crossings(path, k, y, x) - left_sum(path, k, x, y) == before + add - sign);
        assert((before + add - sign) % 2 == 0) by {
            if add == sign {
            } else {
                assert(add - sign == 2 || add - sign == -2 || add - sign == 0);
            }
        }
    }
}

/// No more edges run past a row to the left of a cell than run past the
/// row at all.
proof fn lemma_crossings_monotone(path: Seq<(i32, i32)>, k: nat, x: int, y: int)
    ensures
        crossings(path, k, y, x) <= crossings(path, k, y, i32::MAX as int),
    decreases k,
{
    if k > 0 {
        lemma_crossings_monotone(path, (k - 1) as nat, x, y);
    }
}

proof fn lemma_up_sum_beyond(path: Seq<(i32, i32)>, k: nat, y: int)
    requires
        k <= path.len(),
    ensures
        up_sum(path, k, i32::MAX as int, y) == 0,
    decreases k,
{
    if k > 0 {
        lemma_up_sum_beyond(path, (k - 1) as nat, y);
    }
}

/// As many edges of a closed path run up past a row as run down: their
/// count is even.
pub proof fn lemma_row_crossings_even(path: Seq<(i32, i32)>, y: int)
    requires
        axis_parallel(path),
    ensures
        row_crossings(path, y) % 2 == 0,
{
    lemma_sums_cancel(path, i32::MAX as int, y);
    lemma_up_sum_beyond(path, path.len(), y);
    lemma_crossings_parity(path, path.len(), i32::MAX as int, y);
}

/// A cell with an odd count to its left lies within the path.
pub proof fn lemma_odd_is_enclosed(path: Seq<(i32, i32)>, x: int, y: int)
    requires
        axis_parallel(path),
        left_sum(path, path.len(), x, y) % 2 == 1,
    ensures
        enclosed(path, x, y),
{
    lemma_row_crossings_even(path, y);
    lemma_crossings_parity(path, path.len(), x, y);
    lemma_crossings_monotone(path, path.len(), x, y);
    let c = crossings(path, path.len(), y, x) as int;
    let s = left_sum(path, path.len(), x, y);
    assert((c - s) % 2 == 0 && s % 2 == 1 ==> c % 2 == 1);
}

/// The edge from the corner `p` to the corner `q` is one step along the
/// rim of the region: the cell to its right belongs to the region, the
/// cell to its left does not.
#[verifier::opaque]
pub open spec fn rim_edge<T: PartialEq>(grid: Grid<T>, inner: T, p: (i32, i32), q: (i32, i32)) -> bool {
    ||| q.0 == p.0 && q.1 == p.1 + 1 && inside(grid, inner, p.0 - 1, p.1 as int) && !inside(
        grid,
        inner,
        p.0 as int,
        p.1 as int,
    )
    ||| q.0 == p.0 && q.1 == p.1 - 1 && inside(grid, inner, p.0 as int, q.1 as int) && !inside(
        grid,
        inner,
        p.0 - 1,
        q.1 as int,
    )
    ||| q.1 == p.1 && q.0 == p.0 + 1 && inside(grid, inner, p.0 as int, p.1 as int) && !inside(
        grid,
        inner,
        p.0 as int,
        p.1 - 1,
    )
    ||| q.1 == p.1 && q.0 == p.0 - 1 && inside(grid, inner, q.0 as int, p.1 - 1) && !inside(
        grid,
        inner,
        q.0 as int,
        p.1 as int,
    )
}

/// Every edge of the closed path is one step along the rim of the region.
pub open spec fn runs_along_rim<T: PartialEq>(grid: Grid<T>, inner: T, path: Seq<(i32, i32)>) -> bool {
    forall|i: int| 0 <= i < path.len() ==> rim_edge(grid, inner, #[trigger] path[i], edge_end(path, i))
}

proof fn lemma_first_return_is_first<T: PartialEq>(
    grid: Grid<T>,
    inner: T,
    start: (int, int),
    k: nat,
    limit: nat,
    j: nat,
)
    requires
        k <= j < first_return(grid, inner, start, k, limit),
    ensures
        !at_corner(walk(grid, inner, start, j), start),
    decreases limit - k,
{
    if k < limit && !at_corner(walk(grid, inner, start, k), start) {
        if j > k {
            lemma_first_return_is_first(grid, inner, start, k + 1, limit, j);
        }
    }
}

proof fn lemma_first_return_is_late<T: PartialEq>(
    grid: Grid<T>,
    inner: T,
    start: (int, int),
    k: nat,
    limit: nat,
)
    requires
        k <= limit,
    ensures
        k <= first_return(grid, inner, start, k, limit) <= limit,
    decreases limit - k,
{
    if k < limit && !at_corner(walk(grid, inner, start, k), start) {
        lemma_first_return_is_late(grid, inner, start, k + 1, limit);
    }
}

/// An edge of the rim is one step long, along a row or along a column.
proof fn lemma_rim_edge_is_step<T: PartialEq>(grid: Grid<T>, inner: T, p: (i32, i32), q: (i32, i32))
    requires
        rim_edge(grid, inner, p, q),
    ensures
        (q.0 == p.0 && (q.1 == p.1 + 1 || q.1 == p.1 - 1)) || (q.1 == p.1 && (q.0 == p.0 + 1 || q.0
            == p.0 - 1)),
{
    reveal(rim_edge);
}

/// No edge of the rim runs between two cells of the region that lie side
/// by side in a row.
proof fn lemma_rim_edge_in_row<T: PartialEq>(
    grid: Grid<T>,
    inner: T,
    p: (i32, i32),
    q: (i32, i32),
    x: int,
    y: int,
)
    requires
        rim_edge(grid, inner, p, q),
        inside(grid, inner, x, y),
        inside(grid, inner, x + 1, y),
    ensures
        left_sign_of(p, q, x + 1, y) == left_sign_of(p, q, x, y),
{
    reveal(rim_edge);
}

/// No edge of the rim runs between two cells of the region that lie one
/// above the other.
proof fn lemma_rim_edge_in_column<T: PartialEq>(
    grid: Grid<T>,
    inner: T,
    p: (i32, i32),
    q: (i32, i32),
    x: int,
    y: int,
)
    requires
        rim_edge(grid, inner, p, q),
        inside(grid, inner, x, y),
        inside(grid, inner, x, y + 1),
    ensures
        up_sign_of(p, q, x, y + 1) == up_sign_of(p, q, x, y),
{
    reveal(rim_edge);
}

/// An edge of the rim that runs past the column of a cell of the region
/// along the upper side of that cell, no higher than which it begins and
/// ends, is the edge that sets out from the upper left corner of the cell.
proof fn lemma_rim_edge_at_top<T: PartialEq>(
    grid: Grid<T>,
    inner: T,
    p: (i32, i32),
    q: (i32, i32),
    x: int,
    y: int,
)
    requires
        rim_edge(grid, inner, p, q),
        inside(grid, inner, x, y),
        p.1 >= y,
        q.1 >= y,
    ensures
        up_sign_of(p, q, x, y) == if p.0 == x && p.1 == y && q.0 == x + 1 {
            1int
        } else {
            0int
        },
{
    reveal(rim_edge);
}

/// The contour of a walk that sets out along the rim runs along the rim,
/// names its start once, and sets out to the right or upwards.
pub proof fn lemma_contour_runs_along_rim<T: PartialEq>(grid: Grid<T>, start: (int, int))
    requires
        grid.wf(),
        grid.width <= i32::MAX,
        grid.height <= i32::MAX,
        grid.in_bounds(start.0, start.1),
        starts_on_rim(grid, grid.at(start.0, start.1), start),
    ensures
        contour_closes(grid, start),
        contour(grid, start).len() >= 1,
        contour(grid, start)[0] == (start.0 as i32, start.1 as i32),
        runs_along_rim(grid, grid.at(start.0, start.1), contour(grid, start)),
        forall|k: int|
            1 <= k < contour(grid, start).len() ==> #[trigger] contour(grid, start)[k] != (
                start.0 as i32,
                start.1 as i32,
            ),
        edge_end(contour(grid, start), 0).1 <= start.1,
{
    let inner = grid.at(start.0, start.1);
    let path = contour(grid, start);
    let n = contour_len(grid, start);
    lemma_walk_along_rim_closes(grid, start);
    lemma_walk_on_grid(grid, inner, start, 0);
    assert(walk(grid, inner, start, 0) == Walker { x: start.0, y: start.1, heading: 0 });
    // The walker moves with its first step, so it is not back before it.
    lemma_walk_stays_on_rim(grid, inner, start, 1);
    assert(n >= 1) by {
        assert(4 * (grid.width + 1) * (grid.height + 1) >= 1) by (nonlinear_arith)
            requires
                grid.width >= 1,
                grid.height >= 1,
        ;
        lemma_first_return_is_late(grid, inner, start, 1, step_limit(grid));
    }
    assert forall|k: int| 1 <= k < path.len() implies #[trigger] path[k] != (
        start.0 as i32,
        start.1 as i32,
    ) by {
        lemma_first_return_is_first(grid, inner, start, 1, step_limit(grid), k as nat);
        lemma_walk_on_grid(grid, inner, start, k as nat);
    }
    assert forall|i: int| 0 <= i < path.len() implies rim_edge(
        grid,
        inner,
        #[trigger] path[i],
        edge_end(path, i),
    ) by {
        lemma_contour_edge(grid, start, i);
    }
    lemma_contour_edge(grid, start, 0);
    lemma_first_edge(grid, inner, start);
}

/// The first step of a walk goes up or to the right.
proof fn lemma_first_edge<T: PartialEq>(grid: Grid<T>, inner: T, start: (int, int))
    requires
        inside(grid, inner, start.0, start.1),
    ensures
        walk(grid, inner, start, 1).y <= start.1,
        walk(grid, inner, start, 1).x >= start.0,
{
    reveal_with_fuel(try_from, 3);
    assert(walk(grid, inner, start, 0) == Walker { x: start.0, y: start.1, heading: 0 });
    assert(walk(grid, inner, start, 1) == step(grid, inner, walk(grid, inner, start, 0)));
}

/// The `k`-th edge of the contour of a walk that sets out along the rim is
/// one step along the rim.
#[verifier::rlimit(30)]
proof fn lemma_contour_edge<T: PartialEq>(grid: Grid<T>, start: (int, int), k: int)
    requires
        grid.wf(),
        grid.width <= i32::MAX,
        grid.height <= i32::MAX,
        grid.in_bounds(start.0, start.1),
        starts_on_rim(grid, grid.at(start.0, start.1), start),
        contour_closes(grid, start),
        0 <= k < contour(grid, start).len(),
    ensures
        rim_edge(
            grid,
            grid.at(start.0, start.1),
            contour(grid, start)[k],
            edge_end(contour(grid, start), k),
        ),
        contour(grid, start)[k] == (
            walk(grid, grid.at(start.0, start.1), start, k as nat).x as i32,
            walk(grid, grid.at(start.0, start.1), start, k as nat).y as i32,
        ),
        edge_end(contour(grid, start), k) == (
            walk(grid, grid.at(start.0, start.1), start, (k + 1) as nat).x as i32,
            walk(grid, grid.at(start.0, start.1), start, (k + 1) as nat).y as i32,
        ),
{
    let inner = grid.at(start.0, start.1);
    let path = contour(grid, start);
    let n = contour_len(grid, start) as int;
    let w = walk(grid, inner, start, k as nat);
    let next = walk(grid, inner, start, (k + 1) as nat);
    lemma_walk_on_grid(grid, inner, start, k as nat);
    lemma_walk_on_grid(grid, inner, start, (k + 1) as nat);
    lemma_walk_stays_on_rim(grid, inner, start, (k + 1) as nat);
    if k >= 1 {
        lemma_walk_stays_on_rim(grid, inner, start, k as nat);
    } else {
        assert(w == Walker { x: start.0, y: start.1, heading: 0 });
    }
    assert(back(grid, inner, next).x == w.x && back(grid, inner, next).y == w.y);
    if k + 1 < n {
        vstd::arithmetic::div_mod::lemma_small_mod((k + 1) as nat, n as nat);
    } else {
        vstd::arithmetic::div_mod::lemma_mod_self_0(n);
        lemma_walk_on_grid(grid, inner, start, 0);
    }
    reveal(rim_edge);
    let a = arrival(next);
    assert(on_rim(grid, inner, next));
    assert(quarter(grid, inner, next.x, next.y, a + 1));
    assert(!quarter(grid, inner, next.x, next.y, a + 2));
    if a == 0 {
    } else if a == 1 {
    } else if a == 2 {
    } else {
    }
}

/// Two cells of the region side by side in a row have the same count to
/// their left.
proof fn lemma_left_sum_along_row<T: PartialEq>(
    grid: Grid<T>,
    inner: T,
    path: Seq<(i32, i32)>,
    k: nat,
    x: int,
    y: int,
)
    requires
        runs_along_rim(grid, inner, path),
        k <= path.len(),
        inside(grid, inner, x, y),
        inside(grid, inner, x + 1, y),
    ensures
        left_sum(path, k, x + 1, y) == left_sum(path, k, x, y),
    decreases k,
{
    if k > 0 {
        lemma_left_sum_along_row(grid, inner, path, (k - 1) as nat, x, y);
        assert(rim_edge(grid, inner, path[k - 1], edge_end(path, k - 1)));
        lemma_rim_edge_in_row(grid, inner, path[k - 1], edge_end(path, k - 1), x, y);
    }
}

/// Two cells of the region one above the other have the same count above
/// them.
proof fn lemma_up_sum_along_column<T: PartialEq>(
    grid: Grid<T>,
    inner: T,
    path: Seq<(i32, i32)>,
    k: nat,
    x: int,
    y: int,
)
    requires
        runs_along_rim(grid, inner, path),
        k <= path.len(),
        inside(grid, inner, x, y),
        inside(grid, inner, x, y + 1),
    ensures
        up_sum(path, k, x, y + 1) == up_sum(path, k, x, y),
    decreases k,
{
    if k > 0 {
        lemma_up_sum_along_column(grid, inner, path, (k - 1) as nat, x, y);
        assert(rim_edge(grid, inner, path[k - 1], edge_end(path, k - 1)));
        lemma_rim_edge_in_column(grid, inner, path[k - 1], edge_end(path, k - 1), x, y);
    }
}

proof fn lemma_rim_is_axis_parallel<T: PartialEq>(grid: Grid<T>, inner: T, path: Seq<(i32, i32)>)
    requires
        runs_along_rim(grid, inner, path),
    ensures
        axis_parallel(path),
{
    assert forall|i: int| 0 <= i < path.len() implies (#[trigger] path[i]).0 == edge_end(path, i).0
        || path[i].1 == edge_end(path, i).1 by {
        lemma_rim_edge_is_step(grid, inner, path[i], edge_end(path, i));
    }
}

/// Two cells of the region side by side have the same count to their
/// left.
pub proof fn lemma_left_sum_of_neighbours<T: PartialEq>(
    grid: Grid<T>,
    inner: T,
    path: Seq<(i32, i32)>,
    p: (int, int),
    q: (int, int),
)
    requires
        runs_along_rim(grid, inner, path),
        adjacent(p, q),
        inside(grid, inner, p.0, p.1),
        inside(grid, inner, q.0, q.1),
    ensures
        left_sum(path, path.len(), p.0, p.1) == left_sum(path, path.len(), q.0, q.1),
{
    lemma_rim_is_axis_parallel(grid, inner, path);
    let n = path.len();
    if p.1 == q.1 {
        if q.0 == p.0 + 1 {
            lemma_left_sum_along_row(grid, inner, path, n, p.0, p.1);
        } else {
            lemma_left_sum_along_row(grid, inner, path, n, q.0, q.1);
        }
    } else {
        lemma_sums_cancel(path, p.0, p.1);
        lemma_sums_cancel(path, q.0, q.1);
        if q.1 == p.1 + 1 {
            lemma_up_sum_along_column(grid, inner, path, n, p.0, p.1);
        } else {
            lemma_up_sum_along_column(grid, inner, path, n, q.0, q.1);
        }
    }
}

/// Where no corner of the path lies above its first corner, and the path
/// sets out from there along the upper side of a cell of the region, one
/// edge runs past the column of that cell at or above it.
proof fn lemma_up_sum_at_start<T: PartialEq>(
    grid: Grid<T>,
    inner: T,
    path: Seq<(i32, i32)>,
    k: nat,
)
    requires
        runs_along_rim(grid, inner, path),
        path.len() >= 1,
        k <= path.len(),
        inside(grid, inner, path[0].0 as int, path[0].1 as int),
        forall|i: int| 0 <= i < path.len() ==> (#[trigger] path[i]).1 >= path[0].1,
        forall|i: int| 1 <= i < path.len() ==> #[trigger] path[i] != path[0],
        edge_end(path, 0).1 <= path[0].1,
        edge_end(path, 0).0 >= path[0].0,
    ensures
        up_sum(path, k, path[0].0 as int, path[0].1 as int) == if k >= 1 {
            1int
        } else {
            0int
        },
    decreases k,
{
    let (sx, sy) = (path[0].0 as int, path[0].1 as int);
    let n = path.len() as int;
    if k > 0 {
        lemma_up_sum_at_start(grid, inner, path, (k - 1) as nat);
        let i = k - 1;
        let p = path[i];
        let q = edge_end(path, i);
        assert(rim_edge(grid, inner, p, q));
        if i + 1 < n {
            vstd::arithmetic::div_mod::lemma_small_mod((i + 1) as nat, n as nat);
            assert(q == path[i + 1]);
        } else {
            vstd::arithmetic::div_mod::lemma_mod_self_0(n);
            assert(q == path[0]);
        }
        assert(q.1 >= sy);
        assert(p.1 >= sy);
        lemma_rim_edge_at_top(grid, inner, p, q, sx, sy);
        lemma_rim_edge_is_step(grid, inner, p, q);
        if i == 0 {
            assert(q.0 == sx + 1);
        } else {
            assert(p != path[0]);
        }
    }
}

/// The cells of `trail` all belong to the region, and each lies beside
/// the one before it.
pub open spec fn is_inner_trail<T: PartialEq>(grid: Grid<T>, inner: T, trail: Seq<(int, int)>) -> bool {
    &&& trail.len() >= 1
    &&& forall|i: int|
        0 <= i < trail.len() ==> inside(grid, inner, (#[trigger] trail[i]).0, trail[i].1)
    &&& forall|i: int| 0 <= i < trail.len() - 1 ==> adjacent(#[trigger] trail[i], trail[i + 1])
}

proof fn lemma_left_sum_along_trail<T: PartialEq>(
    grid: Grid<T>,
    inner: T,
    path: Seq<(i32, i32)>,
    trail: Seq<(int, int)>,
)
    requires
        runs_along_rim(grid, inner, path),
        is_inner_trail(grid, inner, trail),
    ensures
        left_sum(path, path.len(), trail.last().0, trail.last().1) == left_sum(
            path,
            path.len(),
            trail.first().0,
            trail.first().1,
        ),
    decreases trail.len(),
{
    if trail.len() > 1 {
        let front = trail.drop_last();
        assert forall|i: int| 0 <= i < front.len() implies inside(
            grid,
            inner,
            (#[trigger] front[i]).0,
            front[i].1,
        ) by {
            assert(front[i] == trail[i]);
        }
        assert forall|i: int| 0 <= i < front.len() - 1 implies adjacent(
            #[trigger] front[i],
            front[i + 1],
        ) by {
            assert(front[i] == trail[i] && front[i + 1] == trail[i + 1]);
            assert(adjacent(trail[i], trail[i + 1]));
        }
        lemma_left_sum_along_trail(grid, inner, path, front);
        let k = trail.len() - 2;
        assert(front.last() == trail[k]);
        assert(adjacent(trail[k], trail[k + 1]));
        lemma_left_sum_of_neighbours(grid, inner, path, trail[k], trail[k + 1]);
    }
}

/// Filling the contour of a region covers the region. Where the walk sets
/// out along the rim from the cell `start`, and no corner of its contour
/// lies above `start`, every cell that a trail of cells of the region
/// joins to `start` lies within the contour.
pub proof fn lemma_contour_encloses_region<T: PartialEq>(
    grid: Grid<T>,
    start: (int, int),
    trail: Seq<(int, int)>,
)
    requires
        grid.wf(),
        grid.width <= i32::MAX,
        grid.height <= i32::MAX,
        grid.in_bounds(start.0, start.1),
        starts_on_rim(grid, grid.at(start.0, start.1), start),
        forall|i: int|
            0 <= i < contour(grid, start).len() ==> (#[trigger] contour(grid, start)[i]).1
                >= start.1,
        is_inner_trail(grid, grid.at(start.0, start.1), trail),
        trail.first() == start,
    ensures
        enclosed(contour(grid, start), trail.last().0, trail.last().1),
{
    let inner = grid.at(start.0, start.1);
    let path = contour(grid, start);
    lemma_contour_runs_along_rim(grid, start);
    lemma_rim_is_axis_parallel(grid, inner, path);
    lemma_first_edge(grid, inner, start);
    lemma_contour_edge(grid, start, 0);
    lemma_walk_on_grid(grid, inner, start, 1);
    lemma_up_sum_at_start(grid, inner, path, path.len());
    lemma_sums_cancel(path, start.0, start.1);
    lemma_left_sum_along_trail(grid, inner, path, trail);
    assert(left_sum(path, path.len(), trail.last().0, trail.last().1) == -1);
    lemma_odd_is_enclosed(path, trail.last().0, trail.last().1);
}

/// The round trip of tracing and filling: where the contour of the region
/// at `start` is filled into a mask as large as the grid, every cell that a
/// trail of cells of the region joins to `start` holds the fill value
/// afterwards. The walk has to set out along the rim, with no corner of
/// its contour above `start`, as it does from the first cell of a region
/// in row-major order.
pub proof fn lemma_filled_contour_covers_region<T: PartialEq, U>(
    grid: Grid<T>,
    mask: Grid<U>,
    value: U,
    start: (int, int),
    trail: Seq<(int, int)>,
)
    requires
        grid.wf(),
        grid.width <= i32::MAX,
        grid.height <= i32::MAX,
        mask.wf(),
        mask.width == grid.width,
        mask.height == grid.height,
        grid.in_bounds(start.0, start.1),
        starts_on_rim(grid, grid.at(start.0, start.1), start),
        forall|i: int|
            0 <= i < contour(grid, start).len() ==> (#[trigger] contour(grid, start)[i]).1
                >= start.1,
        is_inner_trail(grid, grid.at(start.0, start.1), trail),
        trail.first() == start,
    ensures
        crate::trace_contours::filled(mask, contour(grid, start), value).at(
            trail.last().0,
            trail.last().1,
        ) == value,
{
    lemma_contour_encloses_region(grid, start, trail);
    let p = trail.last();
    assert(inside(grid, grid.at(start.0, start.1), p.0, p.1));
    lemma_offset_in_range(mask.width, mask.height, p.0, p.1);
}

} // verus!
