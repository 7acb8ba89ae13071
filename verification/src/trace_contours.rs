//! Outer contours of the regions of a grid, as closed paths along the
//! corners of its cells.

use std::collections::HashMap;
use vstd::prelude::*;
use vstd::std_specs::cmp::PartialEqSpec;
use crate::array_2d::{lemma_coord_in_bounds, lemma_offset_in_range, Array2D, Grid};

verus! {

/// A walker on the corners of a grid. The corner `(x, y)` is the upper left
/// corner of the cell `(x, y)`. `heading` is the direction that the walker
/// tries first: 0 is up, 1 right, 2 down, 3 left.
pub struct Walker {
    pub x: int,
    pub y: int,
    pub heading: int,
}

/// The cell, relative to a corner, that lies to the right of the edge which
/// leaves that corner in direction `d`.
pub open spec fn read_offset(d: int) -> (int, int) {
    if d == 0 {
        (0, -1)
    } else if d == 1 {
        (0, 0)
    } else if d == 2 {
        (-1, 0)
    } else {
        (-1, -1)
    }
}

/// One move in direction `d`.
pub open spec fn search_direction(d: int) -> (int, int) {
    if d == 0 {
        (0, -1)
    } else if d == 1 {
        (1, 0)
    } else if d == 2 {
        (0, 1)
    } else {
        (-1, 0)
    }
}

/// The cell `(x, y)` lies in the grid and holds a value equal to `inner`.
pub open spec fn inside<T: PartialEq>(grid: Grid<T>, inner: T, x: int, y: int) -> bool {
    grid.in_bounds(x, y) && grid.at(x, y).eq_spec(&inner)
}

/// The walker may leave its corner in direction `d`: the cell to the right
/// of that edge belongs to the region.
pub open spec fn may_go<T: PartialEq>(grid: Grid<T>, inner: T, w: Walker, d: int) -> bool {
    inside(grid, inner, w.x + read_offset(d).0, w.y + read_offset(d).1)
}

/// The walker after a move in direction `d`. It will next try the direction
/// to the left of `d` first.
pub open spec fn moved(w: Walker, d: int) -> Walker {
    Walker {
        x: w.x + search_direction(d).0,
        y: w.y + search_direction(d).1,
        heading: (d + 3) % 4,
    }
}

/// The walker after it has tried the `j`-th and the later directions,
/// counted clockwise from its heading, and taken the first that it may go.
/// A walker that may go nowhere stays as it is.
pub open spec fn try_from<T: PartialEq>(grid: Grid<T>, inner: T, w: Walker, j: int) -> Walker
    decreases 4 - j,
{
    if j < 0 || j >= 4 {
        w
    } else if may_go(grid, inner, w, (w.heading + j) % 4) {
        moved(w, (w.heading + j) % 4)
    } else {
        try_from(grid, inner, w, j + 1)
    }
}

/// One step of the walk.
pub open spec fn step<T: PartialEq>(grid: Grid<T>, inner: T, w: Walker) -> Walker {
    try_from(grid, inner, w, 0)
}

/// The walker after `k` steps from the corner `start`, heading up at first.
pub open spec fn walk<T: PartialEq>(grid: Grid<T>, inner: T, start: (int, int), k: nat) -> Walker
    decreases k,
{
    if k == 0 {
        Walker { x: start.0, y: start.1, heading: 0 }
    } else {
        step(grid, inner, walk(grid, inner, start, (k - 1) as nat))
    }
}

/// The walker stands on the corner.
pub open spec fn at_corner(w: Walker, corner: (int, int)) -> bool {
    w.x == corner.0 && w.y == corner.1
}

/// The number of walker states on a grid: four headings at each corner. A
/// walk that has not come back to its start after this many steps never
/// will.
pub open spec fn step_limit<T>(grid: Grid<T>) -> nat {
    (4 * (grid.width + 1) * (grid.height + 1)) as nat
}

/// The least `n` with `k <= n < limit` such that the walker is back at
/// `start` after `n` steps, and `limit` if there is none.
pub open spec fn first_return<T: PartialEq>(
    grid: Grid<T>,
    inner: T,
    start: (int, int),
    k: nat,
    limit: nat,
) -> nat
    decreases limit - k,
{
    if k >= limit {
        limit
    } else if at_corner(walk(grid, inner, start, k), start) {
        k
    } else {
        first_return(grid, inner, start, k + 1, limit)
    }
}

/// The number of corners on the contour through `start`: the number of
/// steps after which the walker is first back at `start`.
pub open spec fn contour_len<T: PartialEq>(grid: Grid<T>, start: (int, int)) -> nat {
    first_return(grid, grid.at(start.0, start.1), start, 1, step_limit(grid))
}

/// The walk closes: the walker comes back to `start`.
pub open spec fn contour_closes<T: PartialEq>(grid: Grid<T>, start: (int, int)) -> bool {
    at_corner(walk(grid, grid.at(start.0, start.1), start, contour_len(grid, start)), start)
}

/// The corners that the walker visits from `start` until it is back there,
/// `start` first and named once.
pub open spec fn contour<T: PartialEq>(grid: Grid<T>, start: (int, int)) -> Seq<(i32, i32)> {
    Seq::new(
        contour_len(grid, start),
        |k: int|
            {
                let w = walk(grid, grid.at(start.0, start.1), start, k as nat);
                (w.x as i32, w.y as i32)
            },
    )
}

/// A walker that stands on a corner of the grid.
pub open spec fn on_grid<T>(grid: Grid<T>, w: Walker) -> bool {
    &&& 0 <= w.x <= grid.width
    &&& 0 <= w.y <= grid.height
    &&& 0 <= w.heading < 4
}

proof fn lemma_try_from<T: PartialEq>(grid: Grid<T>, inner: T, w: Walker, j: int)
    requires
        on_grid(grid, w),
        0 <= j <= 4,
    ensures
        on_grid(grid, try_from(grid, inner, w, j)),
        ({
            let n = try_from(grid, inner, w, j);
            let (dx, dy) = (n.x - w.x, n.y - w.y);
            (dx == 0 && dy == 0) || (dx == 0 && (dy == 1 || dy == -1)) || (dy == 0 && (dx == 1 || dx
                == -1))
        }),
    decreases 4 - j,
{
    if j < 4 && !may_go(grid, inner, w, (w.heading + j) % 4) {
        lemma_try_from(grid, inner, w, j + 1);
    }
}

/// The walker never leaves the corners of the grid, and each step takes it
/// to a neighbouring corner or leaves it where it is.
pub proof fn lemma_walk_on_grid<T: PartialEq>(grid: Grid<T>, inner: T, start: (int, int), k: nat)
    requires
        0 <= start.0 <= grid.width,
        0 <= start.1 <= grid.height,
    ensures
        on_grid(grid, walk(grid, inner, start, k)),
        ({
            let w = walk(grid, inner, start, k);
            let n = walk(grid, inner, start, k + 1);
            let (dx, dy) = (n.x - w.x, n.y - w.y);
            (dx == 0 && dy == 0) || (dx == 0 && (dy == 1 || dy == -1)) || (dy == 0 && (dx == 1 || dx
                == -1))
        }),
    decreases k,
{
    if k > 0 {
        lemma_walk_on_grid(grid, inner, start, (k - 1) as nat);
        lemma_try_from(grid, inner, walk(grid, inner, start, (k - 1) as nat), 0);
    }
    lemma_try_from(grid, inner, walk(grid, inner, start, k), 0);
    assert(walk(grid, inner, start, k + 1) == step(grid, inner, walk(grid, inner, start, k)));
}

proof fn lemma_first_return<T: PartialEq>(
    grid: Grid<T>,
    inner: T,
    start: (int, int),
    k: nat,
    n: nat,
    limit: nat,
)
    requires
        k <= n <= limit,
        forall|j: nat| k <= j < n ==> !at_corner(#[trigger] walk(grid, inner, start, j), start),
        n == limit || at_corner(walk(grid, inner, start, n), start),
    ensures
        first_return(grid, inner, start, k, limit) == n,
    decreases n - k,
{
    if k < n {
        lemma_first_return(grid, inner, start, k + 1, n, limit);
    }
}

/// One step of the walk from the corner `location`.
fn advance<T: Eq + Copy>(
    array: &Array2D<T>,
    inner: T,
    location: (i32, i32),
    heading: u8,
) -> (r: ((i32, i32), u8))
    requires
        array@.wf(),
        T::obeys_eq_spec(),
        on_grid(array@, Walker { x: location.0 as int, y: location.1 as int, heading: heading as int }),
    ensures
        (Walker { x: r.0.0 as int, y: r.0.1 as int, heading: r.1 as int }) == step(
            array@,
            inner,
            Walker { x: location.0 as int, y: location.1 as int, heading: heading as int },
        ),
{
    let width = array.width();
    let height = array.height();
    let (lx, ly) = location;
    let ghost w = Walker { x: lx as int, y: ly as int, heading: heading as int };
    let mut j: u8 = 0;
    while j < 4
        invariant
            0 <= j <= 4,
            array@.wf(),
            T::obeys_eq_spec(),
            width == array@.width,
            height == array@.height,
            on_grid(array@, w),
            location == (lx, ly),
            w == (Walker { x: lx as int, y: ly as int, heading: heading as int }),
            step(array@, inner, w) == try_from(array@, inner, w, j as int),
        decreases 4 - j,
    {
        let d: u8 = (heading + j) % 4;
        let (vx, vy): (i32, i32) = if d == 0 {
            (0, -1)
        } else if d == 1 {
            (0, 0)
        } else if d == 2 {
            (-1, 0)
        } else {
            (-1, -1)
        };
        let (rx, ry) = (lx + vx, ly + vy);
        if !(rx < 0 || rx >= width || ry < 0 || ry >= height) {
            let same = *array.get(rx, ry) == inner;
            assert(same == may_go(array@, inner, w, d as int));
            if same {
                let (dx, dy): (i32, i32) = if d == 0 {
                    (0, -1)
                } else if d == 1 {
                    (1, 0)
                } else if d == 2 {
                    (0, 1)
                } else {
                    (-1, 0)
                };
                assert(try_from(array@, inner, w, j as int) == moved(w, d as int));
                return ((lx + dx, ly + dy), (d + 3) % 4);
            }
        } else {
            assert(!may_go(array@, inner, w, d as int));
        }
        assert(try_from(array@, inner, w, j as int) == try_from(array@, inner, w, j + 1));
        j += 1;
    }
    (location, heading)
}

/// Walks from `start` until the walker is back there, and tells whether it
/// came back.
pub(crate) fn trace_walk<T: Eq + Copy>(start: (i32, i32), array: &Array2D<T>) -> (r: (
    Vec<(i32, i32)>,
    bool,
))
    requires
        array@.wf(),
        array@.in_bounds(start.0 as int, start.1 as int),
        T::obeys_eq_spec(),
    ensures
        r.0@ == contour(array@, (start.0 as int, start.1 as int)),
        r.1 == contour_closes(array@, (start.0 as int, start.1 as int)),
{
    let inner = *array.get(start.0, start.1);
    let columns: u128 = array.width() as u128 + 1;
    let rows: u128 = array.height() as u128 + 1;
    assert(4 * columns * rows <= 0x1_0000_0000_0000_0000) by (nonlinear_arith)
        requires
            0 <= columns <= 0x8000_0000,
            0 <= rows <= 0x8000_0000,
    ;
    let limit: u128 = 4 * columns * rows;
    let ghost origin = (start.0 as int, start.1 as int);
    let mut result: Vec<(i32, i32)> = Vec::new();
    result.push(start);
    let mut location = start;
    let mut heading: u8 = 0;
    let mut moves: u128 = 0;
    let mut closed = false;
    proof {
        assert(4 * (array@.width + 1) * (array@.height + 1) >= 4) by (nonlinear_arith)
            requires
                array@.width >= 1,
                array@.height >= 1,
        ;
    }
    loop
        invariant_except_break
            moves < limit,
            result@.len() == moves + 1,
            !closed,
            forall|k: nat|
                1 <= k <= moves ==> !at_corner(#[trigger] walk(array@, inner, origin, k), origin),
        invariant
            array@.wf(),
            T::obeys_eq_spec(),
            origin == (start.0 as int, start.1 as int),
            array@.in_bounds(origin.0, origin.1),
            inner == array@.at(origin.0, origin.1),
            limit == step_limit(array@),
            moves <= limit,
            (Walker { x: location.0 as int, y: location.1 as int, heading: heading as int }) == walk(
                array@,
                inner,
                origin,
                moves as nat,
            ),
            forall|k: int|
                0 <= k < result@.len() ==> {
                    let w = walk(array@, inner, origin, k as nat);
                    #[trigger] result@[k] == (w.x as i32, w.y as i32)
                },
        ensures
            1 <= moves <= limit,
            result@.len() == moves,
            closed == at_corner(walk(array@, inner, origin, moves as nat), origin),
            closed || moves == limit,
            forall|k: nat| 1 <= k < moves ==> !at_corner(#[trigger] walk(array@, inner, origin, k), origin),
        decreases limit - moves,
    {
        proof {
            lemma_walk_on_grid(array@, inner, origin, moves as nat);
            lemma_walk_on_grid(array@, inner, origin, (moves + 1) as nat);
        }
        let (next, next_heading) = advance(array, inner, location, heading);
        moves += 1;
        location = next;
        heading = next_heading;
        if location.0 == start.0 && location.1 == start.1 {
            closed = true;
            break ;
        }
        if moves == limit {
            break ;
        }
        result.push(location);
    }
    proof {
        lemma_first_return(array@, inner, origin, 1, moves as nat, limit as nat);
        assert(result@ =~= contour(array@, origin));
    }
    (result, closed)
}

/// The outer contour of the region that holds the cell `start`: the corners
/// that a walker visits who sets out from the upper left corner of that
/// cell and keeps the cells equal to the one at `start` on its right, until
/// it is back where it set out.
pub fn trace_outer_contour<T: Eq + Copy>(start: (i32, i32), array: &Array2D<T>) -> (result: Vec<
    (i32, i32),
>)
    requires
        array@.wf(),
        array@.in_bounds(start.0 as int, start.1 as int),
        T::obeys_eq_spec(),
    ensures
        result@ == contour(array@, (start.0 as int, start.1 as int)),
{
    trace_walk(start, array).0
}

/// The corner that the `i`-th edge of the closed path leads to. The edge
/// sets out from `path[i]`; the last edge leads back to `path[0]`.
pub open spec fn edge_end(path: Seq<(i32, i32)>, i: int) -> (i32, i32) {
    path[(i + 1) % (path.len() as int)]
}

/// The `i`-th edge of the path runs past the row `y` of cells: it is not
/// horizontal, and `y` lies between its ends, the lower end included and
/// the upper not.
pub open spec fn crosses_row(path: Seq<(i32, i32)>, i: int, y: int) -> bool {
    let p = path[i];
    let q = edge_end(path, i);
    p.1 != q.1 && (if p.1 < q.1 {
        p.1 <= y < q.1
    } else {
        q.1 <= y < p.1
    })
}

/// How many of the first `n` edges of the path run past the row `y` at or
/// to the left of the left side of the cell `(x, y)`.
pub open spec fn crossings(path: Seq<(i32, i32)>, n: nat, y: int, x: int) -> nat
    decreases n,
{
    if n == 0 {
        0
    } else {
        crossings(path, (n - 1) as nat, y, x) + if crosses_row(path, n - 1, y) && path[n - 1].0
            <= x {
            1nat
        } else {
            0nat
        }
    }
}

/// How many edges of the path run past the row `y`.
pub open spec fn row_crossings(path: Seq<(i32, i32)>, y: int) -> nat {
    crossings(path, path.len(), y, i32::MAX as int)
}

/// The cell `(x, y)` lies within the path: an odd number of edges run past
/// its row to its left, and at least one to its right.
pub open spec fn enclosed(path: Seq<(i32, i32)>, x: int, y: int) -> bool {
    let c = crossings(path, path.len(), y, x);
    c % 2 == 1 && c < row_crossings(path, y)
}

/// A closed path along the corners of the grid whose edges are horizontal or
/// vertical.
pub open spec fn lattice_path<T>(grid: Grid<T>, path: Seq<(i32, i32)>) -> bool {
    forall|i: int|
        0 <= i < path.len() ==> {
            &&& 0 <= (#[trigger] path[i]).0 <= grid.width
            &&& 0 <= path[i].1 <= grid.height
            &&& path[i].1 != edge_end(path, i).1 ==> path[i].0 == edge_end(path, i).0
        }
}

/// The grid with `value` in every cell that lies within the path, and its
/// other cells as they are.
pub open spec fn filled<T>(grid: Grid<T>, path: Seq<(i32, i32)>, value: T) -> Grid<T> {
    Grid {
        width: grid.width,
        height: grid.height,
        cells: Seq::new(
            grid.cells.len(),
            |k: int|
                if enclosed(path, k % grid.width, k / grid.width) {
                    value
                } else {
                    grid.cells[k]
                },
        ),
    }
}

/// How many entries of `s` are at most `x`.
pub open spec fn count_le(s: Seq<i32>, x: int) -> nat
    decreases s.len(),
{
    if s.len() == 0 {
        0
    } else {
        count_le(s.drop_last(), x) + if s.last() <= x {
            1nat
        } else {
            0nat
        }
    }
}

/// No entry of the sequence is less than one before it.
pub open spec fn ascending(s: Seq<i32>) -> bool {
    forall|a: int, b: int| 0 <= a <= b < s.len() ==> s[a] <= s[b]
}

proof fn lemma_count_le_insert(s: Seq<i32>, pos: int, v: i32, x: int)
    requires
        0 <= pos <= s.len(),
    ensures
        count_le(s.insert(pos, v), x) == count_le(s, x) + if v <= x {
            1nat
        } else {
            0nat
        },
    decreases s.len(),
{
    let t = s.insert(pos, v);
    if pos == s.len() {
        assert(t.drop_last() =~= s);
    } else {
        assert(t.drop_last() =~= s.drop_last().insert(pos, v));
        assert(t.last() == s.last());
        lemma_count_le_insert(s.drop_last(), pos, v, x);
    }
}

/// In an ascending sequence the number of entries at most `x` is the place
/// where `x` would go.
proof fn lemma_rank(s: Seq<i32>, x: int)
    requires
        ascending(s),
    ensures
        count_le(s, x) <= s.len(),
        count_le(s, x) > 0 ==> s[count_le(s, x) - 1] <= x,
        count_le(s, x) < s.len() ==> x < s[count_le(s, x) as int],
    decreases s.len(),
{
    if s.len() > 0 {
        let front = s.drop_last();
        assert forall|a: int, b: int| 0 <= a <= b < front.len() implies front[a] <= front[b] by {
            assert(front[a] == s[a] && front[b] == s[b]);
        }
        lemma_rank(front, x);
        let c = count_le(front, x);
        if c < front.len() {
            assert(front[c as int] == s[c as int]);
            assert(s[c as int] <= s.last());
        }
        if c > 0 {
            assert(front[c - 1] == s[c - 1]);
        }
    }
}

proof fn lemma_no_crossings(path: Seq<(i32, i32)>, n: nat, y: int, x: int, low: int, high: int)
    requires
        n <= path.len(),
        forall|i: int| 0 <= i < path.len() ==> low <= (#[trigger] path[i]).1 <= high,
        y < low || y >= high,
    ensures
        crossings(path, n, y, x) == 0,
    decreases n,
{
    if n > 0 {
        lemma_no_crossings(path, (n - 1) as nat, y, x, low, high);
        let i = n - 1;
        let j = (i + 1) % (path.len() as int);
        assert(low <= path[i].1 <= high);
        assert(low <= path[j].1 <= high);
    }
}

/// What has been written while the rows below `row` are done, and in the
/// row `row` the first `pairs` spans and the cells left of `upto` of the
/// next span.
spec fn painted(path: Seq<(i32, i32)>, row: int, pairs: int, upto: int, x: int, y: int) -> bool {
    let c = crossings(path, path.len(), y, x);
    if y < row {
        enclosed(path, x, y)
    } else if y == row {
        c % 2 == 1 && (c < 2 * pairs || (c == 2 * pairs + 1 && x < upto))
    } else {
        false
    }
}

spec fn painted_grid<T>(
    now: Grid<T>,
    before: Grid<T>,
    value: T,
    path: Seq<(i32, i32)>,
    row: int,
    pairs: int,
    upto: int,
) -> bool {
    &&& now.wf()
    &&& now.width == before.width
    &&& now.height == before.height
    &&& forall|x: int, y: int|
        before.in_bounds(x, y) ==> #[trigger] now.at(x, y) == if painted(
            path,
            row,
            pairs,
            upto,
            x,
            y,
        ) {
            value
        } else {
            before.at(x, y)
        }
}

/// Puts `x` into the ascending `xs` where it belongs.
fn insert_ascending(xs: &mut Vec<i32>, x: i32)
    requires
        ascending(old(xs)@),
    ensures
        ascending(final(xs)@),
        final(xs)@.len() == old(xs)@.len() + 1,
        forall|v: int|
            count_le(final(xs)@, v) == count_le(old(xs)@, v) + if x <= v {
                1nat
            } else {
                0nat
            },
{
    let mut pos: usize = 0;
    while pos < xs.len() && xs[pos] <= x
        invariant
            pos <= xs@.len(),
            xs@ == old(xs)@,
            forall|a: int| 0 <= a < pos ==> xs@[a] <= x,
        decreases xs@.len() - pos,
    {
        pos += 1;
    }
    xs.insert(pos, x);
    proof {
        assert forall|v: int|
            count_le(xs@, v) == count_le(old(xs)@, v) + if x <= v {
                1nat
            } else {
                0nat
            } by {
            lemma_count_le_insert(old(xs)@, pos as int, x, v);
        }
    }
}

/// The columns at which the edges of `contour` run past the row `y`, in
/// ascending order.
fn row_columns(contour: &Vec<(i32, i32)>, y: i32) -> (xs: Vec<i32>)
    requires
        contour@.len() > 0,
    ensures
        ascending(xs@),
        xs@.len() == row_crossings(contour@, y as int),
        forall|v: int| count_le(xs@, v) == crossings(contour@, contour@.len(), y as int, v),
{
    let n = contour.len();
    let mut xs: Vec<i32> = Vec::new();
    let mut i: usize = 0;
    while i < n
        invariant
            n == contour@.len(),
            n > 0,
            i <= n,
            ascending(xs@),
            xs@.len() <= i,
            forall|v: int| count_le(xs@, v) == crossings(contour@, i as nat, y as int, v),
        decreases n - i,
    {
        let p1 = contour[i];
        let p2 = contour[if i + 1 == n {
            0
        } else {
            i + 1
        }];
        assert(p2 == edge_end(contour@, i as int)) by {
            if i + 1 == n {
                vstd::arithmetic::div_mod::lemma_mod_self_0(n as int);
            } else {
                vstd::arithmetic::div_mod::lemma_small_mod((i + 1) as nat, n as nat);
            }
        }
        let crossing = if p1.1 < p2.1 {
            p1.1 <= y && y < p2.1
        } else if p2.1 < p1.1 {
            p2.1 <= y && y < p1.1
        } else {
            false
        };
        assert(crossing == crosses_row(contour@, i as int, y as int));
        if crossing {
            insert_ascending(&mut xs, p1.0);
        }
        i += 1;
    }
    proof {
        lemma_rank(xs@, i32::MAX as int);
    }
    xs
}

/// Writes `value` into every cell that lies within the closed path
/// `contour`. The path runs along cell corners, as a traced contour does;
/// cells outside it are left as they are.
pub fn fill_contour<T: Eq + Copy>(array: &mut Array2D<T>, contour: &Vec<(i32, i32)>, value: T)
    requires
        old(array)@.wf(),
        lattice_path(old(array)@, contour@),
    ensures
        final(array)@ == filled(old(array)@, contour@, value),
        final(array)@.wf(),
{
    let n = contour.len();
    let ghost path = contour@;
    let ghost before = array@;
    if n == 0 {
        proof {
            assert(array@.cells =~= filled(before, path, value).cells);
        }
        return ;
    }
    // The rows that the path reaches.
    let mut low: i32 = contour[0].1;
    let mut high: i32 = contour[0].1;
    let mut i: usize = 1;
    while i < n
        invariant
            n == path.len(),
            path == contour@,
            1 <= i <= n,
            lattice_path(before, path),
            0 <= low <= high <= before.height,
            forall|k: int| 0 <= k < i ==> low <= (#[trigger] path[k]).1 <= high,
        decreases n - i,
    {
        let y = contour[i].1;
        if y < low {
            low = y;
        }
        if y > high {
            high = y;
        }
        i += 1;
    }
    let mut y: i32 = low;
    proof {
        assert forall|x: int, y2: int| before.in_bounds(x, y2) implies !painted(
            path,
            low as int,
            0,
            0,
            x,
            y2,
        ) by {
            if y2 < low {
                lemma_no_crossings(path, path.len(), y2, x, low as int, high as int);
            }
        }
    }
    while y < high
        invariant
            n == path.len(),
            n > 0,
            path == contour@,
            lattice_path(before, path),
            before.wf(),
            0 <= low <= y <= high <= before.height,
            forall|k: int| 0 <= k < n ==> low <= (#[trigger] path[k]).1 <= high,
            painted_grid(array@, before, value, path, y as int, 0, 0),
        decreases high - y,
    {
        let xs = row_columns(contour, y);
        let ghost row = y as int;
        proof {
            lemma_columns_on_grid(before, path, path.len(), row, xs@);
        }
        let mut k: usize = 0;
        let ghost mut t: int = 0;
        while xs.len() - k >= 2
            invariant
                k == 2 * t,
                k <= xs@.len(),
                path == contour@,
                before.wf(),
                row == y,
                0 <= y < before.height,
                ascending(xs@),
                xs@.len() == row_crossings(path, row),
                forall|v: int| count_le(xs@, v) == crossings(path, path.len(), row, v),
                forall|a: int| 0 <= a < xs@.len() ==> 0 <= #[trigger] xs@[a] <= before.width,
                painted_grid(array@, before, value, path, row, t, 0),
            decreases xs@.len() - k,
        {
            let from = xs[k];
            let to = xs[k + 1];
            let mut x: i32 = from;
            proof {
                assert forall|x2: int, y2: int| before.in_bounds(x2, y2) implies painted(
                    path,
                    row,
                    t,
                    0,
                    x2,
                    y2,
                ) == painted(path, row, t, from as int, x2, y2) by {
                    lemma_rank(xs@, x2);
                }
            }
            while x < to
                invariant
                    path == contour@,
                    before.wf(),
                    row == y,
                    0 <= y < before.height,
                    ascending(xs@),
                    forall|v: int| count_le(xs@, v) == crossings(path, path.len(), row, v),
                    0 <= t,
                    2 * t + 1 < xs@.len(),
                    from == xs@[2 * t],
                    to == xs@[2 * t + 1],
                    0 <= from <= x <= to <= before.width,
                    painted_grid(array@, before, value, path, row, t, x as int),
                decreases to - x,
            {
                let ghost prior = array@;
                array.set(x, y, value);
                proof {
                    assert forall|x2: int, y2: int| before.in_bounds(x2, y2) implies #[trigger] array@.at(
                        x2,
                        y2,
                    ) == if painted(path, row, t, x + 1, x2, y2) {
                        value
                    } else {
                        before.at(x2, y2)
                    } by {
                        lemma_rank(xs@, x2);
                        assert(prior.at(x2, y2) == if painted(path, row, t, x as int, x2, y2) {
                            value
                        } else {
                            before.at(x2, y2)
                        });
                    }
                }
                x += 1;
            }
            proof {
                assert forall|x2: int, y2: int| before.in_bounds(x2, y2) implies painted(
                    path,
                    row,
                    t,
                    to as int,
                    x2,
                    y2,
                ) == painted(path, row, t + 1, 0, x2, y2) by {
                    lemma_rank(xs@, x2);
                }
            }
            k += 2;
            proof {
                t = t + 1;
            }
        }
        proof {
            assert forall|x2: int, y2: int| before.in_bounds(x2, y2) implies painted(
                path,
                row,
                t,
                0,
                x2,
                y2,
            ) == painted(path, row + 1, 0, 0, x2, y2) by {
                lemma_rank(xs@, x2);
            }
        }
        y += 1;
    }
    proof {
        assert forall|x: int, y2: int| before.in_bounds(x, y2) implies painted(
            path,
            high as int,
            0,
            0,
            x,
            y2,
        ) == enclosed(path, x, y2) by {
            if y2 >= high {
                lemma_no_crossings(path, path.len(), y2, x, low as int, high as int);
            }
        }
        let goal = filled(before, path, value);
        assert forall|k: int| 0 <= k < before.cells.len() implies array@.cells[k] == goal.cells[k] by {
            lemma_coord_in_bounds(before.width, before.height, k);
            let (x, y2) = (k % before.width, k / before.width);
            assert(array@.at(x, y2) == array@.cells[k]);
            assert(before.at(x, y2) == before.cells[k]);
        }
        assert(array@.cells =~= goal.cells);
    }
}

/// Every column at which an edge of a lattice path runs past a row lies on
/// the grid.
proof fn lemma_columns_on_grid<T>(
    grid: Grid<T>,
    path: Seq<(i32, i32)>,
    n: nat,
    y: int,
    xs: Seq<i32>,
)
    requires
        lattice_path(grid, path),
        n <= path.len(),
        ascending(xs),
        forall|v: int| count_le(xs, v) == crossings(path, n, y, v),
    ensures
        forall|a: int| 0 <= a < xs.len() ==> 0 <= #[trigger] xs[a] <= grid.width,
{
    lemma_crossings_bounds(grid, path, n, y);
    assert forall|a: int| 0 <= a < xs.len() implies 0 <= #[trigger] xs[a] <= grid.width by {
        lemma_rank(xs, -1);
        lemma_rank(xs, grid.width);
        lemma_rank(xs, i32::MAX as int);
        lemma_count_all(xs);
        let below = count_le(xs, -1);
        let within = count_le(xs, grid.width);
        assert(below == 0);
        assert(within == xs.len());
        if xs[a] < 0 {
            assert(xs[0] <= xs[a]);
        }
        if xs[a] > grid.width {
            assert(xs[a] <= xs[xs.len() - 1]);
        }
    }
}

proof fn lemma_count_all(s: Seq<i32>)
    ensures
        count_le(s, i32::MAX as int) == s.len(),
    decreases s.len(),
{
    if s.len() > 0 {
        lemma_count_all(s.drop_last());
    }
}

proof fn lemma_crossings_bounds<T>(grid: Grid<T>, path: Seq<(i32, i32)>, n: nat, y: int)
    requires
        lattice_path(grid, path),
        n <= path.len(),
    ensures
        crossings(path, n, y, -1) == 0,
        crossings(path, n, y, grid.width) == crossings(path, n, y, i32::MAX as int),
    decreases n,
{
    if n > 0 {
        lemma_crossings_bounds(grid, path, (n - 1) as nat, y);
        assert(0 <= path[n - 1].0 <= grid.width);
    }
}

/// What the scan of a grid of labels for contours has gathered: which
/// cells are still to be visited, and the contours found for each label, in
/// the order in which they were found.
pub struct Scan {
    pub mask: Grid<bool>,
    pub found: Map<i32, Seq<Seq<(i32, i32)>>>,
}

/// The contours gathered for the label `v` so far.
pub open spec fn found_for(found: Map<i32, Seq<Seq<(i32, i32)>>>, v: i32) -> Seq<Seq<(i32, i32)>> {
    if found.contains_key(v) {
        found[v]
    } else {
        Seq::empty()
    }
}

/// The scan after it has looked at the first `k` cells in row-major order.
/// A cell that holds a label of at least 0 and is still to be visited
/// starts a walk. If the walk closes, its contour is added to those of the
/// label, and the cells within it need no visit any more.
pub open spec fn scan(labels: Grid<i32>, k: nat) -> Scan
    decreases k,
{
    if k == 0 {
        Scan {
            mask: Grid {
                width: labels.width,
                height: labels.height,
                cells: Seq::new(labels.cells.len(), |j: int| true),
            },
            found: Map::empty(),
        }
    } else {
        let prev = scan(labels, (k - 1) as nat);
        let v = labels.cells[k - 1];
        let start = ((k - 1) % labels.width, (k - 1) / labels.width);
        if v >= 0 && prev.mask.cells[k - 1] && contour_closes(labels, start) {
            let c = contour(labels, start);
            Scan {
                mask: filled(prev.mask, c, false),
                found: prev.found.insert(v, found_for(prev.found, v).push(c)),
            }
        } else {
            prev
        }
    }
}

/// The contours of every label of at least 0, as the scan of the whole grid
/// gathers them.
pub open spec fn all_contours(labels: Grid<i32>) -> Map<i32, Seq<Seq<(i32, i32)>>> {
    scan(labels, labels.cells.len()).found
}

/// The lists of contours of `m` as sequences.
pub open spec fn contours_view(m: Map<i32, Vec<Vec<(i32, i32)>>>) -> Map<i32, Seq<Seq<(i32, i32)>>> {
    m.map_values(|list: Vec<Vec<(i32, i32)>>| list@.map_values(|c: Vec<(i32, i32)>| c@))
}

/// A contour that closes is a closed path along the corners of the grid.
pub proof fn lemma_closed_contour_is_lattice_path<T: PartialEq>(grid: Grid<T>, start: (int, int))
    requires
        grid.wf(),
        grid.in_bounds(start.0, start.1),
        contour_closes(grid, start),
        grid.width <= i32::MAX,
        grid.height <= i32::MAX,
    ensures
        lattice_path(grid, contour(grid, start)),
{
    let inner = grid.at(start.0, start.1);
    let path = contour(grid, start);
    let n = contour_len(grid, start) as int;
    assert forall|i: int| 0 <= i < path.len() implies {
        &&& 0 <= (#[trigger] path[i]).0 <= grid.width
        &&& 0 <= path[i].1 <= grid.height
        &&& path[i].1 != edge_end(path, i).1 ==> path[i].0 == edge_end(path, i).0
    } by {
        lemma_walk_on_grid(grid, inner, start, i as nat);
        lemma_walk_on_grid(grid, inner, start, (i + 1) as nat);
        let w = walk(grid, inner, start, i as nat);
        let next = walk(grid, inner, start, (i + 1) as nat);
        if i + 1 < n {
            vstd::arithmetic::div_mod::lemma_small_mod((i + 1) as nat, n as nat);
            assert(edge_end(path, i) == (next.x as i32, next.y as i32));
        } else {
            vstd::arithmetic::div_mod::lemma_mod_self_0(n);
            lemma_walk_on_grid(grid, inner, start, 0);
            assert(edge_end(path, i) == path[0]);
            assert(at_corner(next, start));
        }
    }
}

/// The outer contours of the regions of a grid of labels, gathered by
/// label. The grid is scanned in row-major order; each cell with a label of
/// at least 0 that lies within no contour found before it starts a new one.
pub fn trace_all_outer_contours(array: &Array2D<i32>) -> (result: HashMap<i32, Vec<Vec<(i32, i32)>>>)
    requires
        array@.wf(),
    ensures
        contours_view(result@) == all_contours(array@),
{
    broadcast use vstd::std_specs::hash::group_hash_axioms;

    let width = array.width();
    let height = array.height();
    let cell_count = array.as_slice().len();
    assert(width * height == cell_count);
    let mut result: HashMap<i32, Vec<Vec<(i32, i32)>>> = HashMap::new();
    let mut mask = Array2D::<bool>::new_with_constant(width, height, true);
    let ghost labels = array@;
    proof {
        assert(contours_view(result@) =~= scan(labels, 0).found);
        assert(mask@.cells =~= scan(labels, 0).mask.cells);
    }
    let mut y: i32 = 0;
    while y < height
        invariant
            labels == array@,
            labels.wf(),
            width == labels.width,
            height == labels.height,
            0 <= y <= height,
            mask@ == scan(labels, (y * width) as nat).mask,
            mask@.wf(),
            mask@.width == width,
            mask@.height == height,
            contours_view(result@) == scan(labels, (y * width) as nat).found,
        decreases height - y,
    {
        let mut x: i32 = 0;
        while x < width
            invariant
                labels == array@,
                labels.wf(),
                width == labels.width,
                height == labels.height,
                0 <= y < height,
                0 <= x <= width,
                mask@ == scan(labels, (y * width + x) as nat).mask,
                mask@.wf(),
                mask@.width == width,
                mask@.height == height,
                contours_view(result@) == scan(labels, (y * width + x) as nat).found,
            decreases width - x,
        {
            let ghost k = y * width + x;
            let ghost prev = scan(labels, k as nat);
            proof {
                lemma_offset_in_range(width as int, height as int, x as int, y as int);
                assert(scan(labels, (k + 1) as nat) == if labels.cells[k] >= 0 && prev.mask.cells[k]
                    && contour_closes(labels, (x as int, y as int)) {
                    let c = contour(labels, (x as int, y as int));
                    Scan {
                        mask: filled(prev.mask, c, false),
                        found: prev.found.insert(
                            labels.cells[k],
                            found_for(prev.found, labels.cells[k]).push(c),
                        ),
                    }
                } else {
                    prev
                });
            }
            let v = *array.get(x, y);
            if v >= 0 && *mask.get(x, y) {
                let (contour, closed) = trace_walk((x, y), array);
                if closed {
                    proof {
                        lemma_closed_contour_is_lattice_path(labels, (x as int, y as int));
                    }
                    fill_contour(&mut mask, &contour, false);
                    let ghost before = result@;
                    let mut list = match result.remove(&v) {
                        Some(list) => list,
                        None => Vec::new(),
                    };
                    let ghost old_list = list@;
                    list.push(contour);
                    result.insert(v, list);
                    proof {
                        let seqs = |c: Vec<(i32, i32)>| c@;
                        assert(old_list.map_values(seqs) =~= found_for(contours_view(before), v));
                        assert(list@.map_values(seqs) =~= old_list.map_values(seqs).push(contour@));
                        assert(contours_view(result@) =~= contours_view(before).insert(
                            v,
                            found_for(contours_view(before), v).push(contour@),
                        ));
                    }
                }
            }
            x += 1;
        }
        proof {
            assert((y + 1) * width == y * width + width) by (nonlinear_arith);
        }
        y += 1;
    }
    proof {
        assert(labels.cells.len() == height * width) by (nonlinear_arith)
            requires
                labels.cells.len() == width * height,
        ;
    }
    result
}

} // verus!
