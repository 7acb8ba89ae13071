//! Why the walk along a contour comes back to where it set out.

use vstd::prelude::*;
use crate::array_2d::Grid;
use crate::trace_contours::{
    at_corner,
    contour_closes,
    contour_len,
    first_return,
    inside,
    lemma_walk_on_grid,
    on_grid,
    read_offset,
    search_direction,
    step,
    step_limit,
    try_from,
    walk,
    Walker,
};

verus! {

/// The number of a walker state among the states on the grid.
pub open spec fn state_number<T>(grid: Grid<T>, w: Walker) -> int {
    (w.y * (grid.width + 1) + w.x) * 4 + w.heading
}

proof fn lemma_state_number<T>(grid: Grid<T>, w: Walker)
    requires
        grid.wf(),
        on_grid(grid, w),
    ensures
        0 <= state_number(grid, w) < step_limit(grid),
        state_number(grid, w) % 4 == w.heading,
        (state_number(grid, w) / 4) % (grid.width + 1) == w.x,
        (state_number(grid, w) / 4) / (grid.width + 1) == w.y,
{
    let columns = grid.width + 1;
    let rows = grid.height + 1;
    crate::array_2d::lemma_offset_in_range(columns, rows, w.x, w.y);
    let k = w.y * columns + w.x;
    assert(0 <= k < columns * rows);
    assert(4 * columns * rows == 4 * (columns * rows)) by (nonlinear_arith);
    assert(state_number(grid, w) == k * 4 + w.heading);
}

/// From equal states the walk goes on through equal states.
pub proof fn lemma_walk_shifts<T: PartialEq>(
    grid: Grid<T>,
    inner: T,
    start: (int, int),
    i: nat,
    j: nat,
    t: nat,
)
    requires
        walk(grid, inner, start, i) == walk(grid, inner, start, j),
    ensures
        walk(grid, inner, start, i + t) == walk(grid, inner, start, j + t),
    decreases t,
{
    if t > 0 {
        lemma_walk_shifts(grid, inner, start, i, j, (t - 1) as nat);
    }
}

/// Among any `step_limit + 1` states of the walk one after another, two
/// are the same.
pub proof fn lemma_walk_repeats<T: PartialEq>(
    grid: Grid<T>,
    inner: T,
    start: (int, int),
    from: nat,
) -> (r: (nat, nat))
    requires
        grid.wf(),
        0 <= start.0 <= grid.width,
        0 <= start.1 <= grid.height,
    ensures
        from <= r.0 < r.1 <= from + step_limit(grid),
        walk(grid, inner, start, r.0) == walk(grid, inner, start, r.1),
{
    let limit = step_limit(grid);
    let numbers = Seq::new(
        limit + 1,
        |k: int| state_number(grid, walk(grid, inner, start, (from + k) as nat)),
    );
    assert forall|k: int| 0 <= k < numbers.len() implies 0 <= #[trigger] numbers[k] < limit by {
        lemma_walk_on_grid(grid, inner, start, (from + k) as nat);
        lemma_state_number(grid, walk(grid, inner, start, (from + k) as nat));
    }
    if numbers.no_duplicates() {
        numbers.unique_seq_to_set();
        vstd::set_lib::lemma_int_range(0, limit as int);
        assert(numbers.to_set().subset_of(vstd::set_lib::set_int_range(0, limit as int))) by {
            assert forall|v: int| numbers.to_set().contains(v) implies vstd::set_lib::set_int_range(
                0,
                limit as int,
            ).contains(v) by {
                let k = choose|k: int| 0 <= k < numbers.len() && numbers[k] == v;
                assert(0 <= numbers[k] < limit);
            }
        }
        vstd::set_lib::lemma_len_subset(
            numbers.to_set(),
            vstd::set_lib::set_int_range(0, limit as int),
        );
        assert(false);
    }
    let (a, b) = choose|a: int, b: int|
        0 <= a < numbers.len() && 0 <= b < numbers.len() && a != b && numbers[a] == numbers[b];
    let (i, j) = if a < b {
        (a, b)
    } else {
        (b, a)
    };
    let first = walk(grid, inner, start, (from + i) as nat);
    let second = walk(grid, inner, start, (from + j) as nat);
    lemma_walk_on_grid(grid, inner, start, (from + i) as nat);
    lemma_walk_on_grid(grid, inner, start, (from + j) as nat);
    lemma_state_number(grid, first);
    lemma_state_number(grid, second);
    assert(numbers[i] == state_number(grid, first));
    assert(numbers[j] == state_number(grid, second));
    ((from + i) as nat, (from + j) as nat)
}

/// Where the walker is back at `start` after some step from `k` on below
/// `limit`, `first_return` names the first such step.
proof fn lemma_first_return_finds<T: PartialEq>(
    grid: Grid<T>,
    inner: T,
    start: (int, int),
    k: nat,
    n: nat,
    limit: nat,
)
    requires
        k <= n < limit,
        at_corner(walk(grid, inner, start, n), start),
    ensures
        k <= first_return(grid, inner, start, k, limit) <= n,
        at_corner(walk(grid, inner, start, first_return(grid, inner, start, k, limit)), start),
        forall|j: nat|
            k <= j < first_return(grid, inner, start, k, limit) ==> !at_corner(
                #[trigger] walk(grid, inner, start, j),
                start,
            ),
    decreases n - k,
{
    if !at_corner(walk(grid, inner, start, k), start) {
        lemma_first_return_finds(grid, inner, start, k + 1, n, limit);
    }
}

/// Where nothing brings the walker back to `start` from the step `k` on
/// below `n`, `first_return` passes over those steps.
proof fn lemma_first_return_skips<T: PartialEq>(
    grid: Grid<T>,
    inner: T,
    start: (int, int),
    k: nat,
    n: nat,
    limit: nat,
)
    requires
        k <= n <= limit,
        forall|j: nat| k <= j < n ==> !at_corner(#[trigger] walk(grid, inner, start, j), start),
    ensures
        first_return(grid, inner, start, k, limit) == first_return(grid, inner, start, n, limit),
    decreases n - k,
{
    if k < n {
        lemma_first_return_skips(grid, inner, start, k + 1, n, limit);
    }
}

/// A walk that ever comes back to its start does so within the limit of
/// steps: the limit cuts no closing walk short.
pub proof fn lemma_return_is_in_time<T: PartialEq>(grid: Grid<T>, start: (int, int), n: nat)
    requires
        grid.wf(),
        grid.in_bounds(start.0, start.1),
        n >= 1,
        at_corner(walk(grid, grid.at(start.0, start.1), start, n), start),
    ensures
        contour_closes(grid, start),
{
    let inner = grid.at(start.0, start.1);
    let limit = step_limit(grid);
    lemma_first_return_finds(grid, inner, start, 1, n, n + 1);
    let m = first_return(grid, inner, start, 1, n + 1);
    if m > limit {
        let (i, j) = lemma_walk_repeats(grid, inner, start, 1);
        let earlier = (m - (j - i)) as nat;
        lemma_walk_shifts(grid, inner, start, i, j, (m - j) as nat);
        assert(walk(grid, inner, start, earlier) == walk(grid, inner, start, m));
        assert(false);
    }
    if m < limit {
        lemma_first_return_skips(grid, inner, start, 1, m, limit);
    } else {
        lemma_first_return_skips(grid, inner, start, 1, limit, limit);
    }
    assert(contour_len(grid, start) == m);
}

/// The cell in the `k`-th quarter around the corner `(x, y)` belongs to
/// the region: up and to the right for 0, then clockwise.
pub open spec fn quarter<T: PartialEq>(grid: Grid<T>, inner: T, x: int, y: int, k: int) -> bool {
    inside(grid, inner, x + read_offset(k % 4).0, y + read_offset(k % 4).1)
}

/// The direction in which the walker came to where it stands.
pub open spec fn arrival(w: Walker) -> int {
    (w.heading + 1) % 4
}

/// The walker has come along the rim of the region: the cell to the right
/// of its last step belongs to the region, the cell to the left does not.
pub open spec fn on_rim<T: PartialEq>(grid: Grid<T>, inner: T, w: Walker) -> bool {
    &&& 0 <= w.heading < 4
    &&& quarter(grid, inner, w.x, w.y, arrival(w) + 1)
    &&& !quarter(grid, inner, w.x, w.y, arrival(w) + 2)
}

/// The state from which a walker on the rim has come.
pub open spec fn back<T: PartialEq>(grid: Grid<T>, inner: T, w: Walker) -> Walker {
    let a = arrival(w);
    let x = w.x - search_direction(a).0;
    let y = w.y - search_direction(a).1;
    let from = if quarter(grid, inner, x, y, a + 2) {
        a + 1
    } else if quarter(grid, inner, x, y, a + 1) {
        a
    } else {
        a + 3
    };
    Walker { x, y, heading: (from + 3) % 4 }
}

/// A walker on the rim stays on the rim, and where it has come from can be
/// told from where it stands.
pub proof fn lemma_rim_step<T: PartialEq>(grid: Grid<T>, inner: T, w: Walker)
    requires
        on_rim(grid, inner, w),
    ensures
        on_rim(grid, inner, step(grid, inner, w)),
        back(grid, inner, step(grid, inner, w)) == w,
{
    reveal_with_fuel(try_from, 5);
    let a = arrival(w);
    if a == 0 {
    } else if a == 1 {
    } else if a == 2 {
    } else {
    }
}

/// The walk sets out along the rim of the region: the cell at `start`
/// belongs to it, and if the cell above does too, the cell to the left of
/// that one does not.
pub open spec fn starts_on_rim<T: PartialEq>(grid: Grid<T>, inner: T, start: (int, int)) -> bool {
    &&& inside(grid, inner, start.0, start.1)
    &&& inside(grid, inner, start.0, start.1 - 1) ==> !inside(grid, inner, start.0 - 1, start.1 - 1)
}

/// Every state of a walk that sets out along the rim is on the rim, and
/// the state before it can be told from it; before the first there is the
/// start.
#[verifier::rlimit(30)]
pub proof fn lemma_walk_stays_on_rim<T: PartialEq>(grid: Grid<T>, inner: T, start: (int, int), k: nat)
    requires
        starts_on_rim(grid, inner, start),
        k >= 1,
    ensures
        on_rim(grid, inner, walk(grid, inner, start, k)),
        back(grid, inner, walk(grid, inner, start, k + 1)) == walk(grid, inner, start, k),
        k == 1 ==> at_corner(back(grid, inner, walk(grid, inner, start, k)), start),
    decreases k,
{
    reveal_with_fuel(try_from, 5);
    if k == 1 {
        assert(walk(grid, inner, start, 0) == Walker { x: start.0, y: start.1, heading: 0 });
        assert(walk(grid, inner, start, 1) == step(grid, inner, walk(grid, inner, start, 0)));
    } else {
        lemma_walk_stays_on_rim(grid, inner, start, (k - 1) as nat);
    }
    lemma_rim_step(grid, inner, walk(grid, inner, start, k));
    assert(walk(grid, inner, start, k + 1) == step(grid, inner, walk(grid, inner, start, k)));
}

/// Where two states of a walk along the rim are the same, the states that
/// came before them are the same.
proof fn lemma_walk_unwinds<T: PartialEq>(
    grid: Grid<T>,
    inner: T,
    start: (int, int),
    i: nat,
    j: nat,
    t: nat,
)
    requires
        starts_on_rim(grid, inner, start),
        1 <= i <= j,
        t < i,
        walk(grid, inner, start, i) == walk(grid, inner, start, j),
    ensures
        walk(grid, inner, start, (i - t) as nat) == walk(grid, inner, start, (j - t) as nat),
    decreases t,
{
    if t > 0 {
        lemma_walk_unwinds(grid, inner, start, i, j, (t - 1) as nat);
        lemma_walk_stays_on_rim(grid, inner, start, (i - t) as nat);
        lemma_walk_stays_on_rim(grid, inner, start, (j - t) as nat);
    }
}

/// A walk that sets out along the rim of the region comes back to where it
/// set out: the contour closes.
pub proof fn lemma_walk_along_rim_closes<T: PartialEq>(grid: Grid<T>, start: (int, int))
    requires
        grid.wf(),
        grid.in_bounds(start.0, start.1),
        starts_on_rim(grid, grid.at(start.0, start.1), start),
    ensures
        contour_closes(grid, start),
{
    let inner = grid.at(start.0, start.1);
    let (i, j) = lemma_walk_repeats(grid, inner, start, 1);
    lemma_walk_unwinds(grid, inner, start, i, j, (i - 1) as nat);
    let period = (j - i) as nat;
    assert(walk(grid, inner, start, 1) == walk(grid, inner, start, period + 1));
    lemma_walk_stays_on_rim(grid, inner, start, 1);
    lemma_walk_stays_on_rim(grid, inner, start, period);
    assert(at_corner(walk(grid, inner, start, period), start));
    lemma_return_is_in_time(grid, start, period);
}

} // verus!
