//! Regions of a grid of labels: which cells touch, and which are joined by
//! a trail of cells with the same label.

use vstd::prelude::*;
use crate::array_2d::{lemma_coord_in_bounds, lemma_offset_in_range, Grid};
use crate::cluster_summary::ClusterSummary;

verus! {

/// The two cells lie side by side, in a row or in a column.
pub open spec fn adjacent(p: (int, int), q: (int, int)) -> bool {
    ||| p.0 == q.0 && (p.1 - q.1 == 1 || q.1 - p.1 == 1)
    ||| p.1 == q.1 && (p.0 - q.0 == 1 || q.0 - p.0 == 1)
}

/// The cells of `path` all carry the label `c`, and each lies beside the
/// one before it.
pub open spec fn is_trail(labels: Grid<i32>, c: int, path: Seq<(int, int)>) -> bool {
    &&& path.len() >= 1
    &&& forall|i: int|
        0 <= i < path.len() ==> labels.in_bounds((#[trigger] path[i]).0, path[i].1) && labels.at(
            path[i].0,
            path[i].1,
        ) == c
    &&& forall|i: int| 0 <= i < path.len() - 1 ==> adjacent(#[trigger] path[i], path[i + 1])
}

/// A trail of cells with the label `c` leads from `p` to `q`.
pub open spec fn linked(labels: Grid<i32>, c: int, p: (int, int), q: (int, int)) -> bool {
    exists|path: Seq<(int, int)>| #[trigger]
        is_trail(labels, c, path) && path.first() == p && path.last() == q
}

/// How many of the first `k` cells carry the label `c`.
pub open spec fn labelled_below(cells: Seq<i32>, c: int, k: nat) -> nat
    decreases k,
{
    if k == 0 {
        0
    } else {
        labelled_below(cells, c, (k - 1) as nat) + if cells[k - 1] == c {
            1nat
        } else {
            0nat
        }
    }
}

/// No more cells carry a label than there are cells.
pub proof fn lemma_labelled_below_bound(cells: Seq<i32>, c: int, k: nat)
    ensures
        labelled_below(cells, c, k) <= k,
    decreases k,
{
    if k > 0 {
        lemma_labelled_below_bound(cells, c, (k - 1) as nat);
    }
}

/// Giving one more cell the label `c` raises the count of such cells by
/// one.
pub proof fn lemma_labelled_below_update(cells: Seq<i32>, c: int, j: int, k: nat)
    requires
        0 <= j < cells.len(),
        k <= cells.len(),
        cells[j] != c,
    ensures
        labelled_below(cells.update(j, c as i32), c, k) == labelled_below(cells, c, k) + if j < k
            && c as i32 == c {
            1int
        } else {
            0int
        },
    decreases k,
{
    if k > 0 {
        lemma_labelled_below_update(cells, c, j, (k - 1) as nat);
    }
}

/// A trail of cells with the label `c` along which the level never rises.
pub open spec fn is_descent(levels: Grid<u32>, labels: Grid<i32>, c: int, path: Seq<(int, int)>) -> bool {
    &&& is_trail(labels, c, path)
    &&& forall|i: int|
        0 <= i < path.len() - 1 ==> levels.at(path[i + 1].0, path[i + 1].1) <= levels.at(
            (#[trigger] path[i]).0,
            path[i].1,
        )
}

/// A trail of cells with the label `c` leads from `p` to `q` without ever
/// rising.
pub open spec fn descends(
    levels: Grid<u32>,
    labels: Grid<i32>,
    c: int,
    p: (int, int),
    q: (int, int),
) -> bool {
    exists|path: Seq<(int, int)>| #[trigger]
        is_descent(levels, labels, c, path) && path.first() == p && path.last() == q
}

/// Changing the value of one cell changes the count of the cells with the
/// label `c` by what that cell adds to it.
pub proof fn lemma_labelled_below_change(cells: Seq<i32>, c: int, j: int, v: i32, k: nat)
    requires
        0 <= j < cells.len(),
        k <= cells.len(),
    ensures
        labelled_below(cells.update(j, v), c, k) == labelled_below(cells, c, k) + (if j < k && v
            == c {
            1int
        } else {
            0int
        }) - (if j < k && cells[j] == c {
            1int
        } else {
            0int
        }),
    decreases k,
{
    if k > 0 {
        lemma_labelled_below_change(cells, c, j, v, (k - 1) as nat);
    }
}

/// A descent ends no higher than it begins.
pub proof fn lemma_descent_falls(levels: Grid<u32>, labels: Grid<i32>, c: int, path: Seq<(int, int)>)
    requires
        is_descent(levels, labels, c, path),
    ensures
        levels.at(path.last().0, path.last().1) <= levels.at(path.first().0, path.first().1),
    decreases path.len(),
{
    if path.len() > 1 {
        let front = path.drop_last();
        assert forall|i: int| 0 <= i < front.len() implies labels.in_bounds(
            (#[trigger] front[i]).0,
            front[i].1,
        ) && labels.at(front[i].0, front[i].1) == c by {
            assert(front[i] == path[i]);
        }
        assert forall|i: int| 0 <= i < front.len() - 1 implies adjacent(
            #[trigger] front[i],
            front[i + 1],
        ) by {
            assert(front[i] == path[i] && front[i + 1] == path[i + 1]);
            assert(adjacent(path[i], path[i + 1]));
        }
        assert forall|i: int| 0 <= i < front.len() - 1 implies levels.at(
            front[i + 1].0,
            front[i + 1].1,
        ) <= levels.at((#[trigger] front[i]).0, front[i].1) by {
            assert(front[i] == path[i] && front[i + 1] == path[i + 1]);
        }
        lemma_descent_falls(levels, labels, c, front);
        let k = path.len() - 2;
        assert(front.last() == path[k]);
        assert(levels.at(path[k + 1].0, path[k + 1].1) <= levels.at(path[k].0, path[k].1));
    }
}

/// A descent can be led on to a cell beside its end that carries the label
/// and is no higher.
pub proof fn lemma_descent_extends(
    levels: Grid<u32>,
    labels: Grid<i32>,
    c: int,
    path: Seq<(int, int)>,
    q: (int, int),
)
    requires
        is_descent(levels, labels, c, path),
        adjacent(path.last(), q),
        labels.in_bounds(q.0, q.1),
        labels.at(q.0, q.1) == c,
        levels.at(q.0, q.1) <= levels.at(path.last().0, path.last().1),
    ensures
        is_descent(levels, labels, c, path.push(q)),
        path.push(q).first() == path.first(),
        path.push(q).last() == q,
{
    lemma_trail_extends(labels, c, path, q);
    let longer = path.push(q);
    assert forall|i: int| 0 <= i < longer.len() - 1 implies levels.at(
        longer[i + 1].0,
        longer[i + 1].1,
    ) <= levels.at((#[trigger] longer[i]).0, longer[i].1) by {
        if i < path.len() - 1 {
            assert(longer[i] == path[i] && longer[i + 1] == path[i + 1]);
        }
    }
}

/// A trail leads back the way it came.
pub proof fn lemma_trail_reverses(labels: Grid<i32>, c: int, path: Seq<(int, int)>)
    requires
        is_trail(labels, c, path),
    ensures
        is_trail(labels, c, path.reverse()),
        path.reverse().first() == path.last(),
        path.reverse().last() == path.first(),
{
    let back = path.reverse();
    let n = path.len() as int;
    assert forall|i: int| 0 <= i < back.len() implies labels.in_bounds(
        (#[trigger] back[i]).0,
        back[i].1,
    ) && labels.at(back[i].0, back[i].1) == c by {
        assert(back[i] == path[n - 1 - i]);
    }
    assert forall|i: int| 0 <= i < back.len() - 1 implies adjacent(
        #[trigger] back[i],
        back[i + 1],
    ) by {
        assert(back[i] == path[n - 1 - i] && back[i + 1] == path[n - 2 - i]);
        assert(adjacent(path[n - 2 - i], path[n - 2 - i + 1]));
    }
}

/// Two trails, the second of which begins where the first ends, make a
/// trail.
pub proof fn lemma_trails_join(labels: Grid<i32>, c: int, p: Seq<(int, int)>, q: Seq<(int, int)>)
    requires
        is_trail(labels, c, p),
        is_trail(labels, c, q),
        p.last() == q.first(),
    ensures
        is_trail(labels, c, p + q.skip(1)),
        (p + q.skip(1)).first() == p.first(),
        (p + q.skip(1)).last() == q.last(),
{
    let r = p + q.skip(1);
    assert forall|i: int| 0 <= i < r.len() implies labels.in_bounds((#[trigger] r[i]).0, r[i].1)
        && labels.at(r[i].0, r[i].1) == c by {
        if i < p.len() {
            assert(r[i] == p[i]);
        } else {
            assert(r[i] == q[i - p.len() + 1]);
        }
    }
    assert forall|i: int| 0 <= i < r.len() - 1 implies adjacent(#[trigger] r[i], r[i + 1]) by {
        if i < p.len() - 1 {
            assert(r[i] == p[i] && r[i + 1] == p[i + 1]);
            assert(adjacent(p[i], p[i + 1]));
        } else if i == p.len() - 1 {
            assert(r[i] == p.last() && r[i + 1] == q[1]);
            assert(adjacent(q[0], q[1]));
        } else {
            assert(r[i] == q[i - p.len() + 1] && r[i + 1] == q[i - p.len() + 2]);
            assert(adjacent(q[i - p.len() + 1], q[i - p.len() + 1 + 1]));
        }
    }
    if q.len() == 1 {
        assert(r =~= p);
    }
}

/// A trail stays a trail while its cells keep their label.
pub proof fn lemma_trail_persists(before: Grid<i32>, after: Grid<i32>, c: int, path: Seq<(int, int)>)
    requires
        is_trail(before, c, path),
        after.width == before.width,
        after.height == before.height,
        forall|x: int, y: int|
            before.in_bounds(x, y) && before.at(x, y) == c ==> #[trigger] after.at(x, y) == c,
    ensures
        is_trail(after, c, path),
{
    assert forall|i: int| 0 <= i < path.len() implies after.in_bounds(
        (#[trigger] path[i]).0,
        path[i].1,
    ) && after.at(path[i].0, path[i].1) == c by {
        assert(before.at(path[i].0, path[i].1) == c);
    }
}

/// A trail can be led on to a cell beside its end that carries the label.
pub proof fn lemma_trail_extends(labels: Grid<i32>, c: int, path: Seq<(int, int)>, q: (int, int))
    requires
        is_trail(labels, c, path),
        adjacent(path.last(), q),
        labels.in_bounds(q.0, q.1),
        labels.at(q.0, q.1) == c,
    ensures
        is_trail(labels, c, path.push(q)),
        path.push(q).first() == path.first(),
        path.push(q).last() == q,
{
    let longer = path.push(q);
    assert forall|i: int| 0 <= i < longer.len() - 1 implies adjacent(
        #[trigger] longer[i],
        longer[i + 1],
    ) by {
        if i < path.len() - 1 {
            assert(adjacent(path[i], path[i + 1]));
        }
    }
    assert forall|i: int| 0 <= i < longer.len() implies labels.in_bounds(
        (#[trigger] longer[i]).0,
        longer[i].1,
    ) && labels.at(longer[i].0, longer[i].1) == c by {
        if i < path.len() {
            assert(longer[i] == path[i]);
        }
    }
}

/// The cells of the grid of labels that carry the label `c`.
pub open spec fn region(labels: Grid<i32>, c: int) -> Set<(int, int)> {
    Set::new(|p: (int, int)| labels.in_bounds(p.0, p.1) && labels.at(p.0, p.1) == c)
}

/// All cells of the grid.
pub open spec fn all_cells<T>(grid: Grid<T>) -> Set<(int, int)> {
    Set::new(|p: (int, int)| grid.in_bounds(p.0, p.1))
}

/// A grid has as many cells as its sequence of cells is long.
pub proof fn lemma_all_cells<T>(grid: Grid<T>)
    requires
        grid.wf(),
    ensures
        all_cells(grid).finite(),
        all_cells(grid).len() == grid.cells.len(),
{
    let n = grid.cells.len() as int;
    let numbers = vstd::set_lib::set_int_range(0, n);
    let place = |k: int| (k % grid.width, k / grid.width);
    vstd::set_lib::lemma_int_range(0, n);
    assert(vstd::relations::injective_on(place, numbers)) by {
        assert forall|a: int, b: int|
            numbers.contains(a) && numbers.contains(b) && #[trigger] place(a) == #[trigger] place(
                b,
            ) implies a == b by {
            lemma_coord_in_bounds(grid.width, grid.height, a);
            lemma_coord_in_bounds(grid.width, grid.height, b);
        }
    }
    assert(numbers.map(place) =~= all_cells(grid)) by {
        assert forall|p: (int, int)| all_cells(grid).contains(p) implies numbers.map(place).contains(
            p,
        ) by {
            lemma_offset_in_range(grid.width, grid.height, p.0, p.1);
            let k = grid.offset(p.0, p.1);
            assert(numbers.contains(k) && place(k) == p);
        }
        assert forall|p: (int, int)| numbers.map(place).contains(p) implies all_cells(grid).contains(
            p,
        ) by {
            let k = choose|k: int| numbers.contains(k) && place(k) == p;
            lemma_coord_in_bounds(grid.width, grid.height, k);
        }
    }
    vstd::set_lib::lemma_map_size(numbers, all_cells(grid), place);
}

/// The cells that carry one of the labels `0..k`.
pub open spec fn regions_below(labels: Grid<i32>, k: int) -> Set<(int, int)> {
    Set::new(
        |p: (int, int)| labels.in_bounds(p.0, p.1) && 0 <= labels.at(p.0, p.1) < k,
    )
}

/// The sum of the counts of the first `k` summaries.
pub open spec fn pixels_in(summaries: Seq<ClusterSummary>, k: nat) -> nat
    decreases k,
{
    if k == 0 {
        0
    } else {
        pixels_in(summaries, (k - 1) as nat) + summaries[k - 1].num_pixels as nat
    }
}

/// The summary counts the cells that carry the label `c`.
pub open spec fn counts_region(labels: Grid<i32>, summaries: Seq<ClusterSummary>, c: int) -> bool {
    region(labels, c).finite() && summaries[c].num_pixels == region(labels, c).len()
}

/// Summaries that count the cells of the regions `0..k` count no more
/// cells than the grid has.
pub proof fn lemma_regions_fill_no_more_than_grid(
    labels: Grid<i32>,
    summaries: Seq<ClusterSummary>,
    k: nat,
)
    requires
        labels.wf(),
        k <= summaries.len(),
        forall|c: int| 0 <= c < k ==> #[trigger] counts_region(labels, summaries, c),
    ensures
        regions_below(labels, k as int).finite(),
        pixels_in(summaries, k) == regions_below(labels, k as int).len(),
        pixels_in(summaries, k) <= labels.cells.len(),
    decreases k,
{
    lemma_all_cells(labels);
    if k == 0 {
        assert(regions_below(labels, 0) =~= Set::<(int, int)>::empty());
    } else {
        lemma_regions_fill_no_more_than_grid(labels, summaries, (k - 1) as nat);
        let lower = regions_below(labels, k - 1);
        let top = region(labels, k - 1);
        assert(counts_region(labels, summaries, k - 1));
        assert(lower.disjoint(top));
        vstd::set_lib::lemma_set_disjoint_lens(lower, top);
        assert(lower.union(top) =~= regions_below(labels, k as int));
        assert(regions_below(labels, k as int).subset_of(all_cells(labels)));
        vstd::set_lib::lemma_len_subset(regions_below(labels, k as int), all_cells(labels));
    }
}

/// The cells among the first `k` in row-major order that carry the label
/// `c`.
pub open spec fn region_below(labels: Grid<i32>, c: int, k: int) -> Set<(int, int)> {
    Set::new(
        |p: (int, int)|
            labels.in_bounds(p.0, p.1) && labels.offset(p.0, p.1) < k && labels.at(p.0, p.1) == c,
    )
}

/// Counting the cells with the label `c` one by one gives the size of
/// their set.
pub proof fn lemma_region_count(labels: Grid<i32>, c: int, k: nat)
    requires
        labels.wf(),
        k <= labels.cells.len(),
    ensures
        region_below(labels, c, k as int).finite(),
        region_below(labels, c, k as int).len() == labelled_below(labels.cells, c, k),
        k == labels.cells.len() ==> region_below(labels, c, k as int) == region(labels, c),
    decreases k,
{
    if k == 0 {
        assert(region_below(labels, c, 0) =~= Set::<(int, int)>::empty()) by {
            assert forall|p: (int, int)| !region_below(labels, c, 0).contains(p) by {
                if labels.in_bounds(p.0, p.1) {
                    lemma_offset_in_range(labels.width, labels.height, p.0, p.1);
                }
            }
        }
    } else {
        lemma_region_count(labels, c, (k - 1) as nat);
        lemma_coord_in_bounds(labels.width, labels.height, k - 1);
        let here = ((k - 1) % labels.width, (k - 1) / labels.width);
        let before = region_below(labels, c, k - 1);
        let after = region_below(labels, c, k as int);
        assert forall|p: (int, int)| after.contains(p) <==> before.contains(p) || (p == here
            && labels.cells[k - 1] == c) by {
            if labels.in_bounds(p.0, p.1) {
                lemma_offset_in_range(labels.width, labels.height, p.0, p.1);
            }
        }
        if labels.cells[k - 1] == c {
            assert(after =~= before.insert(here));
        } else {
            assert(after =~= before);
        }
    }
    if k == labels.cells.len() {
        assert forall|p: (int, int)| region(labels, c).contains(p) implies region_below(
            labels,
            c,
            k as int,
        ).contains(p) by {
            lemma_offset_in_range(labels.width, labels.height, p.0, p.1);
        }
        assert(region_below(labels, c, k as int) =~= region(labels, c));
    }
}

/// Summaries that each count at least one cell count at least as many
/// cells together as there are summaries.
pub proof fn lemma_pixels_in_at_least(summaries: Seq<ClusterSummary>, k: nat)
    requires
        k <= summaries.len(),
        forall|c: int| 0 <= c < k ==> (#[trigger] summaries[c]).num_pixels >= 1,
    ensures
        pixels_in(summaries, k) >= k,
    decreases k,
{
    if k > 0 {
        lemma_pixels_in_at_least(summaries, (k - 1) as nat);
    }
}

/// Where every cell carries -1 or one of the labels `0..n`, and the
/// summaries count the cells of those labels, they count every cell but
/// those that carry -1.
pub proof fn lemma_summaries_count_labelled(labels: Grid<i32>, summaries: Seq<ClusterSummary>)
    requires
        labels.wf(),
        forall|x: int, y: int|
            labels.in_bounds(x, y) ==> -1 <= #[trigger] labels.at(x, y) < summaries.len(),
        forall|c: int| 0 <= c < summaries.len() ==> #[trigger] counts_region(labels, summaries, c),
    ensures
        pixels_in(summaries, summaries.len()) + labelled_below(
            labels.cells,
            -1,
            labels.cells.len(),
        ) == labels.cells.len(),
{
    let n = summaries.len();
    lemma_regions_fill_no_more_than_grid(labels, summaries, n);
    lemma_region_count(labels, -1, labels.cells.len());
    lemma_all_cells(labels);
    let with = regions_below(labels, n as int);
    let without = region(labels, -1);
    assert(with.disjoint(without));
    vstd::set_lib::lemma_set_disjoint_lens(with, without);
    assert(with.union(without) =~= all_cells(labels));
}

} // verus!
