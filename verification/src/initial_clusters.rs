//! First assignment of the cells of a raster to clusters.

use vstd::prelude::*;
use crate::array_2d::{lemma_coord_in_bounds, lemma_offset_in_range, Array2D, Grid};
use crate::cluster_summary::{
    lemma_updated_summarizes,
    summarizes,
    zero_summary,
    ClusterSummary,
};
use crate::disjoint_set_2d::DisjointSet2D;
use crate::regions::region;
use crate::partition::{
    apply_unions,
    lemma_apply_unions_is_partition,
    lemma_representatives_below,
    lemma_representatives_below_grows,
    lemma_representatives_below_onto,
    ops_in_range,
    representatives_below,
};

verus! {

/// The step to the `d`-th of the four cells beside a cell: left, right, up,
/// down.
pub open spec fn beside(d: int) -> (int, int) {
    if d == 0 {
        (-1, 0)
    } else if d == 1 {
        (1, 0)
    } else if d == 2 {
        (0, -1)
    } else {
        (0, 1)
    }
}

/// Among the first `d` cells beside `(x, y)`, the one that the cell climbs
/// to: the highest of those that are at least as high as the cell itself,
/// and of several equally high ones the first.
pub open spec fn climb_target(levels: Grid<u32>, x: int, y: int, d: nat) -> Option<(int, int)>
    decreases d,
{
    if d == 0 {
        None
    } else {
        let best = climb_target(levels, x, y, (d - 1) as nat);
        let (nx, ny) = (x + beside(d - 1).0, y + beside(d - 1).1);
        if levels.in_bounds(nx, ny) && levels.at(nx, ny) >= levels.at(x, y) && (best matches Some(b)
            ==> levels.at(b.0, b.1) < levels.at(nx, ny)) {
            Some((nx, ny))
        } else {
            best
        }
    }
}

/// The unions made for the first `k` cells in row-major order: each cell
/// that has a cell to climb to is joined to it. Cells go by their number.
pub open spec fn climb_unions(levels: Grid<u32>, k: nat) -> Seq<(int, int)>
    decreases k,
{
    if k == 0 {
        Seq::empty()
    } else {
        let rest = climb_unions(levels, (k - 1) as nat);
        match climb_target(levels, (k - 1) % levels.width, (k - 1) / levels.width, 4) {
            Some(t) => rest.push((k - 1, levels.offset(t.0, t.1))),
            None => rest,
        }
    }
}

/// The partition of the cells into the basins of the climb.
pub open spec fn climb_partition(levels: Grid<u32>) -> Seq<int> {
    apply_unions(levels.cells.len(), climb_unions(levels, levels.cells.len()))
}

/// The basins of the climb are a partition of the cells.
pub proof fn lemma_climb_partition(levels: Grid<u32>)
    requires
        levels.wf(),
    ensures
        crate::partition::is_partition(climb_partition(levels)),
        climb_partition(levels).len() == levels.cells.len(),
{
    lemma_climb_unions_in_range(levels, levels.cells.len());
    lemma_apply_unions_is_partition(
        levels.cells.len(),
        climb_unions(levels, levels.cells.len()),
    );
}

proof fn lemma_climb_target_in_bounds(levels: Grid<u32>, x: int, y: int, d: nat)
    ensures
        climb_target(levels, x, y, d) matches Some(t) ==> levels.in_bounds(t.0, t.1),
    decreases d,
{
    if d > 0 {
        lemma_climb_target_in_bounds(levels, x, y, (d - 1) as nat);
    }
}

proof fn lemma_climb_unions_in_range(levels: Grid<u32>, k: nat)
    requires
        levels.wf(),
        k <= levels.cells.len(),
    ensures
        ops_in_range(levels.cells.len(), climb_unions(levels, k)),
    decreases k,
{
    if k > 0 {
        lemma_climb_unions_in_range(levels, (k - 1) as nat);
        let (x, y) = ((k - 1) % levels.width, (k - 1) / levels.width);
        lemma_climb_target_in_bounds(levels, x, y, 4);
        if let Some(t) = climb_target(levels, x, y, 4) {
            lemma_offset_in_range(levels.width, levels.height, t.0, t.1);
        }
    }
}

/// The cell that `(x, y)` climbs to, if any.
fn climb_from(levels: &Array2D<u32>, x: i32, y: i32) -> (r: Option<(i32, i32)>)
    requires
        levels@.wf(),
        levels@.in_bounds(x as int, y as int),
    ensures
        match r {
            Some(t) => climb_target(levels@, x as int, y as int, 4) == Some((t.0 as int, t.1 as int))
                && levels@.in_bounds(t.0 as int, t.1 as int),
            None => climb_target(levels@, x as int, y as int, 4) is None,
        },
{
    let width = levels.width();
    let height = levels.height();
    let here = *levels.get(x, y);
    let mut best: Option<((i32, i32), u32)> = None;
    let mut d: u8 = 0;
    while d < 4
        invariant
            0 <= d <= 4,
            levels@.wf(),
            levels@.in_bounds(x as int, y as int),
            width == levels@.width,
            height == levels@.height,
            here == levels@.at(x as int, y as int),
            match best {
                Some((t, level)) => climb_target(levels@, x as int, y as int, d as nat) == Some(
                    (t.0 as int, t.1 as int),
                ) && levels@.in_bounds(t.0 as int, t.1 as int) && level == levels@.at(
                    t.0 as int,
                    t.1 as int,
                ),
                None => climb_target(levels@, x as int, y as int, d as nat) is None,
            },
        decreases 4 - d,
    {
        let (dx, dy): (i32, i32) = if d == 0 {
            (-1, 0)
        } else if d == 1 {
            (1, 0)
        } else if d == 2 {
            (0, -1)
        } else {
            (0, 1)
        };
        let (nx, ny) = (x + dx, y + dy);
        if !(nx < 0 || ny < 0 || nx >= width || ny >= height) {
            let level = *levels.get(nx, ny);
            if level >= here {
                let higher = match best {
                    Some((_, seen)) => seen < level,
                    None => true,
                };
                if higher {
                    best = Some(((nx, ny), level));
                }
            }
        }
        d += 1;
    }
    match best {
        Some((t, _)) => Some(t),
        None => None,
    }
}

/// The cells among the first `k` in row-major order whose basin has the
/// number `c`, the basins numbered by their representatives in row-major
/// order.
pub open spec fn basin_below(levels: Grid<u32>, c: int, k: int) -> Set<(int, int)> {
    Set::new(
        |p: (int, int)|
            {
                let m = climb_partition(levels);
                &&& levels.in_bounds(p.0, p.1)
                &&& levels.offset(p.0, p.1) < k
                &&& representatives_below(m, m[levels.offset(p.0, p.1)] as nat) == c
            },
    )
}

/// Of the cells of `cells` at the peak level of `s`, the peak of `s` is
/// the first in row-major order.
pub open spec fn peaks_first(levels: Grid<u32>, cells: Set<(int, int)>, s: ClusterSummary) -> bool {
    forall|p: (int, int)|
        cells.contains(p) && #[trigger] levels.at(p.0, p.1) == s.max_density && s.max_density > 0
            ==> levels.offset(s.max_density_location.0 as int, s.max_density_location.1 as int)
            <= levels.offset(p.0, p.1)
}

/// What the climb leaves: every cell has the number of its basin, the
/// basins numbered from 0 in the row-major order of their representatives,
/// and each summary is that of the cells of its basin, with the peak at
/// the first of its highest cells.
pub open spec fn climbed_to_basins(
    levels: Grid<u32>,
    labels: Grid<i32>,
    summaries: Seq<ClusterSummary>,
) -> bool {
    let m = climb_partition(levels);
    &&& labels.wf()
    &&& labels.width == levels.width
    &&& labels.height == levels.height
    &&& forall|j: int|
        0 <= j < labels.cells.len() ==> #[trigger] labels.cells[j] == representatives_below(
            m,
            m[j] as nat,
        )
    &&& summaries.len() == representatives_below(m, levels.cells.len())
    &&& forall|c: int|
        0 <= c < summaries.len() ==> summarizes(levels, region(labels, c), #[trigger] summaries[c])
    &&& forall|c: int| 0 <= c < summaries.len() ==> (#[trigger] summaries[c]).num_pixels >= 1
    &&& forall|c: int|
        0 <= c < summaries.len() ==> peaks_first(levels, region(labels, c), #[trigger] summaries[c])
}

/// Assigns every cell to the basin it climbs to: each cell is joined to the
/// highest cell beside it that is at least as high, and the classes that
/// result are numbered from 0 in the row-major order of their
/// representatives. Returns the number of the basin of every cell, and the
/// summary of every basin.
pub fn find_initial_clusters_disjoint_set(density_map: &Array2D<u32>) -> (r: (
    Array2D<i32>,
    Vec<ClusterSummary>,
))
    requires
        density_map@.wf(),
        density_map@.cells.len() <= i32::MAX,
    ensures
        climbed_to_basins(density_map@, r.0@, r.1@),
{
    let width = density_map.width();
    let height = density_map.height();
    let ghost levels = density_map@;
    let cell_count = density_map.as_slice().len();
    assert(width * height == cell_count);
    let n: i32 = width * height;
    let mut cluster_map = Array2D::<i32>::new_with_constant(width, height, -1);
    let mut disjoint_set = DisjointSet2D::new(width, height);
    let mut j: i32 = 0;
    while j < n
        invariant
            levels == density_map@,
            levels.wf(),
            width == levels.width,
            height == levels.height,
            n == levels.cells.len(),
            0 <= j <= n,
            disjoint_set.wf(),
            disjoint_set.spec_width() == width,
            disjoint_set.spec_height() == height,
            disjoint_set@ == apply_unions(n as nat, climb_unions(levels, j as nat)),
        decreases n - j,
    {
        proof {
            lemma_coord_in_bounds(width as int, height as int, j as int);
        }
        let (x, y) = (j % width, j / width);
        let ghost rest = climb_unions(levels, j as nat);
        match climb_from(density_map, x, y) {
            Some(t) => {
                disjoint_set.union((x, y), t);
                proof {
                    let op = (j as int, levels.offset(t.0 as int, t.1 as int));
                    assert(climb_unions(levels, (j + 1) as nat) == rest.push(op));
                    assert(rest.push(op).drop_last() =~= rest);
                    assert(rest.push(op).last() == op);
                }
            },
            None => {
                assert(climb_unions(levels, (j + 1) as nat) == rest);
            },
        }
        j += 1;
    }
    let ghost m = climb_partition(levels);
    proof {
        lemma_climb_unions_in_range(levels, n as nat);
        lemma_apply_unions_is_partition(n as nat, climb_unions(levels, n as nat));
    }
    let mut summaries: Vec<ClusterSummary> = Vec::new();
    j = 0;
    while j < n
        invariant
            levels == density_map@,
            levels.wf(),
            width == levels.width,
            height == levels.height,
            n == levels.cells.len(),
            m == climb_partition(levels),
            m.len() == n,
            0 <= j <= n,
            disjoint_set.wf(),
            disjoint_set.spec_width() == width,
            disjoint_set.spec_height() == height,
            disjoint_set@ == m,
            cluster_map@.wf(),
            cluster_map@.width == width,
            cluster_map@.height == height,
            summaries@.len() == representatives_below(m, j as nat),
            forall|i: int| 0 <= i < summaries@.len() ==> summaries@[i] == zero_summary(),
            forall|i: int|
                0 <= i < n ==> #[trigger] cluster_map@.cells[i] == if i < j && m[i] == i {
                    representatives_below(m, i as nat) as int
                } else {
                    -1
                },
        decreases n - j,
    {
        proof {
            lemma_coord_in_bounds(width as int, height as int, j as int);
            lemma_representatives_below(m, j as nat);
        }
        let (x, y) = (j % width, j / width);
        let p = disjoint_set.find_parent((x, y));
        if p.0 == x && p.1 == y {
            cluster_map.set(x, y, summaries.len() as i32);
            summaries.push(ClusterSummary::zero());
        }
        j += 1;
    }
    j = 0;
    proof {
        assert forall|c: int| 0 <= c < summaries@.len() implies summarizes(
            levels,
            basin_below(levels, c, 0),
            #[trigger] summaries@[c],
        ) && peaks_first(levels, basin_below(levels, c, 0), summaries@[c]) by {
            assert(basin_below(levels, c, 0) =~= Set::<(int, int)>::empty());
        }
    }
    while j < n
        invariant
            levels == density_map@,
            levels.wf(),
            width == levels.width,
            height == levels.height,
            n == levels.cells.len(),
            m == climb_partition(levels),
            m.len() == n,
            crate::partition::is_partition(m),
            0 <= j <= n,
            disjoint_set.wf(),
            disjoint_set.spec_width() == width,
            disjoint_set.spec_height() == height,
            disjoint_set@ == m,
            cluster_map@.wf(),
            cluster_map@.width == width,
            cluster_map@.height == height,
            summaries@.len() == representatives_below(m, n as nat),
            forall|i: int|
                0 <= i < n && (i < j || m[i] == i) ==> #[trigger] cluster_map@.cells[i]
                    == representatives_below(m, m[i] as nat),
            forall|c: int|
                0 <= c < summaries@.len() ==> summarizes(
                    levels,
                    basin_below(levels, c, j as int),
                    #[trigger] summaries@[c],
                ),
            forall|c: int| 0 <= c < summaries@.len() ==> (#[trigger] summaries@[c]).num_pixels <= j,
            forall|c: int|
                0 <= c < summaries@.len() ==> peaks_first(
                    levels,
                    basin_below(levels, c, j as int),
                    #[trigger] summaries@[c],
                ),
        decreases n - j,
    {
        proof {
            lemma_coord_in_bounds(width as int, height as int, j as int);
        }
        let (x, y) = (j % width, j / width);
        let p = disjoint_set.find_parent((x, y));
        let ghost root = m[j as int];
        proof {
            assert(0 <= root < n && m[root] == root);
            lemma_coord_in_bounds(width as int, height as int, root);
            lemma_offset_in_range(width as int, height as int, p.0 as int, p.1 as int);
            lemma_representatives_below_grows(m, root as nat, n as nat);
        }
        let id = *cluster_map.get(p.0, p.1);
        cluster_map.set(x, y, id);
        let mut summary = summaries[id as usize];
        let ghost before = summaries@;
        summary.update((x, y), *density_map.get(x, y));
        summaries[id as usize] = summary;
        proof {
            assert forall|c: int| 0 <= c < summaries@.len() implies peaks_first(
                levels,
                basin_below(levels, c, j + 1),
                #[trigger] summaries@[c],
            ) by {
                let old_cells = basin_below(levels, c, j as int);
                assert(peaks_first(levels, old_cells, before[c]));
                assert(summarizes(levels, old_cells, before[c]));
                lemma_offset_in_range(width as int, height as int, x as int, y as int);
                assert forall|q: (int, int)|
                    basin_below(levels, c, j + 1).contains(q) && #[trigger] levels.at(q.0, q.1)
                        == summaries@[c].max_density && summaries@[c].max_density
                        > 0 implies levels.offset(
                    summaries@[c].max_density_location.0 as int,
                    summaries@[c].max_density_location.1 as int,
                ) <= levels.offset(q.0, q.1) by {
                    lemma_offset_in_range(width as int, height as int, q.0, q.1);
                    if c == id {
                        if q != (x as int, y as int) {
                            assert(old_cells.contains(q));
                            assert(levels.at(q.0, q.1) <= before[c].max_density);
                        } else if before[c].max_density > 0 {
                            let at = before[c].max_density_location;
                            assert(old_cells.contains((at.0 as int, at.1 as int)));
                        }
                    } else {
                        assert(old_cells.contains(q));
                    }
                }
            }
        }
        proof {
            assert forall|c: int| 0 <= c < summaries@.len() implies summarizes(
                levels,
                basin_below(levels, c, j + 1),
                #[trigger] summaries@[c],
            ) by {
                let old_cells = basin_below(levels, c, j as int);
                let new_cells = basin_below(levels, c, j + 1);
                assert(summarizes(levels, old_cells, before[c]));
                if c == id {
                    lemma_updated_summarizes(levels, old_cells, before[c], (x, y));
                    assert forall|q: (int, int)| new_cells.contains(q) <==> old_cells.insert(
                        (x as int, y as int),
                    ).contains(q) by {
                        if levels.in_bounds(q.0, q.1) {
                            lemma_offset_in_range(width as int, height as int, q.0, q.1);
                        }
                    }
                    assert(new_cells =~= old_cells.insert((x as int, y as int)));
                } else {
                    assert forall|q: (int, int)| new_cells.contains(q) <==> old_cells.contains(q) by {
                        if levels.in_bounds(q.0, q.1) {
                            lemma_offset_in_range(width as int, height as int, q.0, q.1);
                        }
                    }
                    assert(new_cells =~= old_cells);
                }
            }
        }
        j += 1;
    }
    proof {
        assert forall|c: int| 0 <= c < summaries@.len() implies summarizes(
            levels,
            region(cluster_map@, c),
            #[trigger] summaries@[c],
        ) && peaks_first(levels, region(cluster_map@, c), summaries@[c]) by {
            assert(peaks_first(levels, basin_below(levels, c, n as int), summaries@[c]));
            assert forall|q: (int, int)| region(cluster_map@, c).contains(q) <==> basin_below(
                levels,
                c,
                n as int,
            ).contains(q) by {
                if levels.in_bounds(q.0, q.1) {
                    lemma_offset_in_range(width as int, height as int, q.0, q.1);
                }
            }
            assert(region(cluster_map@, c) =~= basin_below(levels, c, n as int));
        }
        assert forall|c: int| 0 <= c < summaries@.len() implies (
        #[trigger] summaries@[c]).num_pixels >= 1 by {
            let root = lemma_representatives_below_onto(m, n as nat, c);
            lemma_coord_in_bounds(width as int, height as int, root);
            let p = (root % (width as int), root / (width as int));
            assert(cluster_map@.cells[root] == c);
            assert(region(cluster_map@, c).contains(p));
            assert(summarizes(levels, region(cluster_map@, c), summaries@[c]));
            if region(cluster_map@, c).len() == 0 {
                assert(region(cluster_map@, c) =~= Set::<(int, int)>::empty());
            }
        }
    }
    (cluster_map, summaries)
}

} // verus!
