//! The graph of clusters: which clusters touch, along which cells, and what
//! becomes of the borders when two clusters are made one.

use std::collections::HashMap;
use vstd::prelude::*;
use crate::array_2d::{lemma_coord_in_bounds, lemma_offset_in_range, Array2D, Grid};
use crate::cluster_summary::{merged, ClusterSummary};
use crate::edge_summary::{
    absorb_edge,
    absorb_pixel,
    empty_border,
    with_pixel,
    distinct,
    joined,
    lemma_lookup_index,
    lemma_lookup_none,
    lemma_lookup_remove,
    lookup,
    or_empty,
    take_edge,
    Border,
    Edge,
    EdgeSummary,
};

verus! {

/// The mathematical content of a [`ClusterGraph`] over the cluster numbers
/// `0..alive.len()`. A number is a node while it is alive; a cluster that
/// was united into another is not.
pub struct GraphModel {
    pub alive: Seq<bool>,
    /// For each node the side it has of its border with each neighbour.
    pub borders: Seq<Map<int, Border>>,
    /// For each node the clusters that were united into it, itself first.
    pub members: Seq<Seq<i32>>,
    pub summaries: Seq<ClusterSummary>,
    /// For each cluster number the node that it was united into.
    pub owner: Seq<int>,
}

/// The cells counted by the summaries of the nodes below `k`.
pub open spec fn pixels_below(alive: Seq<bool>, summaries: Seq<ClusterSummary>, k: nat) -> nat
    decreases k,
{
    if k == 0 {
        0
    } else {
        pixels_below(alive, summaries, (k - 1) as nat) + if alive[k - 1] {
            summaries[k - 1].num_pixels as nat
        } else {
            0nat
        }
    }
}

impl GraphModel {
    /// How many cluster numbers there are.
    pub open spec fn len(self) -> int {
        self.alive.len() as int
    }

    /// The cluster number `a` is a node.
    pub open spec fn is_node(self, a: int) -> bool {
        0 <= a < self.len() && self.alive[a]
    }

    /// The side that `a` has of its border with `b`, if the two touch.
    pub open spec fn border(self, a: int, b: int) -> Option<Border> {
        if 0 <= a < self.borders.len() && self.borders[a].contains_key(b) {
            Some(self.borders[a][b])
        } else {
            None
        }
    }

    /// The cells counted by all nodes together.
    pub open spec fn total_pixels(self) -> nat {
        pixels_below(self.alive, self.summaries, self.alive.len())
    }

    /// Borders are between two different nodes and have two sides; every
    /// cluster number belongs to the node that owns it; and the cells
    /// counted fit `usize`.
    pub open spec fn wf(self) -> bool {
        &&& self.borders.len() == self.len()
        &&& self.members.len() == self.len()
        &&& self.summaries.len() == self.len()
        &&& self.owner.len() == self.len()
        &&& self.total_pixels() <= usize::MAX
        &&& forall|a: int, b: int|
            0 <= a < self.len() && #[trigger] self.borders[a].contains_key(b) ==> {
                &&& self.is_node(a)
                &&& self.is_node(b)
                &&& a != b
                &&& self.borders[b].contains_key(a)
            }
        &&& forall|a: int, i: int|
            0 <= a < self.len() && 0 <= i < self.members[a].len() ==> {
                &&& 0 <= #[trigger] self.members[a][i] < self.len()
                &&& self.owner[self.members[a][i] as int] == a
            }
        &&& forall|id: int|
            0 <= id < self.len() ==> self.is_node(#[trigger] self.owner[id])
                && self.members[self.owner[id]].contains(id as i32)
    }

    /// The side that `x` has of its border with `y` once `b` is united into
    /// `a`: a border with `b` becomes a border with `a`, appended to the
    /// one that was there.
    pub open spec fn union_border(self, a: int, b: int, x: int, y: int) -> Option<Border> {
        if x == b || y == b {
            None
        } else if x == a && y != a {
            match self.border(b, y) {
                Some(w) => Some(joined(or_empty(self.border(a, y)), w)),
                None => self.border(a, y),
            }
        } else if y == a && x != a {
            match self.border(x, b) {
                Some(w) => Some(joined(or_empty(self.border(x, a)), w)),
                None => self.border(x, a),
            }
        } else {
            self.border(x, y)
        }
    }

    /// The graph after the node `b` is united into the node `a`.
    pub open spec fn union(self, a: int, b: int) -> GraphModel {
        if a == b {
            self
        } else {
            GraphModel {
                alive: self.alive.update(b, false),
                borders: Seq::new(
                    self.alive.len(),
                    |x: int|
                        Map::new(
                            |y: int| self.union_border(a, b, x, y) is Some,
                            |y: int| self.union_border(a, b, x, y).unwrap(),
                        ),
                ),
                members: self.members.update(a, self.members[a] + self.members[b]).update(
                    b,
                    Seq::empty(),
                ),
                summaries: self.summaries.update(a, merged(self.summaries[a], self.summaries[b])),
                owner: Seq::new(
                    self.alive.len(),
                    |id: int|
                        if self.owner[id] == b {
                            a
                        } else {
                            self.owner[id]
                        },
                ),
            }
        }
    }
}

proof fn lemma_pixels_below_bound(alive: Seq<bool>, summaries: Seq<ClusterSummary>, k: nat, a: int)
    requires
        0 <= a < k,
        alive[a],
    ensures
        summaries[a].num_pixels <= pixels_below(alive, summaries, k),
    decreases k,
{
    if a < k - 1 {
        lemma_pixels_below_bound(alive, summaries, (k - 1) as nat, a);
    }
}

proof fn lemma_pixels_below_two(
    alive: Seq<bool>,
    summaries: Seq<ClusterSummary>,
    k: nat,
    a: int,
    b: int,
)
    requires
        0 <= a < k,
        0 <= b < k,
        a != b,
        alive[a],
        alive[b],
    ensures
        summaries[a].num_pixels + summaries[b].num_pixels <= pixels_below(alive, summaries, k),
    decreases k,
{
    if a == k - 1 {
        lemma_pixels_below_bound(alive, summaries, (k - 1) as nat, b);
    } else if b == k - 1 {
        lemma_pixels_below_bound(alive, summaries, (k - 1) as nat, a);
    } else {
        lemma_pixels_below_two(alive, summaries, (k - 1) as nat, a, b);
    }
}

proof fn lemma_pixels_below_union(g: GraphModel, a: int, b: int, k: nat)
    requires
        g.summaries.len() == g.len(),
        g.is_node(a),
        g.is_node(b),
        a != b,
        k <= g.len(),
        g.summaries[a].num_pixels + g.summaries[b].num_pixels <= usize::MAX,
    ensures
        pixels_below(g.union(a, b).alive, g.union(a, b).summaries, k) == pixels_below(
            g.alive,
            g.summaries,
            k,
        ) + (if a < k {
            g.summaries[b].num_pixels as int
        } else {
            0
        }) - (if b < k {
            g.summaries[b].num_pixels as int
        } else {
            0
        }),
    decreases k,
{
    if k > 0 {
        lemma_pixels_below_union(g, a, b, (k - 1) as nat);
    }
}

/// Uniting two nodes keeps the graph well formed, and the count of cells
/// as it is.
pub proof fn lemma_union_wf(g: GraphModel, a: int, b: int)
    requires
        g.wf(),
        g.is_node(a),
        g.is_node(b),
    ensures
        g.union(a, b).wf(),
        g.union(a, b).total_pixels() == g.total_pixels(),
        g.union(a, b).len() == g.len(),
        a != b ==> g.summaries[a].num_pixels + g.summaries[b].num_pixels <= usize::MAX,
{
    if a != b {
        let u = g.union(a, b);
        lemma_pixels_below_two(g.alive, g.summaries, g.alive.len(), a, b);
        lemma_pixels_below_union(g, a, b, g.alive.len());
        assert forall|x: int, y: int| 0 <= x < u.len() && #[trigger] u.borders[x].contains_key(
            y,
        ) implies {
            &&& u.is_node(x)
            &&& u.is_node(y)
            &&& x != y
            &&& u.borders[y].contains_key(x)
        } by {
            assert(g.union_border(a, b, x, y) is Some);
            if x == a {
                if g.border(b, y) is Some {
                    assert(g.borders[b].contains_key(y));
                    assert(g.borders[y].contains_key(b));
                } else {
                    assert(g.borders[a].contains_key(y));
                }
                assert(g.union_border(a, b, y, x) is Some);
            } else if y == a {
                if g.border(x, b) is Some {
                    assert(g.borders[x].contains_key(b));
                    assert(g.borders[b].contains_key(x));
                } else {
                    assert(g.borders[x].contains_key(a));
                }
                assert(g.union_border(a, b, y, x) is Some);
            } else {
                assert(g.borders[x].contains_key(y));
                assert(g.union_border(a, b, y, x) is Some);
            }
        }
        assert forall|x: int, i: int| 0 <= x < u.len() && 0 <= i < u.members[x].len() implies {
            &&& 0 <= #[trigger] u.members[x][i] < u.len()
            &&& u.owner[u.members[x][i] as int] == x
        } by {
            if x == a {
                if i < g.members[a].len() {
                    assert(u.members[a][i] == g.members[a][i]);
                } else {
                    assert(u.members[a][i] == g.members[b][i - g.members[a].len()]);
                }
            } else {
                assert(u.members[x][i] == g.members[x][i]);
            }
        }
        assert forall|id: int| 0 <= id < u.len() implies u.is_node(#[trigger] u.owner[id])
            && u.members[u.owner[id]].contains(id as i32) by {
            let o = g.owner[id];
            assert(g.is_node(o) && g.members[o].contains(id as i32));
            let i = choose|i: int| 0 <= i < g.members[o].len() && g.members[o][i] == id as i32;
            if o == b {
                assert(u.members[a][g.members[a].len() + i] == id as i32);
            } else if o == a {
                assert(u.members[a][i] == id as i32);
            } else {
                assert(u.members[o][i] == id as i32);
            }
        }
    }
}

/// The square of the distance between two cells.
pub open spec fn distance_squared(p: (i32, i32), q: (i32, i32)) -> int {
    (p.0 - q.0) * (p.0 - q.0) + (p.1 - q.1) * (p.1 - q.1)
}

/// The border with `b` has a cell whose distance from `from` has the square
/// `d`.
pub open spec fn reaches(borders: Map<int, Border>, from: (i32, i32), b: int, d: int) -> bool {
    borders.contains_key(b) && exists|i: int|
        0 <= i < borders[b].pixels.len() && distance_squared(
            (#[trigger] borders[b].pixels[i].0, borders[b].pixels[i].1),
            from,
        ) == d
}

/// No border cell is nearer to `from` than the square distance `d`, at
/// which the border with `b` has one, and of the borders with a cell at
/// that distance `b` is the one with the least number.
pub open spec fn is_nearest(borders: Map<int, Border>, from: (i32, i32), b: int, d: int) -> bool {
    &&& reaches(borders, from, b, d)
    &&& forall|b2: int, d2: int| #[trigger]
        reaches(borders, from, b2, d2) ==> d < d2 || (d == d2 && b <= b2)
}

/// The nearest border cell to `from`: the neighbour it borders on and the
/// square of its distance. `None` where there is no border cell.
pub open spec fn nearest(borders: Map<int, Border>, from: (i32, i32)) -> Option<(int, int)> {
    if exists|p: (int, int)| #[trigger] is_nearest(borders, from, p.0, p.1) {
        Some(choose|p: (int, int)| #[trigger] is_nearest(borders, from, p.0, p.1))
    } else {
        None
    }
}

/// There is one nearest border cell at most.
pub proof fn lemma_nearest_is_unique(borders: Map<int, Border>, from: (i32, i32), b: int, d: int)
    requires
        is_nearest(borders, from, b, d),
    ensures
        nearest(borders, from) == Some((b, d)),
{
    assert(is_nearest(borders, from, (b, d).0, (b, d).1));
    let p = choose|p: (int, int)| #[trigger] is_nearest(borders, from, p.0, p.1);
    assert(reaches(borders, from, p.0, p.1));
    assert(reaches(borders, from, b, d));
}

/// The nearest border cell is a cell of a border.
pub proof fn lemma_nearest_is_reached(borders: Map<int, Border>, from: (i32, i32))
    ensures
        nearest(borders, from) matches Some(found) ==> is_nearest(
            borders,
            from,
            found.0,
            found.1,
        ) && borders.contains_key(found.0),
{
}

/// Without a border cell there is no nearest.
pub proof fn lemma_nearest_none(borders: Map<int, Border>, from: (i32, i32))
    requires
        forall|b: int, d: int| !reaches(borders, from, b, d),
    ensures
        nearest(borders, from) is None,
{
}

/// `r` is the highest level on the borders of `borders` with clusters other
/// than `a` and `b`, and 0 where there is no such border.
pub open spec fn is_max_density(borders: Map<int, Border>, a: int, b: int, r: u32) -> bool {
    &&& forall|k: int|
        borders.contains_key(k) && k != a && k != b ==> (#[trigger] borders[k]).max_density <= r
    &&& r == 0 || exists|k: int|
        borders.contains_key(k) && k != a && k != b && (#[trigger] borders[k]).max_density == r
}

/// The highest level on the borders of `borders` with clusters other than
/// `a` and `b`.
pub open spec fn max_density_but(borders: Map<int, Border>, a: int, b: int) -> u32 {
    choose|r: u32| is_max_density(borders, a, b, r)
}

/// There is one highest level on the borders.
pub proof fn lemma_max_density_is_unique(borders: Map<int, Border>, a: int, b: int, r: u32)
    requires
        is_max_density(borders, a, b, r),
    ensures
        max_density_but(borders, a, b) == r,
{
    let c = max_density_but(borders, a, b);
    assert(is_max_density(borders, a, b, c));
    if r != 0 {
        let k = choose|k: int|
            borders.contains_key(k) && k != a && k != b && (#[trigger] borders[k]).max_density == r;
        assert(borders[k].max_density <= c);
    }
    if c != 0 {
        let k = choose|k: int|
            borders.contains_key(k) && k != a && k != b && (#[trigger] borders[k]).max_density == c;
        assert(borders[k].max_density <= r);
    }
}

impl GraphModel {
    /// The nearest border cell of the node `a` to the peak of `a`.
    pub open spec fn min_distance_to_edge(self, a: int) -> Option<(int, int)> {
        nearest(self.borders[a], self.summaries[a].max_density_location)
    }

    /// The highest level on the borders of the node `a`.
    pub open spec fn max_edge_density(self, a: int) -> u32 {
        max_density_but(self.borders[a], -1, -1)
    }

    /// The highest level on the borders that `a` and `b` have with other
    /// nodes.
    pub open spec fn max_edge_density_for_pair(self, a: int, b: int) -> u32 {
        let m1 = max_density_but(self.borders[a], a, b);
        let m2 = max_density_but(self.borders[b], a, b);
        if m1 >= m2 {
            m1
        } else {
            m2
        }
    }
}

/// The borders that the list holds, by neighbour.
pub open spec fn borders_of(list: Seq<Edge>) -> Map<int, Border> {
    Map::new(|k: int| lookup(list, k) is Some, |k: int| lookup(list, k).unwrap())
}

/// The two cells that the `s`-th step of the scan for borders looks at:
/// the cell numbered `s / 2` in row-major order, and the cell to its right
/// for an even `s`, the cell below it for an odd one.
pub open spec fn scan_pair(width: int, s: int) -> ((int, int), (int, int)) {
    let (x, y) = ((s / 2) % width, (s / 2) / width);
    if s % 2 == 0 {
        ((x, y), (x + 1, y))
    } else {
        ((x, y), (x, y + 1))
    }
}

/// The `s`-th step of the scan finds a border: its two cells carry
/// different labels, neither of them -1. A pair whose second cell lies in
/// the last column or the last row is passed over.
pub open spec fn is_border_step(labels: Grid<i32>, s: int) -> bool {
    let ((x, y), (nx, ny)) = scan_pair(labels.width, s);
    &&& nx < labels.width - 1
    &&& ny < labels.height - 1
    &&& labels.at(x, y) != labels.at(nx, ny)
    &&& labels.at(x, y) != -1
    &&& labels.at(nx, ny) != -1
}

/// The side that the cluster `a` has of its border with the cluster `b`,
/// as the first `s` steps of the scan find it.
pub open spec fn scanned_border(levels: Grid<u32>, labels: Grid<i32>, a: int, b: int, s: nat) -> Border
    decreases s,
{
    if s == 0 {
        empty_border()
    } else {
        let found = scanned_border(levels, labels, a, b, (s - 1) as nat);
        let ((x, y), (nx, ny)) = scan_pair(labels.width, s - 1);
        if is_border_step(labels, s - 1) && labels.at(x, y) == a && labels.at(nx, ny) == b {
            with_pixel(found, (x as i32, y as i32), levels.at(x, y))
        } else if is_border_step(labels, s - 1) && labels.at(nx, ny) == a && labels.at(x, y) == b {
            with_pixel(found, (nx as i32, ny as i32), levels.at(nx, ny))
        } else {
            found
        }
    }
}

/// `b`, or nothing where `b` has no cell.
pub open spec fn if_any(b: Border) -> Option<Border> {
    if b.pixels.len() > 0 {
        Some(b)
    } else {
        None
    }
}

/// The borders of the cluster `a` as the first `s` steps of the scan find
/// them.
pub open spec fn scanned_borders(levels: Grid<u32>, labels: Grid<i32>, a: int, s: nat) -> Map<
    int,
    Border,
> {
    Map::new(
        |b: int| if_any(scanned_border(levels, labels, a, b, s)) is Some,
        |b: int| scanned_border(levels, labels, a, b, s),
    )
}

/// The cells counted by the summaries together.
pub open spec fn counted_pixels(summaries: Seq<ClusterSummary>) -> nat {
    pixels_below(Seq::new(summaries.len(), |a: int| true), summaries, summaries.len())
}

/// The graph of the clusters of a raster before any two are united: every
/// cluster is a node of its own, with the borders that the scan of the
/// whole raster finds.
pub open spec fn initial_graph(
    levels: Grid<u32>,
    labels: Grid<i32>,
    summaries: Seq<ClusterSummary>,
) -> GraphModel {
    GraphModel {
        alive: Seq::new(summaries.len(), |a: int| true),
        borders: Seq::new(
            summaries.len(),
            |a: int| scanned_borders(levels, labels, a, (2 * labels.cells.len()) as nat),
        ),
        members: Seq::new(summaries.len(), |a: int| seq![a as i32]),
        summaries: summaries,
        owner: Seq::new(summaries.len(), |a: int| a),
    }
}

/// With every cluster a node, the graph counts what the summaries count.
pub proof fn lemma_counted_pixels(summaries: Seq<ClusterSummary>, k: nat)
    requires
        k <= summaries.len(),
    ensures
        pixels_below(Seq::new(summaries.len(), |a: int| true), summaries, k)
            == crate::regions::pixels_in(summaries, k),
    decreases k,
{
    if k > 0 {
        lemma_counted_pixels(summaries, (k - 1) as nat);
    }
}

/// Every cell carries -1 or a cluster number below `n`.
pub open spec fn labels_below(labels: Grid<i32>, n: int) -> bool {
    forall|k: int| 0 <= k < labels.cells.len() ==> -1 <= #[trigger] labels.cells[k] < n
}

proof fn lemma_scanned_border(levels: Grid<u32>, labels: Grid<i32>, a: int, b: int, s: nat, n: int)
    requires
        labels.wf(),
        labels_below(labels, n),
        s <= 2 * labels.cells.len(),
    ensures
        scanned_border(levels, labels, a, b, s).pixels.len() == 0 ==> scanned_border(
            levels,
            labels,
            a,
            b,
            s,
        ) == empty_border(),
        scanned_border(levels, labels, a, b, s).pixels.len() > 0 ==> 0 <= a < n && 0 <= b < n && a
            != b && scanned_border(levels, labels, b, a, s).pixels.len() > 0,
    decreases s,
{
    if s > 0 {
        lemma_scanned_border(levels, labels, a, b, (s - 1) as nat, n);
        lemma_scanned_border(levels, labels, b, a, (s - 1) as nat, n);
        if is_border_step(labels, s - 1) {
            lemma_scan_pair(labels, s - 1);
        }
    }
}

/// The two cells of a step that finds a border lie on the grid.
proof fn lemma_scan_pair(labels: Grid<i32>, s: int)
    requires
        labels.wf(),
        0 <= s < 2 * labels.cells.len(),
        scan_pair(labels.width, s).1.0 < labels.width - 1,
        scan_pair(labels.width, s).1.1 < labels.height - 1,
    ensures
        labels.in_bounds(scan_pair(labels.width, s).0.0, scan_pair(labels.width, s).0.1),
        labels.in_bounds(scan_pair(labels.width, s).1.0, scan_pair(labels.width, s).1.1),
        labels.at(scan_pair(labels.width, s).0.0, scan_pair(labels.width, s).0.1)
            == labels.cells[labels.offset(
            scan_pair(labels.width, s).0.0,
            scan_pair(labels.width, s).0.1,
        )],
        0 <= labels.offset(scan_pair(labels.width, s).0.0, scan_pair(labels.width, s).0.1)
            < labels.cells.len(),
        0 <= labels.offset(scan_pair(labels.width, s).1.0, scan_pair(labels.width, s).1.1)
            < labels.cells.len(),
{
    lemma_coord_in_bounds(labels.width, labels.height, s / 2);
    let ((x, y), (nx, ny)) = scan_pair(labels.width, s);
    lemma_offset_in_range(labels.width, labels.height, x, y);
    lemma_offset_in_range(labels.width, labels.height, nx, ny);
}

/// What the lists hold after the first `s` steps of the scan.
spec fn recorded(lists: Seq<Vec<Edge>>, levels: Grid<u32>, labels: Grid<i32>, s: nat) -> bool {
    &&& forall|a: int| 0 <= a < lists.len() ==> distinct(#[trigger] lists[a]@)
    &&& forall|a: int, b: int|
        0 <= a < lists.len() ==> lookup(lists[a]@, b) == if_any(
            scanned_border(levels, labels, a, b, s),
        )
}

/// One step of the scan for borders.
fn record_pair(
    lists: &mut Vec<Vec<Edge>>,
    density_map: &Array2D<u32>,
    cluster_map: &Array2D<i32>,
    x: i32,
    y: i32,
    down: bool,
    Ghost(s): Ghost<nat>,
)
    requires
        density_map@.wf(),
        cluster_map@.wf(),
        density_map@.width == cluster_map@.width,
        density_map@.height == cluster_map@.height,
        labels_below(cluster_map@, old(lists)@.len() as int),
        cluster_map@.in_bounds(x as int, y as int),
        s == 2 * cluster_map@.offset(x as int, y as int) + if down {
            1int
        } else {
            0int
        },
        recorded(old(lists)@, density_map@, cluster_map@, s),
    ensures
        final(lists)@.len() == old(lists)@.len(),
        recorded(final(lists)@, density_map@, cluster_map@, s + 1),
{
    let width = cluster_map.width();
    let height = cluster_map.height();
    let ghost levels = density_map@;
    let ghost labels = cluster_map@;
    let ghost n = lists@.len() as int;
    proof {
        lemma_offset_in_range(width as int, height as int, x as int, y as int);
        let j = labels.offset(x as int, y as int);
        assert(s / 2 == j && s % 2 == if down {
            1int
        } else {
            0int
        });
        assert(scan_pair(labels.width, s as int) == if down {
            ((x as int, y as int), (x as int, y + 1))
        } else {
            ((x as int, y as int), (x + 1, y as int))
        });
    }
    let (nx, ny): (i32, i32) = if down {
        (x, if y < height - 1 {
            y + 1
        } else {
            y
        })
    } else {
        (if x < width - 1 {
            x + 1
        } else {
            x
        }, y)
    };
    if nx >= width - 1 || ny >= height - 1 {
        proof {
            assert(!is_border_step(labels, s as int));
            assert forall|a: int, b: int| 0 <= a < lists@.len() implies lookup(lists@[a]@, b)
                == if_any(scanned_border(levels, labels, a, b, s + 1)) by {
                assert(lookup(lists@[a]@, b) == if_any(scanned_border(levels, labels, a, b, s)));
                assert(scanned_border(levels, labels, a, b, s + 1) == scanned_border(
                    levels,
                    labels,
                    a,
                    b,
                    s,
                ));
            }
        }
        return ;
    }
    proof {
        lemma_offset_in_range(width as int, height as int, nx as int, ny as int);
        assert(-1 <= labels.cells[labels.offset(x as int, y as int)] < n);
        assert(-1 <= labels.cells[labels.offset(nx as int, ny as int)] < n);
    }
    let c0 = *cluster_map.get(x, y);
    let c1 = *cluster_map.get(nx, ny);
    if c0 != c1 && c0 != -1 && c1 != -1 {
        assert(is_border_step(labels, s as int));
        let ghost before = lists@;
        absorb_pixel(&mut lists[c0 as usize], c1, (x, y), *density_map.get(x, y));
        absorb_pixel(&mut lists[c1 as usize], c0, (nx, ny), *density_map.get(nx, ny));
        proof {
            let middle = before.update(c0 as int, lists@[c0 as int]);
            assert forall|a: int, b: int| 0 <= a < lists@.len() implies lookup(lists@[a]@, b)
                == if_any(scanned_border(levels, labels, a, b, s + 1)) by {
                assert(lookup(before[a]@, b) == if_any(scanned_border(levels, labels, a, b, s)));
                lemma_scanned_border(levels, labels, a, b, s, n);
                if a != c0 && a != c1 {
                    assert(lists@[a] == before[a]);
                }
            }
            assert forall|a: int| 0 <= a < lists@.len() implies distinct(#[trigger] lists@[a]@) by {
                assert(distinct(before[a]@));
            }
        }
    } else {
        proof {
            assert(!is_border_step(labels, s as int));
            assert forall|a: int, b: int| 0 <= a < lists@.len() implies lookup(lists@[a]@, b)
                == if_any(scanned_border(levels, labels, a, b, s + 1)) by {
                assert(lookup(lists@[a]@, b) == if_any(scanned_border(levels, labels, a, b, s)));
                assert(scanned_border(levels, labels, a, b, s + 1) == scanned_border(
                    levels,
                    labels,
                    a,
                    b,
                    s,
                ));
            }
        }
    }
}

/// The clusters of a raster, which of them touch, and along which cells.
pub struct ClusterGraph {
    neighbor_map: Vec<Vec<Edge>>,
    cluster_ids: Vec<Vec<i32>>,
    summary_map: Vec<ClusterSummary>,
    alive: Vec<bool>,
    owner: Vec<i32>,
    min_edge_distance_cache: Vec<Option<Option<(i32, u128)>>>,
}

impl View for ClusterGraph {
    type V = GraphModel;

    closed spec fn view(&self) -> GraphModel {
        GraphModel {
            alive: self.alive@,
            borders: Seq::new(self.alive@.len(), |a: int| borders_of(self.neighbor_map@[a]@)),
            members: Seq::new(self.alive@.len(), |a: int| self.cluster_ids@[a]@),
            summaries: self.summary_map@,
            owner: Seq::new(self.alive@.len(), |id: int| self.owner@[id] as int),
        }
    }
}

/// Makes `to` the owner of every cluster number in `ids`.
fn reassign(owner: &mut Vec<i32>, ids: &Vec<i32>, to: i32)
    requires
        forall|j: int| 0 <= j < ids@.len() ==> 0 <= #[trigger] ids@[j] < old(owner)@.len(),
    ensures
        final(owner)@.len() == old(owner)@.len(),
        forall|k: int|
            0 <= k < old(owner)@.len() ==> #[trigger] final(owner)@[k] == if exists|j: int|
                0 <= j < ids@.len() && ids@[j] == k {
                to
            } else {
                old(owner)@[k]
            },
{
    let mut i: usize = 0;
    while i < ids.len()
        invariant
            i <= ids@.len(),
            owner@.len() == old(owner)@.len(),
            forall|j: int| 0 <= j < ids@.len() ==> 0 <= #[trigger] ids@[j] < owner@.len(),
            forall|k: int|
                0 <= k < owner@.len() ==> #[trigger] owner@[k] == if exists|j: int|
                    0 <= j < i && ids@[j] == k {
                    to
                } else {
                    old(owner)@[k]
                },
        decreases ids@.len() - i,
    {
        let id = ids[i];
        let ghost prior = owner@;
        owner[id as usize] = to;
        proof {
            assert forall|k: int| 0 <= k < owner@.len() implies #[trigger] owner@[k] == if exists|
                j: int,
            |
                0 <= j < i + 1 && ids@[j] == k {
                to
            } else {
                old(owner)@[k]
            } by {
                if k == id {
                    assert(ids@[i as int] == k);
                } else if exists|j: int| 0 <= j < i + 1 && ids@[j] == k {
                    let j = choose|j: int| 0 <= j < i + 1 && ids@[j] == k;
                    assert(j < i);
                }
            }
        }
        i += 1;
    }
}

/// The sequence has the entry `y`.
pub open spec fn names(v: Seq<i32>, y: int) -> bool {
    exists|k: int| 0 <= k < v.len() && v[k] == y
}

/// Puts `x`, which is not in the ascending `v`, where it belongs.
fn insert_in_order(v: &mut Vec<i32>, x: i32)
    requires
        forall|a: int, b: int| 0 <= a < b < old(v)@.len() ==> old(v)@[a] < old(v)@[b],
        !names(old(v)@, x as int),
    ensures
        forall|a: int, b: int| 0 <= a < b < final(v)@.len() ==> final(v)@[a] < final(v)@[b],
        forall|y: int| #[trigger] names(final(v)@, y) <==> y == x || names(old(v)@, y),
{
    let mut pos: usize = 0;
    while pos < v.len() && v[pos] < x
        invariant
            pos <= v@.len(),
            v@ == old(v)@,
            forall|k: int| 0 <= k < pos ==> v@[k] < x,
        decreases v@.len() - pos,
    {
        pos += 1;
    }
    v.insert(pos, x);
    proof {
        let before = old(v)@;
        let after = v@;
        assert forall|k: int| 0 <= k < before.len() implies before[k] != x by {
            if before[k] == x {
                assert(names(before, x as int));
            }
        }
        assert forall|a: int, b: int| 0 <= a < b < after.len() implies after[a] < after[b] by {
            if b < pos {
                assert(before[a] < before[b]);
            } else if b == pos {
            } else if a < pos {
                assert(before[a] < x);
                if pos < b - 1 {
                    assert(before[pos as int] < before[b - 1]);
                }
            } else if a == pos {
                if pos < b - 1 {
                    assert(before[pos as int] < before[b - 1]);
                }
            } else {
                assert(before[a - 1] < before[b - 1]);
            }
        }
        assert forall|y: int| #[trigger] names(after, y) <==> y == x || names(before, y) by {
            if names(after, y) {
                let k = choose|k: int| 0 <= k < after.len() && after[k] == y;
                if k < pos {
                    assert(before[k] == y);
                } else if k > pos {
                    assert(before[k - 1] == y);
                }
            }
            if y == x {
                assert(after[pos as int] == y);
            }
            if names(before, y) {
                let k = choose|k: int| 0 <= k < before.len() && before[k] == y;
                if k < pos {
                    assert(after[k] == y);
                } else {
                    assert(after[k + 1] == y);
                }
            }
        }
    }
}

/// Forgets what was found for the clusters that `list` has a border with.
fn forget(cache: &mut Vec<Option<Option<(i32, u128)>>>, list: &Vec<Edge>)
    requires
        forall|j: int| 0 <= j < list@.len() ==> 0 <= (#[trigger] list@[j]).to < old(cache)@.len(),
    ensures
        final(cache)@.len() == old(cache)@.len(),
        forall|x: int|
            0 <= x < old(cache)@.len() ==> #[trigger] final(cache)@[x] == if exists|j: int|
                0 <= j < list@.len() && list@[j].to == x {
                None
            } else {
                old(cache)@[x]
            },
{
    let mut i: usize = 0;
    while i < list.len()
        invariant
            i <= list@.len(),
            cache@.len() == old(cache)@.len(),
            forall|j: int| 0 <= j < list@.len() ==> 0 <= (#[trigger] list@[j]).to < cache@.len(),
            forall|x: int|
                0 <= x < cache@.len() ==> #[trigger] cache@[x] == if exists|j: int|
                    0 <= j < i && list@[j].to == x {
                    None
                } else {
                    old(cache)@[x]
                },
        decreases list@.len() - i,
    {
        let m = list[i].to;
        cache[m as usize] = None;
        proof {
            assert forall|x: int| 0 <= x < cache@.len() implies #[trigger] cache@[x] == if exists|
                j: int,
            |
                0 <= j < i + 1 && list@[j].to == x {
                None
            } else {
                old(cache)@[x]
            } by {
                if x == m {
                    assert(list@[i as int].to == x);
                } else if exists|j: int| 0 <= j < i + 1 && list@[j].to == x {
                    let j = choose|j: int| 0 <= j < i + 1 && list@[j].to == x;
                    assert(j < i);
                }
            }
        }
        i += 1;
    }
}

/// The square of the distance between two cells.
pub fn location_distance_squared(loc1: (i32, i32), loc2: (i32, i32)) -> (r: u128)
    ensures
        r == distance_squared(loc1, loc2),
{
    let dx: i128 = loc1.0 as i128 - loc2.0 as i128;
    let dy: i128 = loc1.1 as i128 - loc2.1 as i128;
    assert(0 <= dx * dx <= 0x1_0000_0000_0000_0000) by (nonlinear_arith)
        requires
            -0x1_0000_0000 <= dx <= 0x1_0000_0000,
    ;
    assert(0 <= dy * dy <= 0x1_0000_0000_0000_0000) by (nonlinear_arith)
        requires
            -0x1_0000_0000 <= dy <= 0x1_0000_0000,
    ;
    (dx * dx + dy * dy) as u128
}

impl ClusterGraph {
    /// The graph is as its model says, its model is well formed, and what
    /// it remembers of nearest border cells still holds.
    pub closed spec fn wf(&self) -> bool {
        &&& self.alive@.len() <= i32::MAX
        &&& self.neighbor_map@.len() == self.alive@.len()
        &&& self.cluster_ids@.len() == self.alive@.len()
        &&& self.summary_map@.len() == self.alive@.len()
        &&& self.owner@.len() == self.alive@.len()
        &&& self.min_edge_distance_cache@.len() == self.alive@.len()
        &&& forall|a: int| 0 <= a < self.alive@.len() ==> distinct(#[trigger] self.neighbor_map@[a]@)
        &&& self@.wf()
        &&& forall|a: int|
            0 <= a < self.alive@.len() ==> (#[trigger] self.min_edge_distance_cache@[a] matches Some(
                found,
            ) ==> self.cache_entry_holds(a, found))
    }

    spec fn cache_entry_holds(&self, a: int, found: Option<(i32, u128)>) -> bool {
        match found {
            Some((b, d)) => self@.min_distance_to_edge(a) == Some((b as int, d as int)),
            None => self@.min_distance_to_edge(a) is None,
        }
    }

    /// The graph of the clusters that `cluster_map` assigns the cells of
    /// `density_map` to, each cluster a node of its own with the summary
    /// that `summaries` has for it. Two clusters touch where a cell of the
    /// one lies to the right of or below a cell of the other; pairs whose
    /// second cell lies in the last column or the last row are passed over.
    pub fn new_with_cluster_map(
        density_map: &Array2D<u32>,
        cluster_map: &Array2D<i32>,
        summaries: &Vec<ClusterSummary>,
    ) -> (r: ClusterGraph)
        requires
            density_map@.wf(),
            cluster_map@.wf(),
            density_map@.width == cluster_map@.width,
            density_map@.height == cluster_map@.height,
            summaries@.len() <= i32::MAX,
            labels_below(cluster_map@, summaries@.len() as int),
            counted_pixels(summaries@) <= usize::MAX,
        ensures
            r.wf(),
            r@ == initial_graph(density_map@, cluster_map@, summaries@),
    {
        let width = cluster_map.width();
        let height = cluster_map.height();
        let n = summaries.len();
        let ghost levels = density_map@;
        let ghost labels = cluster_map@;
        let mut neighbor_map: Vec<Vec<Edge>> = Vec::new();
        let mut cluster_ids: Vec<Vec<i32>> = Vec::new();
        let mut summary_map: Vec<ClusterSummary> = Vec::new();
        let mut alive: Vec<bool> = Vec::new();
        let mut owner: Vec<i32> = Vec::new();
        let mut cache: Vec<Option<Option<(i32, u128)>>> = Vec::new();
        let mut id: usize = 0;
        while id < n
            invariant
                n == summaries@.len(),
                n <= i32::MAX,
                id <= n,
                neighbor_map@.len() == id,
                cluster_ids@.len() == id,
                summary_map@ == summaries@.take(id as int),
                alive@ == Seq::new(id as nat, |a: int| true),
                owner@.len() == id,
                cache@ == Seq::new(id as nat, |a: int| None::<Option<(i32, u128)>>),
                forall|a: int| 0 <= a < id ==> (#[trigger] neighbor_map@[a])@.len() == 0,
                forall|a: int| 0 <= a < id ==> (#[trigger] cluster_ids@[a])@ == seq![a as i32],
                forall|a: int| 0 <= a < id ==> #[trigger] owner@[a] == a,
            decreases n - id,
        {
            neighbor_map.push(Vec::new());
            let mut own: Vec<i32> = Vec::new();
            own.push(id as i32);
            proof {
                assert(own@ =~= seq![id as i32]);
                assert(summaries@.take(id + 1) =~= summaries@.take(id as int).push(
                    summaries@[id as int],
                ));
            }
            cluster_ids.push(own);
            summary_map.push(summaries[id]);
            alive.push(true);
            owner.push(id as i32);
            cache.push(None);
            proof {
                assert(alive@ =~= Seq::new((id + 1) as nat, |a: int| true));
                assert(cache@ =~= Seq::new((id + 1) as nat, |a: int| None::<Option<(i32, u128)>>));
            }
            id += 1;
        }
        proof {
            assert(summaries@.take(n as int) =~= summaries@);
            assert forall|a: int, b: int| 0 <= a < neighbor_map@.len() implies lookup(
                neighbor_map@[a]@,
                b,
            ) == if_any(scanned_border(levels, labels, a, b, 0)) by {
                assert(neighbor_map@[a]@.len() == 0);
            }
        }
        let mut y: i32 = 0;
        while y < height
            invariant
                levels == density_map@,
                labels == cluster_map@,
                levels.wf(),
                labels.wf(),
                levels.width == labels.width,
                levels.height == labels.height,
                width == labels.width,
                height == labels.height,
                neighbor_map@.len() == n,
                labels_below(labels, n as int),
                0 <= y <= height,
                recorded(neighbor_map@, levels, labels, (2 * (y * width)) as nat),
            decreases height - y,
        {
            let mut x: i32 = 0;
            while x < width
                invariant
                    levels == density_map@,
                    labels == cluster_map@,
                    levels.wf(),
                    labels.wf(),
                    levels.width == labels.width,
                    levels.height == labels.height,
                    width == labels.width,
                    height == labels.height,
                    neighbor_map@.len() == n,
                    labels_below(labels, n as int),
                    0 <= y < height,
                    0 <= x <= width,
                    recorded(neighbor_map@, levels, labels, (2 * (y * width + x)) as nat),
                decreases width - x,
            {
                proof {
                    lemma_offset_in_range(width as int, height as int, x as int, y as int);
                }
                record_pair(
                    &mut neighbor_map,
                    density_map,
                    cluster_map,
                    x,
                    y,
                    false,
                    Ghost((2 * (y * width + x)) as nat),
                );
                record_pair(
                    &mut neighbor_map,
                    density_map,
                    cluster_map,
                    x,
                    y,
                    true,
                    Ghost((2 * (y * width + x) + 1) as nat),
                );
                x += 1;
            }
            proof {
                assert((y + 1) * width == y * width + width) by (nonlinear_arith);
            }
            y += 1;
        }
        let r = ClusterGraph {
            neighbor_map,
            cluster_ids,
            summary_map,
            alive,
            owner,
            min_edge_distance_cache: cache,
        };
        proof {
            assert(labels.cells.len() == height * width) by (nonlinear_arith)
                requires
                    labels.cells.len() == width * height,
            ;
            let goal = initial_graph(levels, labels, summaries@);
            let steps = (2 * labels.cells.len()) as nat;
            assert(r@.borders =~= goal.borders) by {
                assert forall|a: int| 0 <= a < n implies #[trigger] r@.borders[a]
                    =~= goal.borders[a] by {
                    assert forall|b: int|
                        lookup(r.neighbor_map@[a]@, b) == if_any(
                            scanned_border(levels, labels, a, b, steps),
                        ) by {}
                }
            }
            assert(r@.members =~= goal.members);
            assert(r@.owner =~= goal.owner);
            assert(r@.alive =~= goal.alive);
            assert(r@ == goal);
            assert forall|a: int, b: int|
                0 <= a < goal.len() && #[trigger] goal.borders[a].contains_key(b) implies {
                &&& goal.is_node(a)
                &&& goal.is_node(b)
                &&& a != b
                &&& goal.borders[b].contains_key(a)
            } by {
                lemma_scanned_border(levels, labels, a, b, steps, n as int);
            }
            assert forall|id: int| 0 <= id < goal.len() implies goal.is_node(
                #[trigger] goal.owner[id],
            ) && goal.members[goal.owner[id]].contains(id as i32) by {
                assert(goal.members[id][0] == id as i32);
            }
            assert(goal.wf());
        }
        r
    }

    /// What a well-formed graph is: its model is well formed, and it has
    /// no more cluster numbers than fit `i32`.
    pub proof fn lemma_wf(&self)
        requires
            self.wf(),
        ensures
            self@.wf(),
            self@.len() <= i32::MAX,
    {
    }

    /// The neighbour with the nearest border cell is a node other than
    /// `a`.
    pub proof fn lemma_border_of_nearest(&self, a: int)
        requires
            self.wf(),
            self@.is_node(a),
        ensures
            self@.min_distance_to_edge(a) matches Some(found) ==> self@.is_node(found.0) && found.0
                != a && found.0 <= i32::MAX,
    {
        lemma_nearest_is_reached(self@.borders[a], self@.summaries[a].max_density_location);
        if let Some(found) = self@.min_distance_to_edge(a) {
            assert(self@.borders[a].contains_key(found.0));
        }
    }

    /// The numbers of the nodes, ascending.
    pub fn node_ids(&self) -> (r: Vec<i32>)
        requires
            self.wf(),
        ensures
            forall|i: int, j: int| 0 <= i < j < r@.len() ==> r@[i] < r@[j],
            forall|a: int| self@.is_node(a) <==> exists|i: int| 0 <= i < r@.len() && r@[i] == a,
    {
        let mut r: Vec<i32> = Vec::new();
        let mut a: usize = 0;
        while a < self.alive.len()
            invariant
                self.wf(),
                a <= self.alive@.len(),
                forall|i: int| 0 <= i < r@.len() ==> 0 <= #[trigger] r@[i] < a && self.alive@[r@[i] as int],
                forall|i: int, j: int| 0 <= i < j < r@.len() ==> r@[i] < r@[j],
                forall|b: int|
                    0 <= b < a && self.alive@[b] ==> exists|i: int| 0 <= i < r@.len() && r@[i] == b,
            decreases self.alive@.len() - a,
        {
            if self.alive[a] {
                let ghost before = r@;
                r.push(a as i32);
                proof {
                    assert forall|b: int| 0 <= b < a + 1 && self.alive@[b] implies exists|i: int|
                        0 <= i < r@.len() && r@[i] == b by {
                        if b < a {
                            let i = choose|i: int| 0 <= i < before.len() && before[i] == b;
                            assert(r@[i] == b);
                        } else {
                            assert(r@[before.len() as int] == b);
                        }
                    }
                }
            }
            a += 1;
        }
        r
    }

    /// The numbers of the neighbours of `node`, ascending.
    pub fn neighbors(&self, node: i32) -> (r: Vec<i32>)
        requires
            self.wf(),
            self@.is_node(node as int),
        ensures
            forall|i: int, j: int| 0 <= i < j < r@.len() ==> r@[i] < r@[j],
            forall|b: int| self@.border(node as int, b) is Some <==> #[trigger] names(r@, b),
    {
        let list = &self.neighbor_map[node as usize];
        let mut r: Vec<i32> = Vec::new();
        let mut i: usize = 0;
        while i < list.len()
            invariant
                i <= list@.len(),
                distinct(list@),
                forall|a: int, b: int| 0 <= a < b < r@.len() ==> r@[a] < r@[b],
                forall|b: int|
                    #[trigger] names(r@, b) <==> exists|j: int| 0 <= j < i && list@[j].to == b,
            decreases list@.len() - i,
        {
            let ghost before = r@;
            proof {
                if names(before, list@[i as int].to as int) {
                    let j = choose|j: int| 0 <= j < i && list@[j].to == list@[i as int].to;
                    assert(list@[j].to != list@[i as int].to);
                }
            }
            insert_in_order(&mut r, list[i].to);
            proof {
                assert forall|b: int| #[trigger] names(r@, b) <==> exists|j: int|
                    0 <= j < i + 1 && list@[j].to == b by {
                    assert(names(r@, b) <==> b == list@[i as int].to || names(before, b));
                    if names(before, b) {
                        let j = choose|j: int| 0 <= j < i && list@[j].to == b;
                        assert(list@[j].to == b);
                    }
                    if exists|j: int| 0 <= j < i + 1 && list@[j].to == b {
                        let j = choose|j: int| 0 <= j < i + 1 && list@[j].to == b;
                        if j < i {
                            assert(names(before, b));
                        }
                    }
                }
            }
            i += 1;
        }
        proof {
            assert forall|b: int| self@.border(node as int, b) is Some <==> #[trigger] names(
                r@,
                b,
            ) by {
                lemma_lookup_none(list@, b);
                if names(r@, b) {
                    let j = choose|j: int| 0 <= j < list@.len() && list@[j].to == b;
                    assert(list@[j].to == b);
                }
                if lookup(list@, b) is Some {
                    let j = choose|j: int| 0 <= j < list@.len() && list@[j].to == b;
                    assert(list@[j].to == b);
                }
            }
        }
        r
    }

    /// The clusters that were united into `node`, itself first.
    pub fn cluster_ids(&self, node: i32) -> (r: &Vec<i32>)
        requires
            self.wf(),
            self@.is_node(node as int),
        ensures
            r@ == self@.members[node as int],
    {
        &self.cluster_ids[node as usize]
    }

    /// The summary of `node`.
    pub fn summary(&self, node: i32) -> (r: ClusterSummary)
        requires
            self.wf(),
            self@.is_node(node as int),
        ensures
            r == self@.summaries[node as int],
    {
        self.summary_map[node as usize]
    }

    /// The node that the cluster `id` was united into; `id` itself while
    /// it is a node.
    pub fn owner(&self, id: i32) -> (r: i32)
        requires
            self.wf(),
            0 <= id < self@.len(),
        ensures
            r == self@.owner[id as int],
            self@.is_node(r as int),
    {
        proof {
            assert(self@.is_node(self@.owner[id as int]));
        }
        self.owner[id as usize]
    }

    /// How many cluster numbers the graph was made for.
    pub fn len(&self) -> (r: usize)
        requires
            self.wf(),
        ensures
            r == self@.len(),
    {
        self.alive.len()
    }

    /// The summary of every node, by its number.
    pub fn summaries(&self) -> (r: HashMap<i32, ClusterSummary>)
        requires
            self.wf(),
        ensures
            forall|k: i32| r@.contains_key(k) <==> self@.is_node(k as int),
            forall|k: i32| r@.contains_key(k) ==> r@[k] == self@.summaries[k as int],
    {
        broadcast use vstd::std_specs::hash::group_hash_axioms;

        let mut r: HashMap<i32, ClusterSummary> = HashMap::new();
        let mut a: usize = 0;
        while a < self.alive.len()
            invariant
                self.wf(),
                a <= self.alive@.len(),
                forall|k: i32| r@.contains_key(k) <==> 0 <= k < a && self.alive@[k as int],
                forall|k: i32| r@.contains_key(k) ==> r@[k] == self.summary_map@[k as int],
            decreases self.alive@.len() - a,
        {
            if self.alive[a] {
                r.insert(a as i32, self.summary_map[a]);
            }
            a += 1;
        }
        r
    }

    /// Whether `node` is a node: a cluster number that was not united into
    /// another.
    pub fn is_node(&self, node: i32) -> (r: bool)
        requires
            self.wf(),
        ensures
            r == self@.is_node(node as int),
    {
        node >= 0 && (node as usize) < self.alive.len() && self.alive[node as usize]
    }

    /// In the course of uniting `b` into `a`: the neighbour `m` of `b` has
    /// been dealt with, `rest` holding the borders of `b` still to come.
    spec fn turned(before: GraphModel, a: int, b: int, rest: Seq<Edge>, m: int) -> bool {
        before.border(b, m) is Some && m != a && lookup(rest, m) is None
    }

    /// In the course of uniting `b` into `a`: the side that `x` has of its
    /// border with `y` while `rest` holds the borders of `b` still to come.
    spec fn partial_border(before: GraphModel, a: int, b: int, rest: Seq<Edge>, x: int, y: int) -> Option<
        Border,
    > {
        if x == b {
            None
        } else if x == a {
            if y == b {
                None
            } else if Self::turned(before, a, b, rest, y) {
                Some(joined(or_empty(before.border(a, y)), before.border(b, y).unwrap()))
            } else {
                before.border(a, y)
            }
        } else if y == b {
            if Self::turned(before, a, b, rest, x) {
                None
            } else {
                before.border(x, b)
            }
        } else if y == a {
            if Self::turned(before, a, b, rest, x) {
                match before.border(x, b) {
                    Some(w) => Some(joined(or_empty(before.border(x, a)), w)),
                    None => before.border(x, a),
                }
            } else {
                before.border(x, a)
            }
        } else {
            before.border(x, y)
        }
    }

    /// Unites the node `node2` into the node `node1` and returns `node1`.
    /// The borders of `node2` become borders of `node1`, on both sides; its
    /// clusters and its summary go to `node1`.
    pub fn union(&mut self, node1: i32, node2: i32) -> (r: i32)
        requires
            old(self).wf(),
            old(self)@.is_node(node1 as int),
            old(self)@.is_node(node2 as int),
        ensures
            r == node1,
            final(self).wf(),
            final(self)@ == old(self)@.union(node1 as int, node2 as int),
    {
        if node1 == node2 {
            return node1;
        }
        let ghost before = self@;
        let ghost a = node1 as int;
        let ghost b = node2 as int;
        let ghost n = self.alive@.len();
        proof {
            lemma_union_wf(before, a, b);
        }
        let mut rest: Vec<Edge> = Vec::new();
        core::mem::swap(&mut self.neighbor_map[node2 as usize], &mut rest);
        let _ = take_edge(&mut self.neighbor_map[node1 as usize], node2);
        proof {
            assert forall|x: int, y: int| 0 <= x < n implies lookup(self.neighbor_map@[x]@, y)
                == Self::partial_border(before, a, b, rest@, x, y) by {
                if x != a && x != b {
                    assert(before.borders[x].contains_key(y) <==> lookup(
                        old(self).neighbor_map@[x]@,
                        y,
                    ) is Some);
                    if y == b && Self::turned(before, a, b, rest@, x) {
                        assert(before.borders[b].contains_key(x));
                    }
                } else if x == a {
                    assert(before.borders[a].contains_key(y) <==> lookup(
                        old(self).neighbor_map@[a]@,
                        y,
                    ) is Some);
                    if Self::turned(before, a, b, rest@, y) {
                        assert(before.borders[b].contains_key(y));
                    }
                }
            }
            assert forall|k: int| lookup(rest@, k) is Some implies #[trigger] lookup(rest@, k)
                == before.border(b, k) by {
                assert(before.borders[b].contains_key(k));
            }
        }
        loop
            invariant
                self.alive@ == old(self).alive@,
                self.cluster_ids@ == old(self).cluster_ids@,
                self.summary_map@ == old(self).summary_map@,
                self.owner@ == old(self).owner@,
                self.min_edge_distance_cache@ == old(self).min_edge_distance_cache@,
                self.neighbor_map@.len() == n,
                n == before.len(),
                before == old(self)@,
                before.wf(),
                a == node1,
                b == node2,
                a != b,
                before.is_node(a),
                before.is_node(b),
                distinct(rest@),
                forall|x: int| 0 <= x < n ==> distinct(#[trigger] self.neighbor_map@[x]@),
                forall|k: int|
                    lookup(rest@, k) is Some ==> #[trigger] lookup(rest@, k) == before.border(b, k),
                forall|x: int, y: int|
                    0 <= x < n ==> lookup(self.neighbor_map@[x]@, y) == Self::partial_border(
                        before,
                        a,
                        b,
                        rest@,
                        x,
                        y,
                    ),
            ensures
                rest@.len() == 0,
            decreases rest@.len(),
        {
            let ghost remaining = rest@;
            let ghost lists = self.neighbor_map@;
            let e = match rest.pop() {
                Some(e) => e,
                None => {
                    break ;
                },
            };
            let ghost m = e.to as int;
            proof {
                assert(rest@ =~= remaining.remove(remaining.len() - 1));
                assert forall|k: int|
                    lookup(rest@, k) == if k == m {
                        None
                    } else {
                        lookup(remaining, k)
                    } by {
                    lemma_lookup_remove(remaining, remaining.len() - 1, k);
                }
                lemma_lookup_remove(remaining, remaining.len() - 1, 0);
                lemma_lookup_index(remaining, remaining.len() - 1);
                assert(lookup(remaining, m) == Some(e.summary@));
                assert(before.border(b, m) == Some(e.summary@));
                assert(before.borders[b].contains_key(m));
                assert(before.borders[m].contains_key(b));
            }
            if e.to != node1 {
                absorb_edge(&mut self.neighbor_map[node1 as usize], e.to, e.summary);
                match take_edge(&mut self.neighbor_map[e.to as usize], node2) {
                    Some(back) => {
                        absorb_edge(&mut self.neighbor_map[e.to as usize], node1, back);
                    },
                    None => {},
                }
            }
            proof {
                assert forall|x: int, y: int| 0 <= x < n implies lookup(self.neighbor_map@[x]@, y)
                    == Self::partial_border(before, a, b, rest@, x, y) by {
                    assert(lookup(lists[x]@, y) == Self::partial_border(
                        before,
                        a,
                        b,
                        remaining,
                        x,
                        y,
                    ));
                    assert(lookup(lists[m]@, b) == Self::partial_border(
                        before,
                        a,
                        b,
                        remaining,
                        m,
                        b,
                    ));
                    assert(lookup(lists[m]@, a) == Self::partial_border(
                        before,
                        a,
                        b,
                        remaining,
                        m,
                        a,
                    ));
                    assert(lookup(lists[a]@, m) == Self::partial_border(
                        before,
                        a,
                        b,
                        remaining,
                        a,
                        m,
                    ));
                }
            }
        }
        // The clusters and the summary of `node2` go to `node1`.
        proof {
            assert(rest@ =~= Seq::<Edge>::empty());
        }
        let mut ids: Vec<i32> = Vec::new();
        core::mem::swap(&mut self.cluster_ids[node2 as usize], &mut ids);
        proof {
            assert forall|j: int| 0 <= j < ids@.len() implies 0 <= #[trigger] ids@[j] < n by {
                assert(0 <= before.members[b][j] < n);
            }
        }
        reassign(&mut self.owner, &ids, node1);
        self.cluster_ids[node1 as usize].append(&mut ids);
        let other = self.summary_map[node2 as usize];
        self.summary_map[node1 as usize].update_with_summary(&other);
        self.alive[node2 as usize] = false;
        // No distance found for `node1` or for one of its neighbours holds any longer.
        self.min_edge_distance_cache[node1 as usize] = None;
        self.min_edge_distance_cache[node2 as usize] = None;
        proof {
            assert forall|j: int| 0 <= j < self.neighbor_map@[a]@.len() implies 0 <= (
            #[trigger] self.neighbor_map@[a]@[j]).to < n by {
                lemma_lookup_index(self.neighbor_map@[a]@, j);
                let y = self.neighbor_map@[a]@[j].to as int;
                assert(Self::partial_border(before, a, b, Seq::empty(), a, y) is Some);
                if before.border(a, y) is Some {
                    assert(before.borders[a].contains_key(y));
                } else {
                    assert(before.borders[b].contains_key(y));
                }
            }
        }
        forget(&mut self.min_edge_distance_cache, &self.neighbor_map[node1 as usize]);
        proof {
            let goal = before.union(a, b);
            assert(self@.borders =~= goal.borders) by {
                assert forall|x: int| 0 <= x < n implies #[trigger] self@.borders[x]
                    =~= goal.borders[x] by {
                    assert forall|y: int|
                        Self::partial_border(before, a, b, Seq::empty(), x, y)
                            == before.union_border(a, b, x, y) by {
                        if x != a && x != b && !Self::turned(before, a, b, Seq::empty(), x) {
                            if before.border(x, b) is Some {
                                assert(before.borders[x].contains_key(b));
                                assert(before.borders[b].contains_key(x));
                            }
                        }
                        if x == a && y == a {
                            if before.border(a, a) is Some {
                                assert(before.borders[a].contains_key(a));
                            }
                        }
                    }
                }
            }
            assert(self@.members =~= goal.members);
            assert(self@.owner =~= goal.owner) by {
                assert forall|id: int| 0 <= id < n implies self@.owner[id] == goal.owner[id] by {
                    let moved = before.members[b];
                    if before.owner[id] == b {
                        assert(before.members[b].contains(id as i32));
                    } else if exists|j: int| 0 <= j < moved.len() && moved[j] == id {
                        let j = choose|j: int| 0 <= j < moved.len() && moved[j] == id;
                        assert(before.owner[before.members[b][j] as int] == b);
                    }
                }
            }
            assert(self@.summaries =~= goal.summaries);
            assert(self@.alive =~= goal.alive);
            assert(self@ == goal);
            assert forall|x: int| 0 <= x < n implies (
            #[trigger] self.min_edge_distance_cache@[x] matches Some(found)
                ==> self.cache_entry_holds(x, found)) by {
                if self.min_edge_distance_cache@[x] is Some {
                    let found = self.min_edge_distance_cache@[x].unwrap();
                    assert(old(self).cache_entry_holds(x, found));
                    lemma_lookup_none(self.neighbor_map@[a]@, x);
                    assert(lookup(self.neighbor_map@[a]@, x) is None);
                    assert(lookup(self.neighbor_map@[a]@, x) == Self::partial_border(
                        before,
                        a,
                        b,
                        Seq::empty(),
                        a,
                        x,
                    ));
                    assert(before.union_border(a, b, a, x) is None);
                    if before.border(x, b) is Some {
                        assert(before.borders[x].contains_key(b));
                        assert(before.borders[b].contains_key(x));
                    }
                    if before.border(x, a) is Some {
                        assert(before.borders[x].contains_key(a));
                        assert(before.borders[a].contains_key(x));
                    }
                    assert(goal.borders[x] =~= before.borders[x]);
                }
            }
        }
        node1
    }

    /// The side that `node` has of its border with `neighbor`, if the two
    /// touch.
    pub fn border(&self, node: i32, neighbor: i32) -> (r: Option<&EdgeSummary>)
        requires
            self.wf(),
            self@.is_node(node as int),
        ensures
            match r {
                Some(e) => self@.border(node as int, neighbor as int) == Some(e@),
                None => self@.border(node as int, neighbor as int) is None,
            },
    {
        let list = &self.neighbor_map[node as usize];
        match crate::edge_summary::find_edge(list, neighbor) {
            Some(i) => Some(&list[i].summary),
            None => None,
        }
    }

    /// The least square distance from `from` to a cell of the border.
    fn nearest_pixel(e: &EdgeSummary, from: (i32, i32)) -> (r: Option<u128>)
        ensures
            match r {
                Some(d) => {
                    &&& exists|i: int|
                        0 <= i < e.pixels@.len() && distance_squared(
                            (#[trigger] e.pixels@[i].0, e.pixels@[i].1),
                            from,
                        ) == d
                    &&& forall|i: int|
                        0 <= i < e.pixels@.len() ==> d <= distance_squared(
                            (#[trigger] e.pixels@[i].0, e.pixels@[i].1),
                            from,
                        )
                },
                None => e.pixels@.len() == 0,
            },
    {
        let mut best: Option<u128> = None;
        let mut i: usize = 0;
        while i < e.pixels.len()
            invariant
                i <= e.pixels@.len(),
                match best {
                    Some(d) => {
                        &&& exists|j: int|
                            0 <= j < i && distance_squared(
                                (#[trigger] e.pixels@[j].0, e.pixels@[j].1),
                                from,
                            ) == d
                        &&& forall|j: int|
                            0 <= j < i ==> d <= distance_squared(
                                (#[trigger] e.pixels@[j].0, e.pixels@[j].1),
                                from,
                            )
                    },
                    None => i == 0,
                },
            decreases e.pixels@.len() - i,
        {
            let p = e.pixels[i];
            let d = location_distance_squared((p.0, p.1), from);
            let nearer = match best {
                Some(seen) => d < seen,
                None => true,
            };
            if nearer {
                best = Some(d);
                assert(distance_squared((e.pixels@[i as int].0, e.pixels@[i as int].1), from) == d);
            } else {
                let ghost j = choose|j: int|
                    0 <= j < i && distance_squared(
                        (#[trigger] e.pixels@[j].0, e.pixels@[j].1),
                        from,
                    ) == best.unwrap();
                assert(distance_squared((e.pixels@[j].0, e.pixels@[j].1), from) == best.unwrap());
            }
            i += 1;
        }
        best
    }

    /// The nearest border cell of `node` to the peak of `node`.
    fn compute_min_distance_to_edge(&self, node: i32) -> (r: Option<(i32, u128)>)
        requires
            self.wf(),
            self@.is_node(node as int),
        ensures
            self.cache_entry_holds(node as int, r),
    {
        let from = self.summary_map[node as usize].max_density_location;
        let list = &self.neighbor_map[node as usize];
        let ghost borders = borders_of(list@);
        let mut best: Option<(i32, u128)> = None;
        let mut i: usize = 0;
        while i < list.len()
            invariant
                i <= list@.len(),
                distinct(list@),
                borders == borders_of(list@),
                match best {
                    Some((b, d)) => {
                        &&& reaches(borders, from, b as int, d as int)
                        &&& forall|j: int, d2: int|
                            0 <= j < i && #[trigger] reaches(borders, from, list@[j].to as int, d2)
                                ==> d < d2 || (d == d2 && b <= list@[j].to)
                    },
                    None => forall|j: int, d2: int|
                        0 <= j < i ==> !#[trigger] reaches(borders, from, list@[j].to as int, d2),
                },
            decreases list@.len() - i,
        {
            let e = &list[i];
            proof {
                lemma_lookup_index(list@, i as int);
                assert(borders.contains_key(e.to as int) && borders[e.to as int] == e.summary@);
            }
            match Self::nearest_pixel(&e.summary, from) {
                Some(d) => {
                    let better = match best {
                        Some((b, seen)) => d < seen || (d == seen && e.to < b),
                        None => true,
                    };
                    proof {
                        let p = choose|p: int|
                            0 <= p < e.summary.pixels@.len() && distance_squared(
                                (#[trigger] e.summary.pixels@[p].0, e.summary.pixels@[p].1),
                                from,
                            ) == d;
                        assert(distance_squared(
                            (borders[e.to as int].pixels[p].0, borders[e.to as int].pixels[p].1),
                            from,
                        ) == d);
                        assert(reaches(borders, from, e.to as int, d as int));
                    }
                    if better {
                        best = Some((e.to, d));
                    }
                },
                None => {},
            }
            i += 1;
        }
        proof {
            match best {
                Some((b, d)) => {
                    assert forall|b2: int, d2: int| #[trigger]
                        reaches(borders, from, b2, d2) implies d < d2 || (d == d2 && b <= b2) by {
                        let j = crate::edge_summary::lemma_lookup_some(list@, b2);
                        assert(reaches(borders, from, list@[j].to as int, d2));
                    }
                    lemma_nearest_is_unique(borders, from, b as int, d as int);
                },
                None => {
                    assert forall|b2: int, d2: int| !reaches(borders, from, b2, d2) by {
                        if reaches(borders, from, b2, d2) {
                            let j = crate::edge_summary::lemma_lookup_some(list@, b2);
                            assert(reaches(borders, from, list@[j].to as int, d2));
                        }
                    }
                    lemma_nearest_none(borders, from);
                },
            }
        }
        best
    }

    /// The border cell of `node` that is nearest to the peak of `node`: the
    /// neighbour that it borders on, and the square of its distance. Of
    /// several cells equally near the one with the least neighbour is
    /// taken. `None` where `node` has no border cell.
    pub fn min_distance_to_edge(&mut self, node: i32) -> (r: Option<(i32, u128)>)
        requires
            old(self).wf(),
            old(self)@.is_node(node as int),
        ensures
            final(self).wf(),
            final(self)@ == old(self)@,
            match r {
                Some((b, d)) => old(self)@.min_distance_to_edge(node as int) == Some(
                    (b as int, d as int),
                ),
                None => old(self)@.min_distance_to_edge(node as int) is None,
            },
    {
        match self.min_edge_distance_cache[node as usize] {
            Some(found) => found,
            None => {
                let r = self.compute_min_distance_to_edge(node);
                self.min_edge_distance_cache[node as usize] = Some(r);
                proof {
                    assert(self@ == old(self)@);
                    assert forall|a: int| 0 <= a < self.alive@.len() implies (
                    #[trigger] self.min_edge_distance_cache@[a] matches Some(found)
                        ==> self.cache_entry_holds(a, found)) by {
                        if a != node {
                            if old(self).min_edge_distance_cache@[a] is Some {
                                assert(old(self).cache_entry_holds(
                                    a,
                                    old(self).min_edge_distance_cache@[a].unwrap(),
                                ));
                            }
                        } else {
                            assert(old(self).cache_entry_holds(a, r));
                        }
                    }
                }
                r
            },
        }
    }

    /// The highest level on the borders of `list` with clusters other than
    /// `a` and `b`.
    fn max_density_of(list: &Vec<Edge>, a: i32, b: i32) -> (r: u32)
        requires
            distinct(list@),
        ensures
            r == max_density_but(borders_of(list@), a as int, b as int),
    {
        let mut r: u32 = 0;
        let mut i: usize = 0;
        let ghost mut witness: int = 0;
        while i < list.len()
            invariant
                i <= list@.len(),
                distinct(list@),
                forall|j: int|
                    0 <= j < i && list@[j].to != a && list@[j].to != b
                        ==> list@[j].summary.max_density <= r,
                r == 0 || (0 <= witness < i && list@[witness].to != a && list@[witness].to != b
                    && list@[witness].summary.max_density == r),
            decreases list@.len() - i,
        {
            let e = &list[i];
            if e.to != a && e.to != b && e.summary.max_density > r {
                r = e.summary.max_density;
                proof {
                    witness = i as int;
                }
            }
            i += 1;
        }
        proof {
            let borders = borders_of(list@);
            assert forall|k: int| borders.contains_key(k) && k != a && k != b implies (
            #[trigger] borders[k]).max_density <= r by {
                let j = crate::edge_summary::lemma_lookup_some(list@, k);
            }
            if r != 0 {
                lemma_lookup_index(list@, witness);
                let k = list@[witness].to as int;
                assert(borders.contains_key(k) && borders[k].max_density == r);
            }
            lemma_max_density_is_unique(borders, a as int, b as int, r);
        }
        r
    }

    /// The highest level on the borders of `node`, and 0 where it has none.
    pub fn max_edge_density(&self, node: i32) -> (r: u32)
        requires
            self.wf(),
            self@.is_node(node as int),
        ensures
            r == self@.max_edge_density(node as int),
    {
        Self::max_density_of(&self.neighbor_map[node as usize], -1, -1)
    }

    /// The highest level on the borders that `node1` and `node2` have with
    /// other nodes: the highest saddle that the two would still have once
    /// they were one.
    pub fn max_edge_density_for_pair(&self, node1: i32, node2: i32) -> (r: u32)
        requires
            self.wf(),
            self@.is_node(node1 as int),
            self@.is_node(node2 as int),
        ensures
            r == self@.max_edge_density_for_pair(node1 as int, node2 as int),
    {
        let m1 = Self::max_density_of(&self.neighbor_map[node1 as usize], node1, node2);
        let m2 = Self::max_density_of(&self.neighbor_map[node2 as usize], node1, node2);
        if m1 >= m2 {
            m1
        } else {
            m2
        }
    }
}

} // verus!
