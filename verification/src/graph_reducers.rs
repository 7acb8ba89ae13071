//! The two passes that unite nodes of the cluster graph: one by nearness,
//! one by the height of the saddle between two clusters.

use vstd::prelude::*;
use crate::array_2d::{Array2D, Grid};
use crate::cluster_graph::{lemma_union_wf, ClusterGraph, GraphModel};

verus! {

/// How many of the cluster numbers below `k` are nodes.
pub open spec fn nodes_below(alive: Seq<bool>, k: nat) -> nat
    decreases k,
{
    if k == 0 {
        0
    } else {
        nodes_below(alive, (k - 1) as nat) + if alive[k - 1] {
            1nat
        } else {
            0nat
        }
    }
}

proof fn lemma_nodes_below_update(alive: Seq<bool>, b: int, k: nat)
    requires
        0 <= b < alive.len(),
        alive[b],
        k <= alive.len(),
    ensures
        nodes_below(alive.update(b, false), k) == nodes_below(alive, k) - if b < k {
            1int
        } else {
            0int
        },
    decreases k,
{
    if k > 0 {
        lemma_nodes_below_update(alive, b, (k - 1) as nat);
    }
}

/// How many nodes the graph has.
pub open spec fn node_count(g: GraphModel) -> nat {
    nodes_below(g.alive, g.alive.len())
}

/// Uniting two different nodes leaves one node less.
pub proof fn lemma_union_node_count(g: GraphModel, a: int, b: int)
    requires
        g.is_node(a),
        g.is_node(b),
        a != b,
    ensures
        node_count(g.union(a, b)) == node_count(g) - 1,
{
    lemma_nodes_below_update(g.alive, b, g.alive.len());
}

/// Of all nodes, `a` has the nearest border cell to its peak, at the
/// square distance `d` on its border with `b`; of several nodes with an
/// equally near one, `a` has the least number.
pub open spec fn is_closest_pair(g: GraphModel, a: int, b: int, d: int) -> bool {
    &&& g.is_node(a)
    &&& g.min_distance_to_edge(a) == Some((b, d))
    &&& forall|a2: int|
        g.is_node(a2) ==> (#[trigger] g.min_distance_to_edge(a2) matches Some(other) ==> d < other.1
            || (d == other.1 && a <= a2))
}

/// The node with the nearest border cell to its peak, the neighbour it
/// borders on there, and the square of the distance. `None` where no node
/// has a border cell.
pub open spec fn closest_pair(g: GraphModel) -> Option<(int, int, int)> {
    if exists|t: (int, int, int)| #[trigger] is_closest_pair(g, t.0, t.1, t.2) {
        Some(choose|t: (int, int, int)| #[trigger] is_closest_pair(g, t.0, t.1, t.2))
    } else {
        None
    }
}

proof fn lemma_closest_pair_is_unique(g: GraphModel, a: int, b: int, d: int)
    requires
        is_closest_pair(g, a, b, d),
    ensures
        closest_pair(g) == Some((a, b, d)),
{
    assert(is_closest_pair(g, (a, b, d).0, (a, b, d).1, (a, b, d).2));
    let t = choose|t: (int, int, int)| #[trigger] is_closest_pair(g, t.0, t.1, t.2);
    assert(g.min_distance_to_edge(t.0) == Some((t.1, t.2)));
    assert(g.min_distance_to_edge(a) == Some((b, d)));
}

/// The pair that the pass by nearness unites next: the closest pair, if
/// its distance is below the threshold.
pub open spec fn next_near_pair(g: GraphModel, threshold: int) -> Option<(int, int)> {
    match closest_pair(g) {
        Some((a, b, d)) => if d < threshold && g.is_node(a) && g.is_node(b) && a != b {
            Some((a, b))
        } else {
            None
        },
        None => None,
    }
}

/// The graph after the pass by nearness: as long as some node has a border
/// cell nearer to its peak than the threshold, the node with the nearest
/// one of all is united with the neighbour on that border.
pub open spec fn proximity_union(g: GraphModel, threshold: int) -> GraphModel
    decreases node_count(g),
    via proximity_union_decreases
{
    match next_near_pair(g, threshold) {
        Some((a, b)) => proximity_union(g.union(a, b), threshold),
        None => g,
    }
}

#[via_fn]
proof fn proximity_union_decreases(g: GraphModel, threshold: int) {
    match next_near_pair(g, threshold) {
        Some((a, b)) => {
            lemma_union_node_count(g, a, b);
        },
        None => {},
    }
}

/// Every node counts at least one cell.
pub open spec fn populated(g: GraphModel) -> bool {
    forall|a: int| g.is_node(a) ==> (#[trigger] g.summaries[a]).num_pixels >= 1
}

/// Uniting two nodes leaves no node without a cell.
pub proof fn lemma_union_populated(g: GraphModel, a: int, b: int)
    requires
        g.wf(),
        g.is_node(a),
        g.is_node(b),
        populated(g),
    ensures
        populated(g.union(a, b)),
{
    lemma_union_wf(g, a, b);
    let u = g.union(a, b);
    assert forall|x: int| u.is_node(x) implies (#[trigger] u.summaries[x]).num_pixels >= 1 by {
        assert(g.is_node(x));
        assert(g.summaries[x].num_pixels >= 1);
        assert(g.summaries[b].num_pixels >= 1);
    }
}

/// The pass by nearness keeps the graph well formed, counts the same cells
/// after as before, and leaves no node without a cell.
pub proof fn lemma_proximity_union_keeps(g: GraphModel, threshold: int)
    requires
        g.wf(),
    ensures
        proximity_union(g, threshold).wf(),
        proximity_union(g, threshold).len() == g.len(),
        proximity_union(g, threshold).total_pixels() == g.total_pixels(),
        populated(g) ==> populated(proximity_union(g, threshold)),
        forall|a: int| proximity_union(g, threshold).is_node(a) ==> g.is_node(a),
    decreases node_count(g),
{
    match next_near_pair(g, threshold) {
        Some((a, b)) => {
            lemma_union_node_count(g, a, b);
            lemma_union_wf(g, a, b);
            if populated(g) {
                lemma_union_populated(g, a, b);
            }
            lemma_proximity_union_keeps(g.union(a, b), threshold);
            let r = proximity_union(g, threshold);
            assert forall|x: int| r.is_node(x) implies g.is_node(x) by {
                assert(g.union(a, b).is_node(x));
            }
        },
        None => {},
    }
}

/// After the pass by nearness no node has a border cell nearer to its peak
/// than the threshold.
pub proof fn lemma_proximity_union_is_done(g: GraphModel, threshold: int)
    ensures
        next_near_pair(proximity_union(g, threshold), threshold) is None,
    decreases node_count(g),
{
    match next_near_pair(g, threshold) {
        Some((a, b)) => {
            lemma_union_node_count(g, a, b);
            lemma_proximity_union_is_done(g.union(a, b), threshold);
        },
        None => {},
    }
}

/// The closest pair of the graph.
fn find_closest_pair(graph: &mut ClusterGraph) -> (r: Option<((i32, i32), u128)>)
    requires
        old(graph).wf(),
    ensures
        final(graph).wf(),
        final(graph)@ == old(graph)@,
        match r {
            Some(((a, b), d)) => closest_pair(old(graph)@) == Some((a as int, b as int, d as int)),
            None => closest_pair(old(graph)@) is None,
        },
{
    let ghost g = graph@;
    let nodes = graph.node_ids();
    let mut min_pair: Option<((i32, i32), u128)> = None;
    let mut i: usize = 0;
    let ghost mut at: int = 0;
    while i < nodes.len()
        invariant
            graph.wf(),
            graph@ == g,
            i <= nodes@.len(),
            min_pair matches Some(found) ==> 0 <= at < i && nodes@[at] == found.0.0,
            forall|i: int, j: int| 0 <= i < j < nodes@.len() ==> nodes@[i] < nodes@[j],
            forall|a: int| g.is_node(a) <==> exists|i: int| 0 <= i < nodes@.len() && nodes@[i] == a,
            match min_pair {
                Some(((a, b), d)) => {
                    &&& g.is_node(a as int)
                    &&& g.min_distance_to_edge(a as int) == Some((b as int, d as int))
                    &&& forall|j: int|
                        0 <= j < i ==> (#[trigger] g.min_distance_to_edge(
                            nodes@[j] as int,
                        ) matches Some(other) ==> d < other.1 || (d == other.1 && a <= nodes@[j]))
                },
                None => forall|j: int|
                    0 <= j < i ==> #[trigger] g.min_distance_to_edge(nodes@[j] as int) is None,
            },
        decreases nodes@.len() - i,
    {
        let node = nodes[i];
        assert(g.is_node(node as int));
        match graph.min_distance_to_edge(node) {
            Some((edge, d)) => {
                let nearer = match min_pair {
                    Some((_, seen)) => d < seen,
                    None => true,
                };
                if nearer {
                    min_pair = Some(((node, edge), d));
                    proof {
                        at = i as int;
                    }
                } else {
                    // An earlier node with the same distance has a lesser number.
                    assert(nodes@[at] < nodes@[i as int]);
                }
            },
            None => {},
        }
        i += 1;
    }
    proof {
        match min_pair {
            Some(((a, b), d)) => {
                assert forall|a2: int| g.is_node(a2) implies (#[trigger] g.min_distance_to_edge(
                    a2,
                ) matches Some(other) ==> d < other.1 || (d == other.1 && a <= a2)) by {
                    let j = choose|j: int| 0 <= j < nodes@.len() && nodes@[j] == a2;
                    assert(g.min_distance_to_edge(nodes@[j] as int) == g.min_distance_to_edge(a2));
                }
                lemma_closest_pair_is_unique(g, a as int, b as int, d as int);
            },
            None => {
                assert forall|t: (int, int, int)| !#[trigger] is_closest_pair(g, t.0, t.1, t.2) by {
                    if is_closest_pair(g, t.0, t.1, t.2) {
                        let j = choose|j: int| 0 <= j < nodes@.len() && nodes@[j] == t.0;
                        assert(g.min_distance_to_edge(nodes@[j] as int) is None);
                    }
                }
            },
        }
    }
    min_pair
}

/// The pass by nearness. As long as some node has a border cell whose
/// square distance from the peak of the node is below `threshold`, the node
/// with the nearest one of all is united with the neighbour on that
/// border.
pub fn cluster_neighbor_map_union(graph: &mut ClusterGraph, threshold: u128)
    requires
        old(graph).wf(),
    ensures
        final(graph).wf(),
        final(graph)@ == proximity_union(old(graph)@, threshold as int),
{
    loop
        invariant
            graph.wf(),
            proximity_union(graph@, threshold as int) == proximity_union(
                old(graph)@,
                threshold as int,
            ),
        ensures
            graph.wf(),
            graph@ == proximity_union(old(graph)@, threshold as int),
        decreases node_count(graph@),
    {
        let ghost g = graph@;
        proof {
            graph.lemma_wf();
        }
        match find_closest_pair(graph) {
            Some(((a, b), d)) => {
                proof {
                    graph.lemma_border_of_nearest(a as int);
                }
                if d < threshold {
                    proof {
                        assert(next_near_pair(g, threshold as int) == Some((a as int, b as int)));
                        lemma_union_node_count(g, a as int, b as int);
                    }
                    graph.union(a, b);
                } else {
                    assert(next_near_pair(g, threshold as int) is None);
                    break ;
                }
            },
            None => {
                assert(next_near_pair(g, threshold as int) is None);
                break ;
            },
        }
    }
}

/// The level that the border between `a` and `b` has to reach for the two
/// to be grouped: what `floors` holds at the higher of the two peaks, and
/// 0 where that peak is at no cell.
pub open spec fn grouping_floor(g: GraphModel, floors: Grid<u32>, a: int, b: int) -> u32 {
    let at = if g.summaries[b].max_density > g.summaries[a].max_density {
        g.summaries[b].max_density_location
    } else {
        g.summaries[a].max_density_location
    };
    if floors.in_bounds(at.0 as int, at.1 as int) {
        floors.at(at.0 as int, at.1 as int)
    } else {
        0
    }
}

/// The nodes `a` and `b` may be grouped: they touch, with `b` gone the
/// highest saddle of `a` would be lower than it is, and the saddle between
/// the two reaches the floor.
pub open spec fn is_grouping_candidate(g: GraphModel, floors: Grid<u32>, a: int, b: int) -> bool {
    &&& g.is_node(a)
    &&& g.is_node(b)
    &&& g.border(a, b) is Some
    &&& g.max_edge_density_for_pair(a, b) < g.max_edge_density(a)
    &&& g.border(a, b).unwrap().max_density >= grouping_floor(g, floors, a, b)
}

/// The pair `(a, b)` comes before the pair `(a2, b2)`: the saddle that it
/// would leave is higher, or as high and the pair is the lesser one.
pub open spec fn comes_before(g: GraphModel, a: int, b: int, a2: int, b2: int) -> bool {
    let left = g.max_edge_density_for_pair(a, b);
    let right = g.max_edge_density_for_pair(a2, b2);
    right < left || (right == left && (a < a2 || (a == a2 && b <= b2)))
}

/// Of all pairs that may be grouped, `(a, b)` comes first.
pub open spec fn is_grouping_pair(g: GraphModel, floors: Grid<u32>, a: int, b: int) -> bool {
    &&& is_grouping_candidate(g, floors, a, b)
    &&& forall|a2: int, b2: int| #[trigger]
        is_grouping_candidate(g, floors, a2, b2) ==> comes_before(g, a, b, a2, b2)
}

/// The pair that the pass by saddles unites next, if any.
pub open spec fn grouping_pair(g: GraphModel, floors: Grid<u32>) -> Option<(int, int)> {
    if exists|t: (int, int)| #[trigger] is_grouping_pair(g, floors, t.0, t.1) && t.0 != t.1 {
        Some(choose|t: (int, int)| #[trigger] is_grouping_pair(g, floors, t.0, t.1) && t.0 != t.1)
    } else {
        None
    }
}

proof fn lemma_grouping_pair_is_unique(g: GraphModel, floors: Grid<u32>, a: int, b: int)
    requires
        is_grouping_pair(g, floors, a, b),
        a != b,
    ensures
        grouping_pair(g, floors) == Some((a, b)),
{
    assert(is_grouping_pair(g, floors, (a, b).0, (a, b).1));
    let t = choose|t: (int, int)| #[trigger] is_grouping_pair(g, floors, t.0, t.1) && t.0 != t.1;
    assert(is_grouping_candidate(g, floors, t.0, t.1));
    assert(is_grouping_candidate(g, floors, a, b));
    assert(comes_before(g, a, b, t.0, t.1));
    assert(comes_before(g, t.0, t.1, a, b));
}

/// The graph after the pass by saddles: as long as some pair of nodes may
/// be grouped, the first such pair is united.
pub open spec fn density_grouping(g: GraphModel, floors: Grid<u32>) -> GraphModel
    decreases node_count(g),
    via density_grouping_decreases
{
    match grouping_pair(g, floors) {
        Some((a, b)) => density_grouping(g.union(a, b), floors),
        None => g,
    }
}

#[via_fn]
proof fn density_grouping_decreases(g: GraphModel, floors: Grid<u32>) {
    match grouping_pair(g, floors) {
        Some((a, b)) => {
            assert(is_grouping_pair(g, floors, a, b) && a != b);
            lemma_union_node_count(g, a, b);
        },
        None => {},
    }
}

/// The pass by saddles keeps the graph well formed, counts the same cells
/// after as before, and leaves no node without a cell.
pub proof fn lemma_density_grouping_keeps(g: GraphModel, floors: Grid<u32>)
    requires
        g.wf(),
    ensures
        density_grouping(g, floors).wf(),
        density_grouping(g, floors).len() == g.len(),
        density_grouping(g, floors).total_pixels() == g.total_pixels(),
        populated(g) ==> populated(density_grouping(g, floors)),
        forall|a: int| density_grouping(g, floors).is_node(a) ==> g.is_node(a),
    decreases node_count(g),
{
    match grouping_pair(g, floors) {
        Some((a, b)) => {
            assert(is_grouping_pair(g, floors, a, b) && a != b);
            lemma_union_node_count(g, a, b);
            lemma_union_wf(g, a, b);
            if populated(g) {
                lemma_union_populated(g, a, b);
            }
            lemma_density_grouping_keeps(g.union(a, b), floors);
            let r = density_grouping(g, floors);
            assert forall|x: int| r.is_node(x) implies g.is_node(x) by {
                assert(g.union(a, b).is_node(x));
            }
        },
        None => {},
    }
}

/// After the pass by saddles no pair of nodes may be grouped.
pub proof fn lemma_density_grouping_is_done(g: GraphModel, floors: Grid<u32>)
    ensures
        grouping_pair(density_grouping(g, floors), floors) is None,
    decreases node_count(g),
{
    match grouping_pair(g, floors) {
        Some((a, b)) => {
            assert(is_grouping_pair(g, floors, a, b) && a != b);
            lemma_union_node_count(g, a, b);
            lemma_density_grouping_is_done(g.union(a, b), floors);
        },
        None => {},
    }
}

/// The level that the border between `a` and `b` has to reach.
fn floor_for(graph: &ClusterGraph, floors: &Array2D<u32>, a: i32, b: i32) -> (r: u32)
    requires
        graph.wf(),
        floors@.wf(),
        graph@.is_node(a as int),
        graph@.is_node(b as int),
    ensures
        r == grouping_floor(graph@, floors@, a as int, b as int),
{
    let sa = graph.summary(a);
    let sb = graph.summary(b);
    let at = if sb.max_density > sa.max_density {
        sb.max_density_location
    } else {
        sa.max_density_location
    };
    if 0 <= at.0 && at.0 < floors.width() && 0 <= at.1 && at.1 < floors.height() {
        *floors.get(at.0, at.1)
    } else {
        0
    }
}

/// The first of the pairs that may be grouped.
fn find_grouping_pair(graph: &ClusterGraph, floors: &Array2D<u32>) -> (r: Option<(i32, i32)>)
    requires
        graph.wf(),
        floors@.wf(),
    ensures
        match r {
            Some((a, b)) => grouping_pair(graph@, floors@) == Some((a as int, b as int)),
            None => grouping_pair(graph@, floors@) is None,
        },
{
    let ghost g = graph@;
    let ghost fl = floors@;
    proof {
        graph.lemma_wf();
    }
    let nodes = graph.node_ids();
    let mut best: Option<((i32, i32), u32)> = None;
    let mut i: usize = 0;
    while i < nodes.len()
        invariant
            graph.wf(),
            g == graph@,
            g.wf(),
            fl == floors@,
            fl.wf(),
            i <= nodes@.len(),
            forall|a: int| g.is_node(a) <==> exists|i: int| 0 <= i < nodes@.len() && nodes@[i] == a,
            best matches Some(found) ==> is_grouping_candidate(
                g,
                fl,
                found.0.0 as int,
                found.0.1 as int,
            ) && found.1 == g.max_edge_density_for_pair(found.0.0 as int, found.0.1 as int),
            forall|k: int, b2: int|
                0 <= k < i && #[trigger] is_grouping_candidate(g, fl, nodes@[k] as int, b2) ==> (
                best matches Some(found) && comes_before(
                    g,
                    found.0.0 as int,
                    found.0.1 as int,
                    nodes@[k] as int,
                    b2,
                )),
        decreases nodes@.len() - i,
    {
        let node = nodes[i];
        assert(g.is_node(node as int));
        let max_w = graph.max_edge_density(node);
        let partners = graph.neighbors(node);
        let mut j: usize = 0;
        while j < partners.len()
            invariant
                graph.wf(),
                g == graph@,
                g.wf(),
                fl == floors@,
                fl.wf(),
                i < nodes@.len(),
                node == nodes@[i as int],
                g.is_node(node as int),
                max_w == g.max_edge_density(node as int),
                j <= partners@.len(),
                forall|b: int|
                    g.border(node as int, b) is Some <==> #[trigger] crate::cluster_graph::names(
                        partners@,
                        b,
                    ),
                best matches Some(found) ==> is_grouping_candidate(
                    g,
                    fl,
                    found.0.0 as int,
                    found.0.1 as int,
                ) && found.1 == g.max_edge_density_for_pair(found.0.0 as int, found.0.1 as int),
                forall|k: int, b2: int|
                    0 <= k < i && #[trigger] is_grouping_candidate(g, fl, nodes@[k] as int, b2)
                        ==> (best matches Some(found) && comes_before(
                        g,
                        found.0.0 as int,
                        found.0.1 as int,
                        nodes@[k] as int,
                        b2,
                    )),
                forall|k: int|
                    0 <= k < j && #[trigger] is_grouping_candidate(
                        g,
                        fl,
                        node as int,
                        partners@[k] as int,
                    ) ==> (best matches Some(found) && comes_before(
                        g,
                        found.0.0 as int,
                        found.0.1 as int,
                        node as int,
                        partners@[k] as int,
                    )),
            decreases partners@.len() - j,
        {
            let neighbor = partners[j];
            proof {
                assert(crate::cluster_graph::names(partners@, neighbor as int));
                assert(g.border(node as int, neighbor as int) is Some);
                assert(g.borders[node as int].contains_key(neighbor as int));
            }
            let w = match graph.border(node, neighbor) {
                Some(e) => e.max_density,
                None => 0,
            };
            let max_w2 = graph.max_edge_density_for_pair(node, neighbor);
            if max_w2 < max_w {
                let floor = floor_for(graph, floors, node, neighbor);
                if w >= floor {
                    assert(is_grouping_candidate(g, fl, node as int, neighbor as int));
                    let first = match best {
                        Some(((a, b), seen)) => max_w2 > seen || (max_w2 == seen && (node < a || (
                        node == a && neighbor < b))),
                        None => true,
                    };
                    if first {
                        best = Some(((node, neighbor), max_w2));
                    }
                }
            }
            j += 1;
        }
        proof {
            assert forall|k: int, b2: int|
                0 <= k < i + 1 && #[trigger] is_grouping_candidate(
                    g,
                    fl,
                    nodes@[k] as int,
                    b2,
                ) implies (best matches Some(found) && comes_before(
                g,
                found.0.0 as int,
                found.0.1 as int,
                nodes@[k] as int,
                b2,
            )) by {
                if k == i {
                    assert(crate::cluster_graph::names(partners@, b2));
                    let m = choose|m: int| 0 <= m < partners@.len() && partners@[m] == b2;
                    assert(is_grouping_candidate(g, fl, node as int, partners@[m] as int));
                }
            }
        }
        i += 1;
    }
    proof {
        match best {
            Some(((a, b), _)) => {
                assert forall|a2: int, b2: int| #[trigger]
                    is_grouping_candidate(g, fl, a2, b2) implies comes_before(
                    g,
                    a as int,
                    b as int,
                    a2,
                    b2,
                ) by {
                    let k = choose|k: int| 0 <= k < nodes@.len() && nodes@[k] == a2;
                    assert(is_grouping_candidate(g, fl, nodes@[k] as int, b2));
                }
                assert(g.borders[a as int].contains_key(b as int));
                lemma_grouping_pair_is_unique(g, fl, a as int, b as int);
            },
            None => {
                assert forall|t: (int, int)|
                    !(#[trigger] is_grouping_pair(g, fl, t.0, t.1) && t.0 != t.1) by {
                    if is_grouping_pair(g, fl, t.0, t.1) {
                        let k = choose|k: int| 0 <= k < nodes@.len() && nodes@[k] == t.0;
                        assert(is_grouping_candidate(g, fl, nodes@[k] as int, t.1));
                    }
                }
            },
        }
    }
    match best {
        Some((pair, _)) => Some(pair),
        None => None,
    }
}

/// The pass by saddles. Among the pairs of touching nodes whose saddle
/// reaches the floor that `floors` sets at the higher of their two peaks,
/// and whose union would lower the highest saddle of the first, the pair
/// that would leave the highest saddle is united, until there is no such
/// pair.
pub fn cluster_neighbor_map_grouping(graph: &mut ClusterGraph, floors: &Array2D<u32>)
    requires
        old(graph).wf(),
        floors@.wf(),
    ensures
        final(graph).wf(),
        final(graph)@ == density_grouping(old(graph)@, floors@),
{
    loop
        invariant
            graph.wf(),
            floors@.wf(),
            density_grouping(graph@, floors@) == density_grouping(old(graph)@, floors@),
        ensures
            graph.wf(),
            graph@ == density_grouping(old(graph)@, floors@),
        decreases node_count(graph@),
    {
        let ghost g = graph@;
        match find_grouping_pair(graph, floors) {
            Some((a, b)) => {
                proof {
                    assert(is_grouping_pair(g, floors@, a as int, b as int) && a != b);
                    lemma_union_node_count(g, a as int, b as int);
                }
                graph.union(a, b);
            },
            None => {
                break ;
            },
        }
    }
}

} // verus!
