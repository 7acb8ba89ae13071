//! The segmentation of a raster of density levels: clusters, the graph of
//! their borders, and the final labels.
//!
//! A level is a whole number that stands for a density: a higher level, a
//! higher density, and the level 0 for the density zero. What needs more
//! of a density than its rank among the others is handed in by the caller:
//! the floors for the pass by saddles, and which cells pass the threshold
//! of their cluster.

use vstd::prelude::*;
use crate::array_2d::{lemma_coord_in_bounds, lemma_offset_in_range, Array2D, Grid};
use crate::cluster_graph::{
    counted_pixels,
    initial_graph,
    labels_below,
    lemma_counted_pixels,
    ClusterGraph,
    GraphModel,
};
use crate::cluster_summary::{summarizes, ClusterSummary};
use crate::graph_reducers::{
    cluster_neighbor_map_grouping,
    cluster_neighbor_map_union,
    density_grouping,
    lemma_density_grouping_keeps,
    lemma_proximity_union_keeps,
    populated,
    proximity_union,
};
use crate::initial_clusters::{climbed_to_basins, find_initial_clusters_disjoint_set};
use crate::leftover_clusters::{find_unlabeled_clusters, leftovers_flooded};
use crate::priority_clusters::{find_initial_clusters, grown_from_maxima};
use crate::regions::{
    counts_region,
    labelled_below,
    lemma_pixels_in_at_least,
    lemma_summaries_count_labelled,
    pixels_in,
    region,
};

verus! {

/// How the clusters are found and which passes unite them.
#[derive(Clone, Copy, Debug)]
pub struct ClusteringOptions {
    /// Cells climb to their basins instead of clusters growing from the
    /// local maxima.
    pub use_disjoint_set: bool,
    /// The cells that no local maximum reaches get clusters of their own.
    pub add_unlabeled: bool,
    /// The pass by saddles is made.
    pub perform_neighbor_map_grouping: bool,
    /// The square of the distance below which the pass by nearness unites
    /// a node with a neighbour; 0 leaves every node as it is.
    pub union_threshold: u128,
}

impl Default for ClusteringOptions {
    fn default() -> (r: ClusteringOptions)
        ensures
            r == (ClusteringOptions {
                use_disjoint_set: false,
                add_unlabeled: true,
                perform_neighbor_map_grouping: true,
                union_threshold: 100,
            }),
    {
        ClusteringOptions {
            use_disjoint_set: false,
            add_unlabeled: true,
            perform_neighbor_map_grouping: true,
            union_threshold: 100,
        }
    }
}

/// `labels` and `summaries` are a first assignment of the cells of
/// `levels` to clusters, made the way the options ask for.
pub open spec fn is_initial_clustering(
    levels: Grid<u32>,
    labels: Grid<i32>,
    summaries: Seq<ClusterSummary>,
    options: ClusteringOptions,
) -> bool {
    if options.use_disjoint_set {
        climbed_to_basins(levels, labels, summaries)
    } else if options.add_unlabeled {
        exists|grown: Grid<i32>, found: Seq<ClusterSummary>| #[trigger]
            grown_from_maxima(levels, grown, found) && leftovers_flooded(
                levels,
                grown,
                found,
                labels,
                summaries,
            )
    } else {
        grown_from_maxima(levels, labels, summaries)
    }
}

/// The graph after the passes that the options ask for: the pass by
/// nearness, then the pass by saddles.
pub open spec fn reduced(g: GraphModel, floors: Grid<u32>, options: ClusteringOptions) -> GraphModel {
    let near = proximity_union(g, options.union_threshold as int);
    if options.perform_neighbor_map_grouping {
        density_grouping(near, floors)
    } else {
        near
    }
}

/// `labels` and `summaries` are a first assignment of the cells of
/// `levels` to clusters, and `graph` is the graph of those clusters after
/// the passes that the options ask for.
pub open spec fn segmented(
    levels: Grid<u32>,
    floors: Grid<u32>,
    options: ClusteringOptions,
    labels: Grid<i32>,
    summaries: Seq<ClusterSummary>,
    graph: GraphModel,
) -> bool {
    &&& is_initial_clustering(levels, labels, summaries, options)
    &&& graph == reduced(initial_graph(levels, labels, summaries), floors, options)
}

/// Every cell carries -1 or the number of a summary, each summary is that
/// of the cells with its number, and none is without a cell.
pub open spec fn summarized(levels: Grid<u32>, labels: Grid<i32>, summaries: Seq<ClusterSummary>) -> bool {
    &&& labels.wf()
    &&& labels.width == levels.width
    &&& labels.height == levels.height
    &&& forall|x: int, y: int|
        labels.in_bounds(x, y) ==> -1 <= #[trigger] labels.at(x, y) < summaries.len()
    &&& forall|c: int|
        0 <= c < summaries.len() ==> summarizes(levels, region(labels, c), #[trigger] summaries[c])
    &&& forall|c: int| 0 <= c < summaries.len() ==> (#[trigger] summaries[c]).num_pixels >= 1
}

/// The summaries of a first assignment count every cell that has a
/// cluster once, and no other: together as many cells as the raster has
/// but for those that carry -1.
pub proof fn lemma_summarized_counts(levels: Grid<u32>, labels: Grid<i32>, summaries: Seq<ClusterSummary>)
    requires
        summarized(levels, labels, summaries),
    ensures
        labels_below(labels, summaries.len() as int),
        pixels_in(summaries, summaries.len()) + labelled_below(
            labels.cells,
            -1,
            labels.cells.len(),
        ) == labels.cells.len(),
        summaries.len() <= pixels_in(summaries, summaries.len()),
        counted_pixels(summaries) == pixels_in(summaries, summaries.len()),
{
    assert forall|c: int| 0 <= c < summaries.len() implies #[trigger] counts_region(
        labels,
        summaries,
        c,
    ) by {
        assert(summarizes(levels, region(labels, c), summaries[c]));
    }
    lemma_summaries_count_labelled(labels, summaries);
    lemma_pixels_in_at_least(summaries, summaries.len());
    lemma_counted_pixels(summaries, summaries.len());
    assert forall|k: int| 0 <= k < labels.cells.len() implies -1 <= #[trigger] labels.cells[k]
        < summaries.len() by {
        lemma_coord_in_bounds(labels.width, labels.height, k);
        assert(-1 <= labels.at(k % labels.width, k / labels.width) < summaries.len());
    }
}

/// Every first assignment is summarized.
pub proof fn lemma_initial_clustering_is_summarized(
    levels: Grid<u32>,
    labels: Grid<i32>,
    summaries: Seq<ClusterSummary>,
    options: ClusteringOptions,
)
    requires
        levels.wf(),
        is_initial_clustering(levels, labels, summaries, options),
    ensures
        summarized(levels, labels, summaries),
{
    if options.use_disjoint_set {
        let m = crate::initial_clusters::climb_partition(levels);
        assert forall|x: int, y: int| labels.in_bounds(x, y) implies -1 <= #[trigger] labels.at(
            x,
            y,
        ) < summaries.len() by {
            lemma_offset_in_range(labels.width, labels.height, x, y);
            let j = labels.offset(x, y);
            assert(labels.cells[j] == crate::partition::representatives_below(m, m[j] as nat));
            lemma_basin_numbers(levels, j);
        }
    } else if options.add_unlabeled {
        let (grown, found) = choose|grown: Grid<i32>, found: Seq<ClusterSummary>| #[trigger]
            grown_from_maxima(levels, grown, found) && leftovers_flooded(
                levels,
                grown,
                found,
                labels,
                summaries,
            );
        assert forall|x: int, y: int| labels.in_bounds(x, y) implies -1 <= #[trigger] labels.at(
            x,
            y,
        ) < summaries.len() by {
            assert(-1 <= grown.at(x, y) < found.len());
        }
        assert forall|c: int| 0 <= c < summaries.len() implies summarizes(
            levels,
            region(labels, c),
            #[trigger] summaries[c],
        ) && summaries[c].num_pixels >= 1 by {
            if c < found.len() {
                assert(summaries[c] == summaries.take(found.len() as int)[c]);
                assert(summarizes(levels, region(grown, c), found[c]));
                assert(region(labels, c) =~= region(grown, c)) by {
                    assert forall|p: (int, int)| region(labels, c).contains(p) implies region(
                        grown,
                        c,
                    ).contains(p) by {
                        assert(-1 <= grown.at(p.0, p.1) < found.len());
                    }
                    assert forall|p: (int, int)| region(grown, c).contains(p) implies region(
                        labels,
                        c,
                    ).contains(p) by {
                        assert(labels.at(p.0, p.1) == grown.at(p.0, p.1));
                    }
                }
            }
        }
    }
}

/// The number of a basin is below the count of basins.
proof fn lemma_basin_numbers(levels: Grid<u32>, j: int)
    requires
        levels.wf(),
        0 <= j < levels.cells.len(),
    ensures
        0 <= crate::partition::representatives_below(
            crate::initial_clusters::climb_partition(levels),
            crate::initial_clusters::climb_partition(levels)[j] as nat,
        ) < crate::partition::representatives_below(
            crate::initial_clusters::climb_partition(levels),
            levels.cells.len(),
        ),
{
    let m = crate::initial_clusters::climb_partition(levels);
    crate::initial_clusters::lemma_climb_partition(levels);
    assert(0 <= m[j] < m.len() && m[m[j]] == m[j]);
    crate::partition::lemma_representatives_below_grows(m, m[j] as nat, levels.cells.len());
}

/// The first assignment of the cells to clusters that the options ask
/// for.
pub fn find_initial(density_map: &Array2D<u32>, options: &ClusteringOptions) -> (r: (
    Array2D<i32>,
    Vec<ClusterSummary>,
))
    requires
        density_map@.wf(),
        density_map@.cells.len() <= i32::MAX,
    ensures
        is_initial_clustering(density_map@, r.0@, r.1@, *options),
{
    if options.use_disjoint_set {
        find_initial_clusters_disjoint_set(density_map)
    } else {
        let (mut cluster_map, mut clusters) = find_initial_clusters(density_map);
        if options.add_unlabeled {
            let ghost grown = cluster_map@;
            let ghost found = clusters@;
            proof {
                assert(summarized(density_map@, grown, found));
                lemma_summarized_counts(density_map@, grown, found);
            }
            find_unlabeled_clusters(density_map, &mut cluster_map, &mut clusters);
            proof {
                assert(grown_from_maxima(density_map@, grown, found) && leftovers_flooded(
                    density_map@,
                    grown,
                    found,
                    cluster_map@,
                    clusters@,
                ));
            }
        }
        (cluster_map, clusters)
    }
}

/// Finds the clusters of a raster of density levels and unites them. The
/// cells are first assigned to clusters; the clusters become the nodes of
/// a graph, with a border where two of them touch; then the pass by
/// nearness and the pass by saddles unite nodes, as far as the options ask
/// for them. Returns the first assignment and the graph.
///
/// `floors` holds for every cell the level that a border has to reach for
/// a node that peaks at that cell to be grouped along it.
pub fn find_cluster_graph(
    density_map: &Array2D<u32>,
    floors: &Array2D<u32>,
    options: &ClusteringOptions,
) -> (r: (Array2D<i32>, ClusterGraph))
    requires
        density_map@.wf(),
        density_map@.cells.len() <= i32::MAX,
        floors@.wf(),
    ensures
        r.1.wf(),
        exists|summaries: Seq<ClusterSummary>|
            segmented(density_map@, floors@, *options, r.0@, summaries, r.1@),
        labels_below(r.0@, r.1@.len()),
        r.0@.wf(),
        r.0@.width == density_map@.width,
        r.0@.height == density_map@.height,
        populated(r.1@),
        r.1@.total_pixels() + labelled_below(r.0@.cells, -1, r.0@.cells.len())
            == density_map@.cells.len(),
{
    let (cluster_map, clusters) = find_initial(density_map, options);
    let ghost levels = density_map@;
    let ghost first = initial_graph(levels, cluster_map@, clusters@);
    let cell_count = density_map.as_slice().len();
    proof {
        lemma_initial_clustering_is_summarized(levels, cluster_map@, clusters@, *options);
        lemma_summarized_counts(levels, cluster_map@, clusters@);
    }
    let mut graph = ClusterGraph::new_with_cluster_map(density_map, &cluster_map, &clusters);
    proof {
        graph.lemma_wf();
        assert(populated(first));
        lemma_proximity_union_keeps(first, options.union_threshold as int);
    }
    cluster_neighbor_map_union(&mut graph, options.union_threshold);
    if options.perform_neighbor_map_grouping {
        proof {
            lemma_density_grouping_keeps(graph@, floors@);
        }
        cluster_neighbor_map_grouping(&mut graph, floors);
    }
    proof {
        let near = proximity_union(first, options.union_threshold as int);
        assert(reduced(first, floors@, *options) == if options.perform_neighbor_map_grouping {
            density_grouping(near, floors@)
        } else {
            near
        });
        assert(graph@ == reduced(first, floors@, *options));
    }
    let r = (cluster_map, graph);
    proof {
        assert(segmented(density_map@, floors@, *options, r.0@, clusters@, r.1@));
    }
    r
}

/// Gives every cell its final label: the node that the cluster of the
/// cell was united into, if the cell has a cluster and is accepted, and -1
/// if not.
pub fn label_clusters(cluster_map: &mut Array2D<i32>, graph: &ClusterGraph, accepted: &Array2D<bool>)
    requires
        old(cluster_map)@.wf(),
        accepted@.wf(),
        accepted@.width == old(cluster_map)@.width,
        accepted@.height == old(cluster_map)@.height,
        graph.wf(),
        labels_below(old(cluster_map)@, graph@.len()),
    ensures
        final(cluster_map)@.wf(),
        final(cluster_map)@.width == old(cluster_map)@.width,
        final(cluster_map)@.height == old(cluster_map)@.height,
        forall|k: int|
            0 <= k < old(cluster_map)@.cells.len() ==> #[trigger] final(cluster_map)@.cells[k]
                == if old(cluster_map)@.cells[k] != -1 && accepted@.cells[k] {
                graph@.owner[old(cluster_map)@.cells[k] as int]
            } else {
                -1
            },
        forall|k: int|
            0 <= k < old(cluster_map)@.cells.len() ==> #[trigger] final(cluster_map)@.cells[k]
                == -1 || graph@.is_node(final(cluster_map)@.cells[k] as int),
{
    let width = cluster_map.width();
    let height = cluster_map.height();
    let ghost before = cluster_map@;
    let ghost g = graph@;
    let mut y: i32 = 0;
    while y < height
        invariant
            before == old(cluster_map)@,
            before.wf(),
            cluster_map@.wf(),
            cluster_map@.width == before.width,
            cluster_map@.height == before.height,
            accepted@.wf(),
            accepted@.width == before.width,
            accepted@.height == before.height,
            width == before.width,
            height == before.height,
            graph.wf(),
            g == graph@,
            labels_below(before, g.len()),
            0 <= y <= height,
            forall|k: int|
                0 <= k < before.cells.len() ==> #[trigger] cluster_map@.cells[k] == if k < y
                    * width {
                    if before.cells[k] != -1 && accepted@.cells[k] {
                        g.owner[before.cells[k] as int]
                    } else {
                        -1
                    }
                } else {
                    before.cells[k] as int
                },
        decreases height - y,
    {
        let mut x: i32 = 0;
        while x < width
            invariant
                before == old(cluster_map)@,
                before.wf(),
                cluster_map@.wf(),
                cluster_map@.width == before.width,
                cluster_map@.height == before.height,
                accepted@.wf(),
                accepted@.width == before.width,
                accepted@.height == before.height,
                width == before.width,
                height == before.height,
                graph.wf(),
                g == graph@,
                labels_below(before, g.len()),
                0 <= y < height,
                0 <= x <= width,
                forall|k: int|
                    0 <= k < before.cells.len() ==> #[trigger] cluster_map@.cells[k] == if k < y
                        * width + x {
                        if before.cells[k] != -1 && accepted@.cells[k] {
                            g.owner[before.cells[k] as int]
                        } else {
                            -1
                        }
                    } else {
                        before.cells[k] as int
                    },
            decreases width - x,
        {
            proof {
                lemma_offset_in_range(width as int, height as int, x as int, y as int);
                assert(-1 <= before.cells[y * width + x] < g.len());
            }
            let id = *cluster_map.get(x, y);
            let label = if id != -1 && *accepted.get(x, y) {
                graph.owner(id)
            } else {
                -1
            };
            cluster_map.set(x, y, label);
            x += 1;
        }
        proof {
            assert((y + 1) * width == y * width + width) by (nonlinear_arith);
        }
        y += 1;
    }
    proof {
        graph.lemma_wf();
        assert(before.cells.len() == height * width) by (nonlinear_arith)
            requires
                before.cells.len() == width * height,
        ;
        assert forall|k: int| 0 <= k < before.cells.len() implies #[trigger] cluster_map@.cells[k]
            == -1 || g.is_node(cluster_map@.cells[k] as int) by {
            if before.cells[k] != -1 {
                assert(-1 <= before.cells[k] < g.len());
                assert(g.is_node(g.owner[before.cells[k] as int]));
            }
        }
    }
}

} // verus!
