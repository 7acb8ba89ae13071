use density_clustering::array_2d::Array2D;
use density_clustering::cluster_graph::{location_distance_squared, ClusterGraph};
use density_clustering::cluster_summary::ClusterSummary;
use density_clustering::density_queue::{DensityQueue, QueueItem};
use density_clustering::find_clusters::{
    find_cluster_graph, find_initial, label_clusters, ClusteringOptions,
};
use density_clustering::find_local_maxima::find_local_maxima;
use density_clustering::graph_reducers::{cluster_neighbor_map_grouping, cluster_neighbor_map_union};
use density_clustering::initial_clusters::find_initial_clusters_disjoint_set;
use density_clustering::leftover_clusters::find_unlabeled_clusters;
use density_clustering::priority_clusters::find_initial_clusters;

fn levels_of(width: i32, height: i32, values: &[f32]) -> Array2D<u32> {
    Array2D::new(width, height, values.iter().map(|v| v.to_bits()).collect())
}

fn summary(num_pixels: usize, max_density: u32, at: (i32, i32)) -> ClusterSummary {
    ClusterSummary { num_pixels, max_density, max_density_location: at }
}

fn same(a: &ClusterSummary, b: &ClusterSummary) -> bool {
    a.num_pixels == b.num_pixels
        && a.max_density == b.max_density
        && a.max_density_location == b.max_density_location
}

#[test]
fn test_find_local_maxima() {
    let mut array = Array2D::<f32>::zeros(10, 10);
    array.set(3, 3, 1.0);
    array.set(5, 5, 1.0);
    array.set(0, 2, 1.0); // edge doesn't count.
    let result = find_local_maxima(&levels_of(10, 10, array.as_slice()));
    assert!(result == vec![(3, 3), (5, 5)]);
}

#[test]
fn local_maxima_of_small_or_constant_grids_are_none() {
    assert!(find_local_maxima(&Array2D::new(2, 5, vec![1, 9, 1, 9, 1, 9, 1, 9, 1, 9])).is_empty());
    assert!(find_local_maxima(&Array2D::new(5, 2, vec![1, 9, 1, 9, 1, 9, 1, 9, 1, 9])).is_empty());
    assert!(find_local_maxima(&Array2D::<u32>::new_with_constant(6, 6, 4)).is_empty());
}

#[test]
fn local_maxima_need_strictly_lower_neighbours() {
    // A plateau of two equal cells has no maximum.
    let levels = Array2D::new(4, 3, vec![0, 0, 0, 0, 0, 5, 5, 0, 0, 0, 0, 0]);
    assert!(find_local_maxima(&levels).is_empty());
    let levels = Array2D::new(4, 3, vec![0, 0, 0, 0, 0, 5, 4, 0, 0, 0, 0, 0]);
    assert_eq!(find_local_maxima(&levels), vec![(1, 1)]);
}

#[test]
fn summary_updates_and_merges() {
    let mut s = ClusterSummary::zero();
    assert!(same(&s, &summary(0, 0, (-1, -1))));
    s.update((2, 3), 0);
    assert!(same(&s, &summary(1, 0, (-1, -1))));
    s.update((4, 1), 7);
    s.update((5, 1), 7);
    assert!(same(&s, &summary(3, 7, (4, 1))));
    let mut t = summary(2, 7, (9, 9));
    t.update_with_summary(&s);
    assert!(same(&t, &summary(5, 7, (9, 9))));
    let mut u = summary(1, 3, (0, 0));
    u.update_with_summary(&s);
    assert!(same(&u, &summary(4, 7, (4, 1))));
}

#[test]
fn priority_growth_from_a_single_peak_takes_everything() {
    let mut levels = Array2D::<u32>::new_with_constant(5, 5, 0);
    levels.set(2, 2, 9);
    let (labels, summaries) = find_initial_clusters(&levels);
    assert_eq!(labels.as_slice(), [0; 25]);
    assert_eq!(summaries.len(), 1);
    assert!(same(&summaries[0], &summary(25, 9, (2, 2))));
}

#[test]
fn priority_growth_leaves_higher_cells_alone() {
    let mut levels = Array2D::<u32>::new_with_constant(5, 5, 0);
    levels.set(2, 2, 5);
    levels.set(0, 0, 7);
    let (mut labels, mut summaries) = find_initial_clusters(&levels);
    assert_eq!(*labels.get(0, 0), -1);
    for y in 0..5 {
        for x in 0..5 {
            if (x, y) != (0, 0) {
                assert_eq!(*labels.get(x, y), 0);
            }
        }
    }
    assert!(same(&summaries[0], &summary(24, 5, (2, 2))));
    find_unlabeled_clusters(&levels, &mut labels, &mut summaries);
    assert_eq!(*labels.get(0, 0), 1);
    assert_eq!(summaries.len(), 2);
    assert!(same(&summaries[0], &summary(24, 5, (2, 2))));
    assert!(same(&summaries[1], &summary(1, 7, (0, 0))));
}

#[test]
fn priority_growth_gives_a_cell_to_its_highest_neighbour() {
    // Two peaks on one row; the cells between them descend from the left peak down to the
    // right one's foot.
    let levels = Array2D::new(7, 3, vec![
        0, 0, 0, 0, 0, 0, 0,
        0, 9, 6, 5, 4, 8, 0,
        0, 0, 0, 0, 0, 0, 0,
    ]);
    let (labels, summaries) = find_initial_clusters(&levels);
    assert_eq!(summaries.len(), 2);
    assert_eq!(*labels.get(1, 1), 0);
    assert_eq!(*labels.get(5, 1), 1);
    assert_eq!(*labels.get(2, 1), 0);
    assert_eq!(*labels.get(3, 1), 0);
    // (4, 1) lies beside the peak 8 and beside the cell 5 of the left cluster: 8 is higher.
    assert_eq!(*labels.get(4, 1), 1);
    assert_eq!(summaries[0].max_density, 9);
    assert_eq!(summaries[0].max_density_location, (1, 1));
    assert_eq!(summaries[1].max_density, 8);
    assert_eq!(summaries[1].max_density_location, (5, 1));
    assert_eq!(summaries[0].num_pixels + summaries[1].num_pixels, 21);
}

#[test]
fn without_maxima_nothing_grows() {
    let levels = Array2D::<u32>::new_with_constant(4, 4, 3);
    let (mut labels, mut summaries) = find_initial_clusters(&levels);
    assert_eq!(labels.as_slice(), [-1; 16]);
    assert!(summaries.is_empty());
    find_unlabeled_clusters(&levels, &mut labels, &mut summaries);
    assert_eq!(labels.as_slice(), [0; 16]);
    assert_eq!(summaries.len(), 1);
    assert!(same(&summaries[0], &summary(16, 3, (0, 0))));
}

#[test]
fn leftover_regions_are_numbered_in_row_major_order() {
    let levels = Array2D::<u32>::new_with_constant(5, 3, 0);
    let mut labels = Array2D::new(5, 3, vec![
        -1, 0, -1, -1, 0,
        -1, 0,  0, -1, 0,
         0, 0, -1,  0, 0,
    ]);
    let mut summaries = vec![summary(8, 0, (-1, -1))];
    find_unlabeled_clusters(&levels, &mut labels, &mut summaries);
    assert_eq!(labels.as_slice(), [
        1, 0, 2, 2, 0,
        1, 0, 0, 2, 0,
        0, 0, 3, 0, 0,
    ]);
    assert_eq!(summaries.len(), 4);
    assert!(same(&summaries[0], &summary(8, 0, (-1, -1))));
    assert_eq!(summaries[1].num_pixels, 2);
    assert_eq!(summaries[2].num_pixels, 3);
    assert_eq!(summaries[3].num_pixels, 1);
}

#[test]
fn cells_climb_to_their_basins() {
    let (labels, summaries) = find_initial_clusters_disjoint_set(&Array2D::new(3, 1, vec![1, 2, 3]));
    assert_eq!(labels.as_slice(), [0, 0, 0]);
    assert_eq!(summaries.len(), 1);
    assert!(same(&summaries[0], &summary(3, 3, (2, 0))));

    let (labels, summaries) = find_initial_clusters_disjoint_set(&Array2D::new(3, 1, vec![3, 1, 3]));
    assert_eq!(labels.as_slice(), [0, 0, 1]);
    assert_eq!(summaries.len(), 2);
    assert!(same(&summaries[0], &summary(2, 3, (0, 0))));
    assert!(same(&summaries[1], &summary(1, 3, (2, 0))));
}

#[test]
fn cells_of_equal_level_climb_sideways_first() {
    // Of several equally high cells beside a cell the first counts: the one to the left, then
    // the one to the right. So the rows of a flat raster are basins of their own.
    let (labels, summaries) =
        find_initial_clusters_disjoint_set(&Array2D::<u32>::new_with_constant(3, 2, 0));
    assert_eq!(labels.as_slice(), [0, 0, 0, 1, 1, 1]);
    assert_eq!(summaries.len(), 2);
    assert!(same(&summaries[0], &summary(3, 0, (-1, -1))));
    assert!(same(&summaries[1], &summary(3, 0, (-1, -1))));
}

fn two_halves() -> (Array2D<u32>, Array2D<i32>, Vec<ClusterSummary>) {
    let levels = Array2D::new(4, 4, vec![
        9, 1, 2, 1,
        1, 3, 1, 1,
        1, 1, 4, 8,
        1, 1, 1, 1,
    ]);
    let labels = Array2D::new(4, 4, vec![
        0, 0, 1, 1,
        0, 0, 1, 1,
        0, 0, 1, 1,
        0, 0, 1, 1,
    ]);
    let summaries = vec![summary(8, 9, (0, 0)), summary(8, 8, (3, 2))];
    (levels, labels, summaries)
}

#[test]
fn graph_records_borders_but_for_the_last_row_and_column() {
    let (levels, labels, summaries) = two_halves();
    let graph = ClusterGraph::new_with_cluster_map(&levels, &labels, &summaries);
    assert_eq!(graph.node_ids(), vec![0, 1]);
    assert_eq!(graph.neighbors(0), vec![1]);
    assert_eq!(graph.neighbors(1), vec![0]);
    let left = graph.border(0, 1).unwrap();
    assert_eq!(left.pixels, vec![(1, 0, 1), (1, 1, 3), (1, 2, 1)]);
    assert_eq!(left.max_density, 3);
    let right = graph.border(1, 0).unwrap();
    assert_eq!(right.pixels, vec![(2, 0, 2), (2, 1, 1), (2, 2, 4)]);
    assert_eq!(right.max_density, 4);
    assert!(graph.border(0, 0).is_none());
    assert_eq!(graph.max_edge_density(0), 3);
    assert_eq!(graph.max_edge_density(1), 4);
    assert_eq!(graph.max_edge_density_for_pair(0, 1), 0);
    assert_eq!(graph.cluster_ids(0), &vec![0]);
    assert!(graph.is_node(1));
    assert!(!graph.is_node(2));
    assert!(!graph.is_node(-1));
}

#[test]
fn graph_border_in_the_last_column_is_passed_over() {
    let levels = Array2D::<u32>::new_with_constant(3, 3, 1);
    let labels = Array2D::new(3, 3, vec![
        0, 0, 1,
        0, 0, 1,
        0, 0, 1,
    ]);
    let summaries = vec![summary(6, 1, (0, 0)), summary(3, 1, (2, 0))];
    let graph = ClusterGraph::new_with_cluster_map(&levels, &labels, &summaries);
    assert!(graph.neighbors(0).is_empty());
    assert!(graph.neighbors(1).is_empty());
    assert_eq!(graph.max_edge_density(0), 0);
}

#[test]
fn graph_distances() {
    assert_eq!(location_distance_squared((0, 0), (3, 4)), 25);
    assert_eq!(location_distance_squared((-1, -1), (2, 3)), 25);
    assert_eq!(
        location_distance_squared((i32::MIN, i32::MIN), (i32::MAX, i32::MAX)),
        2 * (u32::MAX as u128) * (u32::MAX as u128)
    );
    let (levels, labels, summaries) = two_halves();
    let mut graph = ClusterGraph::new_with_cluster_map(&levels, &labels, &summaries);
    assert_eq!(graph.min_distance_to_edge(0), Some((1, 1)));
    assert_eq!(graph.min_distance_to_edge(1), Some((0, 1)));
    // A second call is answered from what the first found.
    assert_eq!(graph.min_distance_to_edge(0), Some((1, 1)));
}

fn three_stripes() -> (Array2D<u32>, Array2D<i32>, Vec<ClusterSummary>) {
    let levels = Array2D::new(7, 3, vec![
        1, 2, 3, 4, 5, 6, 7,
        9, 2, 3, 8, 5, 6, 7,
        1, 2, 3, 4, 5, 6, 7,
    ]);
    let labels = Array2D::new(7, 3, vec![
        0, 0, 1, 1, 2, 2, 2,
        0, 0, 1, 1, 2, 2, 2,
        0, 0, 1, 1, 2, 2, 2,
    ]);
    let summaries = vec![summary(6, 9, (0, 1)), summary(6, 8, (3, 1)), summary(9, 7, (6, 0))];
    (levels, labels, summaries)
}

#[test]
fn graph_union_moves_borders_to_the_node_that_stays() {
    let (levels, labels, summaries) = three_stripes();
    let mut graph = ClusterGraph::new_with_cluster_map(&levels, &labels, &summaries);
    assert_eq!(graph.neighbors(1), vec![0, 2]);
    assert_eq!(graph.max_edge_density(0), 2);
    assert_eq!(graph.max_edge_density(1), 8);
    assert_eq!(graph.max_edge_density(2), 5);
    assert_eq!(graph.max_edge_density_for_pair(0, 1), 8);
    assert_eq!(graph.max_edge_density_for_pair(1, 2), 3);
    assert_eq!(graph.max_edge_density_for_pair(0, 2), 5);
    assert_eq!(graph.union(0, 1), 0);
    assert_eq!(graph.node_ids(), vec![0, 2]);
    assert_eq!(graph.neighbors(0), vec![2]);
    assert_eq!(graph.neighbors(2), vec![0]);
    assert_eq!(graph.cluster_ids(0), &vec![0, 1]);
    assert_eq!(graph.owner(1), 0);
    assert_eq!(graph.owner(0), 0);
    assert_eq!(graph.owner(2), 2);
    assert!(same(&graph.summary(0), &summary(12, 9, (0, 1))));
    assert_eq!(graph.border(0, 2).unwrap().pixels, vec![(3, 0, 4), (3, 1, 8)]);
    assert_eq!(graph.border(2, 0).unwrap().pixels, vec![(4, 0, 5), (4, 1, 5)]);
    assert!(graph.border(0, 1).is_none());
    assert!(graph.border(2, 1).is_none());
    // Uniting a node with itself changes nothing.
    assert_eq!(graph.union(2, 2), 2);
    assert_eq!(graph.node_ids(), vec![0, 2]);
    let all = graph.summaries();
    assert_eq!(all.len(), 2);
    assert!(same(&all[&0], &summary(12, 9, (0, 1))));
    assert!(same(&all[&2], &summary(9, 7, (6, 0))));
}

#[test]
fn graph_union_appends_to_a_border_that_is_there() {
    let levels = Array2D::<u32>::new_with_constant(4, 4, 1);
    let labels = Array2D::new(4, 4, vec![
        0, 1, 1, 1,
        0, 2, 2, 1,
        0, 0, 0, 0,
        0, 0, 0, 0,
    ]);
    let summaries = vec![summary(10, 1, (0, 0)), summary(4, 1, (1, 0)), summary(2, 1, (1, 1))];
    let mut graph = ClusterGraph::new_with_cluster_map(&levels, &labels, &summaries);
    assert_eq!(graph.border(0, 1).unwrap().pixels, vec![(0, 0, 1)]);
    assert_eq!(graph.border(0, 2).unwrap().pixels, vec![(0, 1, 1), (1, 2, 1), (2, 2, 1)]);
    graph.union(1, 2);
    assert_eq!(graph.border(0, 1).unwrap().pixels, vec![(0, 0, 1), (0, 1, 1), (1, 2, 1), (2, 2, 1)]);
    assert_eq!(graph.border(1, 0).unwrap().pixels, vec![(1, 0, 1), (1, 1, 1), (1, 1, 1), (2, 1, 1)]);
    assert!(graph.border(0, 2).is_none());
    assert!(graph.border(1, 2).is_none());
    assert_eq!(graph.neighbors(1), vec![0]);
}

#[test]
fn proximity_pass_unites_the_nearest_first() {
    let (levels, labels, summaries) = three_stripes();
    let mut graph = ClusterGraph::new_with_cluster_map(&levels, &labels, &summaries);
    // Node 1 peaks at (3, 1), on its border with node 2: distance 0.
    assert_eq!(graph.min_distance_to_edge(1), Some((2, 0)));
    assert_eq!(graph.min_distance_to_edge(0), Some((1, 1)));
    assert_eq!(graph.min_distance_to_edge(2), Some((1, 4)));
    cluster_neighbor_map_union(&mut graph, 0);
    assert_eq!(graph.node_ids(), vec![0, 1, 2]);
    cluster_neighbor_map_union(&mut graph, 1);
    assert_eq!(graph.node_ids(), vec![0, 1]);
    assert_eq!(graph.cluster_ids(1), &vec![1, 2]);
    // Node 1 still peaks at (3, 1); its border with node 0 is at distance 1.
    assert_eq!(graph.min_distance_to_edge(1), Some((0, 1)));
    assert_eq!(graph.min_distance_to_edge(0), Some((1, 1)));
    cluster_neighbor_map_union(&mut graph, 2);
    assert_eq!(graph.node_ids(), vec![0]);
    assert_eq!(graph.cluster_ids(0), &vec![0, 1, 2]);
    assert!(same(&graph.summary(0), &summary(21, 9, (0, 1))));
    assert_eq!(graph.min_distance_to_edge(0), None);
}

#[test]
fn grouping_pass_unites_along_high_saddles() {
    let (levels, labels, summaries) = three_stripes();
    // Floors so high that no saddle reaches them.
    let mut graph = ClusterGraph::new_with_cluster_map(&levels, &labels, &summaries);
    cluster_neighbor_map_grouping(&mut graph, &Array2D::new_with_constant(7, 3, 100));
    assert_eq!(graph.node_ids(), vec![0, 1, 2]);
    // Floors of 0: every pair whose union lowers the highest saddle of its first node may be
    // grouped. For (0, 1) the saddle left is 8, not below the 2 that node 0 has; for (1, 0) it is
    // 8, not below 8; for (1, 2) it is 3, below 8; for (2, 1) it is 3, below 5. Of the last two
    // the lesser pair is united, and then the two nodes that are left.
    let mut graph = ClusterGraph::new_with_cluster_map(&levels, &labels, &summaries);
    cluster_neighbor_map_grouping(&mut graph, &Array2D::new_with_constant(7, 3, 0));
    assert_eq!(graph.node_ids(), vec![0]);
    assert_eq!(graph.cluster_ids(0), &vec![0, 1, 2]);
}

#[test]
fn final_labels_are_nodes_or_none() {
    let (levels, labels, summaries) = three_stripes();
    let mut graph = ClusterGraph::new_with_cluster_map(&levels, &labels, &summaries);
    graph.union(2, 1);
    let mut labels = labels;
    labels.set(0, 0, -1);
    let mut accepted = Array2D::new_with_constant(7, 3, true);
    accepted.set(6, 2, false);
    accepted.set(0, 0, false);
    label_clusters(&mut labels, &graph, &accepted);
    assert_eq!(labels.as_slice(), [
        -1, 0, 2, 2, 2, 2, 2,
         0, 0, 2, 2, 2, 2, 2,
         0, 0, 2, 2, 2, 2, -1,
    ]);
    let all = graph.summaries();
    for label in labels.as_slice() {
        assert!(*label == -1 || all.contains_key(label));
    }
}

#[test]
fn default_options() {
    let options = ClusteringOptions::default();
    assert!(!options.use_disjoint_set);
    assert!(options.add_unlabeled);
    assert!(options.perform_neighbor_map_grouping);
    assert_eq!(options.union_threshold, 100);
}

#[test]
fn first_assignment_follows_the_options() {
    let mut levels = Array2D::<u32>::new_with_constant(5, 5, 0);
    levels.set(2, 2, 5);
    levels.set(0, 0, 7);
    let mut options = ClusteringOptions::default();
    let (labels, summaries) = find_initial(&levels, &options);
    assert_eq!(summaries.len(), 2);
    assert_eq!(*labels.get(0, 0), 1);
    options.add_unlabeled = false;
    let (labels, summaries) = find_initial(&levels, &options);
    assert_eq!(summaries.len(), 1);
    assert_eq!(*labels.get(0, 0), -1);
    options.use_disjoint_set = true;
    let (labels, summaries) = find_initial(&levels, &options);
    assert!(labels.as_slice().iter().all(|label| *label >= 0));
    let counted: usize = summaries.iter().map(|s| s.num_pixels).sum();
    assert_eq!(counted, 25);
}

fn count_by_label(labels: &Array2D<i32>, label: i32) -> usize {
    labels.as_slice().iter().filter(|l| **l == label).count()
}

#[test]
fn summaries_count_every_cell_with_a_cluster_once() {
    let levels = levels_of(
        6,
        5,
        &[
            0.0, 0.1, 0.0, 0.0, 0.2, 0.9, //
            0.1, 0.8, 0.3, 0.0, 0.7, 0.2, //
            0.0, 0.3, 0.2, 0.4, 0.6, 0.1, //
            0.5, 0.1, 0.1, 0.9, 0.3, 0.0, //
            0.0, 0.0, 0.2, 0.1, 0.0, 0.0, //
        ],
    );
    let floors = Array2D::<u32>::new_with_constant(6, 5, 0);
    for use_disjoint_set in [false, true] {
        for add_unlabeled in [false, true] {
            for union_threshold in [0u128, 2, 100] {
                for perform_neighbor_map_grouping in [false, true] {
                    let options = ClusteringOptions {
                        use_disjoint_set,
                        add_unlabeled,
                        perform_neighbor_map_grouping,
                        union_threshold,
                    };
                    let (labels, graph) = find_cluster_graph(&levels, &floors, &options);
                    let all = graph.summaries();
                    let counted: usize = all.values().map(|s| s.num_pixels).sum();
                    assert_eq!(counted + count_by_label(&labels, -1), 30);
                    assert!(all.values().all(|s| s.num_pixels >= 1));
                    for id in 0..graph.len() as i32 {
                        assert!(all.contains_key(&graph.owner(id)));
                    }
                }
            }
        }
    }
}

#[test]
fn queue_hands_out_the_highest_first() {
    let mut queue = DensityQueue::new();
    assert!(queue.pop().is_none());
    let levels = [5u32, 1, 9, 3, 9, 0, 7, 2, 8, 6, 4];
    for (i, level) in levels.iter().enumerate() {
        queue.push(QueueItem { location: (i as i32, 0), density: *level, cluster: 3 });
    }
    assert_eq!(queue.len(), levels.len());
    let mut popped = Vec::new();
    let mut cells = Vec::new();
    while let Some(item) = queue.pop() {
        assert_eq!(item.density, levels[item.location.0 as usize]);
        assert_eq!(item.cluster, 3);
        popped.push(item.density);
        cells.push(item.location.0);
    }
    assert_eq!(popped, vec![9, 9, 8, 7, 6, 5, 4, 3, 2, 1, 0]);
    cells.sort();
    assert_eq!(cells, (0..levels.len() as i32).collect::<Vec<_>>());
    assert_eq!(queue.len(), 0);
}

#[test]
fn priority_growth_on_a_large_flat_raster_takes_every_cell() {
    let mut levels = Array2D::<u32>::new_with_constant(300, 200, 0);
    levels.set(150, 100, 1);
    levels.set(20, 30, 1);
    let (labels, summaries) = find_initial_clusters(&levels);
    assert_eq!(summaries.len(), 2);
    assert_eq!(summaries[0].max_density_location, (20, 30));
    assert_eq!(summaries[1].max_density_location, (150, 100));
    assert_eq!(summaries[0].num_pixels + summaries[1].num_pixels, 300 * 200);
    assert!(labels.as_slice().iter().all(|label| *label == 0 || *label == 1));
}

#[test]
fn basin_peak_is_the_first_of_the_highest_cells() {
    let (labels, summaries) =
        find_initial_clusters_disjoint_set(&Array2D::new(4, 1, vec![2, 5, 5, 1]));
    assert_eq!(labels.as_slice(), [0, 0, 0, 0]);
    assert!(same(&summaries[0], &summary(4, 5, (1, 0))));
}
