use std::collections::HashMap;

use density_clustering::array_2d::Array2D;
use density_clustering::cluster_graph::ClusterGraph;
use density_clustering::find_clusters::{find_cluster_graph, label_clusters, ClusteringOptions};
use density_clustering::trace_contours::{fill_contour, trace_all_outer_contours};
use density_clustering::ClusterSummary;

// The part of the work that is done in floating point around the library: densities become
// levels, thresholds become flags.

fn level_of(density: f32) -> u32 {
    if density > 0.0 {
        density.to_bits()
    } else {
        0
    }
}

fn plane_over(boundary: &Vec<(i32, i32, f32)>) -> (f64, f64, f64) {
    if boundary.is_empty() {
        return (0.0, 0.0, 0.0);
    }
    let n = boundary.len() as f64;
    let mean = |f: &dyn Fn(f64, f64, f64) -> f64| -> f64 {
        boundary.iter().map(|&(x, y, h)| f(x as f64, y as f64, h as f64)).sum::<f64>() / n
    };
    let (sx, sy, sh) = (mean(&|x, _, _| x), mean(&|_, y, _| y), mean(&|_, _, h| h));
    let (sxx, syy, sxy) = (mean(&|x, _, _| x * x), mean(&|_, y, _| y * y), mean(&|x, y, _| x * y));
    let (shx, shy) = (mean(&|x, _, h| h * x), mean(&|_, y, h| h * y));
    let (s1, s2, s3) = (sxx - sx * sx, sxy - sx * sy, sx * sh - shx);
    let (n1, n2, n3) = (sxy - sx * sy, syy - sy * sy, sy * sh - shy);
    let mut a = (n3 * s2 - n2 * s3) / (n2 * s1 - n1 * s2);
    let mut b = (n1 * s3 - n3 * s1) / (n2 * s1 - n1 * s2);
    if !a.is_finite() || !b.is_finite() {
        a = 0.0;
        b = 0.0;
    }
    let c = boundary
        .iter()
        .map(|&(x, y, h)| h as f64 - a * x as f64 - b * y as f64)
        .fold(-f64::INFINITY, f64::max);
    (a, b, c)
}

fn plane_of(graph: &ClusterGraph, node: i32) -> (f64, f64, f64) {
    let mut pixels = Vec::new();
    for neighbor in graph.neighbors(node) {
        let border = graph.border(node, neighbor).unwrap();
        pixels.extend(border.pixels.iter().map(|&(x, y, level)| (x, y, f32::from_bits(level))));
    }
    plane_over(&pixels)
}

fn clusters_of(
    density_map: &Array2D<f32>,
    options: &ClusteringOptions,
) -> (Array2D<i32>, HashMap<i32, ClusterSummary>) {
    let (width, height) = (density_map.width(), density_map.height());
    let levels =
        Array2D::new(width, height, density_map.as_slice().iter().map(|d| level_of(*d)).collect());
    let floors = Array2D::new(
        width,
        height,
        density_map.as_slice().iter().map(|d| level_of(*d * 0.8)).collect(),
    );
    let (mut labels, graph) = find_cluster_graph(&levels, &floors, options);
    let mut accepted = Array2D::new_with_constant(width, height, false);
    for y in 0..height {
        for x in 0..width {
            let id = *labels.get(x, y);
            if id == -1 {
                continue;
            }
            let node = graph.owner(id);
            let (a, b, c) = plane_of(&graph, node);
            let peak = f32::from_bits(graph.summary(node).max_density);
            let base = (a * x as f64 + b * y as f64 + c) as f32;
            let threshold = (base * 1.0).clamp(peak * 0.4, peak * 0.8);
            accepted.set(x, y, *density_map.get(x, y) > threshold);
        }
    }
    label_clusters(&mut labels, &graph, &accepted);
    (labels, graph.summaries())
}

fn raster_with_peaks(width: i32, height: i32, peaks: &[(i32, i32)]) -> Array2D<f32> {
    let mut raster = Array2D::<f32>::zeros(width, height);
    for &(x, y) in peaks {
        raster.set(x, y, 1.0);
    }
    raster
}

#[test]
fn single_peak_is_one_cluster_of_one_cell() {
    let raster = raster_with_peaks(10, 10, &[(5, 5)]);
    for add_unlabeled in [true, false] {
        let options = ClusteringOptions { add_unlabeled, ..ClusteringOptions::default() };
        let (labels, summaries) = clusters_of(&raster, &options);
        assert_eq!(summaries.len(), 1);
        let (label, summary) = summaries.iter().next().unwrap();
        assert_eq!(f32::from_bits(summary.max_density), 1.0);
        assert_eq!(summary.max_density_location, (5, 5));
        for y in 0..10 {
            for x in 0..10 {
                let expected = if (x, y) == (5, 5) { *label } else { -1 };
                assert_eq!(*labels.get(x, y), expected, "({}, {})", x, y);
            }
        }
    }
}

#[test]
fn two_peaks_far_apart_are_two_clusters_of_one_cell() {
    let raster = raster_with_peaks(20, 20, &[(3, 3), (16, 16)]);
    let (labels, summaries) = clusters_of(&raster, &ClusteringOptions::default());
    for y in 0..20 {
        for x in 0..20 {
            let label = *labels.get(x, y);
            if (x, y) == (3, 3) || (x, y) == (16, 16) {
                assert!(summaries.contains_key(&label), "({}, {})", x, y);
            } else {
                assert_eq!(label, -1, "({}, {})", x, y);
            }
        }
    }
    for summary in summaries.values() {
        assert_eq!(f32::from_bits(summary.max_density), 1.0);
        assert!([(3, 3), (16, 16)].contains(&summary.max_density_location));
    }
    // Two regions, each one cell with a contour of its own.
    let contours = trace_all_outer_contours(&labels);
    let regions: usize = contours.values().map(|list| list.len()).sum();
    assert_eq!(regions, 2);
    for list in contours.values() {
        for contour in list {
            assert_eq!(contour.len(), 4);
        }
    }
}

#[test]
fn two_peaks_stay_two_nodes_without_the_passes() {
    let raster = raster_with_peaks(20, 20, &[(3, 3), (16, 16)]);
    let options = ClusteringOptions {
        union_threshold: 0,
        perform_neighbor_map_grouping: false,
        ..ClusteringOptions::default()
    };
    let (labels, summaries) = clusters_of(&raster, &options);
    assert_eq!(summaries.len(), 2);
    assert_ne!(*labels.get(3, 3), *labels.get(16, 16));
    assert_eq!(summaries[labels.get(3, 3)].max_density_location, (3, 3));
    assert_eq!(summaries[labels.get(16, 16)].max_density_location, (16, 16));
    let counted: usize = summaries.values().map(|s| s.num_pixels).sum();
    assert_eq!(counted, 400);
}

#[test]
fn labels_are_keys_of_the_summaries() {
    let mut raster = Array2D::<f32>::zeros(12, 9);
    let bumps = [(2, 2, 0.9), (3, 2, 0.5), (8, 3, 0.7), (9, 6, 0.6), (4, 6, 0.3), (8, 4, 0.65)];
    for &(x, y, d) in &bumps {
        raster.set(x, y, d);
    }
    for use_disjoint_set in [false, true] {
        for union_threshold in [0u128, 9, 100] {
            let options = ClusteringOptions {
                use_disjoint_set,
                union_threshold,
                ..ClusteringOptions::default()
            };
            let (labels, summaries) = clusters_of(&raster, &options);
            let mut counted = 0;
            for summary in summaries.values() {
                assert!(summary.num_pixels >= 1);
                counted += summary.num_pixels;
            }
            assert!(counted <= 12 * 9);
            for label in labels.as_slice() {
                assert!(*label == -1 || summaries.contains_key(label));
            }
        }
    }
}

#[test]
fn contour_of_a_region_without_holes_fills_to_the_region() {
    let raster = raster_with_peaks(10, 10, &[(5, 5), (5, 6), (6, 6), (4, 6), (5, 7)]);
    let options =
        ClusteringOptions { use_disjoint_set: true, ..ClusteringOptions::default() };
    let (labels, _) = clusters_of(&raster, &options);
    let contours = trace_all_outer_contours(&labels);
    let mut mask = Array2D::new_with_constant(10, 10, false);
    for list in contours.values() {
        for contour in list {
            fill_contour(&mut mask, contour, true);
        }
    }
    for y in 0..10 {
        for x in 0..10 {
            assert_eq!(*mask.get(x, y), *labels.get(x, y) >= 0, "({}, {})", x, y);
        }
    }
}
