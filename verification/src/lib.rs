//! Segmentation of two-dimensional rasters of density levels into labelled
//! clusters, the outer contours of the labelled regions, and rectangles
//! fitted to a region.
//!
//! A raster is first cut into clusters, either grown downhill from its
//! local maxima or gathered uphill into basins. The clusters become the
//! nodes of a graph with a border wherever two of them touch, and two
//! passes unite nodes: one by the nearness of a border to a peak, one by
//! the height of the saddle between two peaks. What is left gives every
//! cell its final label, and the regions of a label can be traced along
//! their outer contours.
//!
//! A level is a whole number that stands for a density in the order of
//! the densities; likewise the coordinates of the fitted rectangles. What
//! takes arithmetic on the densities themselves is left to the caller and
//! comes in as plain values.

pub mod array_2d;
pub mod cluster_graph;
pub mod cluster_summary;
pub mod contour_filling;
pub mod contour_laws;
pub mod density_queue;
pub mod disjoint_set;
pub mod disjoint_set_2d;
pub mod edge_summary;
pub mod find_clusters;
pub mod find_local_maxima;
pub mod graph_reducers;
pub mod initial_clusters;
pub mod leftover_clusters;
pub mod partition;
pub mod priority_clusters;
pub mod rect_fitting;
pub mod regions;
pub mod trace_contours;

pub use array_2d::Array2D;
pub use cluster_graph::ClusterGraph;
pub use cluster_summary::ClusterSummary;
pub use find_clusters::{find_cluster_graph, label_clusters, ClusteringOptions};
pub use find_local_maxima::find_local_maxima;
pub use trace_contours::{trace_all_outer_contours, trace_outer_contour};
