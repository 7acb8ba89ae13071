use density_clustering::disjoint_set::DisjointSet;
use density_clustering::disjoint_set_2d::DisjointSet2D;

#[test]
fn test_disjoint_set_2d() {
    let mut ds = DisjointSet2D::new(3, 3);
    assert!(ds.find_parent((1, 1)) == (1, 1));
    ds.union((1, 1), (2, 2));
    assert!(ds.num_unique_sets() == 8);
    ds.union((1, 0), (0, 1));
    assert!(ds.num_unique_sets() == 7);
    ds.union((1, 0), (1, 1));
    assert!(ds.num_unique_sets() == 6);
    assert!(ds.find_parent((0, 1)) == ds.find_parent((2, 2)));
    assert!(ds.num_unique_sets() == 6);
}

#[test]
fn disjoint_set_starts_as_singletons() {
    let mut ds = DisjointSet::new(5);
    assert_eq!(ds.num_unique_sets(), 5);
    for i in 0..5 {
        assert_eq!(ds.find_parent(i), i);
    }
}

#[test]
fn disjoint_set_of_negative_length_is_empty() {
    let ds = DisjointSet::new(-3);
    assert_eq!(ds.num_unique_sets(), 0);
}

#[test]
fn disjoint_set_union_attaches_first_root_under_second() {
    let mut ds = DisjointSet::new(6);
    ds.union(0, 1);
    assert_eq!(ds.find_parent(0), 1);
    assert_eq!(ds.find_parent(1), 1);
    ds.union(1, 2);
    assert_eq!(ds.find_parent(0), 2);
    ds.union(3, 4);
    ds.union(4, 0);
    assert_eq!(ds.find_parent(3), 2);
    assert_eq!(ds.find_parent(5), 5);
    assert_eq!(ds.num_unique_sets(), 2);
}

#[test]
fn disjoint_set_union_of_same_class_changes_nothing() {
    let mut ds = DisjointSet::new(4);
    ds.union(0, 1);
    ds.union(1, 0);
    assert_eq!(ds.num_unique_sets(), 3);
    assert_eq!(ds.find_parent(0), ds.find_parent(1));
    ds.union(2, 2);
    assert_eq!(ds.num_unique_sets(), 3);
}

#[test]
fn disjoint_set_links_exactly_the_chained_elements() {
    let mut ds = DisjointSet::new(8);
    let ops = [(0, 3), (5, 6), (3, 6), (7, 7)];
    for (a, b) in ops {
        ds.union(a, b);
    }
    let linked = [0, 3, 5, 6];
    for i in 0..8 {
        for j in 0..8 {
            let same = ds.find_parent(i) == ds.find_parent(j);
            let chained = i == j || (linked.contains(&i) && linked.contains(&j));
            assert_eq!(same, chained, "{} {}", i, j);
        }
    }
    assert_eq!(ds.num_unique_sets(), 5);
}

#[test]
fn disjoint_set_2d_representative_is_second_argument_root() {
    let mut ds = DisjointSet2D::new(4, 2);
    ds.union((3, 0), (0, 1));
    assert_eq!(ds.find_parent((3, 0)), (0, 1));
    ds.union((0, 1), (2, 1));
    assert_eq!(ds.find_parent((3, 0)), (2, 1));
    assert_eq!(ds.num_unique_sets(), 6);
}
