use density_clustering::rect_fitting::{
    polygon_bounding_rect, rects_from_coverage, rects_from_multi_polygon2, union_two_rects,
    unite_rects, Coverage, Rect,
};

fn rect(x0: i64, y0: i64, x1: i64, y1: i64) -> Rect {
    Rect { x0, y0, x1, y1 }
}

fn corners(rects: &[Rect]) -> Vec<(i64, i64, i64, i64)> {
    rects.iter().map(|r| (r.x0, r.y0, r.x1, r.y1)).collect()
}

fn mixed(mid: i64, low: Coverage, high: Coverage) -> Coverage {
    Coverage::Mixed { mid, low: Box::new(low), high: Box::new(high) }
}

#[test]
fn unit_square_is_one_rectangle() {
    let square = vec![vec![(0, 0), (1, 0), (1, 1), (0, 1)]];
    let bounds = polygon_bounding_rect(&square).unwrap();
    assert_eq!(corners(&[bounds]), vec![(0, 0, 1, 1)]);
    // The square takes up all of its bounding box.
    let rects = rects_from_multi_polygon2(&Coverage::Covered, bounds);
    assert_eq!(corners(&rects), vec![(0, 0, 1, 1)]);
}

#[test]
fn bounding_rect_spans_all_polygons() {
    assert!(polygon_bounding_rect(&Vec::new()).is_none());
    assert!(polygon_bounding_rect(&vec![Vec::new(), Vec::new()]).is_none());
    let polygons = vec![vec![(3, -2), (5, 7)], Vec::new(), vec![(-4, 1)], vec![(0, 9), (4, 4)]];
    let bounds = polygon_bounding_rect(&polygons).unwrap();
    assert_eq!(corners(&[bounds]), vec![(-4, -2, 5, 9)]);
    let point = polygon_bounding_rect(&vec![vec![(6, 6)]]).unwrap();
    assert_eq!(corners(&[point]), vec![(6, 6, 6, 6)]);
}

#[test]
fn empty_box_gives_no_rectangle() {
    let mut output = vec![rect(9, 9, 10, 10)];
    assert!(!rects_from_coverage(&Coverage::Empty, rect(0, 0, 8, 8), 0, &mut output));
    assert_eq!(corners(&output), vec![(9, 9, 10, 10)]);
}

#[test]
fn halves_alternate_between_the_axes() {
    // Left half empty; of the right half the upper part covered, the lower empty.
    let tree = mixed(4, Coverage::Empty, mixed(2, Coverage::Covered, Coverage::Empty));
    let mut output = Vec::new();
    assert!(!rects_from_coverage(&tree, rect(0, 0, 8, 8), 0, &mut output));
    assert_eq!(corners(&output), vec![(4, 0, 8, 2)]);
    // On an odd level the first cut is between the upper and the lower half, the second
    // between left and right.
    let mut output = Vec::new();
    assert!(!rects_from_coverage(&tree, rect(0, 0, 8, 8), 1, &mut output));
    assert_eq!(corners(&output), vec![(0, 4, 2, 8)]);
}

#[test]
fn two_covered_halves_are_emitted_as_one() {
    let tree = mixed(
        4,
        mixed(3, Coverage::Covered, Coverage::Covered),
        mixed(5, Coverage::Covered, Coverage::Empty),
    );
    let mut output = Vec::new();
    assert!(!rects_from_coverage(&tree, rect(0, 0, 8, 8), 0, &mut output));
    assert_eq!(corners(&output), vec![(0, 0, 4, 8), (4, 0, 8, 5)]);
    let tree = mixed(4, Coverage::Covered, mixed(5, Coverage::Covered, Coverage::Covered));
    let mut output = vec![rect(-1, -1, 0, 0)];
    assert!(rects_from_coverage(&tree, rect(0, 0, 8, 8), 0, &mut output));
    assert_eq!(corners(&output), vec![(-1, -1, 0, 0), (0, 0, 8, 8)]);
}

#[test]
fn below_the_deepest_level_a_mixed_box_counts_as_covered() {
    let tree = mixed(4, Coverage::Empty, Coverage::Empty);
    let mut output = Vec::new();
    assert!(!rects_from_coverage(&tree, rect(0, 0, 8, 8), 11, &mut output));
    assert!(output.is_empty());
    assert!(rects_from_coverage(&tree, rect(0, 0, 8, 8), 12, &mut output));
    assert!(output.is_empty());
    // A covered half beside a half below the deepest level: the whole counts as covered.
    let tree = mixed(4, Coverage::Covered, mixed(2, Coverage::Empty, Coverage::Empty));
    assert!(rects_from_coverage(&tree, rect(0, 0, 8, 8), 11, &mut output));
    assert_eq!(corners(&output), vec![(0, 0, 8, 8)]);
}

#[test]
fn rectangles_with_a_common_side_unite() {
    let a = rect(0, 0, 2, 3);
    assert_eq!(corners(&[union_two_rects(&a, &rect(0, 3, 2, 5)).unwrap()]), vec![(0, 0, 2, 5)]);
    assert_eq!(corners(&[union_two_rects(&a, &rect(0, -4, 2, 0)).unwrap()]), vec![(0, -4, 2, 3)]);
    assert_eq!(corners(&[union_two_rects(&a, &rect(2, 0, 7, 3)).unwrap()]), vec![(0, 0, 7, 3)]);
    assert_eq!(corners(&[union_two_rects(&a, &rect(-1, 0, 0, 3)).unwrap()]), vec![(-1, 0, 2, 3)]);
    assert!(union_two_rects(&a, &rect(2, 0, 7, 4)).is_none());
    assert!(union_two_rects(&a, &rect(0, 4, 2, 5)).is_none());
    assert!(union_two_rects(&a, &rect(3, 3, 5, 5)).is_none());
}

#[test]
fn uniting_goes_on_until_nothing_unites() {
    // Four quarters of a square: the first two make the left half, then the other two the
    // right half, then the halves the square.
    let quarters = vec![rect(0, 0, 1, 1), rect(0, 1, 1, 2), rect(1, 0, 2, 1), rect(1, 1, 2, 2)];
    assert_eq!(corners(&unite_rects(quarters)), vec![(0, 0, 2, 2)]);
    let apart = vec![rect(0, 0, 1, 1), rect(2, 2, 3, 3), rect(0, 1, 1, 2)];
    assert_eq!(corners(&unite_rects(apart)), vec![(2, 2, 3, 3), (0, 0, 1, 2)]);
    assert!(unite_rects(Vec::new()).is_empty());
}

#[test]
fn fitted_rectangles_share_no_point_and_stay_in_the_box() {
    let tree = mixed(
        5,
        mixed(4, mixed(2, Coverage::Covered, Coverage::Empty), Coverage::Covered),
        mixed(6, Coverage::Covered, mixed(8, Coverage::Empty, Coverage::Covered)),
    );
    let bounds = rect(0, 0, 10, 10);
    let rects = rects_from_multi_polygon2(&tree, bounds);
    assert!(!rects.is_empty());
    for (i, a) in rects.iter().enumerate() {
        assert!(bounds.x0 <= a.x0 && a.x0 <= a.x1 && a.x1 <= bounds.x1);
        assert!(bounds.y0 <= a.y0 && a.y0 <= a.y1 && a.y1 <= bounds.y1);
        for b in rects.iter().skip(i + 1) {
            assert!(a.x1 <= b.x0 || b.x1 <= a.x0 || a.y1 <= b.y0 || b.y1 <= a.y0);
            assert!(union_two_rects(a, b).is_none());
        }
    }
    let area: i64 = rects.iter().map(|r| (r.x1 - r.x0) * (r.y1 - r.y0)).sum();
    assert_eq!(area, 2 * 4 + 5 * 6 + 5 * 6 + 2 * 4);
}
