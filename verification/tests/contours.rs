use density_clustering::array_2d::Array2D;
use density_clustering::trace_contours::{fill_contour, trace_all_outer_contours, trace_outer_contour};

fn u_shape() -> Array2D<i32> {
    Array2D::<i32>::new(
        4,
        4,
        vec![
            0, 0, 0, 0, //
            0, 1, 1, 1, //
            0, 1, 0, 1, //
            0, 0, 0, 0, //
        ],
    )
}

#[test]
fn test_trace_contours() {
    let array = u_shape();
    assert_eq!(
        trace_outer_contour((1, 1), &array),
        [
            (1, 1),
            (2, 1),
            (3, 1),
            (4, 1),
            (4, 2),
            (4, 3),
            (3, 3),
            (3, 2),
            (2, 2),
            (2, 3),
            (1, 3),
            (1, 2)
        ]
    );
}

#[test]
fn test_trace_contours_diagonal() {
    let array = Array2D::<i32>::new(
        4,
        4,
        vec![
            0, 0, 0, 0, //
            0, 1, 0, 0, //
            0, 0, 1, 0, //
            0, 0, 0, 0, //
        ],
    );
    assert_eq!(
        trace_outer_contour((1, 1), &array),
        [
            (1, 1),
            (2, 1),
            (2, 2),
            (3, 2),
            (3, 3),
            (2, 3),
            (2, 2),
            (1, 2)
        ]
    );
}

#[test]
fn test_fill_contour() {
    let mut array = u_shape();
    let contour = trace_outer_contour((1, 1), &array);
    fill_contour(&mut array, &contour, 2);
}

#[test]
fn fill_contour_covers_exactly_the_traced_region() {
    let mut array = u_shape();
    let contour = trace_outer_contour((1, 1), &array);
    fill_contour(&mut array, &contour, 2);
    assert_eq!(
        array.as_slice(),
        [
            0, 0, 0, 0, //
            0, 2, 2, 2, //
            0, 2, 0, 2, //
            0, 0, 0, 0, //
        ]
    );
}

#[test]
fn fill_contour_round_trip_on_a_fresh_mask() {
    let array = Array2D::<i32>::new(
        5,
        4,
        vec![
            7, 7, 0, 0, 0, //
            7, 7, 7, 0, 3, //
            0, 7, 0, 0, 3, //
            0, 7, 7, 7, 3, //
        ],
    );
    let contour = trace_outer_contour((0, 0), &array);
    let mut mask = Array2D::<bool>::new_with_constant(5, 4, false);
    fill_contour(&mut mask, &contour, true);
    for y in 0..4 {
        for x in 0..5 {
            assert_eq!(*mask.get(x, y), *array.get(x, y) == 7, "({}, {})", x, y);
        }
    }
}

#[test]
fn fill_contour_fills_a_hole_of_the_region() {
    let mut array = Array2D::<i32>::new(
        3,
        3,
        vec![
            1, 1, 1, //
            1, 0, 1, //
            1, 1, 1, //
        ],
    );
    let contour = trace_outer_contour((0, 0), &array);
    assert_eq!(contour.len(), 12);
    fill_contour(&mut array, &contour, 5);
    assert_eq!(array.as_slice(), [5; 9]);
}

#[test]
fn fill_contour_with_empty_contour_changes_nothing() {
    let mut array = u_shape();
    fill_contour(&mut array, &Vec::new(), 9);
    assert_eq!(array.as_slice(), u_shape().as_slice());
}

#[test]
fn fill_contour_pairs_crossings_from_the_left() {
    let mut array = Array2D::<i32>::new(5, 2, vec![0; 10]);
    // Two unit squares side by side with a gap between them, joined along the bottom.
    let path = vec![
        (0, 0),
        (1, 0),
        (1, 1),
        (3, 1),
        (3, 0),
        (4, 0),
        (4, 1),
        (4, 2),
        (0, 2),
        (0, 1),
    ];
    fill_contour(&mut array, &path, 4);
    assert_eq!(array.as_slice(), [4, 0, 0, 4, 0, 4, 4, 4, 4, 0]);
}

#[test]
fn trace_single_cell_region() {
    let array = Array2D::<i32>::new(1, 1, vec![4]);
    assert_eq!(trace_outer_contour((0, 0), &array), [(0, 0), (1, 0), (1, 1), (0, 1)]);
}

#[test]
fn trace_from_inside_a_block_gives_up_after_all_walker_states() {
    let array = Array2D::<i32>::new(3, 3, vec![1; 9]);
    let contour = trace_outer_contour((1, 1), &array);
    assert_eq!(contour.len(), 4 * 4 * 4);
    assert_eq!(contour[0], (1, 1));
    assert_eq!(contour[1], (1, 0));
    assert_eq!(contour[2], (2, 0));
}

#[test]
fn trace_all_groups_contours_by_label() {
    let array = Array2D::<i32>::new(
        5,
        3,
        vec![
            2, -1, 2, -1, 0, //
            2, -1, 2, -1, 0, //
            -1, -1, -1, -1, 0, //
        ],
    );
    let all = trace_all_outer_contours(&array);
    assert_eq!(all.len(), 2);
    assert_eq!(
        all[&2],
        vec![
            vec![(0, 0), (1, 0), (1, 1), (1, 2), (0, 2), (0, 1)],
            vec![(2, 0), (3, 0), (3, 1), (3, 2), (2, 2), (2, 1)],
        ]
    );
    assert_eq!(all[&0], vec![vec![(4, 0), (5, 0), (5, 1), (5, 2), (5, 3), (4, 3), (4, 2), (4, 1)]]);
}

#[test]
fn trace_all_of_unlabelled_grid_is_empty() {
    let array = Array2D::<i32>::new_with_constant(4, 3, -1);
    assert!(trace_all_outer_contours(&array).is_empty());
}

#[test]
fn trace_all_visits_a_region_once() {
    let array = u_shape();
    let all = trace_all_outer_contours(&array);
    assert_eq!(all[&1].len(), 1);
    assert_eq!(all[&1][0], trace_outer_contour((1, 1), &array));
    // The cell enclosed by the U lies within the contour of the 1s and starts no contour of its
    // own; the 0s around start one at the first cell.
    assert_eq!(all[&0].len(), 1);
    assert_eq!(all[&0][0][0], (0, 0));
}

#[test]
fn contour_from_the_first_cell_of_a_region_fills_over_the_region() {
    let array = Array2D::<i32>::new(
        6,
        5,
        vec![
            0, 0, 3, 3, 0, 0, //
            0, 3, 3, 0, 3, 0, //
            3, 3, 0, 0, 3, 3, //
            0, 3, 3, 3, 3, 0, //
            0, 0, 3, 0, 0, 0, //
        ],
    );
    let contour = trace_outer_contour((2, 0), &array);
    assert!(contour.iter().all(|corner| corner.1 >= 0));
    let mut mask = Array2D::<bool>::new_with_constant(6, 5, false);
    fill_contour(&mut mask, &contour, true);
    for y in 0..5 {
        for x in 0..6 {
            if *array.get(x, y) == 3 {
                assert!(*mask.get(x, y), "({}, {})", x, y);
            }
        }
    }
    // The cells that the region surrounds are covered with it; those outside are not.
    assert!(*mask.get(2, 2) && *mask.get(3, 2) && *mask.get(3, 1));
    assert!(!*mask.get(0, 0) && !*mask.get(5, 4) && !*mask.get(0, 4) && !*mask.get(4, 0));
}

#[test]
fn contour_from_a_cell_below_a_hole_runs_round_the_hole() {
    let array = Array2D::<i32>::new(
        3,
        3,
        vec![
            1, 1, 1, //
            1, 0, 1, //
            1, 1, 1, //
        ],
    );
    let contour = trace_outer_contour((1, 2), &array);
    assert_eq!(contour, [(1, 2), (2, 2), (2, 1), (1, 1)]);
    let mut mask = Array2D::<bool>::new_with_constant(3, 3, false);
    fill_contour(&mut mask, &contour, true);
    assert_eq!(
        mask.as_slice(),
        [false, false, false, false, true, false, false, false, false]
    );
}

#[test]
fn trace_all_where_two_labels_meet_corner_to_corner() {
    // The 2s run round the 1s and pass corner to corner between them and the 1 at (2, 3); so do
    // the 1s. The contour of the 2s leaves that cell outside; the walk from it follows the 1s
    // round the 2 in the middle.
    let array = Array2D::<i32>::new(
        5,
        4,
        vec![
            2, 2, 2, 2, 2, //
            2, 1, 1, 1, 2, //
            2, 1, 2, 1, 2, //
            2, 2, 1, 2, 2, //
        ],
    );
    let all = trace_all_outer_contours(&array);
    assert_eq!(all.len(), 2);
    assert_eq!(all[&2].len(), 1);
    assert_eq!(
        all[&2][0],
        vec![
            (0, 0),
            (1, 0),
            (2, 0),
            (3, 0),
            (4, 0),
            (5, 0),
            (5, 1),
            (5, 2),
            (5, 3),
            (5, 4),
            (4, 4),
            (3, 4),
            (3, 3),
            (2, 3),
            (2, 4),
            (1, 4),
            (0, 4),
            (0, 3),
            (0, 2),
            (0, 1)
        ]
    );
    assert_eq!(all[&1], vec![vec![(2, 3), (3, 3), (3, 2), (2, 2)]]);
}
