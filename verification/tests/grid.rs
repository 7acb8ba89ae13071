use density_clustering::array_2d::Array2D;
use density_clustering::Array2D as Reexported;

#[test]
fn array_new_keeps_rows_in_order() {
    let a = Array2D::<i32>::new(3, 2, vec![1, 2, 3, 4, 5, 6]);
    assert_eq!(a.width(), 3);
    assert_eq!(a.height(), 2);
    assert_eq!(*a.get(0, 0), 1);
    assert_eq!(*a.get(2, 0), 3);
    assert_eq!(*a.get(0, 1), 4);
    assert_eq!(*a.get(2, 1), 6);
    assert_eq!(a.as_slice(), [1, 2, 3, 4, 5, 6]);
}

#[test]
fn array_constant_fill() {
    let a = Array2D::<i32>::new_with_constant(2, 3, -1);
    assert_eq!(a.as_slice(), [-1; 6]);
}

#[test]
fn array_zeros_and_ones() {
    let z = Array2D::<f32>::zeros(4, 2);
    assert_eq!(z.as_slice(), [0.0; 8]);
    let o = Reexported::<u8>::ones(1, 3);
    assert_eq!(o.as_slice(), [1u8; 3]);
    assert_eq!(o.width(), 1);
    assert_eq!(o.height(), 3);
}

#[test]
fn array_set_changes_one_cell() {
    let mut a = Array2D::<i32>::new_with_constant(3, 3, 0);
    a.set(1, 2, 9);
    assert_eq!(a.as_slice(), [0, 0, 0, 0, 0, 0, 0, 9, 0]);
    assert_eq!(*a.get(1, 2), 9);
}

#[test]
fn array_mut_slice_writes_through() {
    let mut a = Array2D::<i32>::new_with_constant(2, 2, 0);
    a.as_mut_slice()[3] = 5;
    assert_eq!(*a.get(1, 1), 5);
    assert_eq!(a.width(), 2);
    assert_eq!(a.height(), 2);
}

#[test]
fn coords_come_in_row_major_order() {
    let a = Array2D::<i32>::new_with_constant(3, 2, 0);
    let mut it = a.iter_coords();
    let mut seen = Vec::new();
    while let Some(c) = it.next() {
        seen.push(c);
    }
    assert_eq!(seen, vec![(0, 0), (1, 0), (2, 0), (0, 1), (1, 1), (2, 1)]);
    assert_eq!(it.next(), None);
}
