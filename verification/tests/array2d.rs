use lib::array2d::Array2d;

#[test]
fn test_from_vec_row_major() {
    let a = Array2d::from_vec(vec![vec![1, 2, 3], vec![4, 5, 6]]);
    assert_eq!(*a.get(0, 0), 1);
    assert_eq!(*a.get(0, 2), 3);
    assert_eq!(*a.get(1, 0), 4);
    assert_eq!(*a.get(1, 2), 6);
}

#[test]
fn test_from_array_row_major() {
    let a = Array2d::from_array([[1, 2], [3, 4], [5, 6]]);
    assert_eq!(*a.get(0, 1), 2);
    assert_eq!(*a.get(2, 0), 5);
    assert_eq!(*a.get(2, 1), 6);
}

#[test]
fn test_get_mut_changes_one_cell() {
    let mut a = Array2d::from_vec(vec![vec!['a', 'b'], vec!['c', 'd']]);
    *a.get_mut(1, 0) = 'x';
    assert_eq!(*a.get(0, 0), 'a');
    assert_eq!(*a.get(0, 1), 'b');
    assert_eq!(*a.get(1, 0), 'x');
    assert_eq!(*a.get(1, 1), 'd');
}

#[test]
fn test_new_with_shape() {
    let a = Array2d::new((2, 3), vec![0, 1, 2, 10, 11, 12]);
    assert_eq!(*a.get(1, 1), 11);
    assert_eq!(*a.get(0, 2), 2);
}

#[test]
fn test_from_empty_vec() {
    let a: Array2d<u8> = Array2d::from_vec(Vec::new());
    let b = Array2d::from_vec(vec![Vec::<u8>::new(), Vec::new()]);
    drop(a);
    drop(b);
}

#[test]
fn test_index_by_pair() {
    let a = Array2d::from_vec(vec![vec![1, 2, 3], vec![4, 5, 6]]);
    assert_eq!(a[(0, 1)], 2);
    assert_eq!(a[(1, 2)], 6);
}
