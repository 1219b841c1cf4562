use seq_align::matrix::AlignmentMatrix;

#[test]
fn zeroed_matrix_has_dimensions_and_zeros() {
    let matrix = AlignmentMatrix::zeroed(3, 2);
    assert_eq!(matrix.height(), 3);
    assert_eq!(matrix.width(), 2);
    for i in 0..3 {
        for j in 0..2 {
            assert_eq!(matrix.get(i, j), Some(0));
        }
    }
    assert_eq!(matrix.max(), Some(0));
    assert_eq!(matrix.min(), Some(0));
}

#[test]
fn out_of_bounds_access_is_refused() {
    let mut matrix = AlignmentMatrix::zeroed(2, 3);
    assert_eq!(matrix.get(2, 0), None);
    assert_eq!(matrix.get(0, 3), None);
    assert_eq!(matrix.get_ref(5, 5), None);
    assert!(matrix.get_mut(2, 1).is_none());
    assert!(!matrix.set(0, 3, 7));
    assert!(!matrix.set(usize::MAX, 0, 7));
    assert_eq!(matrix, AlignmentMatrix::zeroed(2, 3));
}

#[test]
fn set_and_get_mut_write_one_cell() {
    let mut matrix = AlignmentMatrix::zeroed(2, 3);
    assert!(matrix.set(1, 2, -5));
    if let Some(cell) = matrix.get_mut(0, 1) {
        *cell = 9;
    }
    assert_eq!(matrix.get(1, 2), Some(-5));
    assert_eq!(matrix.get_ref(0, 1), Some(&9));
    assert_eq!(matrix.at(0, 1), 9);
    assert_eq!(matrix.get(0, 0), Some(0));
    assert_eq!(matrix.get(1, 1), Some(0));
}

#[test]
fn extremes_and_their_positions() {
    let mut matrix = AlignmentMatrix::zeroed(2, 3);
    assert!(matrix.set(0, 1, 4));
    assert!(matrix.set(1, 2, 4));
    assert!(matrix.set(0, 2, -3));
    assert!(matrix.set(1, 0, -3));
    assert_eq!(matrix.max(), Some(4));
    assert_eq!(matrix.min(), Some(-3));
    assert_eq!(matrix.argmax(), Some((0, 1)));
    assert_eq!(matrix.argmin(), Some((0, 2)));
    assert_eq!(matrix.argmax_many(), vec![(0, 1), (1, 2)]);
}

#[test]
fn empty_matrix_has_no_extremes() {
    let matrix = AlignmentMatrix::zeroed(0, 4);
    assert_eq!(matrix.height(), 0);
    assert_eq!(matrix.max(), None);
    assert_eq!(matrix.min(), None);
    assert_eq!(matrix.argmax(), None);
    assert_eq!(matrix.argmin(), None);
    assert!(matrix.argmax_many().is_empty());
    let no_columns = AlignmentMatrix::zeroed(3, 0);
    assert_eq!(no_columns.width(), 0);
    assert_eq!(no_columns.get(0, 0), None);
    assert_eq!(no_columns.max(), None);
}

#[test]
fn put_writes_a_known_cell() {
    let mut matrix = AlignmentMatrix::zeroed(2, 2);
    matrix.put(1, 0, 11);
    assert_eq!(matrix.get(1, 0), Some(11));
    assert_eq!(matrix.argmax_many(), vec![(1, 0)]);
}

#[test]
fn argmax_picks_first_of_equal_maxima() {
    let matrix = AlignmentMatrix::zeroed(1, 2);
    assert_eq!(matrix.argmax(), Some((0, 0)));
    assert_eq!(matrix.argmin(), Some((0, 0)));
    assert_eq!(matrix.argmax_many(), vec![(0, 0), (0, 1)]);
}
