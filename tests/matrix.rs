use autograd::matrix::Matrix;

#[test]
fn new_matrix_is_empty() {
    let m: Matrix<i32> = Matrix::new(2, 3);
    assert_eq!(m.rows(), 2);
    assert_eq!(m.cols(), 3);
    assert!(m.elements().is_empty());
}

#[test]
fn filled_matrix() {
    let m = Matrix::filled(2, 2, 0i32);
    assert_eq!(m.elements(), &vec![0, 0, 0, 0]);
}

#[test]
fn diag_matrix() {
    let m = Matrix::diag(2, 3, 0i32, 1);
    assert_eq!(m.elements(), &vec![1, 0, 0, 0, 1, 0]);
    assert_eq!(m.get(1, 1), 1);
    assert_eq!(m.get(1, 2), 0);
    let e = Matrix::diag(0, 4, 0u8, 1);
    assert!(e.elements().is_empty());
}

#[test]
fn matrix_from_elements() {
    let m = Matrix::from_elements(2, 2, vec![1, 2, 3, 4]).unwrap();
    assert_eq!(m.get(1, 0), 3);
    assert_eq!(Matrix::from_elements(2, 2, vec![1, 2, 3]).err(), Some(vec![1, 2, 3]));
}
