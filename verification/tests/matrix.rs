use spline_relu::matrix::Matrix;

#[test]
fn zeros_has_shape_and_fill() {
    let m = Matrix::zeros(3, 4, 0.0f64);
    assert_eq!(m.rows, 3);
    assert_eq!(m.cols, 4);
    assert_eq!(m.data.len(), 12);
    assert!(m.data.iter().all(|&x| x == 0.0));
    let e = Matrix::zeros(0, 5, 1u8);
    assert_eq!(e.data.len(), 0);
}

#[test]
fn identity_entries() {
    let m = Matrix::identity(4, 0.0f64, 1.0);
    for r in 0..4 {
        for c in 0..4 {
            assert_eq!(m.get(r, c), if r == c { 1.0 } else { 0.0 });
        }
    }
    let one = Matrix::identity(1, 0i32, 1);
    assert_eq!(one.data, vec![1]);
}

#[test]
fn idx_is_row_major() {
    let m = Matrix::zeros(3, 5, 0u32);
    assert_eq!(m.idx(0, 0), 0);
    assert_eq!(m.idx(2, 3), 13);
    assert_eq!(m.idx(1, 4), 9);
}

#[test]
fn get_after_set() {
    let mut m = Matrix::zeros(2, 3, 0i64);
    m.set(1, 2, 7);
    m.set(0, 1, -3);
    assert_eq!(m.get(1, 2), 7);
    assert_eq!(m.get(0, 1), -3);
    assert_eq!(m.get(1, 1), 0);
    assert_eq!(m.data, vec![0, -3, 0, 0, 0, 7]);
    m.set(1, 2, 8);
    assert_eq!(m.get(1, 2), 8);
}

#[test]
fn select_columns_reorders() {
    let mut m = Matrix::zeros(2, 3, 0u32);
    for r in 0..2 {
        for c in 0..3 {
            m.set(r, c, (10 * r + c) as u32);
        }
    }
    let s = m.select_columns(&vec![2, 0, 2]);
    assert_eq!(s.rows, 2);
    assert_eq!(s.cols, 3);
    assert_eq!(s.data, vec![2, 0, 2, 12, 10, 12]);
    let empty = m.select_columns(&vec![]);
    assert_eq!(empty.cols, 0);
    assert_eq!(empty.data.len(), 0);
}

#[test]
fn clone_copies_entries() {
    let mut m = Matrix::identity(3, 0.0f64, 1.0);
    let c = m.clone();
    m.set(0, 0, 5.0);
    assert_eq!(c.get(0, 0), 1.0);
    assert_eq!(c.rows, 3);
    assert_eq!(c.cols, 3);
}
