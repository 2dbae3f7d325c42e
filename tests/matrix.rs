use ternary_systems::matrix::{MatrixError, TMatrix};

fn from_values(rows: usize, cols: usize, vals: &[i32]) -> TMatrix {
    let mut m = TMatrix::new(rows, cols);
    for r in 0..rows {
        for c in 0..cols {
            m.set(r, c, vals[r * cols + c]).unwrap();
        }
    }
    m
}

fn values(m: &TMatrix) -> Vec<i32> {
    let mut v = Vec::new();
    for r in 0..m.rows() {
        for c in 0..m.cols() {
            v.push(m.get(r, c));
        }
    }
    v
}

#[test]
fn new_is_zero_filled() {
    let m = TMatrix::new(2, 3);
    assert_eq!(m.rows(), 2);
    assert_eq!(m.cols(), 3);
    assert_eq!(values(&m), vec![0; 6]);
}

#[test]
fn identity_is_fixed_point_of_product() {
    let mut m = TMatrix::new(2, 2);
    m.set(0, 0, 1).unwrap();
    m.set(1, 1, 1).unwrap();
    let p = m.multiply(&m).unwrap();
    assert_eq!(p, m);
    assert_eq!(values(&p), vec![1, 0, 0, 1]);
}

#[test]
fn set_out_of_range_is_refused() {
    let mut m = TMatrix::new(2, 2);
    assert_eq!(m.set(2, 0, 5), Err(MatrixError::IndexOutOfBounds));
    assert_eq!(m.set(0, 2, 5), Err(MatrixError::IndexOutOfBounds));
    assert_eq!(values(&m), vec![0; 4]);
}

#[test]
fn add_cell_wise() {
    let a = from_values(2, 2, &[1, 2, 3, 4]);
    let b = from_values(2, 2, &[10, -20, 30, -40]);
    let s = a.add(&b).unwrap();
    assert_eq!(values(&s), vec![11, -18, 33, -36]);
}

#[test]
fn add_commutes_and_associates() {
    let a = from_values(2, 3, &[1, 2, 3, 4, 5, 6]);
    let b = from_values(2, 3, &[-7, 8, 0, 2, -1, 9]);
    let c = from_values(2, 3, &[5, 5, -5, 0, 1, 2]);
    assert_eq!(a.add(&b), b.add(&a));
    let left = a.add(&b).unwrap().add(&c).unwrap();
    let right = a.add(&b.add(&c).unwrap()).unwrap();
    assert_eq!(left, right);
}

#[test]
fn multiply_exact_values() {
    let a = from_values(2, 3, &[1, 2, 3, 4, 5, 6]);
    let b = from_values(3, 2, &[7, 8, 9, 10, 11, 12]);
    let p = a.multiply(&b).unwrap();
    assert_eq!(p.rows(), 2);
    assert_eq!(p.cols(), 2);
    assert_eq!(values(&p), vec![58, 64, 139, 154]);
}

#[test]
fn multiply_associates() {
    let a = from_values(2, 3, &[1, -2, 3, 0, 5, 6]);
    let b = from_values(3, 2, &[7, 8, -9, 10, 11, 1]);
    let c = from_values(2, 4, &[1, 0, 2, -1, 3, 4, 0, 2]);
    let left = a.multiply(&b).unwrap().multiply(&c).unwrap();
    let right = a.multiply(&b.multiply(&c).unwrap()).unwrap();
    assert_eq!(left, right);
}

#[test]
fn mismatched_shapes_are_refused() {
    let a = TMatrix::new(2, 3);
    let b = TMatrix::new(3, 2);
    assert_eq!(a.add(&b), Err(MatrixError::DimensionMismatch));
    assert_eq!(a.multiply(&a), Err(MatrixError::DimensionMismatch));
    assert!(a.multiply(&b).is_ok());
}

#[test]
fn overflowing_cells_are_refused() {
    let a = from_values(1, 1, &[i32::MAX]);
    let one = from_values(1, 1, &[1]);
    assert_eq!(a.add(&one), Err(MatrixError::Overflow));
    let two = from_values(1, 1, &[2]);
    assert_eq!(a.multiply(&two), Err(MatrixError::Overflow));
}

#[test]
fn product_sums_exactly_before_range_check() {
    // the first partial sum leaves i32 but the cell does not
    let a = from_values(1, 2, &[i32::MAX, -1]);
    let b = from_values(2, 1, &[1, 1]);
    let p = a.multiply(&b).unwrap();
    assert_eq!(values(&p), vec![i32::MAX - 1]);
    let c = from_values(1, 2, &[i32::MAX, 1]);
    let d = from_values(2, 1, &[1, -1]);
    assert_eq!(values(&c.multiply(&d).unwrap()), vec![i32::MAX - 1]);
}

#[test]
fn empty_shapes() {
    let a = TMatrix::new(0, 3);
    let b = TMatrix::new(3, 0);
    let p = a.multiply(&b).unwrap();
    assert_eq!((p.rows(), p.cols()), (0, 0));
    let q = b.multiply(&a).unwrap();
    assert_eq!((q.rows(), q.cols()), (3, 3));
    assert_eq!(values(&q), vec![0; 9]);
}
