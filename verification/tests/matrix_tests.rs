use matrix_service::matrix::{Matrix, MatrixError};

fn matrix_from(rows: u32, cols: u32, values: &[i32]) -> Matrix {
    let mut m = Matrix::new(rows, cols);
    m.fill(&values.to_vec(), 0).unwrap();
    m
}

#[test]
fn new_is_zero_filled() {
    let m = Matrix::new(2, 3);
    assert_eq!(m.shape(), (2, 3));
    for i in 0..2 {
        for j in 0..3 {
            assert_eq!(m.get(i, j), Ok(0));
        }
    }
}

#[test]
fn get_rejects_out_of_range() {
    let m = Matrix::new(2, 3);
    assert_eq!(m.get(2, 0), Err(MatrixError::Range));
    assert_eq!(m.get(0, 3), Err(MatrixError::Range));
}

#[test]
fn fill_is_row_major() {
    let m = matrix_from(2, 3, &[1, 2, 3, 4, 5, 6]);
    assert_eq!(m.get(0, 0), Ok(1));
    assert_eq!(m.get(0, 2), Ok(3));
    assert_eq!(m.get(1, 0), Ok(4));
    assert_eq!(m.get(1, 2), Ok(6));
}

#[test]
fn fill_from_offset_consumes_exactly_enough() {
    let mut m = Matrix::new(1, 2);
    let source = vec![9, 8, 7, 6];
    assert!(m.fill(&source, 1).is_ok());
    assert_eq!(m.to_sequence(), vec![8, 7]);
}

#[test]
fn fill_underflow_leaves_matrix_unchanged() {
    let mut m = Matrix::new(2, 3);
    let short = vec![1, 2, 3, 4, 5];
    assert_eq!(m.fill(&short, 0), Err(MatrixError::Underflow));
    assert_eq!(m.to_sequence(), vec![0, 0, 0, 0, 0, 0]);
}

#[test]
fn row_access() {
    let m = matrix_from(2, 3, &[1, 2, 3, 4, 5, 6]);
    let r = m.row(1).unwrap();
    assert_eq!(r.len(), 3);
    assert_eq!(r.get(0), Ok(4));
    assert_eq!(r.get(2), Ok(6));
    assert_eq!(r.get(3), Err(MatrixError::Range));
    assert!(m.row(2).is_err());
}

#[test]
fn to_sequence_flattens_row_major() {
    let m = matrix_from(2, 2, &[1, 2, 3, 4]);
    assert_eq!(m.to_sequence(), vec![1, 2, 3, 4]);
}

#[test]
fn multiply_exact_two_by_two() {
    let a = matrix_from(2, 2, &[1, 2, 3, 4]);
    let b = matrix_from(2, 2, &[5, 6, 7, 8]);
    let c = Matrix::multiply(&a, &b).unwrap();
    assert_eq!(c.shape(), (2, 2));
    assert_eq!(c.to_sequence(), vec![19, 22, 43, 50]);
}

#[test]
fn multiply_rectangular() {
    let a = matrix_from(1, 3, &[1, 2, 3]);
    let b = matrix_from(3, 2, &[1, 2, 3, 4, 5, 6]);
    let c = Matrix::multiply(&a, &b).unwrap();
    assert_eq!(c.shape(), (1, 2));
    assert_eq!(c.to_sequence(), vec![22, 28]);
}

#[test]
fn multiply_mismatch_fails() {
    let a = matrix_from(2, 3, &[1, 2, 3, 4, 5, 6]);
    let b = matrix_from(2, 3, &[1, 2, 3, 4, 5, 6]);
    assert_eq!(
        Matrix::multiply(&a, &b).err(),
        Some(MatrixError::DimensionMismatch)
    );
}

#[test]
fn multiply_mismatch_with_zero_edge() {
    let a = Matrix::new(0, 2);
    let b = Matrix::new(3, 4);
    assert_eq!(
        Matrix::multiply(&a, &b).err(),
        Some(MatrixError::DimensionMismatch)
    );
}

#[test]
fn multiply_zero_inner_dimension_gives_zeros() {
    let a = Matrix::new(2, 0);
    let b = Matrix::new(0, 3);
    let c = Matrix::multiply(&a, &b).unwrap();
    assert_eq!(c.shape(), (2, 3));
    assert_eq!(c.to_sequence(), vec![0, 0, 0, 0, 0, 0]);
}

#[test]
fn multiply_empty_operands() {
    let a = Matrix::new(0, 0);
    let b = Matrix::new(0, 0);
    let c = Matrix::multiply(&a, &b).unwrap();
    assert_eq!(c.shape(), (0, 0));
    assert_eq!(c.to_sequence(), Vec::<i32>::new());
}

#[test]
fn multiply_wraps_like_a_32_bit_word() {
    let a = matrix_from(1, 1, &[i32::MAX]);
    let b = matrix_from(1, 1, &[2]);
    let c = Matrix::multiply(&a, &b).unwrap();
    assert_eq!(c.to_sequence(), vec![-2]);
}
