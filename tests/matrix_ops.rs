use conway::matrix::{
    col_count, combine_rows, create_matrix_from_random, mul_matrix_sequential,
    mul_matrix_threads, sub_matrix_sequential, sub_matrix_threads, sum_matrix_sequential,
    sum_matrix_threads, MatrixError, MatrixOp,
};

fn a() -> Vec<Vec<i32>> {
    vec![vec![1, 2], vec![3, 4]]
}

fn b() -> Vec<Vec<i32>> {
    vec![vec![5, 6], vec![7, 8]]
}

#[test]
fn literal_sum() {
    assert_eq!(sum_matrix_sequential(&a(), &b()), Ok(vec![vec![6, 8], vec![10, 12]]));
    assert_eq!(sum_matrix_threads(&a(), &b(), 2), Ok(vec![vec![6, 8], vec![10, 12]]));
}

#[test]
fn literal_difference() {
    assert_eq!(sub_matrix_sequential(&a(), &b()), Ok(vec![vec![-4, -4], vec![-4, -4]]));
    assert_eq!(sub_matrix_threads(&a(), &b(), 2), Ok(vec![vec![-4, -4], vec![-4, -4]]));
}

#[test]
fn literal_product() {
    assert_eq!(mul_matrix_sequential(&a(), &b()), Ok(vec![vec![19, 22], vec![43, 50]]));
    assert_eq!(mul_matrix_threads(&a(), &b(), 2), Ok(vec![vec![19, 22], vec![43, 50]]));
}

#[test]
fn sum_shape_mismatch() {
    let c = vec![vec![1, 2], vec![3, 4], vec![5, 6]];
    assert_eq!(sum_matrix_sequential(&a(), &c), Err(MatrixError::DimensionMismatch));
    assert_eq!(sum_matrix_threads(&a(), &c, 2), Err(MatrixError::DimensionMismatch));
}

#[test]
fn difference_shape_mismatch() {
    let c = vec![vec![1, 2, 3], vec![4, 5, 6]];
    assert_eq!(sub_matrix_sequential(&a(), &c), Err(MatrixError::DimensionMismatch));
    assert_eq!(sub_matrix_threads(&a(), &c, 3), Err(MatrixError::DimensionMismatch));
}

#[test]
fn product_shape_mismatch() {
    let c = vec![vec![1, 2], vec![3, 4], vec![5, 6]];
    assert_eq!(mul_matrix_sequential(&a(), &c), Err(MatrixError::DimensionMismatch));
    assert_eq!(mul_matrix_threads(&a(), &c, 2), Err(MatrixError::DimensionMismatch));
}

#[test]
fn product_of_non_square() {
    let p = vec![vec![1, 0, 2], vec![-1, 3, 1]];
    let q = vec![vec![3, 1], vec![2, 1], vec![1, 0]];
    assert_eq!(mul_matrix_sequential(&p, &q), Ok(vec![vec![5, 1], vec![4, 2]]));
    assert_eq!(mul_matrix_sequential(&q, &p), Ok(vec![vec![2, 3, 7], vec![1, 3, 5], vec![1, 0, 2]]));
}

#[test]
fn banded_equals_single_pass_for_many_worker_counts() {
    let m1: Vec<Vec<i32>> = (0..7).map(|i| (0..5).map(|j| (i * 5 + j) % 11 - 5).collect()).collect();
    let m2: Vec<Vec<i32>> = (0..7).map(|i| (0..5).map(|j| (i * 3 + j * 7) % 13 - 6).collect()).collect();
    let m3: Vec<Vec<i32>> = (0..5).map(|i| (0..4).map(|j| (i + 2 * j) % 5 - 2).collect()).collect();
    let sum = sum_matrix_sequential(&m1, &m2).unwrap();
    let diff = sub_matrix_sequential(&m1, &m2).unwrap();
    let prod = mul_matrix_sequential(&m1, &m3).unwrap();
    for k in [1, 2, 3, 4, 7, 8, 20] {
        assert_eq!(sum_matrix_threads(&m1, &m2, k).unwrap(), sum);
        assert_eq!(sub_matrix_threads(&m1, &m2, k).unwrap(), diff);
        assert_eq!(mul_matrix_threads(&m1, &m3, k).unwrap(), prod);
    }
    assert_eq!(prod.len(), 7);
    assert!(prod.iter().all(|r| r.len() == 4));
}

#[test]
fn empty_matrices() {
    let e: Vec<Vec<i32>> = Vec::new();
    assert_eq!(sum_matrix_sequential(&e, &e), Ok(Vec::new()));
    assert_eq!(mul_matrix_threads(&e, &e, 3), Ok(Vec::new()));
}

#[test]
fn column_count_and_band_rows() {
    assert_eq!(col_count(&a()), 2);
    assert_eq!(col_count(&Vec::new()), 0);
    assert_eq!(combine_rows(&a(), &b(), MatrixOp::Mul, 1, 2), vec![vec![43, 50]]);
    assert_eq!(combine_rows(&a(), &b(), MatrixOp::Sub, 0, 1), vec![vec![-4, -4]]);
    assert!(combine_rows(&a(), &b(), MatrixOp::Add, 1, 1).is_empty());
}

#[test]
fn random_matrix_shape_and_range() {
    let m = create_matrix_from_random(6, 4, 10);
    assert_eq!(m.len(), 6);
    assert!(m.iter().all(|r| r.len() == 4 && r.iter().all(|v| (0..10).contains(v))));
    let many = create_matrix_from_random(40, 40, 10);
    assert!(many.iter().flatten().any(|v| *v != 0));
    assert!(create_matrix_from_random(0, 5, 3).is_empty());
    assert_eq!(create_matrix_from_random(2, -1, 3), vec![Vec::<i32>::new(), Vec::new()]);
}

#[test]
fn product_with_no_left_rows_is_empty() {
    let e: Vec<Vec<i32>> = Vec::new();
    let one = vec![vec![1]];
    assert_eq!(mul_matrix_sequential(&e, &one), Ok(Vec::new()));
    for k in [1, 3] {
        assert_eq!(mul_matrix_threads(&e, &one, k), Ok(Vec::new()));
    }
    assert_eq!(sum_matrix_sequential(&e, &one), Err(MatrixError::DimensionMismatch));
}

#[test]
fn product_row_by_column() {
    let row = vec![vec![1, 2, 3]];
    let col = vec![vec![1], vec![2], vec![3]];
    assert_eq!(mul_matrix_sequential(&row, &col), Ok(vec![vec![14]]));
    assert_eq!(mul_matrix_threads(&row, &col, 4), Ok(vec![vec![14]]));
}
