use math_toolkit::matrix::{pairwise_total, parse_matrices, Matrix, MatrixOp};
use math_toolkit::text::ParseError;

#[test]
fn test_matrix_operations() {
    let matrix1 = Matrix { data: vec![vec![1, 2], vec![3, 4]] };
    let matrix2 = Matrix { data: vec![vec![5, 6], vec![7, 8]] };
    let scalar = 2;

    let addition_result = matrix1.add(&matrix2);
    let expected_addition = Matrix { data: vec![vec![6, 8], vec![10, 12]] };
    assert_eq!(addition_result, Ok(expected_addition));

    let subtraction_result = matrix1.subtract(&matrix2);
    let expected_subtraction = Matrix { data: vec![vec![-4, -4], vec![-4, -4]] };
    assert_eq!(subtraction_result, Ok(expected_subtraction));

    let multiplication_result = matrix1.multiply(&matrix2);
    let expected_multiplication = Matrix { data: vec![vec![19, 22], vec![43, 50]] };
    assert_eq!(multiplication_result, Ok(expected_multiplication));

    let scalar_result = matrix1.scalar_multiply(scalar);
    let expected_scalar_result = Matrix { data: vec![vec![2, 4], vec![6, 8]] };
    assert_eq!(scalar_result, expected_scalar_result);
}

#[test]
fn new_is_zero_filled() {
    assert_eq!(Matrix::new(2, 3).data, vec![vec![0, 0, 0], vec![0, 0, 0]]);
    assert!(Matrix::new(0, 4).data.is_empty());
}

#[test]
fn add_subtract_round_trip() {
    let a = Matrix { data: vec![vec![i32::MAX, -3], vec![7, i32::MIN]] };
    let b = Matrix { data: vec![vec![i32::MIN, 5], vec![-2, i32::MAX]] };
    let d = b.subtract(&a).unwrap();
    assert_eq!(a.add(&d).unwrap(), b);
}

#[test]
fn add_rejects_shape_mismatch() {
    let a = Matrix { data: vec![vec![1, 2]] };
    let b = Matrix { data: vec![vec![1, 2], vec![3, 4]] };
    let c = Matrix { data: vec![vec![1, 2, 3]] };
    assert!(a.add(&b).is_err());
    assert!(a.add(&c).is_err());
    assert!(a.subtract(&b).is_err());
    assert!(a.subtract(&c).is_err());
}

#[test]
fn multiply_non_square() {
    let a = Matrix { data: vec![vec![1, 2, 3], vec![4, 5, 6]] };
    let b = Matrix { data: vec![vec![7, 8], vec![9, 10], vec![11, 12]] };
    let p = a.multiply(&b).unwrap();
    assert_eq!(p.data, vec![vec![58, 64], vec![139, 154]]);
    let q = b.multiply(&a).unwrap();
    assert_eq!(q.data.len(), 3);
    assert!(q.data.iter().all(|r| r.len() == 3));
    assert_eq!(q.data[0], vec![39, 54, 69]);
}

#[test]
fn multiply_rejects_incompatible_shapes() {
    let a = Matrix { data: vec![vec![1, 2, 3]] };
    let b = Matrix { data: vec![vec![1, 2], vec![3, 4]] };
    assert!(a.multiply(&b).is_err());
}

#[test]
fn multiply_wraps_on_overflow() {
    let a = Matrix { data: vec![vec![i32::MAX, 1]] };
    let b = Matrix { data: vec![vec![2], vec![3]] };
    assert_eq!(a.multiply(&b).unwrap().data, vec![vec![i32::MAX.wrapping_mul(2).wrapping_add(3)]]);
}

#[test]
fn scalar_multiply_every_entry() {
    let a = Matrix { data: vec![vec![1, -2, 3]] };
    assert_eq!(a.scalar_multiply(-3).data, vec![vec![-3, 6, -9]]);
    let e = Matrix { data: vec![] };
    assert!(e.scalar_multiply(5).data.is_empty());
}

#[test]
fn is_rectangular_checks_every_row() {
    assert!(Matrix { data: vec![vec![1, 2], vec![3, 4]] }.is_rectangular());
    assert!(!Matrix { data: vec![vec![1, 2], vec![3]] }.is_rectangular());
}

#[test]
fn parse_matrices_splits_on_blank_lines() {
    let ms = parse_matrices("1,2\n3,4\n\n5,6\n7,8").unwrap();
    assert_eq!(ms.len(), 2);
    assert_eq!(ms[0].data, vec![vec![1, 2], vec![3, 4]]);
    assert_eq!(ms[1].data, vec![vec![5, 6], vec![7, 8]]);
}

#[test]
fn parse_matrices_keeps_empty_matrices() {
    let ms = parse_matrices("\n1\n").unwrap();
    assert_eq!(ms.len(), 2);
    assert!(ms[0].data.is_empty());
    assert_eq!(ms[1].data, vec![vec![1]]);
    let ms = parse_matrices("").unwrap();
    assert_eq!(ms.len(), 1);
    assert!(ms[0].data.is_empty());
    let ms = parse_matrices("1\n\n").unwrap();
    assert_eq!(ms.len(), 2);
    assert!(ms[1].data.is_empty());
}

#[test]
fn parse_matrices_unicode_blank_line_separates() {
    let ms = parse_matrices("1\n\u{a0}\n2\u{85}").unwrap();
    assert_eq!(ms.len(), 2);
    assert_eq!(ms[0].data, vec![vec![1]]);
    assert_eq!(ms[1].data, vec![vec![2]]);
}

#[test]
fn parse_matrices_rejects_bad_token() {
    assert_eq!(parse_matrices("1,2\nz,4"), Err(ParseError::InvalidInteger));
}

#[test]
fn pairwise_total_adds_pair_results() {
    let ms = vec![
        Matrix { data: vec![vec![1, 2], vec![3, 4]] },
        Matrix { data: vec![vec![5, 6], vec![7, 8]] },
        Matrix { data: vec![vec![1, 0], vec![0, 1]] },
    ];
    // pairs (0,1), (0,2), (1,2)
    let add = pairwise_total(&ms, 3, MatrixOp::Add).unwrap();
    assert_eq!(add.data, vec![vec![14, 16], vec![20, 26]]);
    let sub = pairwise_total(&ms, 3, MatrixOp::Subtract).unwrap();
    assert_eq!(sub.data, vec![vec![0, 4], vec![6, 6]]);
    let mul = pairwise_total(&ms, 3, MatrixOp::Multiply).unwrap();
    assert_eq!(mul.data, vec![vec![25, 30], vec![53, 62]]);
    let single = pairwise_total(&ms, 1, MatrixOp::Add).unwrap();
    assert_eq!(single.data, vec![vec![0, 0], vec![0, 0]]);
}

#[test]
fn pairwise_total_skips_forbidden_pairs() {
    let ms = vec![
        Matrix { data: vec![vec![1, 2]] },
        Matrix { data: vec![vec![3], vec![4]] },
        Matrix { data: vec![vec![5, 6]] },
    ];
    let add = pairwise_total(&ms, 3, MatrixOp::Add).unwrap();
    assert_eq!(add.data, vec![vec![6, 8]]);
}

#[test]
fn pairwise_total_rejects_bad_input() {
    let ms = vec![Matrix { data: vec![vec![1, 2], vec![3]] }, Matrix { data: vec![vec![1]] }];
    assert!(pairwise_total(&ms, 2, MatrixOp::Add).is_none());
    assert!(pairwise_total(&ms, 0, MatrixOp::Add).is_none());
    assert!(pairwise_total(&ms, 3, MatrixOp::Add).is_none());
    let ms = vec![
        Matrix { data: vec![vec![1]] },
        Matrix { data: vec![vec![1, 2]] },
        Matrix { data: vec![vec![3, 4]] },
    ];
    assert!(pairwise_total(&ms, 3, MatrixOp::Add).is_none());
}
