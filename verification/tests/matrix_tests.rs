use matrix::{Error, Matrix};

fn m2x2() -> Matrix {
    Matrix::from_2d(vec![vec![1, 2], vec![3, 4]]).unwrap()
}

#[test]
fn new_is_empty() {
    let m = Matrix::new();
    assert!(m.is_empty());
    assert_eq!(m.dims(), (0, 0));
}

#[test]
fn default_is_empty() {
    let m: Matrix = Default::default();
    assert!(m.is_empty());
    assert_eq!(m.dims(), (0, 0));
}

#[test]
fn from_1d_splits_rows() {
    let m = Matrix::from_1d(2, vec![1, 2, 3, 4, 5, 6]).unwrap();
    assert_eq!(m.dims(), (2, 3));
    assert_eq!(m.rows(), vec![vec![1, 2, 3], vec![4, 5, 6]]);
}

#[test]
fn from_1d_rejects_leftover() {
    let r = Matrix::from_1d(2, vec![1, 2, 3]);
    assert!(matches!(r, Err(Error::DimensionError { .. })));
}

#[test]
fn from_1d_rejects_zero_rows() {
    let r = Matrix::from_1d(0, vec![1, 2, 3]);
    assert!(matches!(r, Err(Error::DimensionError { .. })));
}

#[test]
fn from_2d_ragged_rows_fail() {
    let r = Matrix::from_2d(vec![vec![1, 2], vec![3]]);
    assert!(matches!(r, Err(Error::DimensionError { .. })));
}

#[test]
fn from_2d_empty_gives_empty() {
    let m = Matrix::from_2d(vec![]).unwrap();
    assert_eq!(m.dims(), (0, 0));
    assert!(m.is_empty());
}

#[test]
fn transpose_swaps_dims() {
    let m = Matrix::from_2d(vec![vec![1, 2, 3], vec![4, 5, 6]]).unwrap();
    let t = m.transpose();
    assert_eq!(t.dims(), (3, 2));
    assert_eq!(t.rows(), vec![vec![1, 4], vec![2, 5], vec![3, 6]]);
}

#[test]
fn transpose_twice_roundtrips() {
    let m = Matrix::from_2d(vec![vec![1, 2, 3], vec![4, 5, 6]]).unwrap();
    let back = m.transpose().transpose();
    assert_eq!(back, m);
}

#[test]
fn add_self_doubles() {
    let a = m2x2();
    let b = m2x2();
    let sum = a.add(b).unwrap();
    assert_eq!(sum.rows(), vec![vec![2, 4], vec![6, 8]]);
    assert_eq!(sum.dims(), (2, 2));
}

#[test]
fn add_commutes() {
    let a = Matrix::from_2d(vec![vec![1, -2], vec![30, 4]]).unwrap();
    let b = Matrix::from_2d(vec![vec![5, 6], vec![-7, 8]]).unwrap();
    let ab = a.add(b).unwrap();
    let a2 = Matrix::from_2d(vec![vec![1, -2], vec![30, 4]]).unwrap();
    let b2 = Matrix::from_2d(vec![vec![5, 6], vec![-7, 8]]).unwrap();
    let ba = b2.add(a2).unwrap();
    assert_eq!(ab, ba);
}

#[test]
fn add_mismatched_shapes_fail() {
    let a = m2x2();
    let b = Matrix::from_2d(vec![vec![1, 2, 3], vec![4, 5, 6]]).unwrap();
    let r = a.add(b);
    assert!(matches!(r, Err(Error::DimensionError { .. })));
}

#[test]
fn dot_example() {
    let a = m2x2();
    let b = Matrix::from_2d(vec![vec![5, 6], vec![7, 8]]).unwrap();
    let p = a.dot(b).unwrap();
    assert_eq!(p.rows(), vec![vec![19, 22], vec![43, 50]]);
}

#[test]
fn dot_dims_follow_operands() {
    let a = Matrix::from_2d(vec![vec![1, 2, 3], vec![4, 5, 6]]).unwrap();
    let b = Matrix::from_2d(vec![vec![1, 0], vec![0, 1], vec![1, 1]]).unwrap();
    let p = a.dot(b).unwrap();
    assert_eq!(p.dims(), (2, 2));
}

#[test]
fn dot_is_not_commutative() {
    let a = Matrix::from_2d(vec![vec![1, 2, 3], vec![4, 5, 6]]).unwrap();
    let b = Matrix::from_2d(vec![vec![1, 0], vec![0, 1], vec![1, 1]]).unwrap();
    let ab = a.dot(b).unwrap();
    let a2 = Matrix::from_2d(vec![vec![1, 2, 3], vec![4, 5, 6]]).unwrap();
    let b2 = Matrix::from_2d(vec![vec![1, 0], vec![0, 1], vec![1, 1]]).unwrap();
    let ba = b2.dot(a2).unwrap();
    assert_eq!(ab.dims(), (2, 2));
    assert_eq!(ba.dims(), (3, 3));
    assert_ne!(ab.dims(), ba.dims());
}

#[test]
fn dot_mismatched_inner_dims_fail() {
    let a = m2x2();
    let b = Matrix::from_2d(vec![vec![1, 2], vec![3, 4], vec![5, 6]]).unwrap();
    let r = a.dot(b);
    assert!(matches!(r, Err(Error::DimensionError { .. })));
}

#[test]
fn column_means_truncating() {
    let m = Matrix::from_2d(vec![vec![1, 2, 3], vec![4, 5, 6]]).unwrap();
    assert_eq!(m.column_means().unwrap(), vec![2, 3, 4]);
}

#[test]
fn column_means_truncate_toward_zero() {
    let m = Matrix::from_2d(vec![vec![-3], vec![0]]).unwrap();
    assert_eq!(m.column_means().unwrap(), vec![-1]);
}

#[test]
fn column_means_no_rows_fail() {
    let m = Matrix::new();
    assert!(matches!(m.column_means(), Err(Error::DimensionError { .. })));
}

#[test]
fn parse_simple_text() {
    let m = Matrix::from_text("1 2\n3 4\n").unwrap();
    assert_eq!(m.dims(), (2, 2));
    assert_eq!(m.rows(), vec![vec![1, 2], vec![3, 4]]);
}

#[test]
fn parse_signs_and_runs_of_whitespace() {
    let m = Matrix::from_text("+1\t \t-2\n  30   40  \n").unwrap();
    assert_eq!(m.rows(), vec![vec![1, -2], vec![30, 40]]);
}

#[test]
fn parse_without_trailing_newline() {
    let m = Matrix::from_text("7 8").unwrap();
    assert_eq!(m.rows(), vec![vec![7, 8]]);
}

#[test]
fn parse_crlf_line_endings() {
    let m = Matrix::from_text("1 2\r\n3 4\r\n").unwrap();
    assert_eq!(m.rows(), vec![vec![1, 2], vec![3, 4]]);
}

#[test]
fn parse_empty_text_gives_empty_matrix() {
    let m = Matrix::from_text("").unwrap();
    assert!(m.is_empty());
    assert_eq!(m.dims(), (0, 0));
}

#[test]
fn parse_bad_token_fails() {
    let r = Matrix::from_text("1 x\n");
    match r {
        Err(Error::ParseError { token }) => assert_eq!(token, "x"),
        other => panic!("expected a parse failure, got {:?}", other),
    }
}

#[test]
fn parse_out_of_range_token_fails() {
    let r = Matrix::from_text("2147483648\n");
    assert!(matches!(r, Err(Error::ParseError { .. })));
    let ok = Matrix::from_text("2147483647 -2147483648\n").unwrap();
    assert_eq!(ok.rows(), vec![vec![2147483647, -2147483648]]);
}

#[test]
fn parse_ragged_lines_fail() {
    let r = Matrix::from_text("1 2\n3\n");
    assert!(matches!(r, Err(Error::DimensionError { .. })));
}

#[test]
fn parse_blank_line_beside_rows_fails() {
    let r = Matrix::from_text("1 2\n\n3 4\n");
    assert!(matches!(r, Err(Error::DimensionError { .. })));
}

#[test]
fn format_tabs_and_newlines() {
    let m = m2x2();
    assert_eq!(m.to_text(), "1\t2\n3\t4\n");
}

#[test]
fn format_empty_matrix_is_empty_text() {
    let m = Matrix::new();
    assert_eq!(m.to_text(), "");
}

#[test]
fn format_negative_values() {
    let m = Matrix::from_2d(vec![vec![-1, 0], vec![10, -200]]).unwrap();
    assert_eq!(m.to_text(), "-1\t0\n10\t-200\n");
}

#[test]
fn parse_of_format_roundtrips() {
    let m = Matrix::from_2d(vec![vec![1, -2, 3], vec![40, 5, -6]]).unwrap();
    let text = m.to_text();
    let back = Matrix::from_text(&text).unwrap();
    assert_eq!(back, m);
}

#[test]
fn format_means_joins_with_tabs() {
    let m = Matrix::from_2d(vec![vec![1, 2, 3], vec![4, 5, 6]]).unwrap();
    let means = m.column_means().unwrap();
    assert_eq!(matrix::format_means(&means), "2\t3\t4");
    assert_eq!(matrix::format_means(&vec![]), "");
    assert_eq!(matrix::format_means(&vec![-7]), "-7");
}

#[test]
fn add_overflow_is_detected() {
    let a = Matrix::from_2d(vec![vec![2147483647]]).unwrap();
    let b = Matrix::from_2d(vec![vec![1]]).unwrap();
    assert!(a.add_overflows(&b));
    let c = Matrix::from_2d(vec![vec![1]]).unwrap();
    let d = Matrix::from_2d(vec![vec![1]]).unwrap();
    assert!(!c.add_overflows(&d));
}

#[test]
fn dot_overflow_is_detected() {
    let a = Matrix::from_2d(vec![vec![65536]]).unwrap();
    let b = Matrix::from_2d(vec![vec![65536]]).unwrap();
    assert!(a.dot_overflows(&b));
    let c = Matrix::from_2d(vec![vec![65536]]).unwrap();
    let d = Matrix::from_2d(vec![vec![2]]).unwrap();
    assert!(!c.dot_overflows(&d));
}

#[test]
fn equality_is_structural() {
    let a = m2x2();
    let b = m2x2();
    assert_eq!(a, b);
    let c = Matrix::from_2d(vec![vec![1, 2], vec![3, 5]]).unwrap();
    assert_ne!(a, c);
    let d = Matrix::from_1d(1, vec![1, 2, 3, 4]).unwrap();
    assert_ne!(a, d);
}
