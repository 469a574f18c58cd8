use lattice_compute::arith::{extended_gcd, gcd};
use lattice_compute::matrix::Matrix;

fn build(rows: Vec<Vec<i64>>) -> Matrix {
    Matrix::from_rows(rows).expect("square matrix")
}

#[test]
fn gcd_basics() {
    assert_eq!(gcd(0, 0), 0);
    assert_eq!(gcd(12, 18), 6);
    assert_eq!(gcd(-4, 6), 2);
    assert_eq!(gcd(7, 0), 7);
    assert_eq!(gcd(0, -9), 9);
}

#[test]
fn extended_gcd_bezout() {
    for &(a, b) in &[(240i64, 46i64), (-4, 6), (6, -4), (0, 5), (5, 0), (-7, -21), (1, 2)] {
        let (g, x, y) = extended_gcd(a, b);
        assert_eq!(a * x + b * y, g);
        assert_eq!(g.abs(), gcd(a, b));
    }
    assert_eq!(extended_gcd(10, 0), (10, 1, 0));
}

#[test]
fn from_rows_accepts_square_grids_only() {
    assert!(Matrix::from_rows(vec![]).is_none());
    assert!(Matrix::from_rows(vec![vec![1, 2], vec![3]]).is_none());
    assert!(Matrix::from_rows(vec![vec![1, 2, 3], vec![4, 5, 6]]).is_none());
    let too_big: Vec<Vec<i64>> = (0..21).map(|_| vec![0i64; 21]).collect();
    assert!(Matrix::from_rows(too_big).is_none());
    let m = build(vec![vec![1, 2], vec![3, 4]]);
    assert_eq!(m.dim(), 2);
    assert_eq!(m.entry(0, 1), 2);
    assert_eq!(m.entry(1, 0), 3);
}

#[test]
fn new_matrix_is_zero_filled() {
    let m = Matrix::new(3);
    assert_eq!(m.dim(), 3);
    for i in 0..3 {
        for j in 0..3 {
            assert_eq!(m.entry(i, j), 0);
        }
    }
}

#[test]
fn symmetry_check() {
    assert!(build(vec![vec![1, 2], vec![2, 1]]).is_symmetric());
    assert!(!build(vec![vec![1, 2], vec![3, 4]]).is_symmetric());
    assert!(build(vec![vec![7]]).is_symmetric());
    assert!(build(vec![vec![1, 5, 9], vec![5, 2, 6], vec![9, 6, 3]]).is_symmetric());
}

#[test]
fn determinant_matches_cofactor_values() {
    assert_eq!(build(vec![vec![7]]).determinant(), 7);
    assert_eq!(build(vec![vec![-3]]).determinant(), -3);
    assert_eq!(build(vec![vec![1, 2], vec![2, 1]]).determinant(), -3);
    assert_eq!(build(vec![vec![2, 0], vec![0, 2]]).determinant(), 4);
    assert_eq!(
        build(vec![vec![1, 2, 3], vec![4, 5, 6], vec![7, 8, 10]]).determinant(),
        -3
    );
    let id4 = build(vec![
        vec![1, 0, 0, 0],
        vec![0, 1, 0, 0],
        vec![0, 0, 1, 0],
        vec![0, 0, 0, 1],
    ]);
    assert_eq!(id4.determinant(), 1);
}

#[test]
fn determinant_of_singular_matrix_is_zero() {
    assert_eq!(build(vec![vec![1, 2], vec![2, 4]]).determinant(), 0);
    assert_eq!(
        build(vec![vec![1, 1, 1], vec![1, 1, 1], vec![2, 3, 4]]).determinant(),
        0
    );
    assert_eq!(build(vec![vec![0]]).determinant(), 0);
}

#[test]
fn determinant_is_idempotent() {
    let m = build(vec![vec![3, 1, 2], vec![1, 4, 1], vec![2, 1, 5]]);
    let first = m.determinant();
    let second = m.determinant();
    assert_eq!(first, second);
}

#[test]
fn multiply_mod_reduces_componentwise() {
    let m = build(vec![vec![1, 2], vec![2, 1]]);
    assert_eq!(m.multiply_mod(&[1, 1], 3), vec![0, 0]);
    assert_eq!(m.multiply_mod(&[1, 0], 3), vec![1, 2]);
    let neg = build(vec![vec![-4]]);
    assert_eq!(neg.multiply_mod(&[3], 5), vec![3]);
}

#[test]
fn snf_diagonal_two_by_two() {
    let m = build(vec![vec![2, 0], vec![0, 2]]);
    let factors = m.smith_normal_form(4);
    assert_eq!(factors, vec![2, 2]);
    let product: i64 = factors.iter().product();
    assert_eq!(product, 4);
}

#[test]
fn snf_unimodular_case_gives_empty_list() {
    let m = build(vec![vec![1, 2], vec![2, 1]]);
    let factors = m.smith_normal_form(3);
    assert!(factors.is_empty());
}

#[test]
fn snf_single_entry_matrix() {
    let m = build(vec![vec![5]]);
    let factors = m.smith_normal_form(5);
    assert!(factors.is_empty());
}

#[test]
fn snf_factors_divide_the_modulus_and_are_sorted() {
    let m = build(vec![vec![4, 2], vec![2, 4]]);
    let modulus = m.determinant().abs();
    assert_eq!(modulus, 12);
    let factors = m.smith_normal_form(modulus);
    for w in factors.windows(2) {
        assert!(w[0] <= w[1]);
    }
    for &f in &factors {
        assert!(f > 1);
        assert_eq!(modulus % f, 0);
    }
}

#[test]
fn snf_coprime_diagonal_factors_need_not_chain() {
    // The reduction promises sorted divisors of m, not a divisibility
    // chain between consecutive factors: here 2 does not divide 3.
    let m = build(vec![vec![2, 0], vec![0, 3]]);
    let factors = m.smith_normal_form(6);
    assert_eq!(factors, vec![2, 3]);
}

#[test]
fn snf_is_idempotent() {
    let m = build(vec![vec![2, 0], vec![0, 2]]);
    let first = m.smith_normal_form(4);
    let second = m.smith_normal_form(4);
    assert_eq!(first, second);
}
