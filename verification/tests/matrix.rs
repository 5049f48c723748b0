use random_walk::matrix::Matrix;
use random_walk::number::{absolute, heavier, is_below, not_a_number, zero, MINUS_HALF, ONE, ZERO};
use random_walk::solver::compare_vecs;
use random_walk::{MatrixBase, MatrixError, Op, Sparse};

fn unit(op: Op, x: u64, y: u64) -> u64 {
    let (x, y) = (f64::from_bits(x), f64::from_bits(y));
    let z = match op {
        Op::Add => x + y,
        Op::Sub => x - y,
        Op::Mul => x * y,
        Op::Div => x / y,
    };
    z.to_bits()
}

fn bits(values: &[f64]) -> Vec<u64> {
    values.iter().map(|v| v.to_bits()).collect()
}

fn numbers(values: &[u64]) -> Vec<f64> {
    values.iter().map(|v| f64::from_bits(*v)).collect()
}

fn grid(rows: &[&[f64]]) -> Vec<Vec<u64>> {
    rows.iter().map(|row| bits(row)).collect()
}

fn samples() -> Vec<f64> {
    vec![
        0.0,
        -0.0,
        1.0,
        -1.0,
        0.5,
        -0.5,
        2.5,
        -7.25,
        1e-310,
        -1e-310,
        f64::MIN_POSITIVE,
        f64::MAX,
        f64::MIN,
        f64::INFINITY,
        f64::NEG_INFINITY,
        f64::NAN,
        -f64::NAN,
        f64::EPSILON,
    ]
}

#[test]
fn test_multiply() {
    let a = Matrix::from_vecs(grid(&[&[1.0, 2.0, 1.0], &[2.0, 1.0, 1.0], &[1.0, 3.0, 1.0]]));
    let b = Matrix::from_vecs(grid(&[&[5.0], &[2.0], &[4.0]]));
    let expected_product = Matrix::from_vecs(grid(&[&[13.0], &[16.0], &[15.0]]));
    assert_eq!(a.multiply(&b, &unit).unwrap(), expected_product);
}

#[test]
fn the_constants_are_the_bits_of_their_numbers() {
    assert_eq!(ZERO, 0.0f64.to_bits());
    assert_eq!(ONE, 1.0f64.to_bits());
    assert_eq!(MINUS_HALF, (-0.5f64).to_bits());
}

#[test]
fn comparisons_on_bits_agree_with_the_numbers() {
    for x in samples() {
        assert_eq!(zero(x.to_bits()), x == 0.0, "{}", x);
        assert_eq!(not_a_number(x.to_bits()), x.is_nan(), "{}", x);
        if !x.is_nan() {
            assert_eq!(absolute(x.to_bits()), x.abs().to_bits(), "{}", x);
        }
        for y in samples() {
            assert_eq!(heavier(x.to_bits(), y.to_bits()), x.abs() > y.abs(), "{} {}", x, y);
            if !x.is_nan() {
                let error = x.abs();
                assert_eq!(is_below(error.to_bits(), y.to_bits()), error < y, "{} {}", error, y);
            }
        }
    }
}

#[test]
fn vectors_are_compared_within_a_tolerance() {
    let a = bits(&[1.0, 2.0, 3.0]);
    assert!(compare_vecs(&a, &bits(&[1.0, 2.0, 3.0]), 0.0f64.to_bits(), &unit));
    assert!(compare_vecs(&a, &bits(&[1.05, 1.95, 3.0]), 0.1f64.to_bits(), &unit));
    assert!(!compare_vecs(&a, &bits(&[1.0, 2.2, 3.0]), 0.1f64.to_bits(), &unit));
    assert!(!compare_vecs(&a, &bits(&[1.0, 2.0]), 1.0f64.to_bits(), &unit));
    // a difference that is no number is not greater than anything
    assert!(compare_vecs(&a, &bits(&[1.0, f64::NAN, 3.0]), 0.1f64.to_bits(), &unit));
    for eps in samples() {
        for gap in [0.0, 0.25, 3.0, f64::INFINITY] {
            let same = compare_vecs(&bits(&[gap]), &bits(&[0.0]), eps.to_bits(), &unit);
            assert_eq!(same, !(gap > eps), "{} {}", gap, eps);
        }
    }
}

#[test]
fn a_matrix_from_a_size_holds_zeros() {
    let m = Matrix::from_size(2, 3);
    assert_eq!(m.rows, vec![vec![0u64; 3]; 2]);
    assert!(Matrix::new().rows.is_empty());
    assert!(m.is_rectangular(3));
    assert!(!m.is_square(2));
    assert!(Matrix::from_size(3, 3).is_square(3));
}

#[test]
fn the_default_path_is_tridiagonal_between_absorbing_ends() {
    let m = Matrix::init_default_path(5);
    let expected = grid(&[
        &[1.0, 0.0, 0.0, 0.0, 0.0],
        &[-0.5, 1.0, -0.5, 0.0, 0.0],
        &[0.0, -0.5, 1.0, -0.5, 0.0],
        &[0.0, 0.0, -0.5, 1.0, -0.5],
        &[0.0, 0.0, 0.0, 0.0, 1.0],
    ]);
    assert_eq!(m.rows, expected);
    assert_eq!(Matrix::init_default_path(2).rows, grid(&[&[1.0, 0.0], &[0.0, 1.0]]));
    let through_trait: Matrix = MatrixBase::init_default_path(5);
    assert_eq!(through_trait, m);
}

#[test]
fn the_diagonal_of_the_default_path_outweighs_its_row() {
    let m = Matrix::init_default_path(7);
    for i in 0..7 {
        for j in 0..7 {
            if i != j {
                assert!(heavier(m.rows[i][i], m.rows[i][j]));
            }
        }
    }
}

#[test]
fn dot_products_stop_with_the_shorter_vector() {
    let x = bits(&[1.0, 2.0, 3.0]);
    let y = bits(&[4.0, 5.0]);
    assert_eq!(f64::from_bits(Matrix::dot_product(&x, &y, &unit)), 14.0);
    assert_eq!(f64::from_bits(Matrix::dot_product(&x, &x, &unit)), 14.0);
    assert_eq!(Matrix::dot_product(&x, &[], &unit), ZERO);
}

#[test]
fn products_of_unfit_sizes_are_size_errors() {
    let a = Matrix::from_vecs(grid(&[&[1.0, 2.0], &[3.0, 4.0]]));
    let b = Matrix::from_vecs(grid(&[&[1.0], &[2.0], &[3.0]]));
    assert_eq!(a.multiply(&b, &unit), Err(MatrixError::SizeError));
    let ragged = Matrix::from_vecs(grid(&[&[1.0, 2.0], &[3.0]]));
    assert_eq!(a.multiply(&ragged, &unit), Err(MatrixError::SizeError));
    assert_eq!(ragged.multiply(&a, &unit), Err(MatrixError::SizeError));
    assert_eq!(a.multiply_by_vec(&bits(&[1.0]), &unit), Err(MatrixError::SizeError));
}

#[test]
fn a_matrix_times_a_vector() {
    let a = Matrix::from_vecs(grid(&[&[1.0, 2.0], &[3.0, 4.0]]));
    let y = a.multiply_by_vec(&bits(&[1.0, -1.0]), &unit).unwrap();
    assert_eq!(numbers(&y), vec![-1.0, -1.0]);
}

#[test]
fn the_pivot_is_the_earliest_row_of_the_largest_absolute_value() {
    let a = Matrix::from_vecs(grid(&[&[1.0, 2.0, 0.0], &[-3.0, 1.0, 1.0], &[3.0, 9.0, 2.0]]));
    // column 0: -3 and 3 tie, the earlier row wins; column 1: 9 beats 2
    assert_eq!(a.pivot_order(), vec![1, 2, 0]);
    let (p, b) = a.partial_pivot(&bits(&[10.0, 20.0, 30.0]));
    assert_eq!(p.rows, grid(&[&[-3.0, 1.0, 1.0], &[3.0, 9.0, 2.0], &[1.0, 2.0, 0.0]]));
    assert_eq!(numbers(&b), vec![20.0, 30.0, 10.0]);
    // the matrix that was pivoted is as it was
    assert_eq!(a.rows[0], bits(&[1.0, 2.0, 0.0]));
}

#[test]
fn pivoting_takes_no_row_for_one_that_is_no_number() {
    let a = Matrix::from_vecs(grid(&[&[1.0, 0.0], &[f64::NAN, 1.0]]));
    assert_eq!(a.pivot_order(), vec![0, 1]);
    let a = Matrix::from_vecs(grid(&[&[f64::NAN, 0.0], &[5.0, 1.0]]));
    assert_eq!(a.pivot_order(), vec![0, 1]);
    let a = Matrix::from_vecs(grid(&[&[0.0, 1.0], &[-0.0, 1.0]]));
    assert_eq!(a.pivot_order(), vec![0, 1]);
}

#[test]
fn after_pivoting_no_row_below_outweighs_the_diagonal() {
    let a = Matrix::from_vecs(grid(&[
        &[0.0, 2.0, -1.0, 4.0],
        &[1.5, -8.0, 0.0, 1.0],
        &[-6.0, 0.5, 3.0, 0.0],
        &[2.0, 8.0, -3.0, 9.0],
    ]));
    let (p, _) = a.partial_pivot(&bits(&[1.0, 2.0, 3.0, 4.0]));
    for c in 0..4 {
        for k in c + 1..4 {
            assert!(!heavier(p.rows[k][c], p.rows[c][c]));
        }
    }
    let mut before = a.rows.clone();
    let mut after = p.rows.clone();
    before.sort();
    after.sort();
    assert_eq!(before, after);
}

#[test]
fn elimination_solves_the_two_by_two_system() {
    let a = Matrix::from_vecs(grid(&[&[2.0, 1.0], &[5.0, 7.0]]));
    let b = bits(&[11.0, 13.0]);
    let expected = [64.0 / 9.0, -29.0 / 9.0];
    let sparse = Sparse::from_vecs(a.rows.clone());
    let results = [
        a.gaussian(&b, &unit).unwrap(),
        a.gaussian_partial_pivot(&b, &unit).unwrap(),
        sparse.gaussian(&b, &unit).unwrap(),
        sparse.gaussian_partial_pivot(&b, &unit).unwrap(),
    ];
    for x in results {
        let x = numbers(&x);
        assert!((x[0] - expected[0]).abs() < 1e-12, "{:?}", x);
        assert!((x[1] - expected[1]).abs() < 1e-12, "{:?}", x);
        assert!((x[0] - 7.111).abs() < 1e-3 && (x[1] + 3.222).abs() < 1e-3);
    }
}

#[test]
fn elimination_gives_the_exact_values_of_the_formula() {
    let a = Matrix::from_vecs(grid(&[&[2.0, 1.0], &[5.0, 7.0]]));
    let x = numbers(&a.gaussian(&bits(&[11.0, 13.0]), &unit).unwrap());
    let factor = 5.0f64 / 2.0;
    let diagonal = 7.0 - factor * 1.0;
    let rhs = 13.0 - factor * 11.0;
    let x1 = rhs / diagonal;
    let x0 = (11.0 - 1.0 * x1) / 2.0;
    assert_eq!(x, vec![x0, x1]);
}

#[test]
fn the_walk_on_the_default_path_has_its_closed_form() {
    let a = Matrix::init_default_path(6);
    let sparse = Sparse::init_default_path(6);
    let b = bits(&[1.0, 0.0, 0.0, 0.0, 0.0, 0.0]);
    for x in [
        a.gaussian(&b, &unit).unwrap(),
        a.gaussian_partial_pivot(&b, &unit).unwrap(),
        sparse.gaussian(&b, &unit).unwrap(),
        sparse.gaussian_partial_pivot(&b, &unit).unwrap(),
    ] {
        let x = numbers(&x);
        assert_eq!(x[0], 1.0);
        assert_eq!(x[5], 0.0);
        assert!(0.0 < x[3] && x[3] < 1.0);
        assert!((x[3] - 0.4).abs() < 1e-12, "{}", x[3]);
        for (i, value) in x.iter().enumerate() {
            assert!((value - (1.0 - i as f64 / 5.0)).abs() < 1e-12);
        }
    }
}

#[test]
fn a_solution_multiplied_back_gives_the_right_hand_side() {
    let a = Matrix::from_vecs(grid(&[
        &[4.0, -1.0, 0.5, 0.0],
        &[1.0, 5.0, -2.0, 1.0],
        &[0.0, 2.0, 6.0, -1.0],
        &[1.5, 0.0, 1.0, 3.0],
    ]));
    let b = bits(&[1.0, -2.0, 3.5, 0.25]);
    let sparse = Sparse::from_vecs(a.rows.clone());
    let eps = 1e-12f64.to_bits();
    let plain = a.gaussian(&b, &unit).unwrap();
    let pivoted = a.gaussian_partial_pivot(&b, &unit).unwrap();
    assert!(compare_vecs(&a.multiply_by_vec(&plain, &unit).unwrap(), &b, eps, &unit));
    assert!(compare_vecs(&a.multiply_by_vec(&pivoted, &unit).unwrap(), &b, eps, &unit));
    assert!(compare_vecs(&sparse.multiply_by_vec(&plain, &unit), &b, eps, &unit));
    assert!(compare_vecs(&plain, &pivoted, eps, &unit));
    // the two forms of the matrix agree bit for bit
    assert_eq!(sparse.gaussian(&b, &unit).unwrap(), plain);
    assert_eq!(sparse.gaussian_partial_pivot(&b, &unit).unwrap(), pivoted);
}

#[test]
fn a_zero_pivot_is_an_error_that_pivoting_can_mend() {
    let a = Matrix::from_vecs(grid(&[&[0.0, 1.0], &[1.0, 0.0]]));
    let b = bits(&[2.0, 3.0]);
    assert_eq!(a.gaussian(&b, &unit), Err(MatrixError::ZeroPivotError));
    assert_eq!(numbers(&a.gaussian_partial_pivot(&b, &unit).unwrap()), vec![3.0, 2.0]);
    let sparse = Sparse::from_vecs(a.rows.clone());
    assert_eq!(sparse.gaussian(&b, &unit), Err(MatrixError::ZeroPivotError));
    assert_eq!(numbers(&sparse.gaussian_partial_pivot(&b, &unit).unwrap()), vec![3.0, 2.0]);
    let negative_zero = Matrix::from_vecs(grid(&[&[-0.0, 1.0], &[1.0, 0.0]]));
    assert_eq!(negative_zero.gaussian(&b, &unit), Err(MatrixError::ZeroPivotError));
}

#[test]
fn a_pivot_that_elimination_makes_zero_is_an_error_too() {
    let a = Matrix::from_vecs(grid(&[&[1.0, 1.0], &[1.0, 1.0]]));
    let b = bits(&[1.0, 2.0]);
    assert_eq!(a.gaussian(&b, &unit), Err(MatrixError::ZeroPivotError));
    assert_eq!(a.gaussian_partial_pivot(&b, &unit), Err(MatrixError::ZeroPivotError));
    let zero_column = Matrix::from_vecs(grid(&[&[0.0, 1.0], &[0.0, 2.0]]));
    assert_eq!(zero_column.gaussian_partial_pivot(&b, &unit), Err(MatrixError::ZeroPivotError));
}

#[test]
fn a_solution_that_is_no_number_is_unsolvable() {
    let a = Matrix::from_vecs(grid(&[&[1.0, f64::INFINITY], &[0.0, 1.0]]));
    let b = bits(&[1.0, 0.0]);
    assert_eq!(a.gaussian(&b, &unit), Err(MatrixError::Unsolvable));
    let sparse = Sparse::from_vecs(a.rows.clone());
    assert_eq!(sparse.gaussian(&b, &unit), Err(MatrixError::Unsolvable));
    let fine = Matrix::from_vecs(grid(&[&[1.0, 0.0], &[0.0, 1.0]]));
    assert_eq!(fine.gaussian(&bits(&[f64::NAN, 1.0]), &unit), Err(MatrixError::Unsolvable));
}

#[test]
fn without_a_sweep_relaxation_returns_the_start() {
    let a = Matrix::from_vecs(grid(&[&[4.0, 1.0], &[2.0, 5.0]]));
    let sparse = Sparse::from_vecs(a.rows.clone());
    let b = bits(&[1.0, 2.0]);
    let x0 = bits(&[0.25, -7.0]);
    let eps = 1e-9f64.to_bits();
    assert_eq!(a.jacobi(&b, &x0, eps, 0, &unit), x0);
    assert_eq!(a.gauss_seidel(&b, &x0, eps, 0, &unit), x0);
    assert_eq!(sparse.jacobi(&b, &x0, eps, 0, &unit), x0);
    assert_eq!(sparse.gauss_seidel(&b, &x0, eps, 0, &unit), x0);
}

#[test]
fn a_large_tolerance_stops_relaxation_after_one_sweep() {
    let a = Matrix::from_vecs(grid(&[&[4.0, 1.0], &[2.0, 5.0]]));
    let b = bits(&[1.0, 2.0]);
    let x0 = bits(&[0.0, 0.0]);
    let eps = 1e9f64.to_bits();
    let jacobi = numbers(&a.jacobi(&b, &x0, eps, 50, &unit));
    assert_eq!(jacobi, vec![1.0 / 4.0, 2.0 / 5.0]);
    let seidel = numbers(&a.gauss_seidel(&b, &x0, eps, 50, &unit));
    assert_eq!(seidel, vec![1.0 / 4.0, (2.0 - 2.0 * (1.0 / 4.0)) / 5.0]);
    // one sweep allowed gives the same as a tolerance that one sweep meets
    assert_eq!(numbers(&a.jacobi(&b, &x0, 0.0f64.to_bits(), 1, &unit)), jacobi);
    assert_eq!(numbers(&a.gauss_seidel(&b, &x0, 0.0f64.to_bits(), 1, &unit)), seidel);
}

#[test]
fn a_tolerance_that_nothing_is_below_uses_every_sweep() {
    let a = Matrix::from_vecs(grid(&[&[4.0, 1.0], &[2.0, 5.0]]));
    let b = bits(&[1.0, 2.0]);
    let x0 = bits(&[0.0, 0.0]);
    let two = a.jacobi(&b, &x0, 0.0f64.to_bits(), 2, &unit);
    let one = a.jacobi(&b, &x0, 0.0f64.to_bits(), 1, &unit);
    assert_eq!(a.jacobi(&b, &one, f64::NAN.to_bits(), 1, &unit), two);
    assert_eq!(a.jacobi(&b, &x0, (-1.0f64).to_bits(), 2, &unit), two);
}

#[test]
fn relaxation_comes_close_to_the_exact_solution() {
    let a = Matrix::from_vecs(grid(&[&[10.0, 2.0, 1.0], &[1.0, 8.0, -2.0], &[2.0, -1.0, 9.0]]));
    let sparse = Sparse::from_vecs(a.rows.clone());
    let b = bits(&[7.0, -4.0, 6.0]);
    let x0 = bits(&[0.0, 0.0, 0.0]);
    let eps = 1e-13f64.to_bits();
    let exact = a.gaussian(&b, &unit).unwrap();
    let tolerance = 1e-10f64.to_bits();
    let jacobi = a.jacobi(&b, &x0, eps, 1000, &unit);
    let seidel = a.gauss_seidel(&b, &x0, eps, 1000, &unit);
    assert!(compare_vecs(&jacobi, &exact, tolerance, &unit));
    assert!(compare_vecs(&seidel, &exact, tolerance, &unit));
    assert_eq!(sparse.jacobi(&b, &x0, eps, 1000, &unit), jacobi);
    assert_eq!(sparse.gauss_seidel(&b, &x0, eps, 1000, &unit), seidel);
    // three sweeps are not enough
    assert!(!compare_vecs(&a.jacobi(&b, &x0, eps, 3, &unit), &exact, tolerance, &unit));
}

#[test]
fn relaxation_solves_the_walk_on_the_default_path() {
    let a = Matrix::init_default_path(6);
    let b = bits(&[1.0, 0.0, 0.0, 0.0, 0.0, 0.0]);
    let x0 = bits(&[0.0; 6]);
    let eps = 1e-15f64.to_bits();
    for x in [a.jacobi(&b, &x0, eps, 10_000, &unit), a.gauss_seidel(&b, &x0, eps, 10_000, &unit)] {
        let x = numbers(&x);
        assert_eq!(x[0], 1.0);
        assert_eq!(x[5], 0.0);
        assert!((x[3] - 0.4).abs() < 1e-9, "{}", x[3]);
    }
}

#[test]
fn the_same_call_gives_the_same_bits() {
    let a = Matrix::from_vecs(grid(&[&[3.0, 1.0, -1.0], &[1.0, -4.0, 2.0], &[0.5, 1.0, 5.0]]));
    let sparse = Sparse::from_vecs(a.rows.clone());
    let b = bits(&[0.1, 0.2, 0.3]);
    let x0 = bits(&[1.0, 1.0, 1.0]);
    let eps = 1e-12f64.to_bits();
    assert_eq!(a.gaussian(&b, &unit), a.gaussian(&b, &unit));
    assert_eq!(a.gaussian_partial_pivot(&b, &unit), a.gaussian_partial_pivot(&b, &unit));
    assert_eq!(a.jacobi(&b, &x0, eps, 40, &unit), a.jacobi(&b, &x0, eps, 40, &unit));
    assert_eq!(a.gauss_seidel(&b, &x0, eps, 40, &unit), a.gauss_seidel(&b, &x0, eps, 40, &unit));
    assert_eq!(sparse.gaussian(&b, &unit), sparse.gaussian(&b, &unit));
    assert_eq!(sparse.jacobi(&b, &x0, eps, 40, &unit), sparse.jacobi(&b, &x0, eps, 40, &unit));
    // and the matrix is as it was
    assert_eq!(a.rows, grid(&[&[3.0, 1.0, -1.0], &[1.0, -4.0, 2.0], &[0.5, 1.0, 5.0]]));
}

#[test]
fn a_unit_of_another_arithmetic_is_taken_at_its_word() {
    // whole numbers under wrapping addition and multiplication
    let whole = |op: Op, x: u64, y: u64| match op {
        Op::Add => x.wrapping_add(y),
        Op::Sub => x.wrapping_sub(y),
        Op::Mul => x.wrapping_mul(y),
        Op::Div => x / y,
    };
    let a = Matrix::from_vecs(vec![vec![1, 2], vec![3, 4]]);
    assert_eq!(a.multiply_by_vec(&vec![5, 6], &whole), Ok(vec![17, 39]));
    assert_eq!(Matrix::dot_product(&[2, 3], &[4, 5], &whole), 23);
}
