use givens::fixed::{isqrt, pow10_val, FXMAX, SCALE};
use givens::matrix::Matrix;
use givens::reduce::reconstruct;
use givens::rotation::rotation_coeffs;
use givens::scan::Position;

/// Builds a matrix from whole numbers, scaled into fixed point.
fn mat_of(entries: &[&[i64]]) -> Matrix {
    let rows: Vec<Vec<i128>> = entries
        .iter()
        .map(|row| row.iter().map(|&v| v as i128 * SCALE).collect())
        .collect();
    Matrix::from_rows(rows).expect("well-formed matrix")
}

/// Reads an entry back as a float.
fn entry_f64(m: &Matrix, i: usize, j: usize) -> f64 {
    m.entry(i, j) as f64 / SCALE as f64
}

fn assert_entries_close(actual: &Matrix, expected: &[&[i64]], tol: f64) {
    assert_eq!(actual.dim(), expected.len());
    for (i, row) in expected.iter().enumerate() {
        for (j, &v) in row.iter().enumerate() {
            let got = entry_f64(actual, i, j);
            assert!(
                (got - v as f64).abs() <= tol,
                "entry ({}, {}): got {}, expected {}",
                i,
                j,
                got,
                v
            );
        }
    }
}

fn worked_example() -> Matrix {
    mat_of(&[
        &[1, 2, 3, 4],
        &[5, 6, 7, 6],
        &[9, 3, 11, 12],
        &[12, 1, 6, 7],
    ])
}

#[test]
fn identity_has_scaled_ones_on_diagonal() {
    let id = Matrix::identity(3);
    assert_eq!(id.dim(), 3);
    for i in 0..3 {
        for j in 0..3 {
            let expected = if i == j { SCALE } else { 0 };
            assert_eq!(id.entry(i, j), expected);
        }
    }
}

#[test]
fn identity_law_left_and_right() {
    let a = worked_example();
    let id = Matrix::identity(4);
    let left = id.multiply(&a).expect("product in range");
    let right = a.multiply(&id).expect("product in range");
    for i in 0..4 {
        for j in 0..4 {
            assert_eq!(left.entry(i, j), a.entry(i, j));
            assert_eq!(right.entry(i, j), a.entry(i, j));
        }
    }
}

#[test]
fn transpose_involution() {
    let a = worked_example();
    let tt = a.transpose().transpose();
    for i in 0..4 {
        for j in 0..4 {
            assert_eq!(tt.entry(i, j), a.entry(i, j));
        }
    }
}

#[test]
fn transpose_swaps_indices() {
    let a = mat_of(&[&[1, 2], &[3, 4]]);
    let t = a.transpose();
    assert_eq!(t.entry(0, 0), SCALE);
    assert_eq!(t.entry(0, 1), 3 * SCALE);
    assert_eq!(t.entry(1, 0), 2 * SCALE);
    assert_eq!(t.entry(1, 1), 4 * SCALE);
}

#[test]
fn multiply_small_exact() {
    let a = mat_of(&[&[1, 2], &[3, 4]]);
    let b = mat_of(&[&[5, 6], &[7, 8]]);
    let c = a.multiply(&b).expect("product in range");
    assert_eq!(c.entry(0, 0), 19 * SCALE);
    assert_eq!(c.entry(0, 1), 22 * SCALE);
    assert_eq!(c.entry(1, 0), 43 * SCALE);
    assert_eq!(c.entry(1, 1), 50 * SCALE);
}

#[test]
fn multiply_out_of_range_is_refused() {
    let rows: Vec<Vec<i128>> = vec![vec![FXMAX, FXMAX], vec![FXMAX, FXMAX]];
    let a = Matrix::from_rows(rows).expect("entries exactly at the cap");
    assert!(a.multiply(&a).is_none());
}

#[test]
fn from_rows_refuses_ragged_and_oversized_entries() {
    assert!(Matrix::from_rows(vec![vec![0], vec![0, 0]]).is_none());
    assert!(Matrix::from_rows(vec![vec![0, 0], vec![0, FXMAX + 1]]).is_none());
    assert!(Matrix::from_rows(vec![vec![0, 0], vec![0, -FXMAX - 1]]).is_none());
    let ok = Matrix::from_rows(vec![vec![1, 2], vec![3, 4]]).expect("square and in range");
    assert_eq!(ok.dim(), 2);
    assert_eq!(ok.entry(1, 0), 3);
}

#[test]
fn duplicate_copies_every_entry() {
    let a = worked_example();
    let b = a.duplicate();
    assert_eq!(b.dim(), a.dim());
    for i in 0..4 {
        for j in 0..4 {
            assert_eq!(b.entry(i, j), a.entry(i, j));
        }
    }
}

#[test]
fn round_to_four_digits() {
    let a = Matrix::from_rows(vec![vec![123_456_789]]).expect("in range");
    let r = a.round(4);
    assert_eq!(r.entry(0, 0), 123_500_000);
}

#[test]
fn round_half_goes_away_from_zero() {
    let a = Matrix::from_rows(vec![vec![50_000, -50_000], vec![49_999, -49_999]])
        .expect("in range");
    let r = a.round(4);
    assert_eq!(r.entry(0, 0), 100_000);
    assert_eq!(r.entry(0, 1), -100_000);
    assert_eq!(r.entry(1, 0), 0);
    assert_eq!(r.entry(1, 1), 0);
}

#[test]
fn signed_zero_is_normalized() {
    // An entry of -1e-9 rounded at four digits is exactly zero, with no
    // sign left on it: the scalar representation has a single zero.
    let a = Matrix::from_rows(vec![vec![-1]]).expect("in range");
    let r = a.round(4);
    assert_eq!(r.entry(0, 0), 0);
    assert!(!entry_f64(&r, 0, 0).is_sign_negative());
}

#[test]
fn scan_finds_both_targets_in_order() {
    // Only (2, 0) and (3, 0) hold nonzero sub-subdiagonal entries.
    let m = mat_of(&[
        &[1, 2, 3, 4],
        &[5, 6, 7, 6],
        &[9, 3, 11, 12],
        &[12, 0, 6, 7],
    ]);
    let ps = m.scan();
    assert_eq!(ps.len(), 2);
    assert_eq!(ps[0], Position { row: 2, col: 0 });
    assert_eq!(ps[1], Position { row: 3, col: 0 });
}

#[test]
fn scan_of_zero_sub_subdiagonal_is_empty() {
    let m = mat_of(&[
        &[1, 2, 3, 4],
        &[5, 6, 7, 6],
        &[0, 3, 11, 12],
        &[0, 0, 6, 7],
    ]);
    assert!(m.scan().is_empty());
}

#[test]
fn scan_order_is_column_major() {
    let m = worked_example();
    let ps = m.scan();
    assert_eq!(
        ps,
        vec![
            Position { row: 2, col: 0 },
            Position { row: 3, col: 0 },
            Position { row: 3, col: 1 },
        ]
    );
}

#[test]
fn pivot_degeneracy_takes_the_fixed_branch() {
    // A zero pivot must give cosine 0 and sine 1 whatever the target is.
    let (c, s) = rotation_coeffs(0, 7 * SCALE);
    assert_eq!(c, 0);
    assert_eq!(s, SCALE);
    let (c, s) = rotation_coeffs(0, -123);
    assert_eq!(c, 0);
    assert_eq!(s, SCALE);
    let (c, s) = rotation_coeffs(0, 0);
    assert_eq!(c, 0);
    assert_eq!(s, SCALE);
}

#[test]
fn rotation_coeffs_on_three_four_five() {
    // Pivot 3, target 4: the hypotenuse is exactly 5, so the scaled
    // cosine and sine are exact.
    let (c, s) = rotation_coeffs(3 * SCALE, 4 * SCALE);
    assert_eq!(c, 600_000_000);
    assert_eq!(s, -800_000_000);
    let (c, s) = rotation_coeffs(-3 * SCALE, 4 * SCALE);
    assert_eq!(c, 600_000_000);
    assert_eq!(s, 800_000_000);
}

#[test]
fn rotation_times_own_transpose_rounds_to_identity() {
    let m = worked_example();
    let u = m.build_rotation(Position { row: 2, col: 0 });
    let product = u
        .multiply(&u.transpose())
        .expect("rotation entries are within one unit");
    let rounded = product.round(4);
    let id = Matrix::identity(4);
    for i in 0..4 {
        for j in 0..4 {
            assert_eq!(rounded.entry(i, j), id.entry(i, j));
        }
    }
}

#[test]
fn rotation_zeroes_its_target() {
    let m = worked_example();
    let pos = Position { row: 2, col: 0 };
    let u = m.build_rotation(pos);
    let t1 = u.transpose().multiply(&m).expect("in range");
    let w2 = t1.multiply(&u).expect("in range");
    // The targeted entry is driven to zero up to the fixed-point grain.
    assert!(entry_f64(&w2, 2, 0).abs() < 1e-6);
}

#[test]
fn reduce_on_clean_matrix_keeps_it() {
    let m = mat_of(&[
        &[1, 2, 3, 4],
        &[5, 6, 7, 6],
        &[0, 3, 11, 12],
        &[0, 0, 6, 7],
    ]);
    let red = m.reduce().expect("no step can overflow");
    assert!(red.rotations.is_empty());
    for i in 0..4 {
        for j in 0..4 {
            assert_eq!(red.reduced.entry(i, j), m.entry(i, j));
        }
    }
}

#[test]
fn reduce_records_one_rotation_per_position() {
    let m = worked_example();
    let positions = m.scan();
    let red = m.reduce().expect("in range throughout");
    assert_eq!(red.rotations.len(), positions.len());
    assert_eq!(red.reduced.dim(), 4);
}

#[test]
fn round_trip_reconstruction() {
    let m = worked_example();
    let red = m.reduce().expect("in range throughout");
    let rec = reconstruct(&m, &red.reduced, &red.rotations, 4)
        .expect("in range throughout");
    // The original comes back within one unit of the fourth digit.
    assert_entries_close(
        &rec.original_again,
        &[
            &[1, 2, 3, 4],
            &[5, 6, 7, 6],
            &[9, 3, 11, 12],
            &[12, 1, 6, 7],
        ],
        1e-4,
    );
    // The reduced matrix comes back within the same tolerance of the
    // working matrix the driver actually produced.
    let reference = red.reduced.round(4);
    for i in 0..4 {
        for j in 0..4 {
            let diff = (rec.reduced_again.entry(i, j) - reference.entry(i, j)).abs();
            assert!(diff <= 100_000, "entry ({}, {}) differs by {}", i, j, diff);
        }
    }
}

#[test]
fn reconstruct_with_no_rotations_rounds_both_inputs() {
    let m = mat_of(&[&[1, 2, 3], &[4, 5, 6], &[0, 8, 9]]);
    let rec = reconstruct(&m, &m, &Vec::new(), 4).expect("in range");
    for i in 0..3 {
        for j in 0..3 {
            assert_eq!(rec.reduced_again.entry(i, j), m.entry(i, j));
            assert_eq!(rec.original_again.entry(i, j), m.entry(i, j));
        }
    }
}

#[test]
fn scan_below_dimension_three_is_empty() {
    let m = mat_of(&[&[1, 2], &[3, 4]]);
    assert!(m.scan().is_empty());
    let one = mat_of(&[&[5]]);
    assert!(one.scan().is_empty());
}

#[test]
fn zero_pivot_runs_through_the_whole_pipeline() {
    // The pivot for position (2, 0) is m[1][0] == 0, so the builder must
    // take the degenerate right-angle branch.
    let m = mat_of(&[
        &[1, 2, 3, 4],
        &[0, 6, 7, 6],
        &[9, 3, 11, 12],
        &[0, 0, 6, 7],
    ]);
    let u = m.build_rotation(Position { row: 2, col: 0 });
    // Indices p = 1, q = 2: cosine 0 on both tied diagonal entries, sine
    // one above, minus one below.
    assert_eq!(u.entry(1, 1), 0);
    assert_eq!(u.entry(2, 2), 0);
    assert_eq!(u.entry(1, 2), SCALE);
    assert_eq!(u.entry(2, 1), -SCALE);
    // The degenerate rotation is exactly orthogonal.
    let product = u.multiply(&u.transpose()).expect("in range");
    let id = Matrix::identity(4);
    for i in 0..4 {
        for j in 0..4 {
            assert_eq!(product.entry(i, j), id.entry(i, j));
        }
    }
    // And the full pipeline still reconstructs the original.
    let red = m.reduce().expect("in range throughout");
    let rec = reconstruct(&m, &red.reduced, &red.rotations, 4).expect("in range throughout");
    assert_entries_close(
        &rec.original_again,
        &[
            &[1, 2, 3, 4],
            &[0, 6, 7, 6],
            &[9, 3, 11, 12],
            &[0, 0, 6, 7],
        ],
        1e-4,
    );
}

#[test]
fn round_to_zero_digits_keeps_whole_numbers() {
    let a = Matrix::from_rows(vec![
        vec![1_499_999_999, -2_500_000_000],
        vec![500_000_000, -499_999_999],
    ])
    .expect("in range");
    let r = a.round(0);
    assert_eq!(r.entry(0, 0), SCALE);
    assert_eq!(r.entry(0, 1), -3 * SCALE);
    assert_eq!(r.entry(1, 0), SCALE);
    assert_eq!(r.entry(1, 1), 0);
}

#[test]
fn isqrt_matches_perfect_and_imperfect_squares() {
    assert_eq!(isqrt(0), 0);
    assert_eq!(isqrt(1), 1);
    assert_eq!(isqrt(24), 4);
    assert_eq!(isqrt(25), 5);
    assert_eq!(isqrt(26), 5);
    assert_eq!(isqrt(25_000_000_000_000_000_000_000_000_000_000_000_000), 5_000_000_000_000_000_000);
}

#[test]
fn pow10_values() {
    assert_eq!(pow10_val(0), 1);
    assert_eq!(pow10_val(9), SCALE);
    assert_eq!(pow10_val(18), FXMAX);
}
