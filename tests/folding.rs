use hybrid_stir::field::{add_mod, mul_mod};
use hybrid_stir::polynomial::Polynomial;
use hybrid_stir::utils::fold_polynomial;

#[test]
fn test_fold_polynomial() {
    let polynomial = Polynomial::from_coeffs(vec![1u32; 16]);
    let folding_randomness = 3u32;

    // log_folding_factor = 1
    assert_eq!(
        fold_polynomial(&polynomial, folding_randomness, 1).coeffs(),
        &vec![4u32, 4, 4, 4, 4, 4, 4, 4]
    );

    // log_folding_factor = 2
    assert_eq!(
        fold_polynomial(&polynomial, folding_randomness, 2).coeffs(),
        &vec![40u32, 40, 40, 40]
    );
}

/// Builds `f(x) = sum_t x^t f_t(x^B)` from the components and checks that folding it gives
/// `sum_t r^t f_t`.
#[test]
fn test_fold_backwards() {
    let log_folding_factor = 2usize;
    let folding_factor = 1usize << log_folding_factor;
    let folding_randomness = 123_456_789u32;
    let folds: Vec<Vec<u32>> = vec![
        vec![5, 17, 2_000_000_000, 9, 1, 44],
        vec![1, 0, 3, 7, 11, 13],
        vec![2_013_265_920, 6, 8, 10, 12, 14],
        vec![100, 200, 300, 400, 500, 600],
    ];
    let fold_len = folds[0].len();

    let mut coeffs = vec![0u32; fold_len * folding_factor];
    for (t, fold) in folds.iter().enumerate() {
        for (j, c) in fold.iter().enumerate() {
            coeffs[j * folding_factor + t] = *c;
        }
    }
    let polynomial = Polynomial::from_coeffs(coeffs);

    let mut expected = vec![0u32; fold_len];
    let mut power = 1u32;
    for fold in folds.iter() {
        for (j, c) in fold.iter().enumerate() {
            expected[j] = add_mod(expected[j], mul_mod(*c, power));
        }
        power = mul_mod(power, folding_randomness);
    }

    assert_eq!(
        fold_polynomial(&polynomial, folding_randomness, log_folding_factor),
        Polynomial::from_coeffs(expected)
    );
}

#[test]
fn fold_by_one_keeps_the_polynomial() {
    let polynomial = Polynomial::from_coeffs(vec![3, 1, 4, 1, 5]);
    assert_eq!(fold_polynomial(&polynomial, 7, 0), polynomial);
}

#[test]
fn fold_of_zero_polynomial_is_zero() {
    let folded = fold_polynomial(&Polynomial::zero(), 9, 3);
    assert!(folded.is_zero());
}

#[test]
fn fold_with_factor_above_length() {
    // 1 + 2x + 3x^2 folded by 8 with r = 2: 1 + 2*2 + 3*4 = 17.
    let polynomial = Polynomial::from_coeffs(vec![1, 2, 3]);
    assert_eq!(fold_polynomial(&polynomial, 2, 3).coeffs(), &vec![17u32]);
}

#[test]
fn from_coeffs_drops_trailing_zeros() {
    let polynomial = Polynomial::from_coeffs(vec![1, 0, 2, 0, 0]);
    assert_eq!(polynomial.coeffs(), &vec![1u32, 0, 2]);
    assert!(Polynomial::from_coeffs(vec![0, 0]).is_zero());
}

#[test]
fn evaluate_by_horner() {
    // 2 + 3x + x^2 at 5 is 42.
    let polynomial = Polynomial::from_coeffs(vec![2, 3, 1]);
    assert_eq!(polynomial.evaluate(5), 42);
    // -1 at any point is p - 1.
    let minus_one = Polynomial::from_coeffs(vec![2_013_265_920]);
    assert_eq!(minus_one.evaluate(12345), 2_013_265_920);
}

#[test]
fn polynomial_arithmetic() {
    let a = Polynomial::from_coeffs(vec![1, 2, 3]);
    let b = Polynomial::from_coeffs(vec![4, 5]);
    assert_eq!(a.add(&b).coeffs(), &vec![5u32, 7, 3]);
    assert_eq!(a.sub(&a).coeffs(), &Vec::<u32>::new());
    assert_eq!(a.sub(&b).coeffs(), &vec![2_013_265_918u32, 2_013_265_918, 3]);
    // (1 + 2x + 3x^2)(4 + 5x) = 4 + 13x + 22x^2 + 15x^3
    assert_eq!(a.mul(&b).coeffs(), &vec![4u32, 13, 22, 15]);
    assert_eq!(a.scale(2).coeffs(), &vec![2u32, 4, 6]);
    assert_eq!(Polynomial::power_polynomial(3, 4).coeffs(), &vec![1u32, 3, 9, 27]);
    assert_eq!(Polynomial::constant(0).coeffs(), &Vec::<u32>::new());
    assert_eq!(a.degree(), 2);
}

#[test]
fn vanishing_and_division() {
    // (x - 1)(x - 2) = 2 - 3x + x^2
    let v = Polynomial::vanishing_polynomial(&vec![1, 2]);
    assert_eq!(v.coeffs(), &vec![2u32, 2_013_265_918, 1]);
    assert_eq!(v.evaluate(1), 0);
    assert_eq!(v.evaluate(2), 0);
    // (x^2 + 1) / (x - 3): quotient x + 3, remainder 10.
    let p = Polynomial::from_coeffs(vec![1, 0, 1]);
    let (q, r) = p.divide_by_vanishing_linear_polynomial(3);
    assert_eq!(q.coeffs(), &vec![3u32, 1]);
    assert_eq!(r, 10);
    // v divides exactly by its roots, and not by another point.
    assert_eq!(v.divide_by_points(&vec![1, 2]).unwrap().coeffs(), &vec![1u32]);
    assert!(v.divide_by_points(&vec![3]).is_none());
}

#[test]
fn lagrange_interpolation_passes_through_the_points() {
    let points = vec![(1u32, 5u32), (2, 7), (10, 1_000)];
    let p = Polynomial::lagrange_interpolation(&points).unwrap();
    for (x, y) in points.iter() {
        assert_eq!(p.evaluate(*x), *y);
    }
    assert!(p.coeffs().len() <= 3);
    // A line through two points: 1 + 2x.
    let line = Polynomial::lagrange_interpolation(&vec![(0, 1), (1, 3)]).unwrap();
    assert_eq!(line.coeffs(), &vec![1u32, 2]);
    assert!(Polynomial::lagrange_interpolation(&vec![(4, 1), (4, 2)]).is_none());
}
