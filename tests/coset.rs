use hybrid_stir::coset::Radix2Coset;
use hybrid_stir::field::{exp_u64, mul_mod, P};
use hybrid_stir::matrix::RowMajorMatrix;
use hybrid_stir::polynomial::Polynomial;

fn sample_polynomial() -> Polynomial {
    // -2 + 17x + 42x^2 + 3x^3 - x^4 - x^5 + 4x^6 + 5x^7
    Polynomial::from_coeffs(vec![P - 2, 17, 42, 3, P - 1, P - 1, 4, 5])
}

#[test]
fn element_is_shift_times_generator_power() {
    let coset = Radix2Coset::new(7, 4);
    let g = coset.generator();
    assert_eq!(exp_u64(g, 16), 1);
    assert_ne!(exp_u64(g, 8), 1);
    assert_eq!(coset.element(0), 7);
    assert_eq!(coset.element(5), mul_mod(7, exp_u64(g, 5)));
    assert_eq!(coset.element(16), 7);
}

#[test]
fn coset_round_trip() {
    let f = sample_polynomial();
    for (shift, log_size) in [(1u32, 3usize), (31, 3), (31, 4), (5, 6)] {
        let coset = Radix2Coset::new(shift, log_size);
        let evals = coset.evaluate_polynomial(&f);
        assert_eq!(evals.len(), 1 << log_size);
        assert_eq!(coset.interpolate_evals(evals), f);
    }
}

#[test]
fn evaluations_match_direct_evaluation() {
    let f = sample_polynomial();
    let coset = Radix2Coset::new(11, 3);
    let coset = coset.set_shift(coset.generator());
    let evals = coset.evaluate_polynomial(&f);
    for (i, e) in evals.iter().enumerate() {
        assert_eq!(*e, f.evaluate(coset.element(i as u64)));
    }
}

#[test]
fn interpolate_pads_short_evaluations() {
    // Values (c, 0, 0, 0) on the subgroup of order 4 come from c/4 * (1 + x + x^2 + x^3).
    let coset = Radix2Coset::new(1, 2);
    let p = coset.interpolate_evals(vec![8]);
    assert_eq!(p.coeffs(), &vec![2u32, 2, 2, 2]);
}

#[test]
fn evaluate_interpolation_off_domain() {
    let f = Polynomial::from_coeffs(vec![3, 0, 1, 9]);
    let g = Polynomial::from_coeffs(vec![1, 2]);
    let coset = Radix2Coset::new(3, 2);
    let fe = coset.evaluate_polynomial(&f);
    let ge = coset.evaluate_polynomial(&g);
    let mut values = Vec::new();
    for i in 0..4 {
        values.push(fe[i]);
        values.push(ge[i]);
    }
    let matrix = RowMajorMatrix::new(values, 2);
    let point = 1_000_000;
    assert_eq!(
        coset.evaluate_interpolation(&matrix, point),
        vec![f.evaluate(point), g.evaluate(point)]
    );
}

#[test]
fn shrinking_and_shifting() {
    let coset = Radix2Coset::new(5, 4);
    let g = coset.generator();
    let sub = coset.shrink_subgroup(1);
    assert_eq!(sub.log_size(), 3);
    assert_eq!(sub.generator(), mul_mod(g, g));
    assert_eq!(sub.shift(), 5);
    let shrunk = coset.shrink_coset(2);
    assert_eq!(shrunk.log_size(), 2);
    assert_eq!(shrunk.shift(), 625);
    assert_eq!(shrunk.generator(), exp_u64(g, 4));
    assert_eq!(coset.shift_by(3).shift(), 15);
    assert_eq!(coset.shift_by_root_of_unity().shift(), mul_mod(5, g));
    assert_eq!(coset.set_shift(9).shift(), 9);
    assert_eq!(
        Radix2Coset::new_from_degree_and_rate(3, 1).log_size(),
        Radix2Coset::new(1, 4).log_size()
    );
}

#[test]
fn membership_and_equality() {
    let coset = Radix2Coset::new(1, 3);
    let g = coset.generator();
    assert!(coset.contains(g));
    assert!(coset.contains(1));
    assert!(!coset.contains(2));
    let sub = coset.shrink_subgroup(1);
    // A shift inside the subgroup gives the same coset; one outside does not.
    assert_eq!(sub, sub.set_shift(mul_mod(g, g)));
    assert_eq!(sub.set_shift(mul_mod(g, g)), sub);
    assert!(sub.set_shift(g) != sub);
    assert!(Radix2Coset::new(2, 3) != coset);
}
