use hybrid_stir::coset::Radix2Coset;
use hybrid_stir::field::{add_mod, exp_power_of_2, exp_u64, mul_mod, neg_mod, sub_mod, P, TWO_ADICITY};
use hybrid_stir::polynomial::Polynomial;

#[test]
fn arithmetic_wraps_at_the_modulus() {
    assert_eq!(add_mod(P - 1, 5), 4);
    assert_eq!(sub_mod(3, 5), P - 2);
    assert_eq!(neg_mod(1), P - 1);
    assert_eq!(neg_mod(0), 0);
    assert_eq!(mul_mod(P - 1, P - 1), 1);
    assert_eq!(mul_mod(1 << 20, 1 << 20), ((1u64 << 40) % P as u64) as u32);
}

#[test]
fn powers() {
    assert_eq!(exp_u64(3, 0), 1);
    assert_eq!(exp_u64(3, 4), 81);
    assert_eq!(exp_u64(2, 31), ((1u64 << 31) % P as u64) as u32);
    assert_eq!(exp_power_of_2(3, 2), 81);
    // Fermat: a^(p-1) = 1.
    assert_eq!(exp_u64(12345, (P - 1) as u64), 1);
}

#[test]
fn interpolation_divides_by_the_size() {
    // On the subgroup of order 2, the values (a, b) come from (a + b)/2 + (a - b)/2 x; the
    // division by two goes through the field inverse.
    let coset = Radix2Coset::new(1, 1);
    let p = coset.interpolate_evals(vec![3, 1]);
    assert_eq!(p.coeffs(), &vec![2u32, 1]);
    let q = coset.interpolate_evals(vec![1, 0]);
    let half = (P + 1) / 2;
    assert_eq!(q.coeffs(), &vec![half, half]);
    assert_eq!(mul_mod(half, 2), 1);
    // A line through two points needs the inverse of their distance.
    let line = Polynomial::lagrange_interpolation(&vec![(0, 0), (3, 1)]).unwrap();
    assert_eq!(mul_mod(line.coeffs()[1], 3), 1);
}

#[test]
fn two_adic_generators_have_their_order() {
    assert_eq!(Radix2Coset::new(1, 0).generator(), 1);
    assert_eq!(Radix2Coset::new(1, 1).generator(), P - 1);
    for bits in 1..=TWO_ADICITY {
        let g = Radix2Coset::new(1, bits).generator();
        assert_eq!(exp_power_of_2(g, bits), 1);
        assert_eq!(exp_power_of_2(g, bits - 1), P - 1);
    }
}
