use hybrid_stir::challenger::{draw_round, MockChallenger};
use hybrid_stir::coset::Radix2Coset;
use hybrid_stir::field::{exp_u64, mul_mod, sub_mod, P};
use hybrid_stir::hash::{Blake3, Keccak256};
use hybrid_stir::hybrid::{IdentityConverter, SimpleHybridCompressor};
use hybrid_stir::hybrid_merkle_tree::HybridMerkleTree;
use hybrid_stir::matrix::{Dimensions, RowMajorMatrix};
use hybrid_stir::mmcs::verify_batch;
use hybrid_stir::polynomial::Polynomial;
use hybrid_stir::prover::{prove_round, RoundConfig, RoundError, StirWitness};
use hybrid_stir::utils::fold_polynomial;

type Hybrid = SimpleHybridCompressor<Blake3, Keccak256, IdentityConverter>;

fn hybrid() -> Hybrid {
    SimpleHybridCompressor::new(Blake3, Keccak256)
}

/// The inverse by Fermat's little theorem.
fn inverse(x: u32) -> u32 {
    exp_u64(x, (P - 2) as u64)
}

fn field_element_from_isize(x: isize) -> u32 {
    if x >= 0 {
        x as u32 % P
    } else {
        sub_mod(0, (-x) as u32 % P)
    }
}

struct Setup {
    witness: StirWitness,
    start_domain: Radix2Coset,
    root: [u8; 32],
    dims: Dimensions,
}

fn setup(f: &Polynomial, log_size: usize, log_folding_factor: usize, folding_randomness: u32) -> Setup {
    let domain = Radix2Coset::new(1, log_size);
    let start_domain = domain.set_shift(domain.generator());
    let evals = start_domain.evaluate_polynomial(f);
    let stacked = RowMajorMatrix::new(evals, 1 << log_folding_factor);
    let dims = stacked.dimensions();
    let tree = HybridMerkleTree::new(&Blake3, &hybrid(), vec![stacked.clone()]).unwrap();
    let root = tree.root();
    let witness = StirWitness {
        domain: start_domain,
        polynomial: f.clone(),
        merkle_tree: tree,
        stacked_evals: stacked,
        round: 0,
        folding_randomness,
    };
    Setup { witness, start_domain, root, dims }
}

#[test]
fn test_prove_round_zero() {
    // Starting degree 2^3, inverse rate 2^1, folding factor 2^1.
    let (log_degree, log_inv_rate, log_folding_factor) = (3usize, 1usize, 1usize);
    let config = RoundConfig { log_folding_factor, log_inv_rate, num_ood_samples: 2, num_queries: 4 };

    // ood samples, then comb_randomness, folding_randomness, and one reply left unused.
    let mut field_replies: Vec<u32> = (0..config.num_ood_samples as u32).map(|x| 3 * x).collect();
    field_replies.extend([1, 1, 1]);
    let log_size_second_codeword = log_degree + log_inv_rate - log_folding_factor;
    let bit_replies: Vec<usize> = (0..config.num_queries).map(|i| i % (1 << log_size_second_codeword)).collect();
    let mut challenger = MockChallenger::new(field_replies, bit_replies.clone());
    let draws = draw_round(&mut challenger, &config).unwrap();

    // Starting polynomial: -2 + 17x + 42x^2 + 3x^3 - x^4 - x^5 + 4x^6 + 5x^7
    let coeffs: Vec<u32> = vec![-2, 17, 42, 3, -1, -1, 4, 5].into_iter().map(field_element_from_isize).collect();
    let f = Polynomial::from_coeffs(coeffs);
    let s = setup(&f, log_degree + log_inv_rate, log_folding_factor, 2);

    let (witness, round_proof) = prove_round(&config, s.witness, &draws, &Blake3, &hybrid()).unwrap();

    let expected_domain = s.start_domain.shrink_subgroup(1);
    assert_eq!(witness.domain.generator(), expected_domain.generator());
    assert_eq!(witness.domain.shift(), expected_domain.shift());
    assert_eq!(witness.domain.log_size(), expected_domain.log_size());
    assert_eq!(witness.folding_randomness, 1);
    assert_eq!(witness.round, 1);

    // The quotient set is as large as the folded degree bound, so the interpolant is exact.
    assert!(witness.polynomial.is_zero());
    for i in 0..(1u64 << witness.domain.log_size()) {
        assert_eq!(witness.polynomial.evaluate(witness.domain.element(i)), 0);
    }

    let mut unique: Vec<usize> = Vec::new();
    for i in bit_replies {
        if !unique.contains(&i) {
            unique.push(i);
        }
    }
    assert_eq!(round_proof.query_proofs.len(), unique.len());
    for (&i, (leaf, proof)) in unique.iter().zip(round_proof.query_proofs.iter()) {
        verify_batch(&Blake3, &hybrid(), &s.root, &vec![s.dims], i, leaf, proof).unwrap();
    }
}

#[test]
fn test_prove_round_large() {
    let (log_degree, log_inv_rate, log_folding_factor) = (6usize, 2usize, 2usize);
    let config = RoundConfig { log_folding_factor, log_inv_rate, num_ood_samples: 2, num_queries: 5 };
    let r_0 = 987_654_321u32;
    let r_1 = 55_555u32;
    let comb_randomness = 1_234_567u32;
    let ood_randomness = vec![777_777u32, 999_999_999];
    let mut field_replies = ood_randomness.clone();
    field_replies.extend([comb_randomness, r_1, 42]);
    let log_size_second_codeword = log_degree - log_folding_factor + log_inv_rate;
    let bit_replies: Vec<usize> =
        [3usize, 17, 3, 60, 41].iter().map(|i| i % (1 << log_size_second_codeword)).collect();
    let mut challenger = MockChallenger::new(field_replies, bit_replies.clone());
    let draws = draw_round(&mut challenger, &config).unwrap();

    let coeffs: Vec<u32> = (0..(1u32 << log_degree)).map(|i| (i * i * 7919 + 13) % P).collect();
    let f_0 = Polynomial::from_coeffs(coeffs);
    let s = setup(&f_0, log_degree + log_inv_rate, log_folding_factor, r_0);

    let (witness, round_proof) = prove_round(&config, s.witness, &draws, &Blake3, &hybrid()).unwrap();
    assert_eq!(witness.domain.log_size(), s.start_domain.log_size() - 1);
    assert_eq!(witness.folding_randomness, r_1);
    assert_eq!(witness.round, 1);

    // The quotient set: queried points of the coset shrunk by the folding factor, then the
    // out-of-domain samples, without repetition.
    let g_1 = fold_polynomial(&f_0, r_0, log_folding_factor);
    let pow_k = s.start_domain.shrink_coset(log_folding_factor);
    let mut quotient_set: Vec<u32> = Vec::new();
    for x in bit_replies.iter().map(|&i| pow_k.element(i as u64)).chain(ood_randomness.iter().copied()) {
        if !quotient_set.contains(&x) {
            quotient_set.push(x);
        }
    }
    assert_eq!(quotient_set.len(), 6);
    let points: Vec<(u32, u32)> = quotient_set.iter().map(|&x| (x, g_1.evaluate(x))).collect();
    let expected_ans = Polynomial::lagrange_interpolation(&points).unwrap();
    assert_eq!(round_proof.ans_polynomial, expected_ans);
    for &(x, y) in points.iter() {
        assert_eq!(expected_ans.evaluate(x), y);
    }

    // f_1 = power(comb) * (g_1 - ans) / vanishing, checked at a point outside the set.
    let z = 31_337u32;
    let vanishing = Polynomial::vanishing_polynomial(&quotient_set);
    let power = Polynomial::power_polynomial(comb_randomness, quotient_set.len());
    let expected = mul_mod(
        power.evaluate(z),
        mul_mod(sub_mod(g_1.evaluate(z), expected_ans.evaluate(z)), inverse(vanishing.evaluate(z))),
    );
    assert_eq!(witness.polynomial.evaluate(z), expected);
    assert_eq!(
        witness.polynomial,
        power.mul(&g_1.sub(&expected_ans).divide_by_points(&quotient_set).unwrap())
    );

    // The shake polynomial: sum of (ans - y) / (x - x_i).
    let mut shake_at_z = 0u32;
    for &(x, y) in points.iter() {
        let term = mul_mod(sub_mod(expected_ans.evaluate(z), y), inverse(sub_mod(z, x)));
        shake_at_z = hybrid_stir::field::add_mod(shake_at_z, term);
    }
    assert_eq!(round_proof.shake_polynomial.evaluate(z), shake_at_z);

    assert_eq!(round_proof.query_proofs.len(), 4);
    let unique = [3usize, 17, 60, 41];
    for (&i, (leaf, proof)) in unique.iter().zip(round_proof.query_proofs.iter()) {
        verify_batch(&Blake3, &hybrid(), &s.root, &vec![s.dims], i, leaf, proof).unwrap();
    }

    // The new commitment holds the folded polynomial's values on the shrunk domain.
    let evals = witness.domain.evaluate_polynomial(&g_1);
    assert_eq!(witness.stacked_evals.values, evals);
    assert_eq!(witness.stacked_evals.width, 1 << log_folding_factor);
    let new_tree = HybridMerkleTree::new(&Blake3, &hybrid(), vec![witness.stacked_evals.clone()]).unwrap();
    assert_eq!(witness.merkle_tree.root(), new_tree.root());
}

#[test]
fn queries_past_the_commitment_are_refused() {
    let config = RoundConfig { log_folding_factor: 1, log_inv_rate: 1, num_ood_samples: 1, num_queries: 1 };
    let mut challenger = MockChallenger::new(vec![5, 1, 1], vec![8]);
    let draws = draw_round(&mut challenger, &config).unwrap();
    let f = Polynomial::from_coeffs(vec![1, 2, 3, 4]);
    let s = setup(&f, 4, 1, 2);
    let r = prove_round(&config, s.witness, &draws, &Blake3, &hybrid());
    assert_eq!(r.err(), Some(RoundError::QueryOutOfRange));
}

#[test]
fn challenger_running_out_gives_nothing() {
    let config = RoundConfig { log_folding_factor: 1, log_inv_rate: 1, num_ood_samples: 2, num_queries: 2 };
    let mut short_fields = MockChallenger::new(vec![1, 2, 3], vec![0, 1]);
    assert!(draw_round(&mut short_fields, &config).is_none());
    let mut short_bits = MockChallenger::new(vec![1, 2, 3, 4], vec![0]);
    assert!(draw_round(&mut short_bits, &config).is_none());
    let mut enough = MockChallenger::new(vec![1, 2, 3, 4, 5], vec![0, 1, 2]);
    let d = draw_round(&mut enough, &config).unwrap();
    assert_eq!(d.ood_samples, vec![1, 2]);
    assert_eq!(d.comb_randomness, 3);
    assert_eq!(d.folding_randomness, 4);
    assert_eq!(d.query_indices, vec![0, 1]);
    assert_eq!(enough.sample_field_element(), Some(5));
    assert_eq!(enough.sample_bits(), Some(2));
    assert_eq!(enough.sample_bits(), None);
}
