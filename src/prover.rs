//! One round of the proximity-testing protocol: fold, commit, sample, quotient.
use crate::coset::{coset_evals, Radix2Coset};
use crate::field::{fmul, fpow, is_elem, modulus};
use crate::hybrid::{HybridPseudoCompressionFunction, LeafHasher};
use crate::hybrid_merkle_tree::{max_log, padded_heights, tree_layers, Digest, HybridMerkleTree};
use crate::matrix::RowMajorMatrix;
use crate::mmcs::{opened_rows, rows_view, siblings};
use crate::hybrid_merkle_tree::digests_view;
use crate::polynomial::{
    add_coeffs, all_elems, points_wf, denominators_nonzero, divide_by_points, divides_exactly, lagrange_coeffs,
    lemma_divide_len, lemma_lagrange_len, lemma_trim_props, linear_quotient, mul_coeffs, poly_eval,
    power_coeffs, sub_coeffs, trim, vanishing_coeffs, Polynomial,
};
use crate::utils::{fold_coeffs, fold_polynomial};
use vstd::arithmetic::power2::pow2;
use vstd::prelude::*;

verus! {

/// The parameters of one round.
#[derive(Clone, Copy, Debug, PartialEq, Eq)]
pub struct RoundConfig {
    pub log_folding_factor: usize,
    pub log_inv_rate: usize,
    pub num_ood_samples: usize,
    pub num_queries: usize,
}

/// What the prover holds between rounds.
#[derive(Debug)]
pub struct StirWitness {
    pub domain: Radix2Coset,
    pub polynomial: Polynomial,
    pub merkle_tree: HybridMerkleTree,
    pub stacked_evals: RowMajorMatrix,
    pub round: usize,
    pub folding_randomness: u32,
}

/// The challenger's draws for one round, in the order they are drawn.
#[derive(Clone, Debug)]
pub struct RoundDraws {
    pub ood_samples: Vec<u32>,
    pub comb_randomness: u32,
    pub folding_randomness: u32,
    pub query_indices: Vec<usize>,
}

/// What one round sends: the openings of the previous commitment at the queried rows, and the
/// polynomials that let the verifier check the quotient.
#[derive(Debug)]
pub struct RoundProof {
    pub query_proofs: Vec<(Vec<Vec<u32>>, Vec<Digest>)>,
    pub ans_polynomial: Polynomial,
    pub shake_polynomial: Polynomial,
}

/// Why a round fails.
#[derive(Copy, Clone, Debug, PartialEq, Eq)]
pub enum RoundError {
    /// A queried row lies past the previous commitment.
    QueryOutOfRange,
    /// A Lagrange denominator of the quotient set is zero.
    RepeatedPoints,
    /// The folded polynomial minus its interpolant is not divisible by the vanishing
    /// polynomial of the quotient set.
    InexactDivision,
}

/// `s` with later repetitions dropped.
pub open spec fn dedup<T>(s: Seq<T>) -> Seq<T>
    decreases s.len(),
{
    if s.len() == 0 {
        Seq::empty()
    } else {
        let d = dedup(s.drop_last());
        if d.contains(s.last()) {
            d
        } else {
            d.push(s.last())
        }
    }
}

/// The points of the coset shrunk by `2^k` (shift and generator raised to `2^k`) at the
/// queried indices.
pub open spec fn stir_points(d: Radix2Coset, k: nat, idx: Seq<usize>) -> Seq<u32> {
    Seq::new(
        idx.len(),
        |i: int| fmul(fpow(d.shift as int, pow2(k)), fpow(fpow(d.generator as int, pow2(k)), idx[i] as nat)) as u32,
    )
}

/// The quotient set: the queried points, then the out-of-domain samples, without repetition.
pub open spec fn quotient_set(d: Radix2Coset, k: nat, idx: Seq<usize>, ood: Seq<u32>) -> Seq<u32> {
    dedup(stir_points(d, k, idx) + ood)
}

/// The points of `xs` with the values of `g` there.
pub open spec fn with_values(g: Seq<u32>, xs: Seq<u32>) -> Seq<(u32, u32)> {
    Seq::new(xs.len(), |i: int| (xs[i], poly_eval(g, xs[i] as int) as u32))
}

/// The sum over the first `n` points `(x, y)` of the quotient of `ans - y` by `x - x_i`.
pub open spec fn shake_partial(ans: Seq<u32>, points: Seq<(u32, u32)>, n: nat) -> Seq<u32>
    decreases n,
{
    if n == 0 {
        Seq::empty()
    } else {
        let (x, y) = points[n - 1];
        trim(
            add_coeffs(
                shake_partial(ans, points, (n - 1) as nat),
                trim(linear_quotient(trim(sub_coeffs(ans, trim(seq![y]))), x as int)),
            ),
        )
    }
}

/// The folded polynomial of a round.
pub open spec fn folded(w: StirWitness, k: nat) -> Seq<u32> {
    trim(fold_coeffs(w.polynomial@, w.folding_randomness as int, pow2(k)))
}

/// Whether every entry of `v` is below `bound`.
fn all_below(v: &Vec<usize>, bound: usize) -> (r: bool)
    ensures
        r == (forall|i: int| 0 <= i < v@.len() ==> (#[trigger] v@[i]) < bound),
{
    let mut t: usize = 0;
    while t < v.len()
        invariant
            t <= v@.len(),
            forall|i: int| 0 <= i < t ==> (#[trigger] v@[i]) < bound,
        decreases v.len() - t,
    {
        if v[t] >= bound {
            return false;
        }
        t = t + 1;
    }
    true
}

/// `s` without repetitions, keeping first occurrences.
fn dedup_u32(s: &Vec<u32>) -> (r: Vec<u32>)
    ensures
        r@ == dedup(s@),
        r@.len() <= s@.len(),
        forall|i: int| 0 <= i < r@.len() ==> s@.contains(#[trigger] r@[i]),
{
    let mut out: Vec<u32> = Vec::new();
    let mut i: usize = 0;
    while i < s.len()
        invariant
            i <= s@.len(),
            out@ == dedup(s@.subrange(0, i as int)),
            out@.len() <= i,
            forall|t: int| 0 <= t < out@.len() ==> s@.contains(#[trigger] out@[t]),
        decreases s.len() - i,
    {
        let x = s[i];
        let mut found = false;
        let mut j: usize = 0;
        while j < out.len()
            invariant
                j <= out@.len(),
                found == (exists|t: int| 0 <= t < j && out@[t] == x),
            decreases out.len() - j,
        {
            if out[j] == x {
                found = true;
            }
            j = j + 1;
        }
        assert(s@.subrange(0, i + 1).drop_last() == s@.subrange(0, i as int));
        assert(found == out@.contains(x));
        assert(s@[i as int] == x);
        if !found {
            out.push(x);
        }
        i = i + 1;
    }
    assert(s@.subrange(0, s@.len() as int) == s@);
    out
}

/// `s` without repetitions, keeping first occurrences.
fn dedup_usize(s: &Vec<usize>) -> (r: Vec<usize>)
    ensures
        r@ == dedup(s@),
        forall|i: int| 0 <= i < r@.len() ==> s@.contains(#[trigger] r@[i]),
{
    let mut out: Vec<usize> = Vec::new();
    let mut i: usize = 0;
    while i < s.len()
        invariant
            i <= s@.len(),
            out@ == dedup(s@.subrange(0, i as int)),
            forall|t: int| 0 <= t < out@.len() ==> s@.contains(#[trigger] out@[t]),
        decreases s.len() - i,
    {
        let x = s[i];
        let mut found = false;
        let mut j: usize = 0;
        while j < out.len()
            invariant
                j <= out@.len(),
                found == (exists|t: int| 0 <= t < j && out@[t] == x),
            decreases out.len() - j,
        {
            if out[j] == x {
                found = true;
            }
            j = j + 1;
        }
        assert(s@.subrange(0, i + 1).drop_last() == s@.subrange(0, i as int));
        assert(found == out@.contains(x));
        assert(s@[i as int] == x);
        if !found {
            out.push(x);
        }
        i = i + 1;
    }
    assert(s@.subrange(0, s@.len() as int) == s@);
    out
}

/// Runs one round on `witness` with the challenger's `draws`: folds the polynomial by
/// `2^log_folding_factor`, evaluates it on the domain shrunk by two and commits those
/// evaluations stacked in rows of the folding factor, forms the quotient set from the queried
/// points of the coset shrunk by the folding factor and the out-of-domain samples, and
/// quotients the folded polynomial by it. It opens the previous commitment at the queried
/// rows.
pub fn prove_round<H: LeafHasher, C: HybridPseudoCompressionFunction>(
    config: &RoundConfig,
    witness: StirWitness,
    draws: &RoundDraws,
    h: &H,
    c: &C,
) -> (r: Result<(StirWitness, RoundProof), RoundError>)
    requires
        witness.domain.wf(),
        witness.polynomial.wf(),
        witness.merkle_tree.committed(),
        witness.round < usize::MAX,
        is_elem(witness.folding_randomness),
        config.log_folding_factor < witness.domain.log_size,
        all_elems(draws.ood_samples@),
        is_elem(draws.comb_randomness),
        is_elem(draws.folding_randomness),
        witness.polynomial@.len() + 2 * (draws.query_indices@.len() + draws.ood_samples@.len()) + 2 <= usize::MAX,
    ensures
        ({
            let k = config.log_folding_factor as nat;
            let old_leaves = witness.merkle_tree.spec_leaves();
            let g = folded(witness, k);
            let q = quotient_set(witness.domain, k, draws.query_indices@, draws.ood_samples@);
            let points = with_values(g, q);
            let ans = lagrange_coeffs(points);
            let in_range = forall|i: int|
                0 <= i < draws.query_indices@.len() ==> (#[trigger] draws.query_indices@[i]) < pow2(
                    max_log(old_leaves),
                );
            match r {
                Ok((w, proof)) => {
                    &&& in_range
                    &&& denominators_nonzero(points)
                    &&& divides_exactly(trim(sub_coeffs(g, ans)), q)
                    &&& w.domain.wf()
                    &&& w.domain.log_size == witness.domain.log_size - 1
                    &&& w.domain.generator as int == fpow(witness.domain.generator as int, 2)
                    &&& w.domain.shift == witness.domain.shift
                    &&& w.domain.root_of_unity == witness.domain.root_of_unity
                    &&& w.round == witness.round + 1
                    &&& w.folding_randomness == draws.folding_randomness
                    &&& w.stacked_evals.width == pow2(k)
                    &&& w.stacked_evals.values@ == coset_evals(w.domain, g)
                    &&& w.merkle_tree.committed()
                    &&& w.merkle_tree.spec_leaves().len() == 1
                    &&& w.merkle_tree.spec_leaves()[0].values@ == w.stacked_evals.values@
                    &&& w.merkle_tree.spec_leaves()[0].width == w.stacked_evals.width
                    &&& w.merkle_tree.spec_layers() == tree_layers(*h, *c, w.merkle_tree.spec_leaves())
                    &&& w.polynomial.wf()
                    &&& w.polynomial@ == trim(
                        mul_coeffs(
                            trim(power_coeffs(draws.comb_randomness as int, q.len())),
                            divide_by_points(trim(sub_coeffs(g, ans)), q),
                        ),
                    )
                    &&& proof.ans_polynomial@ == ans
                    &&& forall|i: int| 0 <= i < q.len() ==> poly_eval(ans, (#[trigger] q[i]) as int) == poly_eval(g, q[i] as int)
                    &&& forall|x: int|
                        0 <= x < modulus() ==> #[trigger] poly_eval(trim(sub_coeffs(g, ans)), x) == fmul(
                            poly_eval(divide_by_points(trim(sub_coeffs(g, ans)), q), x),
                            poly_eval(vanishing_coeffs(q), x),
                        )
                    &&& proof.shake_polynomial@ == shake_partial(ans, points, points.len())
                    &&& proof.query_proofs@.len() == dedup(draws.query_indices@).len()
                    &&& forall|i: int|
                        0 <= i < proof.query_proofs@.len() ==> {
                            let idx = dedup(draws.query_indices@)[i];
                            &&& rows_view((#[trigger] proof.query_proofs@[i]).0@) == opened_rows(old_leaves, idx as nat)
                            &&& digests_view(proof.query_proofs@[i].1@) == siblings(
                                witness.merkle_tree.spec_layers(),
                                idx as nat,
                                max_log(old_leaves),
                            )
                        }
                },
                Err(e) => !(in_range && denominators_nonzero(points) && divides_exactly(trim(sub_coeffs(g, ans)), q)) && e == (if !in_range {
                    RoundError::QueryOutOfRange
                } else if !denominators_nonzero(points) {
                    RoundError::RepeatedPoints
                } else {
                    RoundError::InexactDivision
                }),
            }
        }),
{
    let k = config.log_folding_factor;
    let ghost old_leaves = witness.merkle_tree.spec_leaves();

    // Queried rows must lie in the previous commitment.
    let (_, _, rows_padded) = padded_heights(witness.merkle_tree.leaves());
    if !all_below(&draws.query_indices, rows_padded) {
        return Err(RoundError::QueryOutOfRange);
    }

    // Fold, and commit to the evaluations on the shrunk domain.
    let g = fold_polynomial(&witness.polynomial, witness.folding_randomness, k);
    let new_domain = witness.domain.shrink_subgroup(1);
    let evals = new_domain.evaluate_polynomial(&g);
    proof {
        vstd::arithmetic::power2::lemma2_to64();
        vstd::bits::lemma_usize_shl_is_mul(1, k);
        vstd::arithmetic::power2::lemma_pow2_adds(k as nat, (new_domain.log_size - k) as nat);
        vstd::arithmetic::div_mod::lemma_mod_multiples_basic(pow2((new_domain.log_size - k) as nat) as int, pow2(k as nat) as int);
        vstd::arithmetic::mul::lemma_mul_is_commutative(pow2((new_domain.log_size - k) as nat) as int, pow2(k as nat) as int);
        vstd::arithmetic::power2::lemma_pow2_pos(k as nat);
    }
    let stacked = RowMajorMatrix::new(evals, 1usize << k);
    let leaves = vec![stacked.duplicate()];
    // One well-formed matrix always commits.
    let new_tree = match HybridMerkleTree::new(h, c, leaves) {
        Ok(t) => t,
        Err(_) => vstd::pervasive::unreached(),
    };

    // The quotient set: queried points of the coset shrunk by the folding factor, then the
    // out-of-domain samples.
    let domain_k = witness.domain.shrink_coset(k);
    let mut all: Vec<u32> = Vec::new();
    let mut i: usize = 0;
    while i < draws.query_indices.len()
        invariant
            domain_k.wf(),
            domain_k.shift as int == fpow(witness.domain.shift as int, pow2(k as nat)),
            domain_k.generator as int == fpow(witness.domain.generator as int, pow2(k as nat)),
            all_elems(all@),
            i <= draws.query_indices@.len(),
            all@ == stir_points(witness.domain, k as nat, draws.query_indices@).subrange(0, i as int),
        decreases draws.query_indices.len() - i,
    {
        all.push(domain_k.element(draws.query_indices[i] as u64));
        i = i + 1;
    }
    i = 0;
    while i < draws.ood_samples.len()
        invariant
            all_elems(draws.ood_samples@),
            all_elems(all@),
            all@.len() == draws.query_indices@.len() + i,
            i <= draws.ood_samples@.len(),
            all@ == stir_points(witness.domain, k as nat, draws.query_indices@) + draws.ood_samples@.subrange(0, i as int),
        decreases draws.ood_samples.len() - i,
    {
        all.push(draws.ood_samples[i]);
        i = i + 1;
    }
    assert(draws.ood_samples@.subrange(0, draws.ood_samples@.len() as int) == draws.ood_samples@);
    let q = dedup_u32(&all);
    assert(all_elems(q@)) by {
        assert forall|t: int| 0 <= t < q@.len() implies is_elem(#[trigger] q@[t]) by {
            let u = choose|u: int| 0 <= u < all@.len() && all@[u] == q@[t];
        }
    }
    let ghost qs = quotient_set(witness.domain, k as nat, draws.query_indices@, draws.ood_samples@);

    // The folded polynomial's values on the quotient set, and their interpolant.
    let mut points: Vec<(u32, u32)> = Vec::new();
    i = 0;
    while i < q.len()
        invariant
            g.wf(),
            q@ == qs,
            all_elems(q@),
            i <= q@.len(),
            points_wf(points@),
            points@ == with_values(g@, q@).subrange(0, i as int),
        decreases q.len() - i,
    {
        points.push((q[i], g.evaluate(q[i])));
        i = i + 1;
    }
    assert(points@ =~= with_values(g@, q@));
    assert(points@.len() == q@.len());
    let ans = match Polynomial::lagrange_interpolation(&points) {
        Some(p) => p,
        None => {
            return Err(RoundError::RepeatedPoints);
        },
    };

    // The quotient, re-randomised by the powers of the combination randomness.
    assert(forall|i: int| 0 <= i < q@.len() ==> poly_eval(ans@, (#[trigger] q@[i]) as int) == poly_eval(g@, q@[i] as int)) by {
        assert forall|i: int| 0 <= i < q@.len() implies poly_eval(ans@, (#[trigger] q@[i]) as int) == poly_eval(g@, q@[i] as int) by {
            assert(points@[i] == (q@[i], poly_eval(g@, q@[i] as int) as u32));
        }
    }
    let diff = g.sub(&ans);
    let quotient = match diff.divide_by_points(&q) {
        Some(p) => p,
        None => {
            return Err(RoundError::InexactDivision);
        },
    };
    let power = Polynomial::power_polynomial(draws.comb_randomness, q.len());
    proof {
        lemma_trim_props(power_coeffs(draws.comb_randomness as int, q@.len()));
        lemma_divide_len(diff@, q@);
        lemma_trim_props(sub_coeffs(g@, ans@));
        lemma_lagrange_len(points@, points@.len());
        crate::utils::lemma_fold_len_le(witness.polynomial@.len(), pow2(k as nat));
        lemma_trim_props(fold_coeffs(witness.polynomial@, witness.folding_randomness as int, pow2(k as nat)));
    }
    let next_polynomial = power.mul(&quotient);

    // The shake polynomial: the sum of the quotients of ans - y by x - x_i.
    let mut shake = Polynomial::zero();
    i = 0;
    while i < points.len()
        invariant
            ans.wf(),
            ans@ == lagrange_coeffs(points@),
            points_wf(points@),
            i <= points@.len(),
            shake.wf(),
            shake@ == shake_partial(ans@, points@, i as nat),
        decreases points.len() - i,
    {
        let (x, y) = points[i];
        let shifted = ans.sub(&Polynomial::constant(y));
        let (quot, _) = shifted.divide_by_vanishing_linear_polynomial(x);
        shake = shake.add(&quot);
        i = i + 1;
    }

    // Open the previous commitment at the queried rows.
    let unique = dedup_usize(&draws.query_indices);
    let mut query_proofs: Vec<(Vec<Vec<u32>>, Vec<Digest>)> = Vec::new();
    i = 0;
    while i < unique.len()
        invariant
            witness.merkle_tree.committed(),
            old_leaves == witness.merkle_tree.spec_leaves(),
            forall|t: int| 0 <= t < draws.query_indices@.len() ==> (#[trigger] draws.query_indices@[t]) < pow2(max_log(old_leaves)),
            forall|t: int| 0 <= t < unique@.len() ==> draws.query_indices@.contains(#[trigger] unique@[t]),
            unique@ == dedup(draws.query_indices@),
            i <= unique@.len(),
            query_proofs@.len() == i,
            forall|t: int|
                0 <= t < i ==> {
                    let idx = unique@[t];
                    &&& rows_view((#[trigger] query_proofs@[t]).0@) == opened_rows(old_leaves, idx as nat)
                    &&& digests_view(query_proofs@[t].1@) == siblings(
                        witness.merkle_tree.spec_layers(),
                        idx as nat,
                        max_log(old_leaves),
                    )
                },
        decreases unique.len() - i,
    {
        query_proofs.push(witness.merkle_tree.open_batch(unique[i]));
        i = i + 1;
    }

    let next = StirWitness {
        domain: new_domain,
        polynomial: next_polynomial,
        merkle_tree: new_tree,
        stacked_evals: stacked,
        round: witness.round + 1,
        folding_randomness: draws.folding_randomness,
    };
    let proof = RoundProof { query_proofs, ans_polynomial: ans, shake_polynomial: shake };
    Ok((next, proof))
}

} // verus!
