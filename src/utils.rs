//! Folding a polynomial by a power-of-two factor.
use crate::field::{add_mod, fadd, fmul, fpow, is_elem, lemma_fpow_adds, modulus, mul_mod};
use crate::polynomial::{all_elems, coeff_at, trim, Polynomial};
use vstd::arithmetic::power2::pow2;
use vstd::prelude::*;

verus! {

/// `sum_{t < r} c[j*b + t] * rho^t`: the first `r` terms of folded coefficient `j`.
pub open spec fn fold_sum(c: Seq<u32>, rho: int, b: nat, j: nat, r: nat) -> int
    decreases r,
{
    if r == 0 {
        0
    } else {
        fadd(
            fold_sum(c, rho, b, j, (r - 1) as nat),
            fmul(coeff_at(c, j * b + r - 1), fpow(rho, (r - 1) as nat)),
        )
    }
}

/// The number of coefficients after folding `n` of them by `b`.
pub open spec fn fold_len(n: nat, b: nat) -> nat {
    if b == 0 {
        0
    } else {
        ((n + b - 1) / (b as int)) as nat
    }
}

/// The coefficients of `c` folded by `b` with randomness `rho`: coefficient `j` is
/// `sum_{t < b} c[j*b + t] * rho^t`.
pub open spec fn fold_coeffs(c: Seq<u32>, rho: int, b: nat) -> Seq<u32> {
    Seq::new(fold_len(c.len(), b), |j: int| fold_sum(c, rho, b, j as nat, b) as u32)
}

proof fn lemma_fold_sum_range(c: Seq<u32>, rho: int, b: nat, j: nat, r: nat)
    ensures
        0 <= fold_sum(c, rho, b, j, r) < modulus(),
    decreases r,
{
    if r > 0 {
        lemma_fold_sum_range(c, rho, b, j, (r - 1) as nat);
    }
}

/// Terms past the end of `c` add nothing.
proof fn lemma_fold_sum_past_end(c: Seq<u32>, rho: int, b: nat, j: nat, r: nat, r2: nat)
    requires
        r <= r2,
        j * b + r >= c.len(),
    ensures
        fold_sum(c, rho, b, j, r2) == fold_sum(c, rho, b, j, r),
    decreases r2,
{
    if r2 > r {
        lemma_fold_sum_past_end(c, rho, b, j, r, (r2 - 1) as nat);
        lemma_fold_sum_range(c, rho, b, j, (r2 - 1) as nat);
        assert(coeff_at(c, j * b + r2 - 1) == 0);
        vstd::arithmetic::div_mod::lemma_small_mod(
            fold_sum(c, rho, b, j, (r2 - 1) as nat) as nat,
            modulus() as nat,
        );
    }
}

/// Folds `polynomial` by `2^log_folding_factor`: coefficient `j` of the result is
/// `sum_t f[j*B + t] * rho^t` for `t < B`, which is `sum_t rho^t f_t(x)` where
/// `f(x) = sum_t x^t f_t(x^B)`.
pub fn fold_polynomial(polynomial: &Polynomial, folding_randomness: u32, log_folding_factor: usize) -> (r: Polynomial)
    requires
        polynomial.wf(),
        is_elem(folding_randomness),
        log_folding_factor < usize::BITS,
    ensures
        r.wf(),
        r@ == trim(fold_coeffs(polynomial@, folding_randomness as int, pow2(log_folding_factor as nat))),
{
    proof {
        vstd::bits::lemma_usize_pow2_no_overflow(log_folding_factor as nat);
        vstd::bits::lemma_usize_shl_is_mul(1, log_folding_factor);
    }
    let folding_factor: usize = 1usize << log_folding_factor;
    let coeffs = polynomial.coeffs();
    let n = coeffs.len();
    let q: usize = n / folding_factor;
    proof {
        vstd::arithmetic::div_mod::lemma_fundamental_div_mod(n as int, folding_factor as int);
        let qq = q as int;
        let bb = folding_factor as int;
        if n % folding_factor != 0 {
            assert(qq < n) by (nonlinear_arith)
                requires
                    bb >= 1,
                    qq >= 0,
                    bb * qq + n % folding_factor == n,
                    n % folding_factor > 0,
            ;
        }
    }
    let fold_size: usize = if n % folding_factor == 0 { q } else { q + 1 };
    let ghost c = polynomial@;
    let ghost rho = folding_randomness as int;
    let ghost b = folding_factor as nat;
    proof {
        let q = n as int / b as int;
        let rm = n as int % b as int;
        vstd::arithmetic::div_mod::lemma_fundamental_div_mod(n as int, b as int);
        vstd::arithmetic::mul::lemma_mul_is_commutative(b as int, q);
        if rm == 0 {
            vstd::arithmetic::div_mod::lemma_fundamental_div_mod_converse(n + b - 1, b as int, q, b - 1);
        } else {
            assert((q + 1) * b == q * b + b) by (nonlinear_arith);
            vstd::arithmetic::div_mod::lemma_fundamental_div_mod_converse(n + b - 1, b as int, q + 1, rm - 1);
        }
    }
    let mut folded: Vec<u32> = Vec::new();
    let mut j: usize = 0;
    while j < fold_size
        invariant
            n == c.len(),
            c == polynomial@,
            coeffs@ == c,
            polynomial.wf(),
            b == folding_factor,
            b > 0,
            rho == folding_randomness,
            is_elem(folding_randomness),
            fold_size == fold_len(n as nat, b),
            j <= fold_size,
            folded@.len() == j,
            forall|k: int| 0 <= k < j ==> folded@[k] == fold_coeffs(c, rho, b)[k],
            all_elems(folded@),
        decreases fold_size - j,
    {
        proof {
            let bq = (n + b - 1) as int / b as int;
            vstd::arithmetic::div_mod::lemma_fundamental_div_mod((n + b - 1) as int, b as int);
            vstd::arithmetic::div_mod::lemma_mod_bound((n + b - 1) as int, b as int);
            let jj = j as int;
            let bb = b as int;
            assert(jj * bb < n) by (nonlinear_arith)
                requires
                    jj + 1 <= bq,
                    bb > 0,
                    n + bb - 1 >= bb * bq,
            ;
        }
        let base: usize = j * folding_factor;
        let mut acc: u32 = 0;
        let mut pw: u32 = 1;
        let mut t: usize = 0;
        proof {
            vstd::arithmetic::power::lemma_pow0(rho);
            vstd::arithmetic::div_mod::lemma_small_mod(1, modulus() as nat);
        }
        while t < folding_factor && base + t < n
            invariant
                n == c.len(),
                c == polynomial@,
                polynomial.wf(),
                base == j * b,
                base < n,
                base + t <= n,
                b == folding_factor,
                t <= b,
                rho == folding_randomness,
                coeffs@ == c,
                is_elem(folding_randomness),
                is_elem(acc),
                is_elem(pw),
                acc as int == fold_sum(c, rho, b, j as nat, t as nat),
                pw as int == fpow(rho, t as nat),
            decreases b - t,
        {
            proof {
                lemma_fpow_adds(rho, t as nat, 1);
                vstd::arithmetic::power::lemma_pow1(rho);
                vstd::arithmetic::div_mod::lemma_small_mod(rho as nat, modulus() as nat);
                vstd::arithmetic::mul::lemma_mul_is_commutative(pw as int, rho);
            }
            acc = add_mod(acc, mul_mod(coeffs[base + t], pw));
            pw = mul_mod(pw, folding_randomness);
            t = t + 1;
        }
        proof {
            if t < folding_factor {
                lemma_fold_sum_past_end(c, rho, b, j as nat, t as nat, b);
            }
        }
        folded.push(acc);
        j = j + 1;
    }
    assert(folded@ == fold_coeffs(c, rho, b));
    Polynomial::from_coeffs(folded)
}

/// The coefficients of `sum_t x^t f_t(x^B)` up to degree `B*m`, for the `B = comps.len()`
/// components `f_t`: coefficient `j*B + t` is coefficient `j` of `f_t`.
pub open spec fn interleave(comps: Seq<Seq<u32>>, m: nat) -> Seq<u32> {
    Seq::new(
        comps.len() * m,
        |i: int| coeff_at(comps[i % (comps.len() as int)], i / (comps.len() as int)) as u32,
    )
}

/// `sum_{t < r} rho^t * f_t[j]`: coefficient `j` of the first `r` components weighted by
/// powers of `rho`.
pub open spec fn weighted_sum(comps: Seq<Seq<u32>>, rho: int, j: nat, r: nat) -> int
    decreases r,
{
    if r == 0 {
        0
    } else {
        fadd(
            weighted_sum(comps, rho, j, (r - 1) as nat),
            fmul(coeff_at(comps[r - 1], j as int), fpow(rho, (r - 1) as nat)),
        )
    }
}

/// Folding the reconstruction `f(x) = sum_t x^t f_t(x^B)` from `B` components of length at
/// most `m` gives `sum_t rho^t f_t`, coefficient by coefficient.
pub proof fn lemma_fold_of_interleave(comps: Seq<Seq<u32>>, m: nat, rho: int)
    requires
        comps.len() > 0,
        forall|t: int| 0 <= t < comps.len() ==> (#[trigger] comps[t]).len() <= m,
    ensures
        fold_coeffs(interleave(comps, m), rho, comps.len()) == Seq::new(
            m,
            |j: int| weighted_sum(comps, rho, j as nat, comps.len()) as u32,
        ),
{
    let b = comps.len();
    let c = interleave(comps, m);
    assert(fold_len(c.len(), b) == m) by {
        vstd::arithmetic::mul::lemma_mul_is_commutative(b as int, m as int);
        vstd::arithmetic::div_mod::lemma_fundamental_div_mod_converse(
            (b * m + b - 1) as int,
            b as int,
            m as int,
            b - 1,
        );
    }
    assert forall|j: int| 0 <= j < m implies #[trigger] fold_sum(c, rho, b, j as nat, b)
        == weighted_sum(comps, rho, j as nat, b) by {
        lemma_fold_sum_interleave(comps, m, rho, j as nat, b);
    }
    assert(fold_coeffs(c, rho, b) =~= Seq::new(
        m,
        |j: int| weighted_sum(comps, rho, j as nat, comps.len()) as u32,
    ));
}

proof fn lemma_fold_sum_interleave(comps: Seq<Seq<u32>>, m: nat, rho: int, j: nat, r: nat)
    requires
        comps.len() > 0,
        j < m,
        r <= comps.len(),
    ensures
        fold_sum(interleave(comps, m), rho, comps.len(), j, r) == weighted_sum(comps, rho, j, r),
    decreases r,
{
    if r > 0 {
        let b = comps.len();
        lemma_fold_sum_interleave(comps, m, rho, j, (r - 1) as nat);
        let i = j * b + r - 1;
        vstd::arithmetic::div_mod::lemma_fundamental_div_mod_converse(i, b as int, j as int, r - 1);
        assert(i < b * m) by (nonlinear_arith)
            requires
                i == j * b + r - 1,
                r <= b,
                j + 1 <= m,
        ;
        vstd::arithmetic::mul::lemma_mul_is_commutative(b as int, m as int);
    }
}

/// Folding never lengthens: `ceil(n / b) <= n`.
pub proof fn lemma_fold_len_le(n: nat, b: nat)
    requires
        b >= 1,
    ensures
        fold_len(n, b) <= n,
{
    let x = (n + b - 1) as int;
    vstd::arithmetic::div_mod::lemma_fundamental_div_mod(x, b as int);
    let q = x / (b as int);
    vstd::arithmetic::div_mod::lemma_mod_bound(x, b as int);
    assert(q <= n) by (nonlinear_arith)
        requires
            x == b * q + x % (b as int),
            0 <= x % (b as int),
            x == n + b - 1,
            b >= 1,
    ;
}

} // verus!
