//! The coset transform and its inverse undo each other: sums of powers of roots of unity.
use crate::coset::{coset_evals, coset_idft, dft_sum, Radix2Coset};
use crate::field::{
    fadd, finv, fmul, fpow, lemma_fadd_assoc, lemma_fadd_swap, lemma_fadd_zero, lemma_finv, lemma_fmul_assoc,
    lemma_fmul_comm, lemma_fmul_distrib, lemma_fmul_one_zero, lemma_fpow_adds, lemma_fpow_multiplies,
    lemma_neg_one_squared, modulus, P, TWO_ADICITY,
};
use crate::polynomial::{all_elems, coeff_at, fsum, poly_eval, trim, Polynomial};
use vstd::arithmetic::power2::pow2;
use vstd::prelude::*;

verus! {

proof fn lemma_fsum_range(f: spec_fn(int) -> int, n: nat)
    ensures
        0 <= fsum(f, n) < modulus(),
    decreases n,
{
    if n > 0 {
        lemma_fsum_range(f, (n - 1) as nat);
    }
}

/// Sums of pointwise equal terms are equal.
pub proof fn lemma_fsum_ext(f: spec_fn(int) -> int, g: spec_fn(int) -> int, n: nat)
    requires
        forall|i: int| 0 <= i < n ==> #[trigger] f(i) == g(i),
    ensures
        fsum(f, n) == fsum(g, n),
    decreases n,
{
    if n > 0 {
        lemma_fsum_ext(f, g, (n - 1) as nat);
    }
}

/// The sum of termwise sums is the sum of the sums.
pub proof fn lemma_fsum_add(f: spec_fn(int) -> int, g: spec_fn(int) -> int, n: nat)
    ensures
        fsum(|i: int| fadd(f(i), g(i)), n) == fadd(fsum(f, n), fsum(g, n)),
    decreases n,
{
    if n > 0 {
        lemma_fsum_add(f, g, (n - 1) as nat);
        lemma_fadd_swap(fsum(f, (n - 1) as nat), fsum(g, (n - 1) as nat), f(n - 1), g(n - 1));
    } else {
        lemma_fadd_zero(0);
    }
}

/// A sum over `a + b` terms splits after the first `a`.
pub proof fn lemma_fsum_concat(f: spec_fn(int) -> int, a: nat, b: nat)
    ensures
        fsum(f, a + b) == fadd(fsum(f, a), fsum(|i: int| f(a + i), b)),
    decreases b,
{
    if b == 0 {
        lemma_fsum_range(f, a);
        lemma_fadd_zero(fsum(f, a));
    } else {
        lemma_fsum_concat(f, a, (b - 1) as nat);
        let g = |i: int| f(a + i);
        assert(fsum(f, a + b) == fadd(fsum(f, (a + b - 1) as nat), f(a + b - 1)));
        assert(fsum(g, b) == fadd(fsum(g, (b - 1) as nat), g(b - 1)));
        lemma_fadd_assoc(fsum(f, a), fsum(g, (b - 1) as nat), f(a + b - 1));
    }
}

/// A sum of zeros is zero.
pub proof fn lemma_fsum_zero(f: spec_fn(int) -> int, n: nat)
    requires
        forall|i: int| 0 <= i < n ==> #[trigger] f(i) == 0,
    ensures
        fsum(f, n) == 0,
    decreases n,
{
    if n > 0 {
        lemma_fsum_zero(f, (n - 1) as nat);
        lemma_fadd_zero(0);
    }
}

/// A scaled sum is the sum of the scaled terms.
pub proof fn lemma_fsum_scale(c: int, f: spec_fn(int) -> int, n: nat)
    ensures
        fsum(|i: int| fmul(c, f(i)), n) == fmul(c, fsum(f, n)),
    decreases n,
{
    if n > 0 {
        lemma_fsum_scale(c, f, (n - 1) as nat);
        lemma_fmul_distrib(c, fsum(f, (n - 1) as nat), f(n - 1));
        vstd::arithmetic::div_mod::lemma_mul_mod_noop_right(c, fadd(fsum(f, (n - 1) as nat), f(n - 1)), modulus());
        vstd::arithmetic::div_mod::lemma_mul_mod_noop_right(c, fsum(f, (n - 1) as nat) + f(n - 1), modulus());
    } else {
        vstd::arithmetic::mul::lemma_mul_by_zero_is_zero(c);
        vstd::arithmetic::div_mod::lemma_small_mod(0, modulus() as nat);
    }
}

/// `(-1)^t` is one for even `t` and `-1` for odd `t`.
pub proof fn lemma_neg_one_pow(t: nat)
    ensures
        fpow(P - 1, t) == (if t % 2 == 0 { 1 } else { P - 1 }),
    decreases t,
{
    if t == 0 {
        vstd::arithmetic::power::lemma_pow0(P - 1);
        vstd::arithmetic::div_mod::lemma_small_mod(1, modulus() as nat);
    } else {
        lemma_neg_one_pow((t - 1) as nat);
        lemma_fpow_adds(P - 1, (t - 1) as nat, 1);
        vstd::arithmetic::power::lemma_pow1(P - 1);
        vstd::arithmetic::div_mod::lemma_small_mod((P - 1) as nat, modulus() as nat);
        lemma_neg_one_squared();
        lemma_fmul_one_zero(P - 1);
    }
}

/// For `g` of order `2^L` (its power `2^(L-1)` is `-1`) and `0 < t < 2^L`, the powers of
/// `g^t` over a full period sum to zero.
pub proof fn lemma_roots_sum_zero(g: int, l: nat, t: nat)
    requires
        l >= 1,
        0 < t < pow2(l),
        0 <= g < modulus(),
        fpow(g, pow2((l - 1) as nat)) == P - 1,
    ensures
        fsum(|i: int| fpow(g, (t * i) as nat), pow2(l)) == 0,
    decreases l,
{
    let h = pow2((l - 1) as nat);
    let f = |i: int| fpow(g, (t * i) as nat);
    vstd::arithmetic::power2::lemma_pow2_unfold(l);
    assert(pow2(l) == h + h);
    lemma_fsum_concat(f, h, h);
    let f2 = |i: int| f(h + i);
    lemma_fsum_add(f, f2, h);
    // g^(t h) is (-1)^t.
    lemma_fpow_multiplies(g, h, t);
    lemma_neg_one_pow(t);
    assert(fpow(g, h * t) == fpow(P - 1, t));
    if t % 2 == 1 {
        assert forall|i: int| 0 <= i < h implies #[trigger] fadd(f(i), f2(i)) == 0 by {
            let ti = (t * i) as nat;
            assert(t * (h + i) == ti + h * t) by (nonlinear_arith)
                requires ti == t * i, i >= 0;
            lemma_fpow_adds(g, ti, h * t);
            let v = fpow(g, ti);
            assert(f2(i) == fmul(v, P - 1));
            vstd::arithmetic::div_mod::lemma_add_mod_noop_right(v, v * (P - 1), modulus());
            assert(v + v * (P - 1) == v * P) by (nonlinear_arith);
            vstd::arithmetic::div_mod::lemma_mod_multiples_basic(v, P as int);
            vstd::arithmetic::mul::lemma_mul_is_commutative(v, P as int);
        }
        lemma_fsum_zero(|i: int| fadd(f(i), f2(i)), h);
    } else {
        // t = 2 t', and g^2 has order 2^(l-1).
        let t2 = (t / 2) as nat;
        let g2 = fpow(g, 2);
        assert(l >= 2) by {
            if l == 1 {
                vstd::arithmetic::power2::lemma2_to64();
            }
        }
        vstd::arithmetic::power2::lemma_pow2_unfold((l - 1) as nat);
        lemma_fpow_multiplies(g, 2, pow2((l - 2) as nat));
        assert(2 * pow2((l - 2) as nat) == h);
        vstd::arithmetic::power2::lemma_pow2_unfold(l);
        lemma_roots_sum_zero(g2, (l - 1) as nat, t2);
        let f3 = |i: int| fpow(g2, (t2 * i) as nat);
        assert forall|i: int| 0 <= i < h implies #[trigger] f(i) == f3(i) by {
            lemma_fpow_multiplies(g, 2, (t2 * i) as nat);
            assert(2 * (t2 * i) == t * i) by (nonlinear_arith)
                requires t == 2 * t2;
        }
        lemma_fsum_ext(f, f3, h);
        assert forall|i: int| 0 <= i < h implies #[trigger] f2(i) == f(i) by {
            let ti = (t * i) as nat;
            assert(t * (h + i) == ti + h * t) by (nonlinear_arith)
                requires ti == t * i, i >= 0;
            lemma_fpow_adds(g, ti, h * t);
            lemma_fmul_one_zero(fpow(g, ti));
        }
        lemma_fsum_ext(f2, f, h);
        lemma_fadd_zero(0);
    }
}

/// The sum of the first `n` terms `F(i, l)` over `l`, as a function of `i`.
pub open spec fn row_sums(big_f: spec_fn(int, int) -> int, m: nat) -> spec_fn(int) -> int {
    |i: int| fsum(|l: int| big_f(i, l), m)
}

/// The sum of the first `n` terms `F(i, l)` over `i`, as a function of `l`.
pub open spec fn col_sums(big_f: spec_fn(int, int) -> int, n: nat) -> spec_fn(int) -> int {
    |l: int| fsum(|i: int| big_f(i, l), n)
}

/// A double sum may be taken in either order.
pub proof fn lemma_fsum_swap(big_f: spec_fn(int, int) -> int, n: nat, m: nat)
    ensures
        fsum(row_sums(big_f, m), n) == fsum(col_sums(big_f, n), m),
    decreases n,
{
    if n == 0 {
        lemma_fsum_zero(col_sums(big_f, 0), m);
    } else {
        lemma_fsum_swap(big_f, (n - 1) as nat, m);
        let prev = col_sums(big_f, (n - 1) as nat);
        let last = |l: int| big_f(n - 1, l);
        lemma_fsum_add(prev, last, m);
        lemma_fsum_ext(col_sums(big_f, n), |l: int| fadd(prev(l), last(l)), m);
        assert(row_sums(big_f, m)(n - 1) == fsum(last, m));
    }
}

/// A sum whose terms vanish but at `j` is the term at `j`.
pub proof fn lemma_fsum_single(f: spec_fn(int) -> int, n: nat, j: int)
    requires
        0 <= j < n,
        0 <= f(j) < modulus(),
        forall|i: int| 0 <= i < n && i != j ==> #[trigger] f(i) == 0,
    ensures
        fsum(f, n) == f(j),
    decreases n,
{
    if n - 1 > j {
        lemma_fsum_single(f, (n - 1) as nat, j);
        lemma_fadd_zero(f(j));
    } else {
        lemma_fsum_zero(f, (n - 1) as nat);
        lemma_fadd_zero(f(j));
    }
}

/// `n` ones sum to `n` in the field.
pub proof fn lemma_fsum_ones(n: nat)
    ensures
        fsum(|i: int| 1int, n) == (n as int) % modulus(),
    decreases n,
{
    if n > 0 {
        lemma_fsum_ones((n - 1) as nat);
        vstd::arithmetic::div_mod::lemma_add_mod_noop((n - 1) as int, 1, modulus());
        vstd::arithmetic::div_mod::lemma_small_mod(1, modulus() as nat);
        vstd::arithmetic::div_mod::lemma_mod_twice((n - 1) as int, modulus());
    } else {
        vstd::arithmetic::div_mod::lemma_small_mod(0, modulus() as nat);
    }
}

/// The value at `x` is the sum of `c_l x^l` over any number of terms covering `c`.
pub proof fn lemma_eval_power_sum(c: Seq<u32>, x: int, m: nat)
    requires
        c.len() <= m,
        all_elems(c),
    ensures
        poly_eval(c, x) == fsum(|l: int| fmul(coeff_at(c, l), fpow(x, l as nat)), m),
    decreases c.len(),
{
    let big = |l: int| fmul(coeff_at(c, l), fpow(x, l as nat));
    if c.len() == 0 {
        assert forall|l: int| 0 <= l < m implies #[trigger] big(l) == 0 by {
            lemma_fmul_one_zero(fpow(x, l as nat));
            vstd::arithmetic::power::lemma_pow0(x);
        }
        lemma_fsum_zero(big, m);
    } else {
        let t = c.drop_first();
        lemma_eval_power_sum(t, x, (m - 1) as nat);
        let small = |l: int| fmul(coeff_at(t, l), fpow(x, l as nat));
        lemma_fsum_scale(x, small, (m - 1) as nat);
        lemma_fsum_concat(big, 1, (m - 1) as nat);
        let shifted = |i: int| big(1 + i);
        assert forall|i: int| 0 <= i < m - 1 implies #[trigger] fmul(x, small(i)) == shifted(i) by {
            let ti = coeff_at(t, i);
            assert(ti == coeff_at(c, 1 + i));
            let xi = fpow(x, i as nat);
            crate::field::lemma_fmul_assoc(x, ti, xi);
            crate::field::lemma_fmul_assoc(ti, x, xi);
            lemma_fmul_comm(x, ti);
            lemma_fpow_adds(x, 1, i as nat);
            vstd::arithmetic::power::lemma_pow1(x);
            vstd::arithmetic::div_mod::lemma_mul_mod_noop_left(x, xi, modulus());
            assert(fpow(x, (1 + i) as nat) == fmul(fpow(x, 1), xi));
            assert(fpow(x, 1) == x % modulus());
            assert(fmul(x % modulus(), xi) == fmul(x, xi));
        }
        lemma_fsum_ext(|i: int| fmul(x, small(i)), shifted, (m - 1) as nat);
        // The first term is c_0.
        assert(fsum(big, 0) == 0);
        assert(fsum(big, 1) == fadd(fsum(big, 0), big(0)));
        vstd::arithmetic::power::lemma_pow0(x);
        vstd::arithmetic::div_mod::lemma_small_mod(1, modulus() as nat);
        lemma_fmul_one_zero(c[0] as int);
        lemma_fadd_zero(c[0] as int);
    }
}

/// Powers of a product are products of powers.
pub proof fn lemma_fpow_mul(a: int, b: int, l: nat)
    ensures
        fpow(fmul(a, b), l) == fmul(fpow(a, l), fpow(b, l)),
{
    let m = modulus();
    vstd::arithmetic::power::lemma_pow_mod_noop(a * b, l, m);
    vstd::arithmetic::power::lemma_pow_distributes(a, b, l);
    vstd::arithmetic::div_mod::lemma_mul_mod_noop(
        vstd::arithmetic::power::pow(a, l),
        vstd::arithmetic::power::pow(b, l),
        m,
    );
}

/// Powers of an element of order dividing `n` depend on the exponent modulo `n`.
pub proof fn lemma_fpow_period(g: int, n: nat, a: nat)
    requires
        n > 0,
        fpow(g, n) == 1,
        0 <= g < modulus(),
    ensures
        fpow(g, a) == fpow(g, a % n),
{
    let q = a / n;
    let r = a % n;
    vstd::arithmetic::div_mod::lemma_fundamental_div_mod(a as int, n as int);
    vstd::arithmetic::mul::lemma_mul_is_commutative(n as int, q as int);
    lemma_fpow_adds(g, n * q, r);
    lemma_fpow_multiplies(g, n, q);
    vstd::arithmetic::power::lemma1_pow(q);
    vstd::arithmetic::div_mod::lemma_small_mod(1, modulus() as nat);
    vstd::arithmetic::power::lemma_pow_mod_noop(1, q, modulus());
    lemma_fmul_one_zero(fpow(g, r));
}

/// The transform sum as a sum of terms.
proof fn lemma_dft_sum(e: Seq<u32>, w: int, j: nat, k: nat)
    ensures
        dft_sum(e, w, j, k) == fsum(|i: int| fmul(coeff_at(e, i), fpow(w, (i * j) as nat)), k),
    decreases k,
{
    if k > 0 {
        lemma_dft_sum(e, w, j, (k - 1) as nat);
    }
}

/// `2^l` times `((p + 1) / 2)^l` is one.
proof fn lemma_pow2_inverse(l: nat)
    ensures
        fmul(pow2(l) as int, fpow(1006632961, l)) == 1,
    decreases l,
{
    let half: int = 1006632961;
    if l == 0 {
        vstd::arithmetic::power2::lemma2_to64();
        vstd::arithmetic::power::lemma_pow0(half);
        vstd::arithmetic::div_mod::lemma_small_mod(1, modulus() as nat);
    } else {
        lemma_pow2_inverse((l - 1) as nat);
        vstd::arithmetic::power2::lemma_pow2_unfold(l);
        let a = pow2((l - 1) as nat) as int;
        let b = fpow(half, (l - 1) as nat);
        lemma_fpow_adds(half, (l - 1) as nat, 1);
        vstd::arithmetic::power::lemma_pow1(half);
        vstd::arithmetic::div_mod::lemma_small_mod(half as nat, modulus() as nat);
        assert(fmul(2, half) == 1) by {
            vstd::arithmetic::div_mod::lemma_fundamental_div_mod_converse(2 * half, modulus(), 1, 1);
        }
        // 2a (b half) = (a b) (2 half)
        lemma_fmul3(2 * a, b, half);
        assert((2 * a) * b * half == (a * b) * (2 * half)) by (nonlinear_arith);
        vstd::arithmetic::div_mod::lemma_mul_mod_noop(a * b, 2 * half, modulus());
        assert(fmul(pow2(l) as int, fpow(half, l)) == fmul(2 * a, fmul(b, half)));
    }
}

/// The exponent of `g^l g^(-j)` modulo `n`, zero exactly when `l = j`.
proof fn lemma_exponent_mod(n: nat, l: nat, j: nat)
    requires
        l < n,
        j < n,
    ensures
        ((l + (n - 1) * j) as nat % n == 0) == (l == j),
        (l + (n - 1) * j) as nat % n < n,
{
    let e = l + (n - 1) * j;
    if l >= j {
        assert(e == j * n + (l - j)) by (nonlinear_arith)
            requires e == l + (n - 1) * j;
        vstd::arithmetic::div_mod::lemma_fundamental_div_mod_converse(e, n as int, j as int, l - j);
    } else {
        assert(e == (j - 1) * n + (n - (j - l))) by (nonlinear_arith)
            requires e == l + (n - 1) * j;
        vstd::arithmetic::div_mod::lemma_fundamental_div_mod_converse(e, n as int, j - 1, n - (j - l));
    }
}

/// Over the subgroup of order `n = 2^L`, the sum of `g^(i l) g^(-i j)` is `n` when `l = j`
/// and zero otherwise.
proof fn lemma_column_sum(g: int, ginv: int, big_l: nat, l: nat, j: nat)
    requires
        0 <= g < modulus(),
        fpow(g, pow2(big_l)) == 1,
        big_l >= 1 ==> fpow(g, pow2((big_l - 1) as nat)) == P - 1,
        ginv == fpow(g, (pow2(big_l) - 1) as nat),
        l < pow2(big_l),
        j < pow2(big_l),
    ensures
        fsum(|i: int| fmul(fpow(g, (i * l) as nat), fpow(ginv, (i * j) as nat)), pow2(big_l)) == (if l == j {
            (pow2(big_l) as int) % modulus()
        } else {
            0
        }),
{
    let n = pow2(big_l);
    vstd::arithmetic::power2::lemma_pow2_pos(big_l);
    let e = (l + (n - 1) * j) as nat;
    let t = e % n;
    lemma_exponent_mod(n, l, j);
    let w = |i: int| fmul(fpow(g, (i * l) as nat), fpow(ginv, (i * j) as nat));
    let v = |i: int| fpow(g, (t * i) as nat);
    assert forall|i: int| 0 <= i < n implies #[trigger] w(i) == v(i) by {
        let il = (i * l) as nat;
        let ij = (i * j) as nat;
        lemma_fpow_multiplies(g, (n - 1) as nat, ij);
        lemma_fpow_adds(g, il, ((n - 1) * ij) as nat);
        assert(il + (n - 1) * ij == e * i) by (nonlinear_arith)
            requires il == i * l, ij == i * j, e == l + (n - 1) * j, i >= 0;
        lemma_fpow_multiplies(g, e, i as nat);
        lemma_fpow_period(g, n, e);
        lemma_fpow_multiplies(g, t, i as nat);
        assert(t * i == i * t) by (nonlinear_arith);
        assert(e * i == i * e) by (nonlinear_arith);
    }
    lemma_fsum_ext(w, v, n);
    if l == j {
        assert forall|i: int| 0 <= i < n implies #[trigger] v(i) == 1int by {
            vstd::arithmetic::power::lemma_pow0(g);
            vstd::arithmetic::div_mod::lemma_small_mod(1, modulus() as nat);
        }
        lemma_fsum_ext(v, |i: int| 1int, n);
        lemma_fsum_ones(n);
    } else {
        if big_l == 0 {
            vstd::arithmetic::power2::lemma2_to64();
        }
        lemma_roots_sum_zero(g, big_l, t);
    }
}

/// A nested product is the reduced product.
proof fn lemma_fmul3(a: int, b: int, c: int)
    ensures
        fmul(a, fmul(b, c)) == (a * b * c) % modulus(),
        fmul(fmul(a, b), c) == (a * b * c) % modulus(),
{
    vstd::arithmetic::div_mod::lemma_mul_mod_noop_right(a, b * c, modulus());
    vstd::arithmetic::div_mod::lemma_mul_mod_noop_left(a * b, c, modulus());
    vstd::arithmetic::mul::lemma_mul_is_associative(a, b, c);
}

/// Transform sum `j` of the values of `f` on the coset is `f_j s^j n`.
proof fn lemma_transform_of_values(d: Radix2Coset, f: Seq<u32>, j: nat)
    requires
        d.wf(),
        all_elems(f),
        f.len() <= d.size(),
        j < d.size(),
    ensures
        dft_sum(coset_evals(d, f), d.generator_inv as int, j, d.size()) == fmul(
            fmul(coeff_at(f, j as int), fpow(d.shift as int, j)),
            (d.size() as int) % modulus(),
        ),
{
    let n = d.size();
    let s = d.shift as int;
    let g = d.generator as int;
    let ginv = d.generator_inv as int;
    let e = coset_evals(d, f);
    vstd::arithmetic::power2::lemma_pow2_pos(d.log_size as nat);
    // The inverse of the generator is its power n - 1.
    lemma_fpow_adds(g, 1, (n - 1) as nat);
    vstd::arithmetic::power::lemma_pow1(g);
    vstd::arithmetic::div_mod::lemma_small_mod(g as nat, modulus() as nat);
    lemma_finv(g, fpow(g, (n - 1) as nat));
    lemma_finv(g, ginv);
    assert(ginv == fpow(g, (n - 1) as nat));
    assert(f.subrange(0, f.len() as int) == f);
    // The double sum.
    let big_f = |i: int, l: int|
        fmul(
            fpow(ginv, (i * j) as nat),
            fmul(coeff_at(f, l), fpow(fmul(s, fpow(g, i as nat)), l as nat)),
        );
    let t = |i: int| fmul(coeff_at(e, i), fpow(ginv, (i * j) as nat));
    lemma_dft_sum(e, ginv, j, n);
    assert forall|i: int| 0 <= i < n implies #[trigger] t(i) == row_sums(big_f, n)(i) by {
        let x = fmul(s, fpow(g, i as nat));
        let a = |l: int| fmul(coeff_at(f, l), fpow(x, l as nat));
        lemma_eval_power_sum(f, x, n);
        assert(coeff_at(e, i) == poly_eval(f, x));
        lemma_fsum_scale(fpow(ginv, (i * j) as nat), a, n);
        lemma_fmul_comm(poly_eval(f, x), fpow(ginv, (i * j) as nat));
        lemma_fsum_ext(|l: int| fmul(fpow(ginv, (i * j) as nat), a(l)), |l: int| big_f(i, l), n);
    }
    lemma_fsum_ext(t, row_sums(big_f, n), n);
    lemma_fsum_swap(big_f, n, n);
    let cols = col_sums(big_f, n);
    let cj = fmul(coeff_at(f, j as int), fpow(s, j));
    assert forall|l: int| 0 <= l < n implies #[trigger] cols(l) == (if l == j {
        fmul(cj, (n as int) % modulus())
    } else {
        0
    }) by {
        let c = fmul(coeff_at(f, l), fpow(s, l as nat));
        let w = |i: int| fmul(fpow(g, (i * l) as nat), fpow(ginv, (i * j) as nat));
        assert forall|i: int| 0 <= i < n implies #[trigger] big_f(i, l) == fmul(c, w(i)) by {
            let gi = fpow(g, i as nat);
            lemma_fpow_mul(s, gi, l as nat);
            lemma_fpow_multiplies(g, i as nat, l as nat);
            let sl = fpow(s, l as nat);
            let gil = fpow(g, (i * l) as nat);
            let h = fpow(ginv, (i * j) as nat);
            let fl = coeff_at(f, l);
            lemma_fmul3(fl, sl, gil);
            lemma_fmul3(h, fl, sl * gil);
            lemma_fmul3(c, gil, h);
            lemma_fmul3(fl, sl, gil * h);
            vstd::arithmetic::div_mod::lemma_mul_mod_noop_right(h, fl * ((sl * gil) % modulus()), modulus());
            vstd::arithmetic::div_mod::lemma_mul_mod_noop_right(fl, sl * gil, modulus());
            vstd::arithmetic::div_mod::lemma_mul_mod_noop_left(fl * sl, gil * h, modulus());
            vstd::arithmetic::div_mod::lemma_mul_mod_noop_right(fl * sl, gil * h, modulus());
            vstd::arithmetic::div_mod::lemma_mul_mod_noop_right(h, fl * (sl * gil), modulus());
            assert(h * (fl * (sl * gil)) == (fl * sl) * (gil * h)) by (nonlinear_arith);
            assert(big_f(i, l) == (h * (fl * (sl * gil))) % modulus());
            assert(fmul(c, w(i)) == ((fl * sl) * (gil * h)) % modulus());
        }
        lemma_fsum_ext(|i: int| big_f(i, l), |i: int| fmul(c, w(i)), n);
        lemma_fsum_scale(c, w, n);
        lemma_column_sum(g, ginv, d.log_size as nat, l as nat, j);
        if l != j {
            lemma_fmul_one_zero(c);
        }
    }
    lemma_fsum_single(cols, n, j as int);
}

/// Interpolating the values on a coset of a polynomial of degree below its size gives the
/// polynomial back (the shift being invertible).
pub proof fn lemma_coset_round_trip(d: Radix2Coset, p: Polynomial)
    requires
        d.wf(),
        fmul(d.shift as int, finv(d.shift as int)) == 1,
        p.wf(),
        p@.len() <= d.size(),
    ensures
        trim(coset_idft(coset_evals(d, p@), d.shift as int, d.generator as int, d.size())) == p@,
{
    let f = p@;
    let n = d.size();
    let s = d.shift as int;
    let g = d.generator as int;
    let out = coset_idft(coset_evals(d, f), s, g, n);
    vstd::arithmetic::power2::lemma_pow2_pos(d.log_size as nat);
    lemma_finv(g, d.generator_inv as int);
    // The inverse of the size.
    let half_pow = fpow(1006632961, d.log_size as nat);
    lemma_pow2_inverse(d.log_size as nat);
    if d.log_size < TWO_ADICITY {
        vstd::arithmetic::power2::lemma_pow2_strictly_increases(d.log_size as nat, TWO_ADICITY as nat);
    }
    vstd::arithmetic::power2::lemma2_to64();
    lemma_finv(n as int, half_pow);
    vstd::arithmetic::div_mod::lemma_small_mod(n, modulus() as nat);
    assert forall|j: int| 0 <= j < n implies #[trigger] out[j] == coeff_at(f, j) as u32 by {
        let si = finv(s);
        let fj = coeff_at(f, j);
        let sj = fpow(s, j as nat);
        let sij = fpow(si, j as nat);
        lemma_transform_of_values(d, f, j as nat);
        // s^-j s^j = 1
        lemma_fpow_mul(si, s, j as nat);
        lemma_fmul_comm(si, s);
        vstd::arithmetic::power::lemma1_pow(j as nat);
        vstd::arithmetic::div_mod::lemma_small_mod(1, modulus() as nat);
        vstd::arithmetic::power::lemma_pow_mod_noop(1, j as nat, modulus());
        assert(fmul(sij, sj) == 1);
        let a = finv(n as int);
        let inner = fmul(fmul(fj, sj), n as int);
        lemma_fmul3(fj, sj, n as int);
        lemma_fmul3(a, sij, (fj * sj * n) % modulus());
        vstd::arithmetic::div_mod::lemma_mul_mod_noop_right(sij, fj * sj * n, modulus());
        vstd::arithmetic::div_mod::lemma_mul_mod_noop_right(a, sij * (fj * sj * n), modulus());
        assert(fmul(a, fmul(sij, inner)) == (a * (sij * (fj * sj * n))) % modulus());
        assert(a * (sij * (fj * sj * n)) == (a * n) * (sij * sj) * fj) by (nonlinear_arith);
        lemma_fmul_comm(a, n as int);
        vstd::arithmetic::div_mod::lemma_mul_mod_noop((a * n) * (sij * sj), fj, modulus());
        vstd::arithmetic::div_mod::lemma_mul_mod_noop(a * n, sij * sj, modulus());
        vstd::arithmetic::div_mod::lemma_small_mod(fj as nat, modulus() as nat);
        vstd::arithmetic::div_mod::lemma_small_mod(1, modulus() as nat);
        if j < f.len() {
            assert(crate::field::is_elem(f[j]));
        }
        assert(0 <= fj < modulus());
        let x = (a * n) * (sij * sj);
        assert((a * n) % modulus() == 1);
        assert((sij * sj) % modulus() == 1);
        assert(x % modulus() == 1);
        assert((x * fj) % modulus() == ((x % modulus()) * (fj % modulus())) % modulus());
        assert(fj % modulus() == fj);
        let xm = x % modulus();
        let fm = fj % modulus();
        assert(xm * fm == fj) by (nonlinear_arith)
            requires
                xm == 1,
                fm == fj,
        ;
        vstd::arithmetic::div_mod::lemma_small_mod(fj as nat, modulus() as nat);
        assert((x * fj) % modulus() == fj);
        assert(fmul(a, fmul(sij, inner)) == fj);
    }
    lemma_trim_padded(f, out);
}

/// Padding a polynomial with zeros and trimming gives it back.
proof fn lemma_trim_padded(f: Seq<u32>, s: Seq<u32>)
    requires
        f.len() <= s.len(),
        f.len() == 0 || f.last() != 0,
        forall|j: int| 0 <= j < s.len() ==> #[trigger] s[j] == coeff_at(f, j) as u32,
    ensures
        trim(s) == f,
    decreases s.len(),
{
    if s.len() == f.len() {
        assert(s =~= f);
    } else {
        assert(s.last() == 0);
        lemma_trim_padded(f, s.drop_last());
    }
}

} // verus!
