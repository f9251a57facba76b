//! Arithmetic in the BabyBear prime field, with elements held as canonical `u32` values.
use p3_baby_bear::BabyBear;
use p3_field::{Field, PrimeField32, TwoAdicField};
use vstd::arithmetic::div_mod::{lemma_mul_mod_noop_left, lemma_mul_mod_noop_right};
use vstd::arithmetic::power::{lemma_pow_adds, lemma_pow_mod_noop, lemma_pow_multiplies, pow};
use vstd::arithmetic::power2::pow2;
use vstd::prelude::*;

verus! {

/// The field's modulus, `2^31 - 2^27 + 1`.
pub const P: u32 = 2013265921;

/// The largest `bits` for which a subgroup of order `2^bits` exists.
pub const TWO_ADICITY: usize = 27;

pub open spec fn modulus() -> int {
    P as int
}

/// A canonical field element.
pub open spec fn is_elem(x: u32) -> bool {
    x < P
}

pub open spec fn fadd(a: int, b: int) -> int {
    (a + b) % modulus()
}

pub open spec fn fsub(a: int, b: int) -> int {
    (a - b) % modulus()
}

pub open spec fn fmul(a: int, b: int) -> int {
    (a * b) % modulus()
}

/// `a^e` reduced into the field.
pub open spec fn fpow(a: int, e: nat) -> int {
    pow(a, e) % modulus()
}

/// The generator that the field's table gives for the subgroup of order `2^bits`.
pub uninterp spec fn two_adic_generator_of(bits: nat) -> int;

pub fn add_mod(a: u32, b: u32) -> (r: u32)
    requires
        is_elem(a),
        is_elem(b),
    ensures
        r as int == fadd(a as int, b as int),
        is_elem(r),
{
    let s: u64 = a as u64 + b as u64;
    (s % (P as u64)) as u32
}

pub fn sub_mod(a: u32, b: u32) -> (r: u32)
    requires
        is_elem(a),
        is_elem(b),
    ensures
        r as int == fsub(a as int, b as int),
        is_elem(r),
{
    let s: u64 = a as u64 + P as u64 - b as u64;
    proof {
        vstd::arithmetic::div_mod::lemma_mod_add_multiples_vanish(a - b, modulus());
    }
    (s % (P as u64)) as u32
}

pub fn neg_mod(a: u32) -> (r: u32)
    requires
        is_elem(a),
    ensures
        r as int == fsub(0, a as int),
        is_elem(r),
{
    sub_mod(0, a)
}

pub fn mul_mod(a: u32, b: u32) -> (r: u32)
    requires
        is_elem(a),
        is_elem(b),
    ensures
        r as int == fmul(a as int, b as int),
        is_elem(r),
{
    proof {
        vstd::arithmetic::mul::lemma_mul_upper_bound(a as int, P as int, b as int, P as int);
    }
    let s: u64 = a as u64 * b as u64;
    (s % (P as u64)) as u32
}

/// `fpow` of a product of exponents: `(a^e1)^e2 = a^(e1 e2)` in the field.
pub proof fn lemma_fpow_multiplies(a: int, e1: nat, e2: nat)
    ensures
        fpow(fpow(a, e1), e2) == fpow(a, e1 * e2),
{
    lemma_pow_mod_noop(pow(a, e1), e2, modulus());
    lemma_pow_multiplies(a, e1, e2);
}

/// `a^(e1 + e2) = a^e1 a^e2` in the field.
pub proof fn lemma_fpow_adds(a: int, e1: nat, e2: nat)
    ensures
        fpow(a, e1 + e2) == fmul(fpow(a, e1), fpow(a, e2)),
{
    lemma_pow_adds(a, e1, e2);
    lemma_mul_mod_noop_left(pow(a, e1), pow(a, e2), modulus());
    lemma_mul_mod_noop_right(pow(a, e1) % modulus(), pow(a, e2), modulus());
}

/// The inverse of `x` in the field, where it exists.
pub open spec fn finv(x: int) -> int {
    choose|y: int| 0 <= y < modulus() && fmul(x, y) == 1
}

/// An element whose product with `x` is one is the inverse of `x`.
pub proof fn lemma_finv(x: int, r: int)
    requires
        0 <= x < modulus(),
        0 <= r < modulus(),
        fmul(x, r) == 1,
    ensures
        finv(x) == r,
{
    let y = finv(x);
    assert(0 <= y < modulus() && fmul(x, y) == 1);
    let p = modulus();
    // r = r (x y) = (r x) y = y
    lemma_mul_mod_noop_right(r, x * y, p);
    lemma_mul_mod_noop_left(r * x, y, p);
    vstd::arithmetic::mul::lemma_mul_is_associative(r, x, y);
    vstd::arithmetic::mul::lemma_mul_is_commutative(r, x);
    vstd::arithmetic::div_mod::lemma_small_mod(r as nat, p as nat);
    vstd::arithmetic::div_mod::lemma_small_mod(y as nat, p as nat);
}

/// A power of zero with a positive exponent is zero, so an element with a power equal to one
/// is not zero.
pub proof fn lemma_fpow_nonzero_base(x: int, n: nat)
    requires
        n >= 1,
        fpow(x, n) == 1,
    ensures
        x != 0,
{
    if x == 0 {
        vstd::arithmetic::power::lemma0_pow(n);
        assert(pow(x, n) == 0);
        vstd::arithmetic::div_mod::lemma_small_mod(0, P as nat);
        assert(fpow(x, n) == 0);
    }
}

/// Products commute.
pub proof fn lemma_fmul_comm(a: int, b: int)
    ensures
        fmul(a, b) == fmul(b, a),
{
    vstd::arithmetic::mul::lemma_mul_is_commutative(a, b);
}

/// Products associate.
pub proof fn lemma_fmul_assoc(a: int, b: int, c: int)
    ensures
        fmul(fmul(a, b), c) == fmul(a, fmul(b, c)),
{
    let p = modulus();
    lemma_mul_mod_noop_left(a * b, c, p);
    lemma_mul_mod_noop_right(a, b * c, p);
    vstd::arithmetic::mul::lemma_mul_is_associative(a, b, c);
}

/// Products distribute over sums.
pub proof fn lemma_fmul_distrib(c: int, a: int, b: int)
    ensures
        fmul(c, fadd(a, b)) == fadd(fmul(c, a), fmul(c, b)),
{
    let p = modulus();
    lemma_mul_mod_noop_right(c, a + b, p);
    vstd::arithmetic::mul::lemma_mul_is_distributive_add(c, a, b);
    vstd::arithmetic::div_mod::lemma_add_mod_noop(c * a, c * b, p);
}

/// Four terms summed in either grouping agree.
pub proof fn lemma_fadd_swap(a: int, b: int, c: int, d: int)
    ensures
        fadd(fadd(a, b), fadd(c, d)) == fadd(fadd(a, c), fadd(b, d)),
{
    let p = modulus();
    vstd::arithmetic::div_mod::lemma_add_mod_noop(a + b, c + d, p);
    vstd::arithmetic::div_mod::lemma_add_mod_noop(a + c, b + d, p);
    vstd::arithmetic::div_mod::lemma_mod_twice(a + b, p);
    vstd::arithmetic::div_mod::lemma_mod_twice(c + d, p);
    vstd::arithmetic::div_mod::lemma_mod_twice(a + c, p);
    vstd::arithmetic::div_mod::lemma_mod_twice(b + d, p);
    vstd::arithmetic::div_mod::lemma_add_mod_noop(a + b, c + d, p);
    assert((a + b) + (c + d) == (a + c) + (b + d));
}

/// Zero is neutral for a reduced element.
pub proof fn lemma_fadd_zero(a: int)
    requires
        0 <= a < modulus(),
    ensures
        fadd(a, 0) == a,
        fadd(0, a) == a,
{
    vstd::arithmetic::div_mod::lemma_small_mod(a as nat, modulus() as nat);
}

/// One is neutral and zero absorbs.
pub proof fn lemma_fmul_one_zero(a: int)
    requires
        0 <= a < modulus(),
    ensures
        fmul(a, 1) == a,
        fmul(1, a) == a,
        fmul(a, 0) == 0,
        fmul(0, a) == 0,
{
    vstd::arithmetic::div_mod::lemma_small_mod(a as nat, modulus() as nat);
}

/// Adding the negation is subtracting.
pub proof fn lemma_fadd_neg(x: int, a: int)
    ensures
        fadd(x, fsub(0, a)) == fsub(x, a),
{
    vstd::arithmetic::div_mod::lemma_add_mod_noop_right(x, 0 - a, modulus());
}

/// Sums associate.
pub proof fn lemma_fadd_assoc(a: int, b: int, c: int)
    ensures
        fadd(fadd(a, b), c) == fadd(a, fadd(b, c)),
{
    let p = modulus();
    vstd::arithmetic::div_mod::lemma_add_mod_noop_right(c, a + b, p);
    vstd::arithmetic::div_mod::lemma_add_mod_noop_right(a, b + c, p);
    assert(c + (a + b) == (a + b) + c);
    assert((a + b) + c == a + (b + c));
}

/// `-1` squared is one.
pub proof fn lemma_neg_one_squared()
    ensures
        fmul(P - 1, P - 1) == 1,
{
    let q = (P - 1) as int;
    let m = P as int;
    assert(q * q == (q - 1) * m + 1) by (nonlinear_arith)
        requires
            q == m - 1,
    ;
    vstd::arithmetic::div_mod::lemma_fundamental_div_mod_converse(q * q, m, q - 1, 1);
}

/// Raises `a` to the power `2^k` by `k` squarings.
pub fn exp_power_of_2(a: u32, k: usize) -> (r: u32)
    requires
        is_elem(a),
    ensures
        r as int == fpow(a as int, pow2(k as nat)),
        is_elem(r),
{
    let mut r: u32 = a;
    let mut i: usize = 0;
    proof {
        vstd::arithmetic::power::lemma_pow1(a as int);
        vstd::arithmetic::power2::lemma2_to64();
        vstd::arithmetic::div_mod::lemma_small_mod(a as nat, P as nat);
    }
    while i < k
        invariant
            i <= k,
            is_elem(a),
            is_elem(r),
            r as int == fpow(a as int, pow2(i as nat)),
        decreases k - i,
    {
        proof {
            lemma_fpow_adds(a as int, pow2(i as nat), pow2(i as nat));
            vstd::arithmetic::power2::lemma_pow2_unfold((i + 1) as nat);
        }
        r = mul_mod(r, r);
        i = i + 1;
    }
    r
}

/// Raises `a` to the power `e` by square-and-multiply.
pub fn exp_u64(a: u32, e: u64) -> (r: u32)
    requires
        is_elem(a),
    ensures
        r as int == fpow(a as int, e as nat),
        is_elem(r),
{
    let mut acc: u32 = 1;
    let mut base: u32 = a;
    let mut rest: u64 = e;
    let ghost mut d: nat = 0;
    let ghost mut m: nat = 1;
    proof {
        vstd::arithmetic::power::lemma_pow0(a as int);
        vstd::arithmetic::power::lemma_pow1(a as int);
        vstd::arithmetic::div_mod::lemma_small_mod(a as nat, P as nat);
        vstd::arithmetic::div_mod::lemma_small_mod(1, P as nat);
    }
    while rest > 0
        invariant
            is_elem(a),
            is_elem(acc),
            is_elem(base),
            acc as int == fpow(a as int, d),
            base as int == fpow(a as int, m),
            d + m * rest == e,
        decreases rest,
    {
        let ghost old_rest = rest as nat;
        if rest % 2 == 1 {
            proof {
                lemma_fpow_adds(a as int, d, m);
            }
            acc = mul_mod(acc, base);
            proof {
                d = d + m;
            }
        }
        proof {
            lemma_fpow_adds(a as int, m, m);
        }
        base = mul_mod(base, base);
        rest = rest / 2;
        proof {
            let dd = d;
            let mm = m;
            assert(dd + 2 * mm * (rest as nat) == e) by (nonlinear_arith)
                requires
                    old_rest == 2 * (rest as nat) + old_rest % 2,
                    old_rest % 2 == 1 ==> dd == e - mm * old_rest + mm,
                    old_rest % 2 == 0 ==> dd == e - mm * old_rest,
                    old_rest % 2 == 0 || old_rest % 2 == 1,
            ;
            m = m + m;
        }
    }
    acc
}

/// Relies on `Field::inverse` of p3-field for BabyBear: the multiplicative inverse of a
/// non-zero element (it panics on zero).
#[verifier::external_body]
pub(crate) fn inverse(a: u32) -> (r: u32)
    requires
        is_elem(a),
        a != 0,
    ensures
        is_elem(r),
        fmul(a as int, r as int) == 1,
{
    BabyBear::new(a).inverse().as_canonical_u32()
}

/// Relies on `TwoAdicField::two_adic_generator` of p3-field for BabyBear: an entry of a fixed
/// table, a generator of the subgroup of order `2^bits` (it panics past the two-adicity). Its
/// power `2^(bits-1)` has order two, so it is `-1`.
#[verifier::external_body]
pub(crate) fn two_adic_generator(bits: usize) -> (r: u32)
    requires
        bits <= TWO_ADICITY,
    ensures
        is_elem(r),
        r as int == two_adic_generator_of(bits as nat),
        fpow(r as int, pow2(bits as nat)) == 1,
        bits >= 1 ==> fpow(r as int, pow2((bits - 1) as nat)) == P - 1,
{
    BabyBear::two_adic_generator(bits).as_canonical_u32()
}

} // verus!
