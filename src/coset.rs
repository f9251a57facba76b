//! Cosets of the power-of-two-order subgroups of the field's units.
use crate::field::{
    add_mod, exp_power_of_2, exp_u64, fadd, finv, fmul, fpow, inverse, is_elem, lemma_finv, lemma_fpow_adds,
    lemma_fpow_multiplies, modulus, mul_mod, two_adic_generator, two_adic_generator_of, TWO_ADICITY,
};
use crate::matrix::RowMajorMatrix;
use crate::polynomial::{all_elems, coeff_at, eval_prefix, poly_eval, trim, Polynomial};
use vstd::arithmetic::power2::pow2;
use vstd::prelude::*;

verus! {

/// The coset `shift * <generator>` of the subgroup of order `2^log_size`.
#[derive(Clone, Copy, Debug)]
pub struct Radix2Coset {
    pub root_of_unity: u32,
    pub generator: u32,
    pub generator_inv: u32,
    pub shift: u32,
    pub log_size: usize,
}

/// `sum_{i < k} e[i] * g^(i*j)`: the first `k` terms of the transform of `e` at `j`.
pub open spec fn dft_sum(e: Seq<u32>, g: int, j: nat, k: nat) -> int
    decreases k,
{
    if k == 0 {
        0
    } else {
        fadd(dft_sum(e, g, j, (k - 1) as nat), fmul(coeff_at(e, k - 1), fpow(g, ((k - 1) * j) as nat)))
    }
}

/// The inverse transform on the coset `shift * <g>` of size `n`: coefficient `j` is
/// `n^-1 * shift^-j * sum_{i < n} e[i] * g^(-i*j)`.
pub open spec fn coset_idft(e: Seq<u32>, shift: int, g: int, n: nat) -> Seq<u32> {
    Seq::new(
        n,
        |j: int| fmul(finv(n as int), fmul(fpow(finv(shift), j as nat), dft_sum(e, finv(g), j as nat, n))) as u32,
    )
}

/// Column `c` of a matrix.
pub open spec fn column(m: RowMajorMatrix, c: int) -> Seq<u32> {
    Seq::new(m.spec_height(), |i: int| m.values@[i * m.width + c])
}

/// The values at the elements of coset `d` of the polynomial with the first `2^log_size`
/// coefficients of `p`, in the order of the elements.
pub open spec fn coset_evals(d: Radix2Coset, p: Seq<u32>) -> Seq<u32> {
    let n = pow2(d.log_size as nat);
    let len = if p.len() <= n { p.len() as int } else { n as int };
    Seq::new(n, |i: int| poly_eval(p.subrange(0, len), d.spec_element(i as nat)) as u32)
}

/// Whether `x` lies in the subgroup of order `2^log_size`.
pub open spec fn in_subgroup(x: u32, log_size: nat) -> bool {
    fpow(x as int, pow2(log_size)) == 1
}

impl Radix2Coset {
    pub open spec fn wf(&self) -> bool {
        &&& is_elem(self.root_of_unity)
        &&& is_elem(self.generator)
        &&& is_elem(self.generator_inv)
        &&& is_elem(self.shift)
        &&& fmul(self.generator as int, self.generator_inv as int) == 1
        &&& in_subgroup(self.generator, self.log_size as nat)
        &&& self.log_size <= TWO_ADICITY
        &&& (self.log_size >= 1 ==> fpow(self.generator as int, pow2((self.log_size - 1) as nat)) == crate::field::P - 1)
    }

    /// The number of elements, `2^log_size`.
    pub open spec fn size(&self) -> nat {
        pow2(self.log_size as nat)
    }

    /// Element `i`: `shift * generator^i`.
    pub open spec fn spec_element(&self, i: nat) -> int {
        fmul(self.shift as int, fpow(self.generator as int, i))
    }

    /// The coset of the subgroup of order `2^log_size` shifted by `shift`.
    pub fn new(shift: u32, log_size: usize) -> (r: Radix2Coset)
        requires
            is_elem(shift),
            log_size <= TWO_ADICITY,
        ensures
            r.wf(),
            r.shift == shift,
            r.log_size == log_size,
            r.generator == two_adic_generator_of(log_size as nat),
            r.root_of_unity == r.generator,
    {
        let generator = two_adic_generator(log_size);
        proof {
            vstd::arithmetic::power2::lemma_pow2_pos(log_size as nat);
            crate::field::lemma_fpow_nonzero_base(generator as int, pow2(log_size as nat));
        }
        Radix2Coset {
            root_of_unity: generator,
            generator,
            generator_inv: inverse(generator),
            shift,
            log_size,
        }
    }

    /// The coset of size `2^(log_degree + log_rate)` with shift one: the subgroup itself.
    pub fn new_from_degree_and_rate(log_degree: usize, log_rate: usize) -> (r: Radix2Coset)
        requires
            log_degree + log_rate <= TWO_ADICITY,
        ensures
            r.wf(),
            r.shift == 1,
            r.log_size == log_degree + log_rate,
            r.generator == two_adic_generator_of((log_degree + log_rate) as nat),
            r.root_of_unity == r.generator,
    {
        let log_size = log_degree + log_rate;
        Self::new(1, log_size)
    }

    pub fn log_size(&self) -> (r: usize)
        ensures
            r == self.log_size,
    {
        self.log_size
    }

    pub fn generator(&self) -> (r: u32)
        ensures
            r == self.generator,
    {
        self.generator
    }

    pub fn shift(&self) -> (r: u32)
        ensures
            r == self.shift,
    {
        self.shift
    }

    /// The generator of the subgroup smaller by `2^log_scale_factor`, with its inverse.
    fn shrunk_generator(&self, log_scale_factor: usize) -> (r: (u32, u32))
        requires
            self.wf(),
            log_scale_factor <= self.log_size,
        ensures
            is_elem(r.0),
            is_elem(r.1),
            r.0 as int == fpow(self.generator as int, pow2(log_scale_factor as nat)),
            fmul(r.0 as int, r.1 as int) == 1,
            in_subgroup(r.0, (self.log_size - log_scale_factor) as nat),
            self.log_size - log_scale_factor >= 1 ==> fpow(r.0 as int, pow2((self.log_size - log_scale_factor - 1) as nat))
                == crate::field::P - 1,
    {
        let generator = exp_power_of_2(self.generator, log_scale_factor);
        proof {
            let k = log_scale_factor as nat;
            let rest = (self.log_size - log_scale_factor) as nat;
            lemma_fpow_multiplies(self.generator as int, pow2(k), pow2(rest));
            vstd::arithmetic::power2::lemma_pow2_adds(k, rest);
            vstd::arithmetic::power2::lemma_pow2_pos(rest);
            crate::field::lemma_fpow_nonzero_base(generator as int, pow2(rest));
            if rest >= 1 {
                let half = (rest - 1) as nat;
                lemma_fpow_multiplies(self.generator as int, pow2(k), pow2(half));
                vstd::arithmetic::power2::lemma_pow2_adds(k, half);
                assert((self.log_size - 1) as nat == k + half);
            }
        }
        (generator, inverse(generator))
    }

    /// Reduces the size of the subgroup by `2^log_scale_factor`, keeping the shift.
    pub fn shrink_subgroup(&self, log_scale_factor: usize) -> (r: Radix2Coset)
        requires
            self.wf(),
            log_scale_factor <= self.log_size,
        ensures
            r.wf(),
            r.generator as int == fpow(self.generator as int, pow2(log_scale_factor as nat)),
            r.shift == self.shift,
            r.log_size == self.log_size - log_scale_factor,
            r.root_of_unity == self.root_of_unity,
    {
        let (generator, generator_inv) = self.shrunk_generator(log_scale_factor);
        Radix2Coset {
            generator,
            generator_inv,
            log_size: self.log_size - log_scale_factor,
            shift: self.shift,
            root_of_unity: self.root_of_unity,
        }
    }

    /// Reduces the size of the coset by `2^log_scale_factor`, raising the shift to the power
    /// `2^log_scale_factor`.
    pub fn shrink_coset(&self, log_scale_factor: usize) -> (r: Radix2Coset)
        requires
            self.wf(),
            log_scale_factor <= self.log_size,
        ensures
            r.wf(),
            r.generator as int == fpow(self.generator as int, pow2(log_scale_factor as nat)),
            r.shift as int == fpow(self.shift as int, pow2(log_scale_factor as nat)),
            r.log_size == self.log_size - log_scale_factor,
            r.root_of_unity == self.root_of_unity,
    {
        let (generator, generator_inv) = self.shrunk_generator(log_scale_factor);
        let shift = exp_power_of_2(self.shift, log_scale_factor);
        Radix2Coset {
            root_of_unity: self.root_of_unity,
            generator,
            generator_inv,
            shift,
            log_size: self.log_size - log_scale_factor,
        }
    }

    /// Multiplies the shift by `shift`.
    pub fn shift_by(&self, shift: u32) -> (r: Radix2Coset)
        requires
            self.wf(),
            is_elem(shift),
        ensures
            r.wf(),
            r.shift as int == fmul(self.shift as int, shift as int),
            r == (Radix2Coset { shift: r.shift, ..*self }),
    {
        let mut shifted = *self;
        shifted.shift = mul_mod(self.shift, shift);
        shifted
    }

    /// Multiplies the shift by the generator the coset was first built with.
    pub fn shift_by_root_of_unity(&self) -> (r: Radix2Coset)
        requires
            self.wf(),
        ensures
            r.wf(),
            r.shift as int == fmul(self.shift as int, self.root_of_unity as int),
            r == (Radix2Coset { shift: r.shift, ..*self }),
    {
        let mut shifted = *self;
        shifted.shift = mul_mod(self.shift, self.root_of_unity);
        shifted
    }

    /// The same subgroup shifted by `shift`.
    pub fn set_shift(&self, shift: u32) -> (r: Radix2Coset)
        requires
            self.wf(),
            is_elem(shift),
        ensures
            r.wf(),
            r == (Radix2Coset { shift, ..*self }),
    {
        let mut shifted = *self;
        shifted.shift = shift;
        shifted
    }

    /// Whether `element` lies in the subgroup of order `2^log_size`: a subgroup of order `n`
    /// of the units is the group of `n`-th roots of unity.
    pub fn contains(&self, element: u32) -> (r: bool)
        requires
            is_elem(element),
        ensures
            r == in_subgroup(element, self.log_size as nat),
    {
        exp_power_of_2(element, self.log_size) == 1
    }

    /// Element `index`: `shift * generator^index`.
    pub fn element(&self, index: u64) -> (r: u32)
        requires
            self.wf(),
        ensures
            is_elem(r),
            r as int == self.spec_element(index as nat),
    {
        mul_mod(self.shift, exp_u64(self.generator, index))
    }

    /// The number of elements.
    fn size_exec(&self) -> (r: usize)
        requires
            self.wf(),
        ensures
            r == self.size(),
            r <= pow2(TWO_ADICITY as nat),
    {
        proof {
            vstd::arithmetic::power2::lemma2_to64();
            vstd::bits::lemma_u64_shl_is_mul(1, self.log_size as u64);
            if self.log_size < TWO_ADICITY {
                vstd::arithmetic::power2::lemma_pow2_strictly_increases(self.log_size as nat, TWO_ADICITY as nat);
            }
        }
        (1u64 << (self.log_size as u64)) as usize
    }

    /// The values of `polynomial` (its first `2^log_size` coefficients) at the elements of
    /// the coset, in the order of `element`.
    pub fn evaluate_polynomial(&self, polynomial: &Polynomial) -> (r: Vec<u32>)
        requires
            self.wf(),
            polynomial.wf(),
        ensures
            r@ == coset_evals(*self, polynomial@),
            all_elems(r@),
    {
        let n = self.size_exec();
        let coeffs = polynomial.coeffs();
        let len = if coeffs.len() <= n { coeffs.len() } else { n };
        let mut evals: Vec<u32> = Vec::new();
        let mut i: usize = 0;
        while i < n
            invariant
                self.wf(),
                polynomial.wf(),
                coeffs@ == polynomial@,
                n == self.size(),
                len == (if polynomial@.len() <= self.size() { polynomial@.len() as int } else { self.size() as int }),
                i <= n,
                evals@.len() == i,
                all_elems(evals@),
                forall|k: int|
                    0 <= k < i ==> (#[trigger] evals@[k]) as int == poly_eval(
                        polynomial@.subrange(0, len as int),
                        self.spec_element(k as nat),
                    ),
            decreases n - i,
        {
            let x = self.element(i as u64);
            evals.push(eval_prefix(coeffs, len, x));
            i = i + 1;
        }
        assert(evals@ =~= coset_evals(*self, polynomial@));
        evals
    }

    /// The coefficients of the polynomial of degree below `2^log_size` whose values at the
    /// elements of the coset are `evals` (padded with zeros, or cut, to `2^log_size`): the
    /// inverse coset transform.
    pub fn interpolate_evals(&self, evals: Vec<u32>) -> (r: Polynomial)
        requires
            self.wf(),
            self.shift != 0,
            all_elems(evals@),
        ensures
            r.wf(),
            r@ == trim(coset_idft(evals@, self.shift as int, self.generator as int, self.size())),
            forall|p: Polynomial|
                p.wf() && p@.len() <= self.size() && #[trigger] coset_evals(*self, p@) == evals@ ==> r@ == p@,
    {
        let n = self.size_exec();
        proof {
            vstd::arithmetic::power2::lemma2_to64();
            vstd::arithmetic::power2::lemma_pow2_pos(self.log_size as nat);
        }
        let n_inv = inverse(n as u32);
        let shift_inv = inverse(self.shift);
        let ginv = self.generator_inv;
        proof {
            lemma_finv(n as int, n_inv as int);
            lemma_finv(self.shift as int, shift_inv as int);
            lemma_finv(self.generator as int, ginv as int);
        }
        let ghost e = evals@;
        let ghost spec_coeffs = coset_idft(e, self.shift as int, self.generator as int, n as nat);
        let mut coeffs: Vec<u32> = Vec::new();
        let mut w: u32 = 1;
        let mut sp: u32 = 1;
        let mut j: usize = 0;
        proof {
            vstd::arithmetic::power::lemma_pow0(ginv as int);
            vstd::arithmetic::power::lemma_pow0(shift_inv as int);
            vstd::arithmetic::div_mod::lemma_small_mod(1, modulus() as nat);
        }
        while j < n
            invariant
                n == self.size(),
                all_elems(evals@),
                e == evals@,
                spec_coeffs == coset_idft(e, self.shift as int, self.generator as int, n as nat),
                is_elem(n_inv),
                is_elem(shift_inv),
                is_elem(ginv),
                finv(n as int) == n_inv,
                finv(self.shift as int) == shift_inv,
                finv(self.generator as int) == ginv,
                is_elem(w),
                is_elem(sp),
                w as int == fpow(ginv as int, j as nat),
                sp as int == fpow(shift_inv as int, j as nat),
                j <= n,
                coeffs@.len() == j,
                all_elems(coeffs@),
                forall|k: int| 0 <= k < j ==> #[trigger] coeffs@[k] == spec_coeffs[k],
            decreases n - j,
        {
            let mut acc: u32 = 0;
            let mut pw: u32 = 1;
            let mut i: usize = 0;
            proof {
                vstd::arithmetic::power::lemma_pow0(ginv as int);
                vstd::arithmetic::div_mod::lemma_small_mod(1, modulus() as nat);
                assert(0 * j == 0);
            }
            while i < n
                invariant
                    n == self.size(),
                    all_elems(evals@),
                    e == evals@,
                    is_elem(ginv),
                    is_elem(w),
                    w as int == fpow(ginv as int, j as nat),
                    i <= n,
                    is_elem(acc),
                    is_elem(pw),
                    acc as int == dft_sum(e, ginv as int, j as nat, i as nat),
                    pw as int == fpow(ginv as int, (i * j) as nat),
                decreases n - i,
            {
                let v: u32 = if i < evals.len() { evals[i] } else { 0 };
                assert(v as int == coeff_at(e, i as int));
                acc = add_mod(acc, mul_mod(v, pw));
                proof {
                    lemma_fpow_adds(ginv as int, (i * j) as nat, j as nat);
                    assert((i + 1) * j == i * j + j) by (nonlinear_arith);
                }
                pw = mul_mod(pw, w);
                i = i + 1;
            }
            let c = mul_mod(n_inv, mul_mod(sp, acc));
            coeffs.push(c);
            proof {
                lemma_fpow_adds(ginv as int, j as nat, 1);
                lemma_fpow_adds(shift_inv as int, j as nat, 1);
                vstd::arithmetic::power::lemma_pow1(ginv as int);
                vstd::arithmetic::power::lemma_pow1(shift_inv as int);
                vstd::arithmetic::div_mod::lemma_small_mod(ginv as nat, modulus() as nat);
                vstd::arithmetic::div_mod::lemma_small_mod(shift_inv as nat, modulus() as nat);
            }
            w = mul_mod(w, ginv);
            sp = mul_mod(sp, shift_inv);
            j = j + 1;
        }
        assert(coeffs@ =~= spec_coeffs);
        proof {
            assert(fmul(self.shift as int, finv(self.shift as int)) == 1);
            assert forall|p: Polynomial|
                p.wf() && p@.len() <= self.size() && #[trigger] coset_evals(*self, p@) == evals@ implies trim(
                    coset_idft(evals@, self.shift as int, self.generator as int, self.size()),
                ) == p@ by {
                crate::transform::lemma_coset_round_trip(*self, p);
            }
        }
        Polynomial::from_coeffs(coeffs)
    }

    /// For each column of `coset_evals`, whose rows hold values at the elements of the coset,
    /// the value at `point` of the polynomial of degree below `2^log_size` with those values.
    pub fn evaluate_interpolation(&self, coset_evals: &RowMajorMatrix, point: u32) -> (r: Vec<u32>)
        requires
            self.wf(),
            self.shift != 0,
            coset_evals.wf(),
            coset_evals.spec_height() == self.size(),
            all_elems(coset_evals.values@),
            is_elem(point),
        ensures
            r@.len() == coset_evals.width,
            forall|c: int|
                0 <= c < coset_evals.width ==> (#[trigger] r@[c]) as int == poly_eval(
                    trim(coset_idft(column(*coset_evals, c), self.shift as int, self.generator as int, self.size())),
                    point as int,
                ),
    {
        let width = coset_evals.width();
        let height = coset_evals.height();
        let total = coset_evals.values.len();
        let mut out: Vec<u32> = Vec::new();
        let mut c: usize = 0;
        while c < width
            invariant
                self.wf(),
                self.shift != 0,
                coset_evals.wf(),
                all_elems(coset_evals.values@),
                is_elem(point),
                width == coset_evals.width,
                height == coset_evals.spec_height(),
                height == self.size(),
                total == coset_evals.values@.len(),
                c <= width,
                out@.len() == c,
                forall|k: int|
                    0 <= k < c ==> (#[trigger] out@[k]) as int == poly_eval(
                        trim(coset_idft(column(*coset_evals, k), self.shift as int, self.generator as int, self.size())),
                        point as int,
                    ),
            decreases width - c,
        {
            let mut col: Vec<u32> = Vec::new();
            let mut i: usize = 0;
            while i < height
                invariant
                    coset_evals.wf(),
                    all_elems(coset_evals.values@),
                    width == coset_evals.width,
                    height == coset_evals.spec_height(),
                    c < width,
                    total == coset_evals.values@.len(),
                    i <= height,
                    col@.len() == i,
                    all_elems(col@),
                    forall|k: int| 0 <= k < i ==> #[trigger] col@[k] == coset_evals.values@[k * width + c],
                decreases height - i,
            {
                proof {
                    crate::matrix::lemma_row_in_bounds(coset_evals, i as int);
                }
                col.push(coset_evals.values[i * width + c]);
                i = i + 1;
            }
            assert(col@ =~= column(*coset_evals, c as int));
            let p = self.interpolate_evals(col);
            out.push(p.evaluate(point));
            c = c + 1;
        }
        out
    }
}

/// Two cosets are equal when they share a generator and the shift of the first lies in the
/// subgroup of the second.
pub open spec fn same_coset(a: Radix2Coset, b: Radix2Coset) -> bool {
    a.generator == b.generator && is_elem(a.shift) && in_subgroup(a.shift, b.log_size as nat)
}

impl PartialEq for Radix2Coset {
    fn eq(&self, other: &Self) -> (r: bool) {
        self.generator == other.generator && self.shift < crate::field::P && other.contains(self.shift)
    }
}

impl vstd::std_specs::cmp::PartialEqSpecImpl for Radix2Coset {
    open spec fn obeys_eq_spec() -> bool {
        true
    }

    open spec fn eq_spec(&self, other: &Radix2Coset) -> bool {
        same_coset(*self, *other)
    }
}

} // verus!