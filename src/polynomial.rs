//! Dense polynomials over the field, lowest-degree coefficient first.
use crate::field::{
    add_mod, fadd, finv, fmul, fpow, fsub, inverse, is_elem, lemma_fadd_neg, lemma_fadd_swap, lemma_fadd_zero,
    lemma_finv, lemma_fmul_assoc, lemma_fmul_comm, lemma_fmul_distrib, lemma_fmul_one_zero, lemma_fpow_adds, modulus,
    mul_mod, sub_mod,
};
use vstd::prelude::*;

verus! {

/// A polynomial held by its coefficients, lowest degree first, with no trailing zero; the zero
/// polynomial has no coefficient.
#[derive(Clone, Debug, PartialEq, Eq)]
pub struct Polynomial {
    coeffs: Vec<u32>,
}

/// `s` without its trailing zeros.
pub open spec fn trim(s: Seq<u32>) -> Seq<u32>
    decreases s.len(),
{
    if s.len() > 0 && s.last() == 0 {
        trim(s.drop_last())
    } else {
        s
    }
}

/// Every entry of `s` is a canonical field element.
pub open spec fn all_elems(s: Seq<u32>) -> bool {
    forall|i: int| 0 <= i < s.len() ==> is_elem(#[trigger] s[i])
}

/// The value at `x` of the polynomial with coefficients `c`.
pub open spec fn poly_eval(c: Seq<u32>, x: int) -> int
    decreases c.len(),
{
    if c.len() == 0 {
        0
    } else {
        fadd(c[0] as int, fmul(x, poly_eval(c.drop_first(), x)))
    }
}

/// The coefficient of degree `i`, zero past the end.
pub open spec fn coeff_at(c: Seq<u32>, i: int) -> int {
    if 0 <= i < c.len() {
        c[i] as int
    } else {
        0
    }
}

impl View for Polynomial {
    type V = Seq<u32>;

    closed spec fn view(&self) -> Seq<u32> {
        self.coeffs@
    }
}

pub proof fn lemma_trim_props(s: Seq<u32>)
    ensures
        trim(s).len() <= s.len(),
        trim(s) == s.subrange(0, trim(s).len() as int),
        trim(s).len() == 0 || trim(s).last() != 0,
        forall|i: int| trim(s).len() <= i < s.len() ==> s[i] == 0,
    decreases s.len(),
{
    if s.len() > 0 && s.last() == 0 {
        lemma_trim_props(s.drop_last());
        assert(s.drop_last() == s.subrange(0, s.len() - 1));
        assert forall|i: int| trim(s).len() <= i < s.len() implies s[i] == 0 by {
            if i < s.len() - 1 {
                assert(s[i] == s.drop_last()[i]);
            }
        }
    } else {
        assert(s == s.subrange(0, s.len() as int));
    }
}

impl Polynomial {
    pub open spec fn wf(&self) -> bool {
        &&& all_elems(self@)
        &&& (self@.len() == 0 || self@.last() != 0)
    }

    /// The polynomial with coefficients `coeffs`, trailing zeros dropped.
    pub fn from_coeffs(coeffs: Vec<u32>) -> (r: Polynomial)
        requires
            all_elems(coeffs@),
        ensures
            r.wf(),
            r@ == trim(coeffs@),
    {
        let mut coeffs = coeffs;
        let ghost orig = coeffs@;
        proof {
            lemma_trim_props(orig);
        }
        while coeffs.len() > 0 && coeffs[coeffs.len() - 1] == 0
            invariant
                trim(coeffs@) == trim(orig),
                all_elems(coeffs@),
                all_elems(orig),
                coeffs@.len() <= orig.len(),
                coeffs@ == orig.subrange(0, coeffs@.len() as int),
            decreases coeffs.len(),
        {
            let ghost before = coeffs@;
            coeffs.pop();
            assert(coeffs@ == before.drop_last());
        }
        proof {
            lemma_trim_props(coeffs@);
        }
        Polynomial { coeffs }
    }

    pub fn zero() -> (r: Polynomial)
        ensures
            r.wf(),
            r@ == Seq::<u32>::empty(),
    {
        Polynomial { coeffs: Vec::new() }
    }

    /// The coefficients, lowest degree first.
    pub fn coeffs(&self) -> (r: &Vec<u32>)
        ensures
            r@ == self@,
    {
        &self.coeffs
    }

    pub fn is_zero(&self) -> (r: bool)
        ensures
            r == (self@.len() == 0),
    {
        self.coeffs.len() == 0
    }

    /// The value at `x`, by Horner's rule.
    pub fn evaluate(&self, x: u32) -> (r: u32)
        requires
            self.wf(),
            is_elem(x),
        ensures
            r as int == poly_eval(self@, x as int),
            is_elem(r),
    {
        let r = eval_prefix(&self.coeffs, self.coeffs.len(), x);
        assert(self@.subrange(0, self@.len() as int) == self@);
        r
    }
}

/// The value at `x` of the polynomial with the first `len` coefficients of `coeffs`, by
/// Horner's rule.
pub fn eval_prefix(coeffs: &Vec<u32>, len: usize, x: u32) -> (r: u32)
    requires
        len <= coeffs@.len(),
        all_elems(coeffs@),
        is_elem(x),
    ensures
        r as int == poly_eval(coeffs@.subrange(0, len as int), x as int),
        is_elem(r),
{
    let ghost c = coeffs@.subrange(0, len as int);
    let mut acc: u32 = 0;
    let mut i: usize = len;
    while i > 0
        invariant
            len <= coeffs@.len(),
            c == coeffs@.subrange(0, len as int),
            i <= len,
            all_elems(coeffs@),
            is_elem(x),
            is_elem(acc),
            acc as int == poly_eval(c.subrange(i as int, len as int), x as int),
        decreases i,
    {
        i = i - 1;
        let ghost tail = c.subrange(i as int, len as int);
        assert(tail.drop_first() == c.subrange(i + 1, len as int));
        acc = add_mod(coeffs[i], mul_mod(x, acc));
        assert(tail[0] == coeffs@[i as int]);
        proof {
            vstd::arithmetic::div_mod::lemma_mul_mod_noop_right(
                x as int,
                poly_eval(tail.drop_first(), x as int),
                crate::field::modulus(),
            );
        }
    }
    assert(c.subrange(0, len as int) == c);
    acc
}

/// `sum_{i < n} f(i)` in the field.
pub open spec fn fsum(f: spec_fn(int) -> int, n: nat) -> int
    decreases n,
{
    if n == 0 {
        0
    } else {
        fadd(fsum(f, (n - 1) as nat), f(n - 1))
    }
}

/// The coefficient-wise sum.
pub open spec fn add_coeffs(a: Seq<u32>, b: Seq<u32>) -> Seq<u32> {
    Seq::new(
        if a.len() >= b.len() { a.len() } else { b.len() },
        |i: int| fadd(coeff_at(a, i), coeff_at(b, i)) as u32,
    )
}

/// The coefficient-wise difference.
pub open spec fn sub_coeffs(a: Seq<u32>, b: Seq<u32>) -> Seq<u32> {
    Seq::new(
        if a.len() >= b.len() { a.len() } else { b.len() },
        |i: int| fsub(coeff_at(a, i), coeff_at(b, i)) as u32,
    )
}

/// Every coefficient times `c`.
pub open spec fn scale_coeffs(a: Seq<u32>, c: int) -> Seq<u32> {
    Seq::new(a.len(), |i: int| fmul(c, a[i] as int) as u32)
}

/// The term `a_i * b_(k-i)` of coefficient `k` of a product.
pub open spec fn conv_term(a: Seq<u32>, b: Seq<u32>, k: int) -> spec_fn(int) -> int {
    |i: int| fmul(coeff_at(a, i), coeff_at(b, k - i))
}

/// The coefficients of the product: coefficient `k` is `sum_{i <= k} a_i * b_(k-i)`.
pub open spec fn mul_coeffs(a: Seq<u32>, b: Seq<u32>) -> Seq<u32> {
    if a.len() == 0 || b.len() == 0 {
        Seq::empty()
    } else {
        Seq::new((a.len() + b.len() - 1) as nat, |k: int| fsum(conv_term(a, b, k), (k + 1) as nat) as u32)
    }
}

impl Polynomial {
    /// The constant polynomial `c`.
    pub fn constant(c: u32) -> (r: Polynomial)
        requires
            is_elem(c),
        ensures
            r.wf(),
            r@ == trim(seq![c]),
    {
        let v = vec![c];
        assert(v@ =~= seq![c]);
        Polynomial::from_coeffs(v)
    }

    /// The degree, for a non-zero polynomial.
    pub fn degree(&self) -> (r: usize)
        requires
            self@.len() > 0,
        ensures
            r == self@.len() - 1,
    {
        self.coeffs.len() - 1
    }

    /// The sum.
    pub fn add(&self, other: &Polynomial) -> (r: Polynomial)
        requires
            self.wf(),
            other.wf(),
        ensures
            r.wf(),
            r@ == trim(add_coeffs(self@, other@)),
    {
        let la = self.coeffs.len();
        let lb = other.coeffs.len();
        let n = if la >= lb { la } else { lb };
        let mut out: Vec<u32> = Vec::new();
        let mut i: usize = 0;
        while i < n
            invariant
                self.wf(),
                other.wf(),
                la == self@.len(),
                lb == other@.len(),
                n == (if la >= lb { la } else { lb }),
                i <= n,
                out@.len() == i,
                all_elems(out@),
                forall|k: int| 0 <= k < i ==> #[trigger] out@[k] == add_coeffs(self@, other@)[k],
            decreases n - i,
        {
            let x = if i < la { self.coeffs[i] } else { 0 };
            let y = if i < lb { other.coeffs[i] } else { 0 };
            out.push(add_mod(x, y));
            i = i + 1;
        }
        assert(out@ =~= add_coeffs(self@, other@));
        Polynomial::from_coeffs(out)
    }

    /// The difference.
    pub fn sub(&self, other: &Polynomial) -> (r: Polynomial)
        requires
            self.wf(),
            other.wf(),
        ensures
            r.wf(),
            r@ == trim(sub_coeffs(self@, other@)),
    {
        let la = self.coeffs.len();
        let lb = other.coeffs.len();
        let n = if la >= lb { la } else { lb };
        let mut out: Vec<u32> = Vec::new();
        let mut i: usize = 0;
        while i < n
            invariant
                self.wf(),
                other.wf(),
                la == self@.len(),
                lb == other@.len(),
                n == (if la >= lb { la } else { lb }),
                i <= n,
                out@.len() == i,
                all_elems(out@),
                forall|k: int| 0 <= k < i ==> #[trigger] out@[k] == sub_coeffs(self@, other@)[k],
            decreases n - i,
        {
            let x = if i < la { self.coeffs[i] } else { 0 };
            let y = if i < lb { other.coeffs[i] } else { 0 };
            out.push(sub_mod(x, y));
            i = i + 1;
        }
        assert(out@ =~= sub_coeffs(self@, other@));
        Polynomial::from_coeffs(out)
    }

    /// Every coefficient times `c`.
    pub fn scale(&self, c: u32) -> (r: Polynomial)
        requires
            self.wf(),
            is_elem(c),
        ensures
            r.wf(),
            r@ == trim(scale_coeffs(self@, c as int)),
    {
        let n = self.coeffs.len();
        let mut out: Vec<u32> = Vec::new();
        let mut i: usize = 0;
        while i < n
            invariant
                self.wf(),
                is_elem(c),
                n == self@.len(),
                i <= n,
                out@.len() == i,
                all_elems(out@),
                forall|k: int| 0 <= k < i ==> #[trigger] out@[k] == scale_coeffs(self@, c as int)[k],
            decreases n - i,
        {
            out.push(mul_mod(c, self.coeffs[i]));
            i = i + 1;
        }
        assert(out@ =~= scale_coeffs(self@, c as int));
        Polynomial::from_coeffs(out)
    }

    /// The product.
    pub fn mul(&self, other: &Polynomial) -> (r: Polynomial)
        requires
            self.wf(),
            other.wf(),
            self@.len() + other@.len() <= usize::MAX,
        ensures
            r.wf(),
            r@ == trim(mul_coeffs(self@, other@)),
    {
        let la = self.coeffs.len();
        let lb = other.coeffs.len();
        if la == 0 || lb == 0 {
            return Polynomial::zero();
        }
        let n = la + lb - 1;
        let ghost a = self@;
        let ghost b = other@;
        let mut out: Vec<u32> = Vec::new();
        let mut k: usize = 0;
        while k < n
            invariant
                self.wf(),
                other.wf(),
                a == self@,
                b == other@,
                la == a.len(),
                lb == b.len(),
                la > 0,
                lb > 0,
                n == la + lb - 1,
                k <= n,
                out@.len() == k,
                all_elems(out@),
                forall|j: int| 0 <= j < k ==> #[trigger] out@[j] == mul_coeffs(a, b)[j],
            decreases n - k,
        {
            let mut acc: u32 = 0;
            let mut i: usize = 0;
            while i <= k
                invariant
                    self.wf(),
                    other.wf(),
                    a == self@,
                    b == other@,
                    la == a.len(),
                    lb == b.len(),
                    k < n,
                    n == la + lb - 1,
                    i <= k + 1,
                    is_elem(acc),
                    acc as int == fsum(conv_term(a, b, k as int), i as nat),
                decreases k + 1 - i,
            {
                let x = if i < la { self.coeffs[i] } else { 0 };
                let y = if k - i < lb { other.coeffs[k - i] } else { 0 };
                assert(x as int == coeff_at(a, i as int));
                assert(y as int == coeff_at(b, k - i));
                acc = add_mod(acc, mul_mod(x, y));
                i = i + 1;
            }
            out.push(acc);
            k = k + 1;
        }
        assert(out@ =~= mul_coeffs(a, b));
        Polynomial::from_coeffs(out)
    }
}

/// `1 + c x + c^2 x^2 + ... + c^(n-1) x^(n-1)`.
pub open spec fn power_coeffs(c: int, n: nat) -> Seq<u32> {
    Seq::new(n, |i: int| fpow(c, i as nat) as u32)
}

/// The monic linear factor `x - a`.
pub open spec fn linear(a: u32) -> Seq<u32> {
    seq![fsub(0, a as int) as u32, 1u32]
}

/// The product of `x - a` over the points `a` of `pts`.
pub open spec fn vanishing_coeffs(pts: Seq<u32>) -> Seq<u32>
    decreases pts.len(),
{
    if pts.len() == 0 {
        seq![1u32]
    } else {
        trim(mul_coeffs(vanishing_coeffs(pts.drop_last()), linear(pts.last())))
    }
}

/// The quotient of dividing by `x - a`: coefficient `i` is `sum_{j > i} p_j a^(j-1-i)`, the
/// value at `a` of the coefficients above `i`.
pub open spec fn linear_quotient(p: Seq<u32>, a: int) -> Seq<u32> {
    Seq::new(
        if p.len() == 0 { 0 } else { (p.len() - 1) as nat },
        |i: int| poly_eval(p.subrange(i + 1, p.len() as int), a) as u32,
    )
}

/// Divides successively by `x - a` for each point `a` of `pts`.
pub open spec fn divide_by_points(p: Seq<u32>, pts: Seq<u32>) -> Seq<u32>
    decreases pts.len(),
{
    if pts.len() == 0 {
        p
    } else {
        trim(linear_quotient(divide_by_points(p, pts.drop_last()), pts.last() as int))
    }
}

/// Whether each of the successive divisions leaves no remainder.
pub open spec fn divides_exactly(p: Seq<u32>, pts: Seq<u32>) -> bool
    decreases pts.len(),
{
    pts.len() == 0 || (divides_exactly(p, pts.drop_last()) && poly_eval(
        divide_by_points(p, pts.drop_last()),
        pts.last() as int,
    ) == 0)
}

/// The first coordinates.
pub open spec fn xs_of(points: Seq<(u32, u32)>) -> Seq<u32> {
    Seq::new(points.len(), |i: int| points[i].0)
}

/// The Lagrange basis term of point `i`: `y_i * prod_{j != i} (x - x_j) / (x_i - x_j)`.
pub open spec fn lagrange_term(points: Seq<(u32, u32)>, i: int) -> Seq<u32> {
    let others = xs_of(points).remove(i);
    let v = vanishing_coeffs(others);
    trim(scale_coeffs(v, fmul(points[i].1 as int, finv(poly_eval(v, points[i].0 as int)))))
}

/// The sum of the first `n` Lagrange terms.
pub open spec fn lagrange_partial(points: Seq<(u32, u32)>, n: nat) -> Seq<u32>
    decreases n,
{
    if n == 0 {
        Seq::empty()
    } else {
        trim(add_coeffs(lagrange_partial(points, (n - 1) as nat), lagrange_term(points, n - 1)))
    }
}

/// The Lagrange interpolant through `points`.
pub open spec fn lagrange_coeffs(points: Seq<(u32, u32)>) -> Seq<u32> {
    lagrange_partial(points, points.len())
}

/// Whether no point shares its first coordinate's Lagrange denominator with zero, that is,
/// the product of `x_i - x_j` over the other points is not zero for any `i`.
pub open spec fn denominators_nonzero(points: Seq<(u32, u32)>) -> bool {
    forall|i: int|
        0 <= i < points.len() ==> poly_eval(vanishing_coeffs(#[trigger] xs_of(points).remove(i)), points[i].0 as int)
            != 0
}

/// Every coordinate is a field element.
pub open spec fn points_wf(points: Seq<(u32, u32)>) -> bool {
    forall|i: int| 0 <= i < points.len() ==> is_elem((#[trigger] points[i]).0) && is_elem(points[i].1)
}

impl Polynomial {
    /// `1 + c x + ... + c^(n-1) x^(n-1)`.
    pub fn power_polynomial(c: u32, n: usize) -> (r: Polynomial)
        requires
            is_elem(c),
        ensures
            r.wf(),
            r@ == trim(power_coeffs(c as int, n as nat)),
    {
        let mut out: Vec<u32> = Vec::new();
        let mut pw: u32 = 1;
        let mut i: usize = 0;
        proof {
            vstd::arithmetic::power::lemma_pow0(c as int);
            vstd::arithmetic::div_mod::lemma_small_mod(1, modulus() as nat);
        }
        while i < n
            invariant
                is_elem(c),
                i <= n,
                is_elem(pw),
                pw as int == fpow(c as int, i as nat),
                out@.len() == i,
                all_elems(out@),
                forall|k: int| 0 <= k < i ==> #[trigger] out@[k] == power_coeffs(c as int, n as nat)[k],
            decreases n - i,
        {
            out.push(pw);
            proof {
                lemma_fpow_adds(c as int, i as nat, 1);
                vstd::arithmetic::power::lemma_pow1(c as int);
                vstd::arithmetic::div_mod::lemma_small_mod(c as nat, modulus() as nat);
                vstd::arithmetic::mul::lemma_mul_is_commutative(pw as int, c as int);
            }
            pw = mul_mod(pw, c);
            i = i + 1;
        }
        assert(out@ =~= power_coeffs(c as int, n as nat));
        Polynomial::from_coeffs(out)
    }

    /// The monic polynomial whose roots are the points: the product of `x - a`.
    pub fn vanishing_polynomial(points: &Vec<u32>) -> (r: Polynomial)
        requires
            all_elems(points@),
            points@.len() + 2 <= usize::MAX,
        ensures
            r.wf(),
            r@ == vanishing_coeffs(points@),
            forall|i: int| 0 <= i < points@.len() ==> poly_eval(r@, (#[trigger] points@[i]) as int) == 0,
    {
        let one = vec![1u32];
        assert(one@ =~= seq![1u32]);
        let mut v = Polynomial { coeffs: one };
        let mut i: usize = 0;
        while i < points.len()
            invariant
                all_elems(points@),
                points@.len() + 2 <= usize::MAX,
                i <= points@.len(),
                v.wf(),
                v@ == vanishing_coeffs(points@.subrange(0, i as int)),
                v@.len() <= i + 1,
            decreases points.len() - i,
        {
            let a = points[i];
            let factor_coeffs = vec![sub_mod(0, a), 1u32];
            assert(factor_coeffs@ =~= linear(a));
            let factor = Polynomial { coeffs: factor_coeffs };
            let next = v.mul(&factor);
            proof {
                assert(points@.subrange(0, i + 1).drop_last() == points@.subrange(0, i as int));
                lemma_trim_props(mul_coeffs(v@, linear(a)));
            }
            v = next;
            i = i + 1;
        }
        assert(points@.subrange(0, points@.len() as int) == points@);
        proof {
            assert forall|i: int| 0 <= i < points@.len() implies poly_eval(v@, (#[trigger] points@[i]) as int) == 0 by {
                lemma_vanishing_root(points@, points@[i]);
            }
        }
        v
    }

    /// Divides by `x - a`: the quotient, and the remainder, which is the value at `a`.
    pub fn divide_by_vanishing_linear_polynomial(&self, a: u32) -> (r: (Polynomial, u32))
        requires
            self.wf(),
            is_elem(a),
        ensures
            r.0.wf(),
            r.0@ == trim(linear_quotient(self@, a as int)),
            r.1 as int == poly_eval(self@, a as int),
            is_elem(r.1),
    {
        let n = self.coeffs.len();
        if n == 0 {
            let z = Polynomial::zero();
            assert(z@ =~= trim(linear_quotient(self@, a as int)));
            return (z, 0);
        }
        let ghost p = self@;
        let mut q: Vec<u32> = Vec::new();
        let mut k: usize = 0;
        while k < n - 1
            invariant
                n == p.len(),
                n > 0,
                k <= n - 1,
                q@.len() == k,
                all_elems(q@),
            decreases n - 1 - k,
        {
            q.push(0);
            k = k + 1;
        }
        let mut acc: u32 = 0;
        let mut i: usize = n;
        while i > 0
            invariant
                self.wf(),
                p == self@,
                n == p.len(),
                n > 0,
                is_elem(a),
                i <= n,
                q@.len() == n - 1,
                all_elems(q@),
                is_elem(acc),
                acc as int == poly_eval(p.subrange(i as int, n as int), a as int),
                forall|k: int| i <= k < n - 1 ==> #[trigger] q@[k] == linear_quotient(p, a as int)[k],
            decreases i,
        {
            i = i - 1;
            if i < n - 1 {
                q.set(i, acc);
            }
            let ghost tail = p.subrange(i as int, n as int);
            assert(tail.drop_first() == p.subrange(i + 1, n as int));
            acc = add_mod(self.coeffs[i], mul_mod(a, acc));
            proof {
                vstd::arithmetic::div_mod::lemma_mul_mod_noop_right(a as int, poly_eval(tail.drop_first(), a as int), modulus());
            }
        }
        assert(p.subrange(0, n as int) == p);
        assert(q@ =~= linear_quotient(p, a as int));
        (Polynomial::from_coeffs(q), acc)
    }
}

/// Exact division by all points implies exact division by the first `t` of them.
proof fn lemma_divides_prefix(p: Seq<u32>, pts: Seq<u32>, t: int)
    requires
        0 <= t <= pts.len(),
        divides_exactly(p, pts),
    ensures
        divides_exactly(p, pts.subrange(0, t)),
    decreases pts.len(),
{
    if t < pts.len() {
        assert(pts.drop_last() == pts.subrange(0, pts.len() - 1));
        lemma_divides_prefix(p, pts.drop_last(), t);
        assert(pts.drop_last().subrange(0, t) == pts.subrange(0, t));
    } else {
        assert(pts.subrange(0, t) == pts);
    }
}

/// The first coordinates of the points.
fn first_coords(points: &Vec<(u32, u32)>) -> (r: Vec<u32>)
    ensures
        r@ == xs_of(points@),
{
    let mut xs: Vec<u32> = Vec::new();
    let mut i: usize = 0;
    while i < points.len()
        invariant
            i <= points@.len(),
            xs@ == xs_of(points@).subrange(0, i as int),
        decreases points.len() - i,
    {
        xs.push(points[i].0);
        i = i + 1;
    }
    assert(xs@ =~= xs_of(points@));
    xs
}

/// `xs` without entry `i`.
fn without(xs: &Vec<u32>, i: usize) -> (r: Vec<u32>)
    requires
        i < xs@.len(),
    ensures
        r@ == xs@.remove(i as int),
{
    let n = xs.len();
    let mut out: Vec<u32> = Vec::new();
    let mut j: usize = 0;
    while j < i
        invariant
            n == xs@.len(),
            i < xs@.len(),
            j <= i,
            out@ == xs@.subrange(0, j as int),
        decreases i - j,
    {
        out.push(xs[j]);
        j = j + 1;
    }
    j = i + 1;
    while j < n
        invariant
            i < xs@.len(),
            n == xs@.len(),
            i + 1 <= j <= xs@.len(),
            out@ == xs@.subrange(0, i as int) + xs@.subrange(i + 1, j as int),
        decreases n - j,
    {
        out.push(xs[j]);
        j = j + 1;
    }
    assert(out@ =~= xs@.remove(i as int));
    out
}

impl Polynomial {
    /// A copy.
    pub fn duplicate(&self) -> (r: Polynomial)
        ensures
            r@ == self@,
    {
        let mut out: Vec<u32> = Vec::new();
        let mut i: usize = 0;
        while i < self.coeffs.len()
            invariant
                i <= self@.len(),
                out@ == self@.subrange(0, i as int),
            decreases self.coeffs.len() - i,
        {
            out.push(self.coeffs[i]);
            i = i + 1;
        }
        assert(out@ =~= self@);
        Polynomial { coeffs: out }
    }

    /// The Lagrange interpolant through `points`: the sum over the points of
    /// `y_i * prod_{j != i} (x - x_j) / (x_i - x_j)`. Nothing when a denominator is zero, as
    /// with two points of the same first coordinate.
    pub fn lagrange_interpolation(points: &Vec<(u32, u32)>) -> (r: Option<Polynomial>)
        requires
            points_wf(points@),
            points@.len() + 2 <= usize::MAX,
        ensures
            r.is_some() == denominators_nonzero(points@),
            r matches Some(p) ==> p.wf() && p@ == lagrange_coeffs(points@),
            r matches Some(p) ==> forall|j: int|
                0 <= j < points@.len() ==> poly_eval(p@, (#[trigger] points@[j]).0 as int) == points@[j].1,
    {
        let xs = first_coords(points);
        let mut acc = Polynomial::zero();
        let mut i: usize = 0;
        while i < points.len()
            invariant
                points_wf(points@),
                points@.len() + 2 <= usize::MAX,
                xs@ == xs_of(points@),
                i <= points@.len(),
                acc.wf(),
                acc@ == lagrange_partial(points@, i as nat),
                forall|k: int|
                    0 <= k < i ==> poly_eval(vanishing_coeffs(#[trigger] xs_of(points@).remove(k)), points@[k].0 as int)
                        != 0,
                forall|k: int|
                    0 <= k < i ==> fmul(#[trigger] lagrange_denominator(points@, k), finv(lagrange_denominator(points@, k)))
                        == 1,
            decreases points.len() - i,
        {
            let others = without(&xs, i);
            assert(all_elems(others@)) by {
                assert forall|k: int| 0 <= k < others@.len() implies is_elem(#[trigger] others@[k]) by {
                    if k < i {
                        assert(others@[k] == points@[k].0);
                    } else {
                        assert(others@[k] == points@[k + 1].0);
                    }
                }
            }
            let v = Polynomial::vanishing_polynomial(&others);
            let (x, y) = points[i];
            let d = v.evaluate(x);
            if d == 0 {
                return None;
            }
            let d_inv = inverse(d);
            proof {
                lemma_finv(d as int, d_inv as int);
            }
            let term = v.scale(mul_mod(y, d_inv));
            acc = acc.add(&term);
            assert(lagrange_denominator(points@, i as int) == d);
            i = i + 1;
        }
        proof {
            assert forall|j: int| 0 <= j < points@.len() implies poly_eval(acc@, (#[trigger] points@[j]).0 as int)
                == points@[j].1 by {
                lemma_lagrange_eval(points@, points@.len(), j);
            }
        }
        Some(acc)
    }

    /// Divides successively by `x - a` for each point `a`; nothing when a division leaves a
    /// remainder.
    pub fn divide_by_points(&self, points: &Vec<u32>) -> (r: Option<Polynomial>)
        requires
            self.wf(),
            all_elems(points@),
        ensures
            r.is_some() == divides_exactly(self@, points@),
            r matches Some(q) ==> q.wf() && q@ == divide_by_points(self@, points@),
            r matches Some(q) ==> forall|x: int|
                0 <= x < modulus() ==> #[trigger] poly_eval(self@, x) == fmul(
                    poly_eval(q@, x),
                    poly_eval(vanishing_coeffs(points@), x),
                ),
    {
        let mut cur = self.duplicate();
        let mut i: usize = 0;
        while i < points.len()
            invariant
                self.wf(),
                all_elems(points@),
                i <= points@.len(),
                cur.wf(),
                cur@ == divide_by_points(self@, points@.subrange(0, i as int)),
                divides_exactly(self@, points@.subrange(0, i as int)),
            decreases points.len() - i,
        {
            let (q, rem) = cur.divide_by_vanishing_linear_polynomial(points[i]);
            assert(points@.subrange(0, i + 1).drop_last() == points@.subrange(0, i as int));
            if rem != 0 {
                proof {
                    if divides_exactly(self@, points@) {
                        lemma_divides_prefix(self@, points@, i + 1);
                    }
                }
                return None;
            }
            cur = q;
            i = i + 1;
        }
        assert(points@.subrange(0, points@.len() as int) == points@);
        proof {
            assert forall|x: int| 0 <= x < modulus() implies #[trigger] poly_eval(self@, x) == fmul(
                poly_eval(cur@, x),
                poly_eval(vanishing_coeffs(points@), x),
            ) by {
                lemma_divide_exact(self@, points@, x);
            }
        }
        Some(cur)
    }
}

/// The vanishing polynomial of `n` points has at most `n + 1` coefficients.
pub proof fn lemma_vanishing_len(pts: Seq<u32>)
    ensures
        vanishing_coeffs(pts).len() <= pts.len() + 1,
    decreases pts.len(),
{
    if pts.len() > 0 {
        lemma_vanishing_len(pts.drop_last());
        lemma_trim_props(mul_coeffs(vanishing_coeffs(pts.drop_last()), linear(pts.last())));
    }
}

/// The Lagrange interpolant through `n` points has at most `n` coefficients.
pub proof fn lemma_lagrange_len(points: Seq<(u32, u32)>, n: nat)
    requires
        n <= points.len(),
    ensures
        lagrange_partial(points, n).len() <= points.len(),
    decreases n,
{
    if n > 0 {
        lemma_lagrange_len(points, (n - 1) as nat);
        let i = n - 1;
        let others = xs_of(points).remove(i);
        let v = vanishing_coeffs(others);
        lemma_vanishing_len(others);
        lemma_trim_props(scale_coeffs(v, fmul(points[i].1 as int, finv(poly_eval(v, points[i].0 as int)))));
        lemma_trim_props(add_coeffs(lagrange_partial(points, (n - 1) as nat), lagrange_term(points, i)));
    }
}

/// Dividing by points does not lengthen a polynomial.
pub proof fn lemma_divide_len(p: Seq<u32>, pts: Seq<u32>)
    ensures
        divide_by_points(p, pts).len() <= p.len(),
    decreases pts.len(),
{
    if pts.len() > 0 {
        lemma_divide_len(p, pts.drop_last());
        lemma_trim_props(linear_quotient(divide_by_points(p, pts.drop_last()), pts.last() as int));
    }
}

/// `s` without its lowest coefficient (empty stays empty).
pub open spec fn tail(s: Seq<u32>) -> Seq<u32> {
    if s.len() == 0 {
        s
    } else {
        s.drop_first()
    }
}

proof fn lemma_eval_range(c: Seq<u32>, x: int)
    ensures
        0 <= poly_eval(c, x) < modulus(),
{
}

/// Horner's step, also for the empty sequence.
proof fn lemma_eval_unfold(c: Seq<u32>, x: int)
    ensures
        poly_eval(c, x) == fadd(coeff_at(c, 0), fmul(x, poly_eval(tail(c), x))),
{
    if c.len() == 0 {
        lemma_fmul_one_zero(x % modulus());
        vstd::arithmetic::div_mod::lemma_small_mod(0, modulus() as nat);
        vstd::arithmetic::mul::lemma_mul_by_zero_is_zero(x);
    }
}

/// The value of a sum is the sum of the values.
pub proof fn lemma_eval_add(a: Seq<u32>, b: Seq<u32>, x: int)
    ensures
        poly_eval(add_coeffs(a, b), x) == fadd(poly_eval(a, x), poly_eval(b, x)),
    decreases a.len() + b.len(),
{
    let s = add_coeffs(a, b);
    if a.len() == 0 && b.len() == 0 {
        assert(s.len() == 0);
        lemma_fadd_zero(0);
    } else {
        lemma_eval_add(tail(a), tail(b), x);
        assert(tail(s) =~= add_coeffs(tail(a), tail(b)));
        lemma_eval_unfold(s, x);
        lemma_eval_unfold(a, x);
        lemma_eval_unfold(b, x);
        let ea = poly_eval(tail(a), x);
        let eb = poly_eval(tail(b), x);
        lemma_fmul_distrib(x, ea, eb);
        lemma_fadd_swap(coeff_at(a, 0), coeff_at(b, 0), fmul(x, ea), fmul(x, eb));
        assert(coeff_at(s, 0) == fadd(coeff_at(a, 0), coeff_at(b, 0)));
    }
}

/// The value of a scaled polynomial is the scaled value.
pub proof fn lemma_eval_scale(a: Seq<u32>, c: int, x: int)
    ensures
        poly_eval(scale_coeffs(a, c), x) == fmul(c, poly_eval(a, x)),
    decreases a.len(),
{
    let s = scale_coeffs(a, c);
    if a.len() == 0 {
        vstd::arithmetic::mul::lemma_mul_by_zero_is_zero(c);
        vstd::arithmetic::div_mod::lemma_small_mod(0, modulus() as nat);
    } else {
        lemma_eval_scale(tail(a), c, x);
        assert(tail(s) =~= scale_coeffs(tail(a), c));
        lemma_eval_unfold(s, x);
        lemma_eval_unfold(a, x);
        let e = poly_eval(tail(a), x);
        lemma_fmul_distrib(c, a[0] as int, fmul(x, e));
        lemma_fmul_assoc(x, c, e);
        lemma_fmul_assoc(c, x, e);
        lemma_fmul_comm(x, c);
    }
}

/// A trailing zero does not change the value.
proof fn lemma_eval_push_zero(a: Seq<u32>, x: int)
    ensures
        poly_eval(a.push(0), x) == poly_eval(a, x),
    decreases a.len(),
{
    if a.len() == 0 {
        lemma_eval_unfold(a.push(0), x);
        assert(tail(a.push(0)).len() == 0);
        vstd::arithmetic::mul::lemma_mul_by_zero_is_zero(x);
        vstd::arithmetic::div_mod::lemma_small_mod(0, modulus() as nat);
    } else {
        lemma_eval_push_zero(tail(a), x);
        assert(tail(a.push(0)) =~= tail(a).push(0));
        lemma_eval_unfold(a.push(0), x);
        lemma_eval_unfold(a, x);
    }
}

/// Trailing zeros do not change the value.
pub proof fn lemma_eval_trim(a: Seq<u32>, x: int)
    ensures
        poly_eval(trim(a), x) == poly_eval(a, x),
    decreases a.len(),
{
    if a.len() > 0 && a.last() == 0 {
        lemma_eval_trim(a.drop_last(), x);
        assert(a.drop_last().push(0) =~= a);
        lemma_eval_push_zero(a.drop_last(), x);
    }
}

/// Only two terms of a coefficient of a product by `x - p` are non-zero.
proof fn lemma_fsum_linear_prefix(a: Seq<u32>, p: u32, k: int, t: nat)
    requires
        t + 1 <= k,
    ensures
        fsum(conv_term(a, linear(p), k), t) == 0,
    decreases t,
{
    if t > 0 {
        lemma_fsum_linear_prefix(a, p, k, (t - 1) as nat);
        let i = t - 1;
        assert(coeff_at(linear(p), k - i) == 0);
        vstd::arithmetic::mul::lemma_mul_by_zero_is_zero(coeff_at(a, i));
        vstd::arithmetic::div_mod::lemma_small_mod(0, modulus() as nat);
    }
}

/// The product by `x - p` is `x a(x) - p a(x)`, coefficient by coefficient.
proof fn lemma_mul_linear(a: Seq<u32>, p: u32)
    requires
        a.len() > 0,
        all_elems(a),
        is_elem(p),
    ensures
        mul_coeffs(a, linear(p)) =~= add_coeffs(seq![0u32] + a, scale_coeffs(a, fsub(0, p as int))),
{
    let lin = linear(p);
    let np = fsub(0, p as int);
    let m = mul_coeffs(a, lin);
    let r = add_coeffs(seq![0u32] + a, scale_coeffs(a, np));
    assert(m.len() == r.len());
    assert forall|k: int| 0 <= k < m.len() implies m[k] == r[k] by {
        let f = conv_term(a, lin, k);
        assert(coeff_at(lin, 0) == np);
        assert(coeff_at(lin, 1) == 1);
        let ak = coeff_at(a, k);
        let ak1 = coeff_at(a, k - 1);
        lemma_fmul_one_zero(ak1);
        lemma_fmul_comm(ak, np);
        assert(m[k] == fsum(f, (k + 1) as nat) as u32);
        assert(r[k] == fadd(coeff_at(seq![0u32] + a, k), coeff_at(scale_coeffs(a, np), k)) as u32);
        assert(f(k) == fmul(ak, np));
        assert(fsum(f, (k + 1) as nat) == fadd(fsum(f, k as nat), f(k)));
        if k == 0 {
            assert(fsum(f, 0) == 0);
            lemma_fadd_zero(fmul(ak, np));
            assert(coeff_at(seq![0u32] + a, 0) == 0);
        } else {
            lemma_fsum_linear_prefix(a, p, k, (k - 1) as nat);
            assert(f(k - 1) == fmul(ak1, 1));
            assert(fsum(f, k as nat) == fadd(fsum(f, (k - 1) as nat), f(k - 1)));
            lemma_fadd_zero(ak1);
            assert(coeff_at(seq![0u32] + a, k) == ak1);
        }
        if k < a.len() {
            assert(coeff_at(scale_coeffs(a, np), k) == fmul(np, ak));
        } else {
            assert(ak == 0);
            lemma_fmul_one_zero(np);
            assert(coeff_at(scale_coeffs(a, np), k) == 0);
        }
    }
}

/// The value of the product by `x - p` at `x` is the value times `x - p`.
pub proof fn lemma_eval_mul_linear(a: Seq<u32>, p: u32, x: int)
    requires
        all_elems(a),
        is_elem(p),
        0 <= x < modulus(),
    ensures
        poly_eval(mul_coeffs(a, linear(p)), x) == fmul(poly_eval(a, x), fsub(x, p as int)),
{
    let e = poly_eval(a, x);
    if a.len() == 0 {
        lemma_fmul_one_zero(fsub(x, p as int));
    } else {
        lemma_mul_linear(a, p);
        let np = fsub(0, p as int);
        lemma_eval_add(seq![0u32] + a, scale_coeffs(a, np), x);
        lemma_eval_unfold(seq![0u32] + a, x);
        assert(tail(seq![0u32] + a) =~= a);
        lemma_fadd_zero(fmul(x, e));
        lemma_eval_scale(a, np, x);
        lemma_fmul_comm(x, e);
        lemma_fmul_comm(np, e);
        lemma_fmul_distrib(e, x, np);
        lemma_fadd_neg(x, p as int);
    }
}

/// The vanishing polynomial is zero at each of its points.
pub proof fn lemma_vanishing_root(pts: Seq<u32>, x: u32)
    requires
        all_elems(pts),
        pts.contains(x),
    ensures
        poly_eval(vanishing_coeffs(pts), x as int) == 0,
    decreases pts.len(),
{
    let rest = pts.drop_last();
    let last = pts.last();
    let v = vanishing_coeffs(rest);
    lemma_vanishing_elems(rest);
    lemma_eval_trim(mul_coeffs(v, linear(last)), x as int);
    lemma_eval_mul_linear(v, last, x as int);
    let e = poly_eval(v, x as int);
    if x == last {
        vstd::arithmetic::div_mod::lemma_small_mod(0, modulus() as nat);
        lemma_fmul_one_zero(e);
    } else {
        let i = choose|i: int| 0 <= i < pts.len() && pts[i] == x;
        assert(rest[i] == x);
        lemma_vanishing_root(rest, x);
        lemma_fmul_one_zero(fsub(x as int, last as int));
    }
}

/// The coefficients of a vanishing polynomial are field elements.
pub proof fn lemma_vanishing_elems(pts: Seq<u32>)
    ensures
        all_elems(vanishing_coeffs(pts)),
    decreases pts.len(),
{
    if pts.len() > 0 {
        lemma_vanishing_elems(pts.drop_last());
        lemma_trim_props(mul_coeffs(vanishing_coeffs(pts.drop_last()), linear(pts.last())));
    }
}

/// The Lagrange denominator of point `i`: the product of `x_i - x_j` over the other points.
pub open spec fn lagrange_denominator(points: Seq<(u32, u32)>, i: int) -> int {
    poly_eval(vanishing_coeffs(xs_of(points).remove(i)), points[i].0 as int)
}

/// The first `n` Lagrange terms sum to `y_j` at `x_j` for `j < n`, and to zero at the other
/// points, given inverses of their denominators.
pub proof fn lemma_lagrange_eval(points: Seq<(u32, u32)>, n: nat, j: int)
    requires
        points_wf(points),
        n <= points.len(),
        0 <= j < points.len(),
        forall|i: int|
            0 <= i < n ==> fmul(#[trigger] lagrange_denominator(points, i), finv(lagrange_denominator(points, i))) == 1,
    ensures
        poly_eval(lagrange_partial(points, n), points[j].0 as int) == (if j < n {
            points[j].1 as int
        } else {
            0
        }),
    decreases n,
{
    let xj = points[j].0;
    let yj = points[j].1 as int;
    assert(is_elem(points[j].0) && is_elem(points[j].1));
    if n > 0 {
        let i = n - 1;
        lemma_lagrange_eval(points, (n - 1) as nat, j);
        let prev = lagrange_partial(points, (n - 1) as nat);
        let others = xs_of(points).remove(i);
        let v = vanishing_coeffs(others);
        let d = lagrange_denominator(points, i);
        let coef = fmul(points[i].1 as int, finv(d));
        lemma_eval_trim(add_coeffs(prev, lagrange_term(points, i)), xj as int);
        lemma_eval_add(prev, lagrange_term(points, i), xj as int);
        lemma_eval_trim(scale_coeffs(v, coef), xj as int);
        lemma_eval_scale(v, coef, xj as int);
        assert(all_elems(others)) by {
            assert forall|t: int| 0 <= t < others.len() implies is_elem(#[trigger] others[t]) by {
                if t < i {
                    assert(others[t] == points[t].0);
                } else {
                    assert(others[t] == points[t + 1].0);
                }
            }
        }
        let term_value = poly_eval(lagrange_term(points, i), xj as int);
        if i == j {
            assert(poly_eval(v, xj as int) == d);
            let fd = finv(d);
            lemma_fmul_assoc(points[i].1 as int, fd, d);
            lemma_fmul_comm(fd, d);
            lemma_fmul_one_zero(yj);
            assert(term_value == yj);
            lemma_fadd_zero(yj);
        } else {
            if j < i {
                assert(others[j] == xj);
            } else {
                assert(others[j - 1] == xj);
            }
            lemma_vanishing_root(others, xj);
            lemma_fmul_one_zero(coef);
            assert(term_value == 0);
            lemma_eval_range(prev, xj as int);
            lemma_fadd_zero(poly_eval(prev, xj as int));
        }
    }
}

proof fn lemma_cong_mul(v: int, u: int, w: int)
    requires
        u % modulus() == w % modulus(),
    ensures
        (v * u) % modulus() == (v * w) % modulus(),
{
    vstd::arithmetic::div_mod::lemma_mul_mod_noop_right(v, u, modulus());
    vstd::arithmetic::div_mod::lemma_mul_mod_noop_right(v, w, modulus());
}

/// The quotient by `x - a` of `p` is the value at `a` of its tail, followed by the quotient
/// of its tail.
proof fn lemma_linear_quotient_unfold(p: Seq<u32>, a: int)
    requires
        p.len() >= 2,
    ensures
        linear_quotient(p, a) =~= seq![poly_eval(tail(p), a) as u32] + linear_quotient(tail(p), a),
{
    let t = tail(p);
    let n = p.len() as int;
    assert(t =~= p.subrange(1, n));
    assert forall|i: int| 1 <= i < n - 1 implies #[trigger] t.subrange(i, n - 1) =~= p.subrange(i + 1, n) by {}
}

/// Division by `x - a` with remainder: `p(x) = q(x) (x - a) + p(a)`.
pub proof fn lemma_linear_division(p: Seq<u32>, a: u32, x: int)
    requires
        all_elems(p),
        is_elem(a),
        0 <= x < modulus(),
    ensures
        poly_eval(p, x) == fadd(
            fmul(poly_eval(linear_quotient(p, a as int), x), fsub(x, a as int)),
            poly_eval(p, a as int),
        ),
    decreases p.len(),
{
    let m = modulus();
    let ai = a as int;
    if p.len() == 0 {
        lemma_fmul_one_zero(fsub(x, ai));
        lemma_fadd_zero(0);
    } else if p.len() == 1 {
        assert(linear_quotient(p, ai).len() == 0);
        lemma_fmul_one_zero(fsub(x, ai));
        lemma_eval_unfold(p, x);
        lemma_eval_unfold(p, ai);
        assert(tail(p).len() == 0);
        lemma_fmul_one_zero(x);
        lemma_fmul_one_zero(ai);
        lemma_fadd_zero(p[0] as int);
    } else {
        let t = tail(p);
        assert(all_elems(t));
        lemma_linear_division(t, a, x);
        lemma_linear_quotient_unfold(p, ai);
        let qa = poly_eval(t, ai);
        let lqt = linear_quotient(t, ai);
        let qx = poly_eval(lqt, x);
        let tx = poly_eval(t, x);
        let lqp = linear_quotient(p, ai);
        lemma_eval_unfold(lqp, x);
        assert(tail(lqp) =~= lqt);
        lemma_eval_unfold(p, x);
        lemma_eval_unfold(p, ai);
        let p0 = p[0] as int;
        let d = x - ai;
        // tx is qx (x - a) + qa.
        vstd::arithmetic::div_mod::lemma_mul_mod_noop_right(qx, d, m);
        vstd::arithmetic::div_mod::lemma_add_mod_noop(qx * d, qa, m);
        lemma_eval_range(t, ai);
        vstd::arithmetic::div_mod::lemma_mod_twice(qx * d, m);
        vstd::arithmetic::div_mod::lemma_small_mod(qa as nat, m as nat);
        assert(tx % m == (qx * d + qa) % m);
        // The left side is p0 + x tx.
        lemma_cong_mul(x, tx, qx * d + qa);
        vstd::arithmetic::div_mod::lemma_add_mod_noop_right(p0, x * tx, m);
        vstd::arithmetic::div_mod::lemma_add_mod_noop_right(p0, x * (qx * d + qa), m);
        let lhs_int = p0 + x * (qx * d + qa);
        assert(poly_eval(p, x) == lhs_int % m);
        // The right side is (qa + x qx) (x - a) + p0 + a qa.
        let lq_x = poly_eval(lqp, x);
        vstd::arithmetic::div_mod::lemma_add_mod_noop_right(qa, x * qx, m);
        assert(lq_x == (qa + x * qx) % m);
        vstd::arithmetic::div_mod::lemma_mul_mod_noop_right(lq_x, d, m);
        vstd::arithmetic::div_mod::lemma_mul_mod_noop_left(qa + x * qx, d, m);
        let pa = poly_eval(p, ai);
        vstd::arithmetic::div_mod::lemma_add_mod_noop_right(p0, ai * qa, m);
        assert(pa == (p0 + ai * qa) % m);
        vstd::arithmetic::div_mod::lemma_add_mod_noop((qa + x * qx) * d, p0 + ai * qa, m);
        let rhs_int = (qa + x * qx) * d + (p0 + ai * qa);
        vstd::arithmetic::div_mod::lemma_mod_twice((qa + x * qx) * d, m);
        vstd::arithmetic::div_mod::lemma_mod_twice(p0 + ai * qa, m);
        assert(fadd(fmul(lq_x, fsub(x, ai)), pa) == rhs_int % m);
        assert(lhs_int == rhs_int) by (nonlinear_arith)
            requires
                lhs_int == p0 + x * (qx * d + qa),
                rhs_int == (qa + x * qx) * d + (p0 + ai * qa),
                d == x - ai,
        ;
    }
}

/// The quotients by points are field elements.
proof fn lemma_divide_elems(p: Seq<u32>, pts: Seq<u32>)
    requires
        all_elems(p),
    ensures
        all_elems(divide_by_points(p, pts)),
    decreases pts.len(),
{
    if pts.len() > 0 {
        lemma_divide_elems(p, pts.drop_last());
        let q = linear_quotient(divide_by_points(p, pts.drop_last()), pts.last() as int);
        assert(all_elems(q));
        lemma_trim_props(q);
    }
}

/// When every division leaves no remainder, the polynomial is the quotient times the vanishing
/// polynomial of the points, at every point of the field.
pub proof fn lemma_divide_exact(p: Seq<u32>, pts: Seq<u32>, x: int)
    requires
        all_elems(p),
        all_elems(pts),
        divides_exactly(p, pts),
        0 <= x < modulus(),
    ensures
        poly_eval(p, x) == fmul(poly_eval(divide_by_points(p, pts), x), poly_eval(vanishing_coeffs(pts), x)),
    decreases pts.len(),
{
    if pts.len() == 0 {
        let one = seq![1u32];
        lemma_eval_unfold(one, x);
        assert(tail(one).len() == 0);
        lemma_fmul_one_zero(x);
        lemma_fadd_zero(1);
        lemma_eval_range(p, x);
        lemma_fmul_one_zero(poly_eval(p, x));
    } else {
        let rest = pts.drop_last();
        let last = pts.last();
        assert(all_elems(rest));
        lemma_divide_exact(p, rest, x);
        let dp = divide_by_points(p, rest);
        lemma_divide_elems(p, rest);
        lemma_linear_division(dp, last, x);
        let lq = linear_quotient(dp, last as int);
        lemma_eval_trim(lq, x);
        let d = poly_eval(divide_by_points(p, pts), x);
        let dx = fsub(x, last as int);
        lemma_fadd_zero(fmul(d, dx));
        // The vanishing polynomial gains the factor x - last.
        let vp = vanishing_coeffs(rest);
        lemma_vanishing_elems(rest);
        lemma_eval_trim(mul_coeffs(vp, linear(last)), x);
        lemma_eval_mul_linear(vp, last, x);
        let ev = poly_eval(vp, x);
        lemma_fmul_assoc(d, dx, ev);
        lemma_fmul_comm(dx, ev);
        lemma_fmul_assoc(d, ev, dx);
    }
}

} // verus!
