//! Polynomials over a finite field, with Lagrange interpolation.

use vstd::prelude::*;
use vstd::pervasive::VecAdditionalExecFns;
use crate::arith::{
    f_add, f_div, f_mul, f_neg, f_pow, invertible, lemma_f_pow_succ, lemma_f_pow_zero,
    lemma_scale_add, lemma_scale_small,
};
use crate::field::FieldValue;
use vstd::arithmetic::div_mod::{lemma_mod_bound, lemma_small_mod};
use vstd::arithmetic::power2::{lemma_pow2_adds, lemma_pow2_strictly_increases, lemma2_to64, pow2};

verus! {

/// The residues represented by a sequence of field elements.
pub open spec fn coef_residues<T: FieldValue>(s: Seq<T>) -> Seq<int> {
    s.map(|i: int, c: T| c.lv())
}

/// Every element of the sequence is well formed.
pub open spec fn coefs_valid<T: FieldValue>(s: Seq<T>) -> bool {
    forall|i: int| 0 <= i < s.len() ==> (#[trigger] s[i]).valid()
}

/// Entry `i` of `s`, or zero beyond its length: a polynomial's missing
/// high coefficients are zero.
pub open spec fn seq_at(s: Seq<int>, i: int) -> int {
    if 0 <= i < s.len() {
        s[i]
    } else {
        0
    }
}

/// Value at `x` of the polynomial whose coefficient residues are `s`,
/// lowest degree first.
pub open spec fn poly_eval(s: Seq<int>, x: int, m: int) -> int
    decreases s.len(),
{
    if s.len() == 0 {
        0
    } else {
        f_add(
            poly_eval(s.drop_last(), x, m),
            f_mul(s.last(), f_pow(x, (s.len() - 1) as nat, m), m),
            m,
        )
    }
}

/// One summand of the convolution giving coefficient `k` of a product.
pub open spec fn conv_term(a: Seq<int>, b: Seq<int>, k: int, i: int, m: int) -> int {
    f_mul(seq_at(a, i), seq_at(b, k - i), m)
}

/// Partial convolution: the first `n` summands of coefficient `k`.
pub open spec fn conv_partial(a: Seq<int>, b: Seq<int>, k: int, n: nat, m: int) -> int
    decreases n,
{
    if n == 0 {
        0
    } else {
        f_add(conv_partial(a, b, k, (n - 1) as nat, m), conv_term(a, b, k, n - 1, m), m)
    }
}

/// The larger of two coefficient-sequence lengths.
pub open spec fn order_of(a: Seq<int>, b: Seq<int>) -> int {
    if a.len() >= b.len() {
        a.len() as int
    } else {
        b.len() as int
    }
}

/// Coefficient residues of the product of two polynomials, in the
/// doubled-length layout the multiplication routine produces.
pub open spec fn pmul(a: Seq<int>, b: Seq<int>, m: int) -> Seq<int> {
    Seq::new((2 * order_of(a, b)) as nat, |k: int| conv_partial(a, b, k, order_of(a, b) as nat, m))
}

/// Coefficient residues of the sum of two polynomials.
pub open spec fn padd(a: Seq<int>, b: Seq<int>, m: int) -> Seq<int> {
    Seq::new(order_of(a, b) as nat, |k: int| f_add(seq_at(a, k), seq_at(b, k), m))
}

/// Coefficient residues of a polynomial scaled by a constant.
pub open spec fn pscale(a: Seq<int>, c: int, m: int) -> Seq<int> {
    a.map(|i: int, v: int| f_mul(v, c, m))
}

/// The node abscissas of a sequence of interpolation points.
pub open spec fn pts_xs(pts: Seq<(int, int)>) -> Seq<int> {
    pts.map(|i: int, p: (int, int)| p.0)
}

/// The Lagrange basis polynomial for node `i`, built from the nodes among
/// the first `upto` points, in the order and layout of the interpolation
/// routine (one factor `x - x_j` per other node).
pub open spec fn lag_basis(xs: Seq<int>, i: int, upto: nat, m: int) -> Seq<int>
    decreases upto,
{
    if upto == 0 {
        seq![1int]
    } else {
        let prev = lag_basis(xs, i, (upto - 1) as nat, m);
        if upto - 1 == i {
            prev
        } else {
            pmul(prev, seq![f_neg(xs[upto - 1], m), 1int], m)
        }
    }
}

/// The full additive member for node `i`: its basis polynomial normalized
/// at the node and scaled by the node's ordinate.
pub open spec fn lag_member(pts: Seq<(int, int)>, i: int, m: int) -> Seq<int> {
    let basis = lag_basis(pts_xs(pts), i, pts.len(), m);
    let v = poly_eval(basis, pts[i].0, m);
    pscale(pscale(basis, f_div(1, v, m), m), pts[i].1, m)
}

/// Sum of the first `upto` additive members.
pub open spec fn lagrange(pts: Seq<(int, int)>, upto: nat, m: int) -> Seq<int>
    decreases upto,
{
    if upto == 0 {
        Seq::empty()
    } else {
        padd(lagrange(pts, (upto - 1) as nat, m), lag_member(pts, upto - 1, m), m)
    }
}

/// Each basis polynomial's value at its own node is invertible, so every
/// normalization divides by an invertible value and the interpolation is
/// pinned down.
pub open spec fn lagrange_defined(pts: Seq<(int, int)>, m: int) -> bool {
    forall|i: int| 0 <= i < pts.len() ==> invertible(
        #[trigger] poly_eval(lag_basis(pts_xs(pts), i, pts.len(), m), pts[i].0, m),
        m,
    )
}

/// The residues represented by a sequence of interpolation points.
pub open spec fn points_lv<T: FieldValue>(s: Seq<(T, T)>) -> Seq<(int, int)> {
    s.map(|i: int, p: (T, T)| (p.0.lv(), p.1.lv()))
}

/// Polynomial values are reduced residues.
pub proof fn lemma_poly_eval_bound(s: Seq<int>, x: int, m: int)
    requires
        m >= 1,
    ensures
        0 <= poly_eval(s, x, m) < m,
    decreases s.len(),
{
    if s.len() != 0 {
        lemma_poly_eval_bound(s.drop_last(), x, m);
        lemma_mod_bound(
            poly_eval(s.drop_last(), x, m) + f_mul(s.last(), f_pow(x, (s.len() - 1) as nat, m), m),
            m,
        );
    }
}

/// Evaluation commutes with scaling: a polynomial scaled by a constant
/// evaluates to the scaled value.
pub proof fn lemma_poly_eval_pscale(s: Seq<int>, c: int, x: int, m: int)
    requires
        m >= 1,
    ensures
        poly_eval(pscale(s, c, m), x, m) == f_mul(poly_eval(s, x, m), c, m),
    decreases s.len(),
{
    let ps = pscale(s, c, m);
    if s.len() == 0 {
        lemma_small_mod(0, m as nat);
    } else {
        lemma_poly_eval_pscale(s.drop_last(), c, x, m);
        assert(ps.drop_last() =~= pscale(s.drop_last(), c, m));
        assert(ps.last() == f_mul(s.last(), c, m));
        let t = f_pow(x, (s.len() - 1) as nat, m);
        lemma_scale_small(s.last(), c, t, m);
        lemma_scale_add(poly_eval(s.drop_last(), x, m), f_mul(s.last(), t, m), c, m);
    }
}

/// Evaluation commutes with polynomial addition: the sum's value is the
/// sum of the values.
pub proof fn lemma_poly_eval_padd(a: Seq<int>, b: Seq<int>, x: int, m: int)
    requires
        m >= 1,
    ensures
        poly_eval(padd(a, b, m), x, m) == f_add(poly_eval(a, x, m), poly_eval(b, x, m), m),
    decreases order_of(a, b),
{
    let l = order_of(a, b);
    let s = padd(a, b, m);
    if l == 0 {
        lemma_small_mod(0, m as nat);
    } else {
        let la1: int = if a.len() <= l - 1 {
            a.len() as int
        } else {
            l - 1
        };
        let lb1: int = if b.len() <= l - 1 {
            b.len() as int
        } else {
            l - 1
        };
        let a1 = a.take(la1);
        let b1 = b.take(lb1);
        assert(order_of(a1, b1) == l - 1);
        assert forall|kk: int| 0 <= kk < l - 1 implies seq_at(a1, kk) == seq_at(a, kk) && seq_at(
            b1,
            kk,
        ) == seq_at(b, kk) by {}
        assert(s.drop_last() =~= padd(a1, b1, m));
        lemma_poly_eval_padd(a1, b1, x, m);
        let t = f_pow(x, (l - 1) as nat, m);
        let sa = seq_at(a, l - 1);
        let sb = seq_at(b, l - 1);
        assert(s.last() == f_add(sa, sb, m));
        assert(f_add(poly_eval(a1, x, m), f_mul(sa, t, m), m) == poly_eval(a, x, m)) by {
            if a.len() == l {
                assert(a1 =~= a.drop_last());
                assert(sa == a.last());
                assert(poly_eval(a, x, m) == f_add(
                    poly_eval(a.drop_last(), x, m),
                    f_mul(a.last(), t, m),
                    m,
                ));
            } else {
                assert(a1 =~= a);
                assert(sa == 0);
                assert(f_mul(sa, t, m) == 0) by {
                    vstd::arithmetic::mul::lemma_mul_by_zero_is_zero(t);
                    vstd::arithmetic::mul::lemma_mul_is_commutative(0, t);
                    lemma_small_mod(0, m as nat);
                }
                lemma_poly_eval_bound(a, x, m);
                lemma_small_mod(poly_eval(a, x, m) as nat, m as nat);
            }
        }
        assert(f_add(poly_eval(b1, x, m), f_mul(sb, t, m), m) == poly_eval(b, x, m)) by {
            if b.len() == l {
                assert(b1 =~= b.drop_last());
                assert(sb == b.last());
                assert(poly_eval(b, x, m) == f_add(
                    poly_eval(b.drop_last(), x, m),
                    f_mul(b.last(), t, m),
                    m,
                ));
            } else {
                assert(b1 =~= b);
                assert(sb == 0);
                assert(f_mul(sb, t, m) == 0) by {
                    vstd::arithmetic::mul::lemma_mul_by_zero_is_zero(t);
                    vstd::arithmetic::mul::lemma_mul_is_commutative(0, t);
                    lemma_small_mod(0, m as nat);
                }
                lemma_poly_eval_bound(b, x, m);
                lemma_small_mod(poly_eval(b, x, m) as nat, m as nat);
            }
        }
        lemma_scale_add(sa, sb, t, m);
        crate::arith::lemma_f_add_exchange(
            poly_eval(a1, x, m),
            poly_eval(b1, x, m),
            f_mul(sa, t, m),
            f_mul(sb, t, m),
            m,
        );
    }
}

/// Partial convolutions are reduced residues.
proof fn lemma_conv_partial_bound(a: Seq<int>, b: Seq<int>, k: int, n: nat, m: int)
    requires
        m >= 1,
    ensures
        0 <= conv_partial(a, b, k, n, m) < m,
    decreases n,
{
    if n == 0 {
    } else {
        lemma_conv_partial_bound(a, b, k, (n - 1) as nat, m);
        lemma_mod_bound(
            conv_partial(a, b, k, (n - 1) as nat, m) + conv_term(a, b, k, n - 1, m),
            m,
        );
    }
}

/// A vanishing summand leaves the partial convolution unchanged.
proof fn lemma_conv_partial_skip(a: Seq<int>, b: Seq<int>, k: int, n: nat, m: int)
    requires
        m >= 1,
        n >= 1,
        conv_term(a, b, k, n - 1, m) == 0,
    ensures
        conv_partial(a, b, k, n, m) == conv_partial(a, b, k, (n - 1) as nat, m),
{
    lemma_conv_partial_bound(a, b, k, (n - 1) as nat, m);
    lemma_small_mod(conv_partial(a, b, k, (n - 1) as nat, m) as nat, m as nat);
}

/// Represents a polynomial over the field of elements of type `T`,
/// held as its coefficients, lowest degree first.
#[derive(Clone)]
pub struct Polynomial<T: FieldValue> {
    coefs: Vec<T>,
}

impl<T: FieldValue> Polynomial<T> {
    /// The coefficient residues, lowest degree first.
    pub closed spec fn lvs(self) -> Seq<int> {
        coef_residues(self.coefs@)
    }

    /// Every stored coefficient is well formed.
    pub closed spec fn valid(self) -> bool {
        coefs_valid(self.coefs@)
    }

    /// New polynomial with the given coefficients, lowest degree first.
    pub fn new(coefs: Vec<T>) -> (r: Self)
        ensures
            r.lvs() == coef_residues(coefs@),
            r.valid() == coefs_valid(coefs@),
    {
        Polynomial { coefs }
    }

    /// The "one" polynomial: the multiplicative identity of the ring.
    pub fn one() -> (r: Self)
        requires
            T::fok(),
        ensures
            r.valid(),
            r.lvs() =~= seq![1int],
    {
        let mut v: Vec<T> = Vec::new();
        v.push(T::one());
        Polynomial { coefs: v }
    }

    /// The zero polynomial: the additive identity of the ring.
    pub fn zero() -> (r: Self)
        ensures
            r.valid(),
            r.lvs() =~= Seq::<int>::empty(),
    {
        Polynomial { coefs: Vec::new() }
    }

    /// Turn the polynomial into its array of coefficients.
    pub fn into_coefs(self) -> (r: Vec<T>)
        ensures
            coef_residues(r@) == self.lvs(),
            self.valid() ==> coefs_valid(r@),
    {
        self.coefs
    }

    /// Evaluate the polynomial at `t`.
    pub fn eval(&self, t: T) -> (r: T)
        requires
            T::fok(),
            self.valid(),
            t.valid(),
        ensures
            r.valid(),
            r.lv() == poly_eval(self.lvs(), t.lv(), T::fm()),
    {
        proof {
            T::lemma_fok_modulus();
            lemma_f_pow_zero(t.lv(), T::fm());
        }
        let ghost s = self.lvs();
        let ghost m = T::fm();
        let mut result = T::zero();
        let mut power = T::one();
        let mut i: usize = 0;
        while i < self.coefs.len()
            invariant
                T::fok(),
                self.valid(),
                t.valid(),
                result.valid(),
                power.valid(),
                s == self.lvs(),
                m == T::fm(),
                m >= 2,
                0 <= i <= self.coefs@.len(),
                s.len() == self.coefs@.len(),
                result.lv() == poly_eval(s.take(i as int), t.lv(), m),
                power.lv() == f_pow(t.lv(), i as nat, m),
            decreases self.coefs@.len() - i,
        {
            let c = self.coefs[i];
            result = result.add(c.mul(power));
            power = power.mul(t);
            proof {
                assert(s.take(i + 1).drop_last() =~= s.take(i as int));
                assert(s.take(i + 1).last() == s[i as int]);
                lemma_f_pow_succ(t.lv(), i as nat, m);
            }
            i = i + 1;
        }
        proof {
            assert(s.take(s.len() as int) =~= s);
        }
        result
    }

    /// Multiply the polynomial by a single field element, coefficient by
    /// coefficient.
    pub fn scale(self, c: T) -> (r: Self)
        requires
            T::fok(),
            self.valid(),
            c.valid(),
        ensures
            r.valid(),
            r.lvs() == pscale(self.lvs(), c.lv(), T::fm()),
    {
        let ghost s = self.lvs();
        let ghost m = T::fm();
        let mut result: Vec<T> = Vec::new();
        let mut i: usize = 0;
        while i < self.coefs.len()
            invariant
                T::fok(),
                self.valid(),
                c.valid(),
                s == self.lvs(),
                m == T::fm(),
                0 <= i <= self.coefs@.len(),
                s.len() == self.coefs@.len(),
                result@.len() == i,
                coefs_valid(result@),
                forall|k: int| 0 <= k < i ==> (#[trigger] result@[k]).lv() == f_mul(s[k], c.lv(), m),
            decreases self.coefs@.len() - i,
        {
            let nv = self.coefs[i].mul(c);
            result.push(nv);
            proof {
                assert(s[i as int] == self.coefs@[i as int].lv());
            }
            i = i + 1;
        }
        let rp = Self::new(result);
        proof {
            assert forall|k: int| 0 <= k < result@.len() implies coef_residues(result@)[k]
                == result@[k].lv() by {}
            assert(rp.lvs() =~= pscale(s, c.lv(), m));
        }
        rp
    }

    /// Add two polynomials, coefficient by coefficient; the result keeps
    /// the longer operand's length.
    pub fn add(self, other: Self) -> (r: Self)
        requires
            T::fok(),
            self.valid(),
            other.valid(),
        ensures
            r.valid(),
            r.lvs() == padd(self.lvs(), other.lvs(), T::fm()),
    {
        let ghost a = self.lvs();
        let ghost b = other.lvs();
        let ghost m = T::fm();
        let la = self.coefs.len();
        let lb = other.coefs.len();
        let order: usize = if la >= lb {
            la
        } else {
            lb
        };
        let mut result: Vec<T> = Vec::new();
        let mut k: usize = 0;
        while k < order
            invariant
                T::fok(),
                self.valid(),
                other.valid(),
                a == self.lvs(),
                b == other.lvs(),
                m == T::fm(),
                la == a.len(),
                lb == b.len(),
                order == order_of(a, b),
                0 <= k <= order,
                result@.len() == k,
                coefs_valid(result@),
                forall|t: int| 0 <= t < k ==> (#[trigger] result@[t]).lv() == f_add(
                    seq_at(a, t),
                    seq_at(b, t),
                    m,
                ),
            decreases order - k,
        {
            let av: T = if k < la {
                self.coefs[k]
            } else {
                T::zero()
            };
            let bv: T = if k < lb {
                other.coefs[k]
            } else {
                T::zero()
            };
            let nv = av.add(bv);
            result.push(nv);
            proof {
                if k < la {
                    assert(a[k as int] == self.coefs@[k as int].lv());
                }
                if k < lb {
                    assert(b[k as int] == other.coefs@[k as int].lv());
                }
            }
            k = k + 1;
        }
        let rp = Self::new(result);
        proof {
            assert forall|t: int| 0 <= t < result@.len() implies coef_residues(result@)[t]
                == result@[t].lv() by {}
            assert(rp.lvs() =~= padd(a, b, m));
        }
        rp
    }

    /// Lagrange interpolation: the polynomial passing through the given
    /// points, as the sum of one normalized basis polynomial per node.
    ///
    /// The intermediate coefficient vectors double in length with every
    /// factor, so the number of points is bounded to keep every length
    /// within `usize`.
    pub fn interpolate(points: &Vec<(T, T)>) -> (r: Self)
        requires
            T::fok(),
            points@.len() <= 30,
            forall|i: int| 0 <= i < points@.len() ==> (#[trigger] points@[i]).0.valid()
                && points@[i].1.valid(),
        ensures
            r.valid(),
            lagrange_defined(points_lv(points@), T::fm()) ==> r.lvs() == lagrange(
                points_lv(points@),
                points@.len(),
                T::fm(),
            ),
    {
        proof {
            T::lemma_fok_modulus();
        }
        let ghost pv = points_lv(points@);
        let ghost m = T::fm();
        let ghost xs = pts_xs(pv);
        let n = points.len();
        let mut acc = Self::zero();
        let mut i: usize = 0;
        while i < n
            invariant
                T::fok(),
                m == T::fm(),
                m >= 2,
                pv == points_lv(points@),
                xs == pts_xs(pv),
                n == points@.len(),
                n <= 30,
                forall|t: int| 0 <= t < points@.len() ==> (#[trigger] points@[t]).0.valid()
                    && points@[t].1.valid(),
                pv.len() == n,
                xs.len() == n,
                0 <= i <= n,
                acc.valid(),
                lagrange_defined(pv, m) ==> acc.lvs() == lagrange(pv, i as nat, m),
            decreases n - i,
        {
            proof {
                lemma2_to64();
            }
            let mut poly = Self::one();
            let mut j: usize = 0;
            while j < n
                invariant
                    T::fok(),
                    m == T::fm(),
                    m >= 2,
                    pv == points_lv(points@),
                    xs == pts_xs(pv),
                    n == points@.len(),
                    n <= 30,
                    forall|t: int| 0 <= t < points@.len() ==> (#[trigger] points@[t]).0.valid()
                        && points@[t].1.valid(),
                    pv.len() == n,
                    xs.len() == n,
                    0 <= i < n,
                    0 <= j <= n,
                    poly.valid(),
                    poly.lvs() == lag_basis(xs, i as int, j as nat, m),
                    poly.lvs().len() <= pow2((j + 1) as nat),
                decreases n - j,
            {
                if j != i {
                    let mut v: Vec<T> = Vec::new();
                    let pj = points[j];
                    v.push(pj.0.neg());
                    v.push(T::one());
                    let factor = Self::new(v);
                    proof {
                        assert(pv[j as int] == (points@[j as int].0.lv(), points@[
                            j as int].1.lv()));
                        assert(xs[j as int] == pv[j as int].0);
                        assert(factor.lvs() =~= seq![f_neg(xs[j as int], m), 1int]);
                        // The factor lengths stay within the machine limit,
                        // even for a 32-bit address size.
                        lemma_pow2_strictly_increases(0, (j + 1) as nat);
                        lemma2_to64();
                        lemma_pow2_adds((j + 1) as nat, 1);
                        assert(pow2((j + 2) as nat) <= pow2(31)) by {
                            if j + 2 < 31 {
                                lemma_pow2_strictly_increases((j + 2) as nat, 31);
                            }
                        }
                        assert(2 * order_of(poly.lvs(), factor.lvs()) <= pow2((j + 2) as nat));
                        assert(2 * order_of(poly.lvs(), factor.lvs()) <= usize::MAX);
                    }
                    let ghost prev = poly.lvs();
                    poly = poly.mul(factor);
                    proof {
                        assert(poly.lvs() == pmul(prev, seq![f_neg(xs[j as int], m), 1int], m));
                        assert(poly.lvs() == lag_basis(xs, i as int, (j + 1) as nat, m));
                        assert(poly.lvs().len() <= pow2((j + 2) as nat)) by {
                            lemma_pow2_adds((j + 1) as nat, 1);
                            lemma2_to64();
                        }
                    }
                } else {
                    proof {
                        assert(lag_basis(xs, i as int, (j + 1) as nat, m) == lag_basis(
                            xs,
                            i as int,
                            j as nat,
                            m,
                        ));
                        lemma_pow2_strictly_increases((j + 1) as nat, (j + 2) as nat);
                    }
                }
                j = j + 1;
            }
            let pi = points[i];
            let val = poly.eval(pi.0);
            let c = T::one().div(val);
            let scaled = poly.scale(c).scale(pi.1);
            let ghost accp = acc.lvs();
            acc = acc.add(scaled);
            proof {
                if lagrange_defined(pv, m) {
                    assert(pv[i as int] == (points@[i as int].0.lv(), points@[i as int].1.lv()));
                    assert(invertible(
                        poly_eval(lag_basis(pts_xs(pv), i as int, pv.len(), m), pv[i as int].0, m),
                        m,
                    ));
                    assert(invertible(val.lv(), m));
                    assert(c.lv() == f_div(1, val.lv(), m));
                    assert(scaled.lvs() == lag_member(pv, i as int, m));
                    assert(acc.lvs() == lagrange(pv, (i + 1) as nat, m));
                }
            }
            i = i + 1;
        }
        acc
    }

    /// Multiply two polynomials by convolution of their coefficients; the
    /// result is laid out with twice the longer operand's length.
    pub fn mul(self, other: Self) -> (r: Self)
        requires
            T::fok(),
            self.valid(),
            other.valid(),
            2 * order_of(self.lvs(), other.lvs()) <= usize::MAX,
        ensures
            r.valid(),
            r.lvs() == pmul(self.lvs(), other.lvs(), T::fm()),
    {
        proof {
            T::lemma_fok_modulus();
        }
        let ghost a = self.lvs();
        let ghost b = other.lvs();
        let ghost m = T::fm();
        let la = self.coefs.len();
        let lb = other.coefs.len();
        let order: usize = if la >= lb {
            la
        } else {
            lb
        };
        let mut result: Vec<T> = Vec::new();
        let mut t: usize = 0;
        while t < 2 * order
            invariant
                T::fok(),
                m == T::fm(),
                m >= 2,
                2 * order <= usize::MAX,
                0 <= t <= 2 * order,
                result@.len() == t,
                coefs_valid(result@),
                forall|k: int| 0 <= k < t ==> (#[trigger] result@[k]).lv() == 0,
            decreases 2 * order - t,
        {
            result.push(T::zero());
            t = t + 1;
        }
        let mut i: usize = 0;
        while i < order
            invariant
                T::fok(),
                self.valid(),
                other.valid(),
                a == self.lvs(),
                b == other.lvs(),
                m == T::fm(),
                m >= 2,
                la == a.len(),
                lb == b.len(),
                order == order_of(a, b),
                2 * order <= usize::MAX,
                0 <= i <= order,
                result@.len() == 2 * order,
                coefs_valid(result@),
                forall|k: int| 0 <= k < 2 * order ==> (#[trigger] result@[k]).lv() == conv_partial(
                    a,
                    b,
                    k,
                    i as nat,
                    m,
                ),
            decreases order - i,
        {
            let ai: T = if i < la {
                self.coefs[i]
            } else {
                T::zero()
            };
            proof {
                assert(ai.lv() == seq_at(a, i as int));
            }
            let mut j: usize = 0;
            while j < order
                invariant
                    T::fok(),
                    self.valid(),
                    other.valid(),
                    a == self.lvs(),
                    b == other.lvs(),
                    m == T::fm(),
                    m >= 2,
                    la == a.len(),
                    lb == b.len(),
                    order == order_of(a, b),
                    2 * order <= usize::MAX,
                    0 <= i < order,
                    0 <= j <= order,
                    ai.valid(),
                    ai.lv() == seq_at(a, i as int),
                    result@.len() == 2 * order,
                    coefs_valid(result@),
                    forall|k: int| 0 <= k < 2 * order ==> (#[trigger] result@[k]).lv()
                        == conv_partial(
                        a,
                        b,
                        k,
                        (if i <= k < i + j {
                            (i + 1) as nat
                        } else {
                            i as nat
                        }),
                        m,
                    ),
                decreases order - j,
            {
                let bv: T = if j < lb {
                    other.coefs[j]
                } else {
                    T::zero()
                };
                proof {
                    assert(bv.lv() == seq_at(b, (i + j) - i));
                }
                let k0: usize = i + j;
                let cur = result[k0];
                let nv = cur.add(ai.mul(bv));
                let ghost rsnap = result@;
                result.set(k0, nv);
                proof {
                    assert(cur == rsnap[k0 as int]);
                    assert(cur.lv() == conv_partial(a, b, k0 as int, i as nat, m));
                    assert(nv.lv() == conv_partial(a, b, k0 as int, (i + 1) as nat, m));
                    assert forall|k: int| 0 <= k < 2 * order implies (#[trigger] result@[k]).lv()
                        == conv_partial(
                        a,
                        b,
                        k,
                        (if i <= k < i + (j + 1) {
                            (i + 1) as nat
                        } else {
                            i as nat
                        }),
                        m,
                    ) by {
                        if k == k0 {
                            assert(result@[k] == nv);
                        } else {
                            assert(result@[k] == rsnap[k]);
                        }
                    }
                }
                j = j + 1;
            }
            proof {
                assert forall|k: int|
                    0 <= k < 2 * order && !(i <= k < i + order) implies conv_partial(
                    a,
                    b,
                    k,
                    (i + 1) as nat,
                    m,
                ) == conv_partial(a, b, k, i as nat, m) by {
                    assert(seq_at(b, k - i) == 0);
                    assert(conv_term(a, b, k, i as int, m) == 0) by {
                        vstd::arithmetic::mul::lemma_mul_by_zero_is_zero(seq_at(a, i as int));
                        assert(seq_at(a, i as int) * seq_at(b, k - i) == 0);
                        lemma_small_mod(0, m as nat);
                    }
                    lemma_conv_partial_skip(a, b, k, (i + 1) as nat, m);
                }
            }
            i = i + 1;
        }
        let rp = Self::new(result);
        proof {
            assert forall|k: int| 0 <= k < result@.len() implies coef_residues(result@)[k]
                == result@[k].lv() by {}
            assert(rp.lvs() =~= pmul(a, b, m));
        }
        rp
    }
}

} // verus!
