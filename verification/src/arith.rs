//! Modular arithmetic on raw scalar values.
//!
//! The spec-level functions (`f_add`, `f_mul`, ...) are the mathematical
//! reference that every contract in the crate speaks of; the traits
//! (`Scalar`, `ModAdd`, ...) are the capability set a concrete scalar
//! representation must provide, and `u64` implements them.

use vstd::prelude::*;
use vstd::arithmetic::div_mod::{
    lemma_fundamental_div_mod, lemma_mod_bound, lemma_mod_multiples_basic,
    lemma_mod_multiples_vanish, lemma_mod_self_0, lemma_add_mod_noop, lemma_add_mod_noop_right,
    lemma_mod_twice, lemma_mul_mod_noop_general, lemma_mul_mod_noop_left,
    lemma_mul_mod_noop_right, lemma_small_mod, lemma_sub_mod_noop,
};
use vstd::arithmetic::mul::{
    lemma_mul_is_associative, lemma_mul_is_commutative, lemma_mul_is_distributive_add,
    lemma_mul_is_distributive_add_other_way, lemma_mul_is_distributive_sub,
    lemma_mul_unary_negation, lemma_mul_upper_bound,
};
use vstd::arithmetic::power::{lemma_pow0, lemma_pow1, lemma_pow_adds, pow};
use vstd::arithmetic::power2::pow2;
use vstd::bits::lemma_u64_shr_is_div;

verus! {

/// Residue of the sum of `a` and `b` modulo `m`.
pub open spec fn f_add(a: int, b: int, m: int) -> int {
    (a + b) % m
}

/// Residue of the product of `a` and `b` modulo `m`.
pub open spec fn f_mul(a: int, b: int, m: int) -> int {
    (a * b) % m
}

/// Additive inverse of `a` modulo `m`, reduced into `[0, m)`.
pub open spec fn f_neg(a: int, m: int) -> int {
    (m - a % m) % m
}

/// Residue of the difference of `a` and `b` modulo `m`.
pub open spec fn f_sub(a: int, b: int, m: int) -> int {
    f_add(a, f_neg(b, m), m)
}

/// `a` has a multiplicative inverse modulo `m`.
pub open spec fn invertible(a: int, m: int) -> bool {
    exists|r: int| 0 <= r < m && #[trigger] f_mul(a, r, m) == 1int % m
}

/// The multiplicative inverse of `a` modulo `m` (meaningful only when
/// `invertible(a, m)` holds; the inverse is then unique in `[0, m)`).
pub open spec fn f_inv(a: int, m: int) -> int {
    choose|r: int| 0 <= r < m && #[trigger] f_mul(a, r, m) == 1int % m
}

/// Residue of `a` divided by `b` modulo `m`: `a` times the inverse of `b`.
pub open spec fn f_div(a: int, b: int, m: int) -> int {
    f_mul(a, f_inv(b, m), m)
}

/// Greatest common divisor, by the Euclidean recurrence.
pub open spec fn gcd(a: nat, b: nat) -> nat
    decreases b,
{
    if b == 0 {
        a
    } else {
        gcd(b, a % b)
    }
}

/// Bit `i` of the binary expansion of `v`.
pub open spec fn bit_of(v: int, i: nat) -> bool {
    (v / pow2(i) as int) % 2 == 1
}

/// A common divisor of `m` and of two values that are congruent modulo `m`
/// divides either both or neither: congruence transports divisibility.
proof fn lemma_mod_congruent_divisor(x: int, y: int, m: int, d: int)
    requires
        m >= 1,
        d >= 1,
        m % d == 0,
        x % m == y % m,
        x % d == 0,
    ensures
        y % d == 0,
{
    // y = x + (y/m - x/m) * m, and d divides both x and m.
    lemma_fundamental_div_mod(x, m);
    lemma_fundamental_div_mod(y, m);
    let k = y / m - x / m;
    assert(y == x + k * m) by {
        lemma_mul_is_distributive_sub(m, y / m, x / m);
        lemma_mul_is_commutative(m, y / m);
        lemma_mul_is_commutative(m, x / m);
        lemma_mul_is_commutative(m, k);
    }
    lemma_fundamental_div_mod(m, d);
    assert(m == d * (m / d));
    assert(k * m == (k * (m / d)) * d) by {
        lemma_mul_is_associative(k, m / d, d);
        lemma_mul_is_commutative(d, m / d);
        lemma_mul_is_associative(k, d, m / d);
        lemma_mul_is_commutative(k * d, m / d);
        lemma_mul_is_commutative(k, d);
    }
    lemma_fundamental_div_mod(x, d);
    assert(y == (x / d + k * (m / d)) * d) by {
        lemma_mul_is_distributive_sub(d, x / d + k * (m / d), k * (m / d));
        lemma_mul_is_commutative(d, x / d);
        lemma_mul_is_commutative(d, k * (m / d));
        lemma_mul_is_commutative(d, x / d + k * (m / d));
    }
    lemma_mod_multiples_basic(x / d + k * (m / d), d);
}

/// The greatest common divisor divides both of its arguments.
pub proof fn lemma_gcd_divides(a: nat, b: nat)
    requires
        gcd(a, b) > 0,
    ensures
        a % gcd(a, b) == 0,
        b % gcd(a, b) == 0,
    decreases b,
{
    let g = gcd(a, b);
    if b == 0 {
        lemma_mod_self_0(g as int);
        assert(0nat % g == 0) by {
            lemma_small_mod(0, g);
        }
    } else {
        lemma_gcd_divides(b, a % b);
        // a = (a/b)*b + a%b; g divides b and a%b, hence a.
        lemma_fundamental_div_mod(a as int, b as int);
        lemma_fundamental_div_mod(b as int, g as int);
        let q = a as int / b as int;
        assert(a == q * (b as int) + (a % b));
        assert(b as int == (g as int) * ((b as int) / (g as int)));
        let bq = (b as int) / (g as int);
        assert(q * (b as int) == (q * bq) * (g as int)) by {
            lemma_mul_is_associative(q, g as int, bq);
            lemma_mul_is_commutative(g as int, bq);
            lemma_mul_is_associative(q, bq, g as int);
        }
        lemma_fundamental_div_mod((a % b) as int, g as int);
        let rq = ((a % b) as int) / (g as int);
        assert(a as int == (q * bq + rq) * (g as int)) by {
            lemma_mul_is_distributive_sub(g as int, q * bq + rq, rq);
            lemma_mul_is_commutative(g as int, q * bq);
            lemma_mul_is_commutative(g as int, rq);
            lemma_mul_is_commutative(g as int, q * bq + rq);
        }
        lemma_mod_multiples_basic(q * bq + rq, g as int);
    }
}

/// The greatest common divisor of a positive number and anything is positive.
pub proof fn lemma_gcd_pos(a: nat, b: nat)
    requires
        a > 0,
    ensures
        gcd(a, b) > 0,
    decreases b,
{
    if b != 0 {
        lemma_gcd_pos(b, a % b);
    }
}

/// A value with a multiplicative inverse modulo `m` is coprime to `m`.
pub proof fn lemma_invertible_coprime(a: nat, m: nat)
    requires
        m >= 1,
        invertible(a as int, m as int),
    ensures
        gcd(m, a) == 1,
{
    lemma_gcd_pos(m, a);
    lemma_gcd_divides(m, a);
    let g = gcd(m, a);
    if g != 1 {
        let r = choose|r: int| 0 <= r < m && #[trigger] f_mul(a as int, r, m as int) == 1int % (
        m as int);
        // a*r differs from 1 by a multiple of m, and g divides both a*r and m,
        // so g divides 1: contradiction with g >= 2.
        assert((a as int * r) % (m as int) == 1int % (m as int));
        assert((a as int * r) % (g as int) == 0) by {
            lemma_fundamental_div_mod(a as int, g as int);
            let aq = (a as int) / (g as int);
            assert(a as int * r == (aq * r) * (g as int)) by {
                lemma_mul_is_associative(aq, g as int, r);
                lemma_mul_is_commutative(g as int, r);
                lemma_mul_is_associative(aq, r, g as int);
            }
            lemma_mod_multiples_basic(aq * r, g as int);
        }
        if m == 1 {
            // g divides m == 1 directly.
            assert(1nat % g == 0);
        } else {
            lemma_mod_congruent_divisor(a as int * r, 1, m as int, g as int);
            assert(1int % (g as int) == 0);
        }
        lemma_small_mod(1, g);
        assert(false);
    }
}

/// The multiplicative inverse modulo `m` is unique among reduced residues.
pub proof fn lemma_inverse_unique(a: int, m: int, r1: int, r2: int)
    requires
        m >= 1,
        0 <= r1 < m,
        0 <= r2 < m,
        f_mul(a, r1, m) == 1int % m,
        f_mul(a, r2, m) == 1int % m,
    ensures
        r1 == r2,
{
    // r1 = r1*(a*r2) = (r1*a)*r2 = (a*r1)*r2 = r2 modulo m.
    assert((r1 * (a * r2)) % m == (r1 * 1) % m) by {
        lemma_mul_mod_noop_right(r1, a * r2, m);
        lemma_mul_mod_noop_right(r1, 1, m);
    }
    assert(r1 * (a * r2) == (a * r1) * r2) by {
        lemma_mul_is_associative(r1, a, r2);
        lemma_mul_is_commutative(r1, a);
    }
    assert(((a * r1) * r2) % m == (1 * r2) % m) by {
        lemma_mul_mod_noop_left(a * r1, r2, m);
        lemma_mul_mod_noop_left(1, r2, m);
    }
    lemma_small_mod(r1 as nat, m as nat);
    lemma_small_mod(r2 as nat, m as nat);
}

/// When some inverse of `a` is exhibited, `f_inv(a, m)` is that inverse.
pub proof fn lemma_f_inv_is(a: int, m: int, r: int)
    requires
        m >= 1,
        0 <= r < m,
        f_mul(a, r, m) == 1int % m,
    ensures
        invertible(a, m),
        f_inv(a, m) == r,
{
    assert(invertible(a, m));
    let w = choose|w: int| 0 <= w < m && #[trigger] f_mul(a, w, m) == 1int % m;
    lemma_inverse_unique(a, m, w, r);
}

/// Two values are congruent modulo `m`.
pub open spec fn congruent(x: int, y: int, m: int) -> bool {
    x % m == y % m
}

/// Congruence is preserved by subtraction.
pub proof fn lemma_cong_sub(x1: int, y1: int, x2: int, y2: int, m: int)
    requires
        m >= 1,
        congruent(x1, x2, m),
        congruent(y1, y2, m),
    ensures
        congruent(x1 - y1, x2 - y2, m),
{
    lemma_sub_mod_noop(x1, y1, m);
    lemma_sub_mod_noop(x2, y2, m);
}

/// Congruence is preserved by multiplication with a common factor.
pub proof fn lemma_cong_mul_left(c: int, x: int, y: int, m: int)
    requires
        m >= 1,
        congruent(x, y, m),
    ensures
        congruent(c * x, c * y, m),
{
    lemma_mul_mod_noop_right(c, x, m);
    lemma_mul_mod_noop_right(c, y, m);
}

/// Adding a multiple of the modulus does not change the residue.
pub proof fn lemma_cong_add_multiple(x: int, k: int, m: int)
    requires
        m >= 1,
    ensures
        congruent(x + k * m, x, m),
{
    lemma_mod_multiples_vanish(k, x, m);
    lemma_mul_is_commutative(k, m);
}

/// Residue of `b` raised to the power `e` modulo `m`.
pub open spec fn f_pow(b: int, e: nat, m: int) -> int {
    pow(b, e) % m
}

/// `m` is a prime number.
pub open spec fn is_prime(m: int) -> bool {
    m >= 2 && forall|d: int| 2 <= d < m ==> #[trigger] (m % d) != 0
}

/// `m` is an odd prime: the moduli for which the curve group law's
/// divisors are always invertible.
pub open spec fn odd_prime(m: int) -> bool {
    is_prime(m) && m % 2 == 1
}

/// Raising to the zeroth power yields the multiplicative identity.
pub proof fn lemma_f_pow_zero(b: int, m: int)
    requires
        m >= 2,
    ensures
        f_pow(b, 0, m) == 1,
{
    lemma_pow0(b);
    lemma_small_mod(1, m as nat);
}

/// One square-and-multiply step: appending a bit to the exponent squares
/// the partial power and multiplies by the base when the bit is set.
pub proof fn lemma_f_pow_step(b: int, e: nat, c: bool, m: int)
    requires
        m >= 2,
    ensures
        ({
            let s = f_mul(f_pow(b, e, m), f_pow(b, e, m), m);
            f_pow(b, (2 * e + (if c { 1nat } else { 0nat })) as nat, m) == (if c {
                f_mul(b, s, m)
            } else {
                s
            })
        }),
{
    lemma_pow_adds(b, e, e);
    lemma_mul_mod_noop_general(pow(b, e), pow(b, e), m);
    if c {
        let e2 = (2 * e) as nat;
        assert(pow(b, (e2 + 1) as nat) == b * pow(b, e2)) by {
            lemma_pow_adds(b, e2, 1);
            lemma_pow1(b);
            lemma_mul_is_commutative(pow(b, e2), b);
        }
        lemma_mul_mod_noop_right(b, pow(b, e2), m);
    }
}

/// An invertible value's inverse is a reduced residue whose product with
/// the value is the multiplicative identity.
pub proof fn lemma_f_inv_in_range(a: int, m: int)
    requires
        m >= 1,
        invertible(a, m),
    ensures
        0 <= f_inv(a, m) < m,
        f_mul(a, f_inv(a, m), m) == 1int % m,
{
    let w = choose|w: int| 0 <= w < m && #[trigger] f_mul(a, w, m) == 1int % m;
}

/// Raising to one more power multiplies by the base once.
pub proof fn lemma_f_pow_succ(b: int, e: nat, m: int)
    requires
        m >= 1,
    ensures
        f_pow(b, e + 1, m) == f_mul(f_pow(b, e, m), b, m),
{
    lemma_pow_adds(b, e, 1);
    lemma_pow1(b);
    lemma_mul_mod_noop_left(pow(b, e), b, m);
}

/// The product of a quotient `f_div(s, d, m)` with its divisor recovers the
/// dividend, whenever the divisor is invertible.
pub proof fn lemma_f_div_mul(s: int, d: int, m: int)
    requires
        m >= 1,
        invertible(d, m),
    ensures
        f_mul(f_div(s, d, m), d, m) == s % m,
{
    let i = f_inv(d, m);
    assert(0 <= i < m && f_mul(d, i, m) == 1int % m) by {
        let w = choose|w: int| 0 <= w < m && #[trigger] f_mul(d, w, m) == 1int % m;
    }
    // ((s*i) % m) * d = (s*i)*d = s*(i*d) = s*((i*d) % m) = s*(1 % m) = s*1 modulo m.
    assert((((s * i) % m) * d) % m == ((s * i) * d) % m) by {
        lemma_mul_mod_noop_left(s * i, d, m);
    }
    assert((s * i) * d == s * (d * i)) by {
        lemma_mul_is_associative(s, i, d);
        lemma_mul_is_commutative(i, d);
        lemma_mul_is_associative(s, d, i);
    }
    assert((s * (d * i)) % m == (s * ((d * i) % m)) % m) by {
        lemma_mul_mod_noop_right(s, d * i, m);
    }
    assert((s * (1int % m)) % m == (s * 1) % m) by {
        lemma_mul_mod_noop_right(s, 1, m);
    }
}

/// The product of two invertible values is invertible, and its inverse is
/// the product of the inverses.
pub proof fn lemma_invertible_mul(x: int, y: int, m: int)
    requires
        m >= 2,
        invertible(x, m),
        invertible(y, m),
    ensures
        invertible(f_mul(x, y, m), m),
        f_inv(f_mul(x, y, m), m) == f_mul(f_inv(x, m), f_inv(y, m), m),
{
    let ix = f_inv(x, m);
    let iy = f_inv(y, m);
    assert(0 <= ix < m && f_mul(x, ix, m) == 1int % m) by {
        let w = choose|w: int| 0 <= w < m && #[trigger] f_mul(x, w, m) == 1int % m;
    }
    assert(0 <= iy < m && f_mul(y, iy, m) == 1int % m) by {
        let w = choose|w: int| 0 <= w < m && #[trigger] f_mul(y, w, m) == 1int % m;
    }
    let p = f_mul(x, y, m);
    let w = f_mul(ix, iy, m);
    lemma_mod_bound(x * y, m);
    lemma_mod_bound(ix * iy, m);
    // (xy % m)(ix·iy % m) = (xy)(ix·iy) = (x·ix)(y·iy) = 1·1 = 1 modulo m.
    assert(f_mul(p, w, m) == ((x * y) * (ix * iy)) % m) by {
        lemma_mul_mod_noop_general(x * y, ix * iy, m);
    }
    assert((x * y) * (ix * iy) == (x * ix) * (y * iy)) by {
        lemma_mul_is_associative(x * y, ix, iy);
        lemma_mul_is_associative(x, y, ix);
        lemma_mul_is_commutative(y, ix);
        lemma_mul_is_associative(x, ix, y);
        lemma_mul_is_associative((x * ix) * y, iy, 1);
        lemma_mul_is_associative(x * ix, y, iy);
    }
    assert(((x * ix) * (y * iy)) % m == ((1int % m) * (1int % m)) % m) by {
        lemma_mul_mod_noop_general(x * ix, y * iy, m);
    }
    assert(((1int % m) * (1int % m)) % m == 1int % m) by {
        lemma_small_mod(1, m as nat);
    }
    lemma_f_inv_is(p, m, w);
}

/// The negation of an invertible value is invertible, with the negated
/// inverse.
pub proof fn lemma_invertible_neg(d: int, m: int)
    requires
        m >= 2,
        invertible(d, m),
    ensures
        invertible(f_neg(d, m), m),
        f_inv(f_neg(d, m), m) == f_neg(f_inv(d, m), m),
{
    let i = f_inv(d, m);
    lemma_f_inv_in_range(d, m);
    lemma_f_neg_is_mod(d, m);
    lemma_f_neg_is_mod(i, m);
    let nd = f_neg(d, m);
    let ni = f_neg(i, m);
    lemma_mod_bound(-d, m);
    lemma_mod_bound(-i, m);
    assert(f_mul(nd, ni, m) == ((-d) * (-i)) % m) by {
        lemma_mul_mod_noop_general(-d, -i, m);
    }
    assert((-d) * (-i) == d * i) by {
        lemma_mul_unary_negation(d, -i);
        lemma_mul_is_commutative(d, -i);
        lemma_mul_unary_negation(i, d);
        lemma_mul_is_commutative(i, d);
        lemma_mul_is_commutative(d, -i);
    }
    lemma_f_inv_is(nd, m, ni);
}

/// Congruent values have congruent negations.
pub proof fn lemma_cong_neg(x: int, y: int, m: int)
    requires
        m >= 1,
        x % m == y % m,
    ensures
        (-x) % m == (-y) % m,
{
    lemma_sub_mod_noop(0, x, m);
    lemma_sub_mod_noop(0, y, m);
}

/// Bezout coefficients: the greatest common divisor is an integer
/// combination of its arguments.
proof fn lemma_bezout(a: nat, b: nat) -> (r: (int, int))
    ensures
        a as int * r.0 + b as int * r.1 == gcd(a, b) as int,
    decreases b,
{
    if b == 0 {
        (1, 0)
    } else {
        let (x, y) = lemma_bezout(b, a % b);
        let q = a as int / b as int;
        // gcd(a, b) = b*x + (a % b)*y and a % b = a - q*b.
        lemma_fundamental_div_mod(a as int, b as int);
        assert((a % b) as int == a as int - q * (b as int));
        assert((a as int - q * (b as int)) * y == a as int * y - (q * (b as int)) * y) by {
            lemma_mul_is_distributive_sub(y, a as int, q * (b as int));
            lemma_mul_is_commutative(y, a as int);
            lemma_mul_is_commutative(y, q * (b as int));
            lemma_mul_is_commutative(y, a as int - q * (b as int));
        }
        assert((q * (b as int)) * y == (b as int) * (q * y)) by {
            lemma_mul_is_commutative(q, b as int);
            lemma_mul_is_associative(b as int, q, y);
        }
        assert(b as int * (x - q * y) == b as int * x - (b as int) * (q * y)) by {
            lemma_mul_is_distributive_sub(b as int, x, q * y);
        }
        (y, x - q * y)
    }
}

/// A value coprime to the modulus is invertible.
pub proof fn lemma_coprime_invertible(a: nat, m: nat)
    requires
        m >= 2,
        gcd(m, a) == 1,
    ensures
        invertible(a as int, m as int),
{
    let (x, y) = lemma_bezout(m, a);
    // m*x + a*y == 1, so a * (y % m) is congruent to 1 modulo m.
    let w = y % (m as int);
    lemma_mod_bound(y, m as int);
    assert((a as int * w) % (m as int) == (a as int * y) % (m as int)) by {
        lemma_mul_mod_noop_right(a as int, y, m as int);
    }
    assert((a as int * y) % (m as int) == 1int % (m as int)) by {
        assert(a as int * y == 1 + (-x) * (m as int)) by {
            lemma_mul_is_commutative(m as int, x);
            lemma_mul_unary_negation(x, m as int);
        }
        lemma_cong_add_multiple(1, -x, m as int);
    }
    assert(f_mul(a as int, w, m as int) == 1int % (m as int));
}

/// Every residue that is not a multiple of a prime modulus is invertible.
pub proof fn lemma_prime_invertible(a: int, m: int)
    requires
        is_prime(m),
        a % m != 0,
    ensures
        invertible(a, m),
{
    let ar = a % m;
    lemma_mod_bound(a, m);
    let g = gcd(m as nat, ar as nat);
    lemma_gcd_pos(m as nat, ar as nat);
    lemma_gcd_divides(m as nat, ar as nat);
    if g > 1 {
        // g divides ar, so g <= ar < m; g also divides m: contradiction.
        if g > ar {
            lemma_small_mod(ar as nat, g);
        }
        assert(2 <= g < m);
        assert(m as nat % g == 0);
        assert(false);
    }
    lemma_coprime_invertible(ar as nat, m as nat);
    let w = choose|w: int|
        0 <= w < m && #[trigger] f_mul(ar, w, m) == 1int % m;
    assert(f_mul(a, w, m) == 1int % m) by {
        lemma_mul_mod_noop_left(a, w, m);
        lemma_mul_mod_noop_left(ar, w, m);
        lemma_mod_twice(a, m);
    }
}

/// Scaling by a constant distributes over modular addition.
pub proof fn lemma_scale_add(s1: int, s2: int, t: int, m: int)
    requires
        m >= 1,
    ensures
        f_mul(f_add(s1, s2, m), t, m) == f_add(f_mul(s1, t, m), f_mul(s2, t, m), m),
{
    assert((((s1 + s2) % m) * t) % m == ((s1 + s2) * t) % m) by {
        lemma_mul_mod_noop_left(s1 + s2, t, m);
    }
    lemma_mul_is_distributive_add_other_way(t, s1, s2);
    lemma_add_mod_noop(s1 * t, s2 * t, m);
}

/// Scaling commutes with multiplication by a small constant.
pub proof fn lemma_scale_small(s1: int, k: int, t: int, m: int)
    requires
        m >= 1,
    ensures
        f_mul(f_mul(s1, k, m), t, m) == f_mul(f_mul(s1, t, m), k, m),
{
    assert((((s1 * k) % m) * t) % m == ((s1 * k) * t) % m) by {
        lemma_mul_mod_noop_left(s1 * k, t, m);
    }
    assert((((s1 * t) % m) * k) % m == ((s1 * t) * k) % m) by {
        lemma_mul_mod_noop_left(s1 * t, k, m);
    }
    assert((s1 * k) * t == (s1 * t) * k) by {
        lemma_mul_is_associative(s1, k, t);
        lemma_mul_is_commutative(k, t);
        lemma_mul_is_associative(s1, t, k);
    }
}

/// Four summands can be regrouped freely modulo `m`.
pub proof fn lemma_f_add_exchange(p: int, q: int, r: int, s: int, m: int)
    requires
        m >= 1,
    ensures
        f_add(f_add(p, q, m), f_add(r, s, m), m) == f_add(f_add(p, r, m), f_add(q, s, m), m),
{
    lemma_add_mod_noop(p + q, r + s, m);
    lemma_add_mod_noop(p + r, q + s, m);
}

/// Modular addition is commutative.
pub proof fn lemma_f_add_comm(a: int, b: int, m: int)
    requires
        m >= 1,
    ensures
        f_add(a, b, m) == f_add(b, a, m),
{
}

/// Modular addition is associative.
pub proof fn lemma_f_add_assoc(a: int, b: int, c: int, m: int)
    requires
        m >= 1,
    ensures
        f_add(f_add(a, b, m), c, m) == f_add(a, f_add(b, c, m), m),
{
    assert(((a + b) % m + c) % m == (c + (a + b) % m) % m);
    lemma_add_mod_noop_right(c, a + b, m);
    lemma_add_mod_noop_right(a, b + c, m);
}

/// Modular multiplication is commutative.
pub proof fn lemma_f_mul_comm(a: int, b: int, m: int)
    requires
        m >= 1,
    ensures
        f_mul(a, b, m) == f_mul(b, a, m),
{
    lemma_mul_is_commutative(a, b);
}

/// Modular multiplication is associative.
pub proof fn lemma_f_mul_assoc(a: int, b: int, c: int, m: int)
    requires
        m >= 1,
    ensures
        f_mul(f_mul(a, b, m), c, m) == f_mul(a, f_mul(b, c, m), m),
{
    assert(((a * b) % m * c) % m == ((a * b) * c) % m) by {
        lemma_mul_mod_noop_left(a * b, c, m);
    }
    assert((a * ((b * c) % m)) % m == (a * (b * c)) % m) by {
        lemma_mul_mod_noop_right(a, b * c, m);
    }
    lemma_mul_is_associative(a, b, c);
}

/// Modular multiplication distributes over modular addition.
pub proof fn lemma_f_mul_distrib(a: int, b: int, c: int, m: int)
    requires
        m >= 1,
    ensures
        f_mul(a, f_add(b, c, m), m) == f_add(f_mul(a, b, m), f_mul(a, c, m), m),
{
    assert((a * ((b + c) % m)) % m == (a * (b + c)) % m) by {
        lemma_mul_mod_noop_right(a, b + c, m);
    }
    lemma_mul_is_distributive_add(a, b, c);
    lemma_add_mod_noop(a * b, a * c, m);
    lemma_mod_twice(a * b + a * c, m);
}

/// Division of a nonzero value by itself yields the multiplicative identity.
pub proof fn lemma_f_div_self(x: int, m: int)
    requires
        m >= 2,
        invertible(x, m),
    ensures
        f_div(x, x, m) == 1,
{
    let i = f_inv(x, m);
    assert(0 <= i < m && f_mul(x, i, m) == 1int % m) by {
        let w = choose|w: int| 0 <= w < m && #[trigger] f_mul(x, w, m) == 1int % m;
    }
    lemma_small_mod(1, m as nat);
}

/// Division of the multiplicative identity by a value yields its inverse.
pub proof fn lemma_f_div_one(x: int, m: int)
    requires
        m >= 2,
        invertible(x, m),
    ensures
        f_div(1, x, m) == f_inv(x, m),
{
    let i = f_inv(x, m);
    assert(0 <= i < m && f_mul(x, i, m) == 1int % m) by {
        let w = choose|w: int| 0 <= w < m && #[trigger] f_mul(x, w, m) == 1int % m;
    }
    lemma_small_mod(i as nat, m as nat);
}

/// Modular negation is the residue of the integer negation.
pub proof fn lemma_f_neg_is_mod(a: int, m: int)
    requires
        m >= 1,
    ensures
        f_neg(a, m) == (-a) % m,
{
    // -a = (m - a % m) + (-(a / m) - 1) * m.
    lemma_fundamental_div_mod(a, m);
    lemma_mod_bound(a, m);
    assert((-a) == (m - a % m) + (-(a / m) - 1) * m) by {
        lemma_mul_is_distributive_sub(m, -(a / m), 1);
        lemma_mul_is_commutative(m, -(a / m) - 1);
        lemma_mul_is_commutative(m, -(a / m));
        lemma_mul_unary_negation(a / m, m);
        lemma_mul_is_commutative(a / m, m);
    }
    lemma_cong_add_multiple(m - a % m, -(a / m) - 1, m);
}

/// Modular subtraction is the residue of the integer difference.
pub proof fn lemma_f_sub_is_mod(a: int, b: int, m: int)
    requires
        m >= 1,
    ensures
        f_sub(a, b, m) == (a - b) % m,
{
    lemma_f_neg_is_mod(b, m);
    // a + ((-b) mod m) and a - b agree modulo m.
    lemma_add_mod_noop_right(a, -b, m);
}

/// Over a prime modulus, dividing any nonzero residue by itself yields
/// the multiplicative identity.
pub proof fn lemma_nonzero_div_self(x: int, m: int)
    requires
        is_prime(m),
        0 < x < m,
    ensures
        f_div(x, x, m) == 1,
{
    lemma_small_mod(x as nat, m as nat);
    lemma_prime_invertible(x, m);
    lemma_f_div_self(x, m);
}

/// Over a prime modulus, dividing the multiplicative identity by any
/// nonzero residue yields that residue's modular inverse.
pub proof fn lemma_one_div_nonzero(x: int, m: int)
    requires
        is_prime(m),
        0 < x < m,
    ensures
        f_div(1, x, m) == f_inv(x, m),
{
    lemma_small_mod(x as nat, m as nat);
    lemma_prime_invertible(x, m);
    lemma_f_div_one(x, m);
}

/// Capability set of a raw scalar value: identities and binary expansion.
///
/// `sc` is the mathematical value a scalar stands for; every arithmetic
/// contract in the crate is phrased over it.
pub trait Scalar: Sized + Copy {
    /// The mathematical value of this scalar.
    spec fn sc(self) -> int;

    /// Fixed bit width of the representation.
    spec fn max_bits_spec() -> nat;

    /// The value is unsigned and fits the representation width.
    proof fn sc_in_range(self)
        ensures
            0 <= self.sc() < pow2(Self::max_bits_spec()),
    ;

    /// Multiplicative identity.
    fn one() -> (r: Self)
        ensures
            r.sc() == 1,
    ;

    /// Additive identity.
    fn zero() -> (r: Self)
        ensures
            r.sc() == 0,
    ;

    /// Bit `position` of the binary expansion.
    fn bit(&self, position: usize) -> (b: bool)
        requires
            position < Self::max_bits_spec(),
        ensures
            b == bit_of(self.sc(), position as nat),
    ;

    /// Total number of bits in the representation.
    fn max_bits() -> (r: usize)
        ensures
            r == Self::max_bits_spec(),
    ;

    /// Equality of the represented values.
    fn equals(self, other: Self) -> (b: bool)
        ensures
            b == (self.sc() == other.sc()),
    ;

    /// The bits of the binary expansion, most significant first.
    fn bits(&self) -> (r: Vec<bool>)
        ensures
            r@.len() == Self::max_bits_spec(),
            forall|i: int| 0 <= i < r@.len() ==> r@[i] == bit_of(
                self.sc(),
                (Self::max_bits_spec() - 1 - i) as nat,
            ),
    {
        let nb: usize = Self::max_bits();
        let mut v: Vec<bool> = Vec::new();
        let mut i: usize = 0;
        while i < nb
            invariant
                0 <= i <= nb,
                nb == Self::max_bits_spec(),
                v@.len() == i,
                forall|t: int| 0 <= t < i ==> v@[t] == bit_of(self.sc(), (nb - 1 - t) as nat),
            decreases nb - i,
        {
            v.push(self.bit(nb - 1 - i));
            i = i + 1;
        }
        v
    }
}

/// Modular addition.
pub trait ModAdd: Scalar {
    /// The sum of `self` and `other` reduced modulo `module`, correct even
    /// when the plain sum would overflow the representation width.
    fn add(self, other: Self, module: Self) -> (r: Self)
        requires
            module.sc() >= 1,
        ensures
            r.sc() == f_add(self.sc(), other.sc(), module.sc()),
    ;
}

/// Modular multiplication.
pub trait ModMul: Scalar {
    /// The product of `self` and `other` reduced modulo `module`; the
    /// intermediate product is widened so no precision is lost.
    fn mul(self, other: Self, module: Self) -> (r: Self)
        requires
            module.sc() >= 1,
        ensures
            r.sc() == f_mul(self.sc(), other.sc(), module.sc()),
    ;

    /// The product of `self` and a small constant, reduced modulo `module`.
    fn mul_small(self, other: u32, module: Self) -> (r: Self)
        requires
            module.sc() >= 1,
        ensures
            r.sc() == f_mul(self.sc(), other as int, module.sc()),
    ;
}

/// Modular negation.
pub trait ModNeg: Scalar {
    /// `module - (self mod module)`; note that for a multiple of the
    /// modulus this is `module` itself, so constructors reduce it again.
    fn neg(self, module: Self) -> (r: Self)
        requires
            module.sc() >= 1,
        ensures
            r.sc() == module.sc() - self.sc() % module.sc(),
    ;
}

/// Modular multiplicative inverse.
pub trait ModInv: Scalar {
    /// The multiplicative inverse of `self` modulo `module`, whenever
    /// `self` is invertible; always a value below the modulus.
    fn inv(self, module: Self) -> (r: Self)
        requires
            module.sc() >= 2,
        ensures
            0 <= r.sc() < module.sc(),
            invertible(self.sc(), module.sc()) ==> f_mul(self.sc(), r.sc(), module.sc()) == 1
                && r.sc() == f_inv(self.sc(), module.sc()),
    ;
}

/// Modular multiplication followed by a rescaling multiplication.
pub trait MulReduce: Scalar {
    /// `((self * other) mod module) * r_inverse mod module`: the widened
    /// multiply-then-rescale primitive of Montgomery arithmetic.
    fn mul_reduce(self, other: Self, module: Self, r_inverse: Self) -> (r: Self)
        requires
            module.sc() >= 1,
        ensures
            r.sc() == f_mul(f_mul(self.sc(), other.sc(), module.sc()), r_inverse.sc(), module.sc()),
    ;
}

impl Scalar for u64 {
    open spec fn sc(self) -> int {
        self as int
    }

    open spec fn max_bits_spec() -> nat {
        64
    }

    proof fn sc_in_range(self) {
        vstd::arithmetic::power2::lemma2_to64();
    }

    fn one() -> (r: Self) {
        1
    }

    fn zero() -> (r: Self) {
        0
    }

    fn bit(&self, position: usize) -> (b: bool) {
        let x: u64 = *self;
        let p: u64 = position as u64;
        let res = x & (1u64 << p) > 0;
        proof {
            assert((x & (1u64 << p) > 0) == ((x >> p) & 1u64 == 1u64)) by (bit_vector)
                requires
                    p < 64u64,
            ;
            assert(((x >> p) & 1u64) == (x >> p) % 2u64) by (bit_vector);
            lemma_u64_shr_is_div(x, p);
            vstd::arithmetic::power2::lemma_pow2_pos(p as nat);
        }
        res
    }

    fn max_bits() -> (r: usize) {
        64
    }

    fn equals(self, other: Self) -> (b: bool) {
        self == other
    }
}

impl ModAdd for u64 {
    fn add(self, other: Self, module: Self) -> (r: Self) {
        let s: u128 = self as u128 + other as u128;
        let m128: u128 = module as u128;
        let rr: u128 = s % m128;
        proof {
            lemma_mod_bound(s as int, m128 as int);
        }
        rr as u64
    }
}

impl ModMul for u64 {
    fn mul(self, other: Self, module: Self) -> (r: Self) {
        let a128: u128 = self as u128;
        let b128: u128 = other as u128;
        proof {
            lemma_mul_upper_bound(a128 as int, u64::MAX as int, b128 as int, u64::MAX as int);
        }
        let p: u128 = a128 * b128;
        let m128: u128 = module as u128;
        let rr: u128 = p % m128;
        proof {
            lemma_mod_bound(p as int, m128 as int);
        }
        rr as u64
    }

    fn mul_small(self, other: u32, module: Self) -> (r: Self) {
        self.mul(other as u64, module)
    }
}

impl ModNeg for u64 {
    fn neg(self, module: Self) -> (r: Self) {
        proof {
            lemma_mod_bound(self as int, module as int);
        }
        module - (self % module)
    }
}

impl ModInv for u64 {
    fn inv(self, module: Self) -> (r: Self) {
        let ghost a0: int = self as int;
        let ghost mi: int = module as int;
        let mut r0: u64 = module;
        let mut r1: u64 = self;
        let mut x0: u64 = 0;
        let mut x1: u64 = 1;
        while r1 != 0
            invariant
                mi == module as int,
                a0 == self as int,
                module >= 2,
                r0 >= 1,
                x0 < module,
                x1 < module,
                congruent(a0 * x0, r0 as int, mi),
                congruent(a0 * x1, r1 as int, mi),
                gcd(r0 as nat, r1 as nat) == gcd(module as nat, self as nat),
            decreases r1,
        {
            let q: u64 = r0 / r1;
            let sb: u64 = q.mul(x1, module);
            let x2: u64 = if sb > x0 {
                module - ((sb - x0) % module)
            } else {
                x0 - sb
            };
            let r2: u64 = r0 % r1;
            proof {
                // sb is (q * x1) mod m, and x2 is congruent to x0 - sb.
                lemma_mod_bound((sb - x0) as int, mi);
                let k: int = if sb > x0 { 1 } else { 0 };
                assert(x2 as int == x0 as int - sb as int + k * mi) by {
                    if sb > x0 {
                        lemma_small_mod((sb - x0) as nat, module as nat);
                    }
                }
                // a0 * x2 is congruent to r0 - q * r1, which equals r2.
                assert(congruent(a0 * x2 as int, a0 * (x0 as int - sb as int), mi)) by {
                    lemma_cong_add_multiple(x0 as int - sb as int, k, mi);
                    lemma_cong_mul_left(a0, x2 as int, x0 as int - sb as int, mi);
                }
                assert(congruent(a0 * (x0 as int - sb as int), a0 * x0 - a0 * sb as int, mi)) by {
                    lemma_mul_is_distributive_sub(a0, x0 as int, sb as int);
                }
                assert(congruent(a0 * sb as int, (q as int * a0) * x1 as int, mi)) by {
                    lemma_mul_mod_noop_right(a0, q as int * x1 as int, mi);
                    lemma_mul_is_associative(a0, q as int, x1 as int);
                    lemma_mul_is_commutative(a0, q as int);
                    lemma_mul_is_associative(q as int, a0, x1 as int);
                }
                assert(congruent((q as int * a0) * x1 as int, q as int * r1 as int, mi)) by {
                    lemma_cong_mul_left(q as int, a0 * x1 as int, r1 as int, mi);
                    lemma_mul_is_associative(q as int, a0, x1 as int);
                }
                assert(congruent(a0 * x0 - a0 * sb as int, r0 as int - q as int * r1 as int, mi))
                    by {
                    lemma_cong_sub(a0 * x0, a0 * sb as int, r0 as int, q as int * r1 as int, mi);
                }
                assert(r2 as int == r0 as int - q as int * r1 as int) by {
                    lemma_fundamental_div_mod(r0 as int, r1 as int);
                }
                // The gcd is unchanged by one step of the Euclidean recurrence.
                assert(gcd(r0 as nat, r1 as nat) == gcd(r1 as nat, r2 as nat));
            }
            x0 = x1;
            x1 = x2;
            r0 = r1;
            r1 = r2;
        }
        proof {
            // The loop leaves r0 == gcd(module, self); a value is invertible
            // exactly when that gcd is 1, and then x0 is the inverse.
            if invertible(a0, mi) {
                lemma_invertible_coprime(self as nat, module as nat);
                assert(r0 == 1);
                assert(congruent(a0 * x0 as int, 1, mi));
                assert(1int % mi == 1) by {
                    lemma_small_mod(1, module as nat);
                }
                lemma_f_inv_is(a0, mi, x0 as int);
            }
        }
        x0
    }
}

impl MulReduce for u64 {
    fn mul_reduce(self, other: Self, module: Self, r_inverse: Self) -> (r: Self) {
        self.mul(other, module).mul(r_inverse, module)
    }
}

} // verus!
