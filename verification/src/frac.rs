//! Exact rational coordinates.
//!
//! Every geometric quantity in this crate (a ring vertex, an affine origin or
//! step, a signed area) is a rational number held as a reduced fraction of
//! two `i64` values with a positive denominator. All operations are exact;
//! an operation whose reduced result does not fit the fixed-width fields
//! reports failure instead of rounding.
//!
//! Spec-level arithmetic works on unbounded integer pairs `(numerator,
//! denominator)`; [`Frac::view`] maps an executable fraction to such a pair.

use vstd::arithmetic::div_mod::{
    lemma_div_multiples_vanish, lemma_fundamental_div_mod,
};
use vstd::arithmetic::mul::{
    lemma_mul_is_distributive_add, lemma_mul_strictly_positive,
};
use vstd::math::abs;
use vstd::prelude::*;

verus! {

/// An exact rational number `num / den`, with `den > 0`.
#[derive(Clone, Copy, Debug, PartialEq, Eq, Structural)]
pub struct Frac {
    pub num: i64,
    pub den: i64,
}

impl View for Frac {
    type V = (int, int);

    open spec fn view(&self) -> (int, int) {
        (self.num as int, self.den as int)
    }
}

impl Frac {
    /// A fraction is well formed when its denominator is positive.
    pub open spec fn wf(self) -> bool {
        self.den > 0
    }
}

/// The rational value of `a` equals the rational value of `b`
/// (cross multiplication; meaningful when both denominators are positive).
pub open spec fn q_eq(a: (int, int), b: (int, int)) -> bool {
    a.0 * b.1 == b.0 * a.1
}

/// The rational value of `a` is less than that of `b`
/// (meaningful when both denominators are positive).
pub open spec fn q_lt(a: (int, int), b: (int, int)) -> bool {
    a.0 * b.1 < b.0 * a.1
}

/// The rational value of `a` is at most that of `b`
/// (meaningful when both denominators are positive).
pub open spec fn q_le(a: (int, int), b: (int, int)) -> bool {
    a.0 * b.1 <= b.0 * a.1
}

/// Exact rational addition on integer pairs.
pub open spec fn q_add(a: (int, int), b: (int, int)) -> (int, int) {
    (a.0 * b.1 + b.0 * a.1, a.1 * b.1)
}

/// Exact rational subtraction on integer pairs.
pub open spec fn q_sub(a: (int, int), b: (int, int)) -> (int, int) {
    (a.0 * b.1 - b.0 * a.1, a.1 * b.1)
}

/// Exact rational multiplication on integer pairs.
pub open spec fn q_mul(a: (int, int), b: (int, int)) -> (int, int) {
    (a.0 * b.0, a.1 * b.1)
}

/// Exact rational division on integer pairs; keeps the denominator
/// positive when `b.0 != 0` and both inputs have positive denominators.
pub open spec fn q_div(a: (int, int), b: (int, int)) -> (int, int) {
    if b.0 >= 0 {
        (a.0 * b.1, a.1 * b.0)
    } else {
        (-(a.0 * b.1), -(a.1 * b.0))
    }
}

/// `d` divides `n` exactly.
pub open spec fn divides(d: int, n: int) -> bool {
    exists|k: int| n == #[trigger] (d * k)
}

/// The greatest common divisor, by Euclid's recursion.
pub open spec fn gcd(a: nat, b: nat) -> nat
    decreases b,
{
    if b == 0 {
        a
    } else {
        gcd(b, a % b)
    }
}

/// The gcd divides both arguments and is positive unless both are zero.
pub proof fn lemma_gcd_divides(a: nat, b: nat)
    ensures
        divides(gcd(a, b) as int, a as int),
        divides(gcd(a, b) as int, b as int),
        a > 0 || b > 0 ==> gcd(a, b) > 0,
    decreases b,
{
    if b == 0 {
        assert(a as int == (a as int) * 1);
        assert(0int == (a as int) * 0);
    } else {
        lemma_gcd_divides(b, a % b);
        let g = gcd(b, a % b) as int;
        let k1 = choose|k: int| b as int == #[trigger] (g * k);
        let k2 = choose|k: int| (a % b) as int == #[trigger] (g * k);
        lemma_fundamental_div_mod(a as int, b as int);
        let q = a as int / b as int;
        assert(a as int == (g * k1) * q + g * k2);
        assert((g * k1) * q == g * (k1 * q)) by (nonlinear_arith);
        lemma_mul_is_distributive_add(g, k1 * q, k2);
        assert(a as int == g * (k1 * q + k2));
    }
}

/// Exact division: when `g` divides `m`, multiplying the quotient back
/// recovers `m`.
pub proof fn lemma_div_exact(g: int, m: int)
    requires
        g > 0,
        divides(g, m),
    ensures
        g * (m / g) == m,
{
    let k = choose|k: int| m == #[trigger] (g * k);
    lemma_div_multiples_vanish(k, g);
}

/// Euclid's algorithm on machine words.
pub fn gcd_u128(a: u128, b: u128) -> (g: u128)
    ensures
        g as nat == gcd(a as nat, b as nat),
{
    let mut x = a;
    let mut y = b;
    while y != 0
        invariant
            gcd(x as nat, y as nat) == gcd(a as nat, b as nat),
        decreases y,
    {
        let r = x % y;
        x = y;
        y = r;
    }
    x
}

/// The reduced fraction for `n / d`, or `None` when the reduced parts do not
/// fit the fixed-width fields.
pub open spec fn norm_spec(n: int, d: int) -> Option<Frac>
    recommends
        d != 0,
{
    if n == i128::MIN as int || d == i128::MIN as int {
        None
    } else {
        let n1 = if d < 0 { -n } else { n };
        let d1 = if d < 0 { -d } else { d };
        let g = gcd(abs(n1), d1 as nat) as int;
        let rm = abs(n1) as int / g;
        let rd = d1 / g;
        if rm > i64::MAX as int || rd > i64::MAX as int {
            None
        } else {
            Some(Frac { num: (if n1 < 0 { -rm } else { rm }) as i64, den: rd as i64 })
        }
    }
}

/// A reduced fraction produced by normalization is well formed and has
/// the value `n / d`.
pub proof fn lemma_norm_value(n: int, d: int)
    requires
        d != 0,
        norm_spec(n, d) is Some,
    ensures
        norm_spec(n, d).unwrap().wf(),
        q_eq(norm_spec(n, d).unwrap()@, (n, d)),
{
    let n1: int = if d < 0 { -n } else { n };
    let d1: int = if d < 0 { -d } else { d };
    let g = gcd(abs(n1), d1 as nat) as int;
    lemma_gcd_divides(abs(n1), d1 as nat);
    lemma_div_exact(g, abs(n1) as int);
    lemma_div_exact(g, d1);
    let rm = abs(n1) as int / g;
    let rd = d1 / g;
    let f = norm_spec(n, d).unwrap();
    assert(rd >= 1) by (nonlinear_arith)
        requires
            g * rd == d1,
            d1 >= 1,
            g >= 1,
            rd >= 0,
    ;
    assert(rm >= 0) by (nonlinear_arith)
        requires
            g * rm == abs(n1) as int,
            g >= 1,
            abs(n1) as int >= 0,
    ;
    assert(f.num as int == if n1 < 0 {
        -rm
    } else {
        rm
    });
    assert(f.den as int == rd);
    assert(f.num as int * d == n * (f.den as int)) by {
        assert(n1 * d == n * d1) by (nonlinear_arith)
            requires
                (d < 0 ==> n1 == -n && d1 == -d) && (d >= 0 ==> n1 == n && d1 == d),
        ;
        assert(n1 == g * (f.num as int)) by (nonlinear_arith)
            requires
                g * rm == abs(n1) as int,
                abs(n1) as int == if n1 < 0 {
                    -n1
                } else {
                    n1
                },
                f.num as int == if n1 < 0 {
                    -rm
                } else {
                    rm
                },
        ;
        assert(g * (f.num as int) * d == n * (g * (f.den as int)));
        assert(f.num as int * d == n * (f.den as int)) by (nonlinear_arith)
            requires
                g * (f.num as int) * d == n * (g * (f.den as int)),
                g > 0,
        ;
    }
}

/// Builds the reduced fraction for `n / d`.
pub fn norm128(n: i128, d: i128) -> (r: Option<Frac>)
    requires
        d != 0,
    ensures
        r == norm_spec(n as int, d as int),
        r is Some ==> r.unwrap().wf() && q_eq(r.unwrap()@, (n as int, d as int)),
{
    if n == i128::MIN || d == i128::MIN {
        return None;
    }
    let n1: i128 = if d < 0 { -n } else { n };
    let d1: i128 = if d < 0 { -d } else { d };
    let neg = n1 < 0;
    let mag: u128 = if neg { (-n1) as u128 } else { n1 as u128 };
    let du: u128 = d1 as u128;
    assert(mag as int == abs(n1 as int));
    let g = gcd_u128(mag, du);
    proof {
        lemma_gcd_divides(mag as nat, du as nat);
    }
    let rm = mag / g;
    let rd = du / g;
    proof {
        lemma_div_exact(g as int, mag as int);
        lemma_div_exact(g as int, du as int);
        assert(rd >= 1) by (nonlinear_arith)
            requires
                (g as int) * (rd as int) == du as int,
                du as int >= 1,
                g as int >= 1,
                rd as int >= 0,
        ;
        assert(rm <= mag) by (nonlinear_arith)
            requires
                (g as int) * (rm as int) == mag as int,
                g as int >= 1,
                rm as int >= 0,
                mag as int >= 0,
        ;
    }
    if rm > i64::MAX as u128 || rd > i64::MAX as u128 {
        return None;
    }
    let num: i64 = if neg { -(rm as i64) } else { rm as i64 };
    let den: i64 = rd as i64;
    proof {
        // The reduced pair has the same rational value as (n, d):
        // writing mag = g*rm and d1 = g*rd, cancel g from n1*d == n*d1.
        assert(num as int * d == n as int * den) by {
            assert(n1 as int * (d as int) == n as int * (d1 as int)) by (nonlinear_arith)
                requires
                    (d < 0 ==> n1 as int == -(n as int) && d1 as int == -(d as int)) && (d >= 0
                        ==> n1 as int == n as int && d1 as int == d as int),
            ;
            assert(n1 as int == (g as int) * (num as int)) by (nonlinear_arith)
                requires
                    (g as int) * (rm as int) == mag as int,
                    mag as int == abs(n1 as int),
                    num as int == if n1 < 0 { -(rm as int) } else { rm as int },
            ;
            assert((g as int) * (num as int) * (d as int) == (n as int) * ((g as int) * (den
                as int)));
            assert(num as int * d as int == n as int * den as int) by (nonlinear_arith)
                requires
                    (g as int) * (num as int) * (d as int) == (n as int) * ((g as int) * (den
                        as int)),
                    g as int > 0,
            ;
        }
    }
    Some(Frac { num, den })
}

/// The product of two `i64` values, computed exactly.
pub fn wide_mul(a: i64, b: i64) -> (r: i128)
    ensures
        r == a as int * b as int,
{
    proof {
        assert(i128::MIN <= (a as int) * (b as int) <= i128::MAX) by (nonlinear_arith)
            requires
                i64::MIN <= a as int <= i64::MAX,
                i64::MIN <= b as int <= i64::MAX,
        ;
    }
    (a as i128) * (b as i128)
}

/// The exact reduced sum, or `None` on overflow of an intermediate or of the
/// reduced result.
pub open spec fn add_spec(a: Frac, b: Frac) -> Option<Frac> {
    let n = a.num * b.den + b.num * a.den;
    let d = a.den * b.den;
    if n < i128::MIN as int || n > i128::MAX as int {
        None
    } else {
        norm_spec(n, d)
    }
}

/// The exact reduced difference, or `None` on overflow.
pub open spec fn sub_spec(a: Frac, b: Frac) -> Option<Frac> {
    let n = a.num * b.den - b.num * a.den;
    let d = a.den * b.den;
    if n < i128::MIN as int || n > i128::MAX as int {
        None
    } else {
        norm_spec(n, d)
    }
}

/// The exact reduced product, or `None` on overflow of the reduced result.
pub open spec fn mul_spec(a: Frac, b: Frac) -> Option<Frac> {
    norm_spec(a.num * b.num, a.den * b.den)
}

/// The exact reduced quotient, or `None` on overflow of the reduced result.
pub open spec fn div_spec(a: Frac, b: Frac) -> Option<Frac>
    recommends
        b.num != 0,
{
    norm_spec(a.num * b.den, a.den * b.num)
}

impl Frac {
    /// The fraction with integer value `n`.
    pub fn from_int(n: i64) -> (r: Frac)
        ensures
            r.wf(),
            r@ == (n as int, 1int),
    {
        Frac { num: n, den: 1 }
    }

    /// The reduced fraction with value `k / 2`, for a nonnegative `k`.
    pub fn from_half(k: i64) -> (r: Frac)
        requires
            0 <= k,
        ensures
            r == half_spec(k),
            r.wf(),
            q_eq(r@, (k as int, 2)),
    {
        if k as u64 % 2 == 0 {
            let h = (k as u64 / 2) as i64;
            proof {
                assert(k as int % 2 == 0);
                lemma_fundamental_div_mod(k as int, 2);
                assert(k as int == 2 * (k as int / 2));
                assert(h as int == k as int / 2);
                assert(h as int * 2 == k as int * 1);
            }
            Frac { num: h, den: 1 }
        } else {
            Frac { num: k, den: 2 }
        }
    }

    /// Exact sum.
    pub fn checked_add(self, o: Frac) -> (r: Option<Frac>)
        requires
            self.wf(),
            o.wf(),
        ensures
            r == add_spec(self, o),
            r is Some ==> r.unwrap().wf() && q_eq(r.unwrap()@, q_add(self@, o@)),
    {
        let n1 = wide_mul(self.num, o.den);
        let n2 = wide_mul(o.num, self.den);
        let dd = wide_mul(self.den, o.den);
        proof {
            lemma_mul_strictly_positive(self.den as int, o.den as int);
        }
        match n1.checked_add(n2) {
            None => None,
            Some(nsum) => norm128(nsum, dd),
        }
    }

    /// Exact difference.
    pub fn checked_sub(self, o: Frac) -> (r: Option<Frac>)
        requires
            self.wf(),
            o.wf(),
        ensures
            r == sub_spec(self, o),
            r is Some ==> r.unwrap().wf() && q_eq(r.unwrap()@, q_sub(self@, o@)),
    {
        let n1 = wide_mul(self.num, o.den);
        let n2 = wide_mul(o.num, self.den);
        let dd = wide_mul(self.den, o.den);
        proof {
            lemma_mul_strictly_positive(self.den as int, o.den as int);
        }
        match n1.checked_sub(n2) {
            None => None,
            Some(ndiff) => norm128(ndiff, dd),
        }
    }

    /// Exact product.
    pub fn checked_mul(self, o: Frac) -> (r: Option<Frac>)
        requires
            self.wf(),
            o.wf(),
        ensures
            r == mul_spec(self, o),
            r is Some ==> r.unwrap().wf() && q_eq(r.unwrap()@, q_mul(self@, o@)),
    {
        let nn = wide_mul(self.num, o.num);
        let dd = wide_mul(self.den, o.den);
        proof {
            lemma_mul_strictly_positive(self.den as int, o.den as int);
        }
        norm128(nn, dd)
    }

    /// Exact quotient.
    pub fn checked_div(self, o: Frac) -> (r: Option<Frac>)
        requires
            self.wf(),
            o.wf(),
            o.num != 0,
        ensures
            r == div_spec(self, o),
            r is Some ==> r.unwrap().wf() && q_eq(r.unwrap()@, q_div(self@, o@)),
    {
        let nn = wide_mul(self.num, o.den);
        let dd = wide_mul(self.den, o.num);
        proof {
            assert(dd != 0) by (nonlinear_arith)
                requires
                    dd == self.den as int * o.num as int,
                    self.den as int > 0,
                    o.num != 0,
            ;
        }
        let r = norm128(nn, dd);
        proof {
            if r is Some {
                let f = r.unwrap();
                // norm128 relates f to (nn, dd); q_div flips both signs when
                // o.num < 0, which preserves the cross-multiplied equality.
                assert(f.num as int * dd == nn * f.den as int);
                if o.num < 0 {
                    assert(f.num as int * (-dd) == (-nn) * f.den as int) by (nonlinear_arith)
                        requires
                            f.num as int * dd == nn * f.den as int,
                    ;
                }
            }
        }
        r
    }

    /// Value comparison: `self < o`.
    pub fn lt(self, o: Frac) -> (r: bool)
        requires
            self.wf(),
            o.wf(),
        ensures
            r == q_lt(self@, o@),
    {
        wide_mul(self.num, o.den) < wide_mul(o.num, self.den)
    }

    /// Value comparison: `self <= o`.
    pub fn le(self, o: Frac) -> (r: bool)
        requires
            self.wf(),
            o.wf(),
        ensures
            r == q_le(self@, o@),
    {
        wide_mul(self.num, o.den) <= wide_mul(o.num, self.den)
    }

    /// Value equality (independent of representation).
    pub fn eq_val(self, o: Frac) -> (r: bool)
        requires
            self.wf(),
            o.wf(),
        ensures
            r == q_eq(self@, o@),
    {
        wide_mul(self.num, o.den) == wide_mul(o.num, self.den)
    }

    /// Whether the (reduced) fraction is an integer.
    pub fn is_int(self) -> (r: bool)
        ensures
            r == (self.den == 1),
    {
        self.den == 1
    }

    /// The integer part of a nonnegative fraction.
    pub fn trunc(self) -> (t: i64)
        requires
            self.wf(),
            self.num >= 0,
        ensures
            t == self.num as int / self.den as int,
            0 <= t <= self.num,
    {
        let q = (self.num as u64) / (self.den as u64);
        proof {
            vstd::arithmetic::div_mod::lemma_div_nonincreasing(self.num as int, self.den as int);
            vstd::arithmetic::div_mod::lemma_div_pos_is_pos(self.num as int, self.den as int);
        }
        q as i64
    }
}

/// The cross products against the replacement pair scale by a positive
/// factor: used to carry comparisons across value equality.
proof fn lemma_q_cross_scale(a: (int, int), a2: (int, int), b: (int, int), b2: (int, int))
    requires
        q_eq(a, a2),
        q_eq(b, b2),
    ensures
        (a.0 * b.1 - b.0 * a.1) * (a2.1 * b2.1) == (a2.0 * b2.1 - b2.0 * a2.1) * (a.1 * b.1),
{
    let (a0, a1) = a;
    let (b0, b1) = b;
    let (c0, c1) = a2;
    let (d0, d1) = b2;
    assert((a0 * b1) * (c1 * d1) == (c0 * d1) * (a1 * b1)) by (nonlinear_arith)
        requires
            a0 * c1 == c0 * a1,
    ;
    assert((b0 * a1) * (c1 * d1) == (d0 * c1) * (a1 * b1)) by (nonlinear_arith)
        requires
            b0 * d1 == d0 * b1,
    ;
    assert((a0 * b1 - b0 * a1) * (c1 * d1) == (a0 * b1) * (c1 * d1) - (b0 * a1) * (c1 * d1))
        by (nonlinear_arith);
    assert((c0 * d1 - d0 * c1) * (a1 * b1) == (c0 * d1) * (a1 * b1) - (d0 * c1) * (a1 * b1))
        by (nonlinear_arith);
}

/// Replacing both sides of a comparison by value-equal pairs (all with
/// positive denominators) does not change the comparison.
pub proof fn lemma_q_cmp_congr(a: (int, int), a2: (int, int), b: (int, int), b2: (int, int))
    requires
        a.1 > 0,
        a2.1 > 0,
        b.1 > 0,
        b2.1 > 0,
        q_eq(a, a2),
        q_eq(b, b2),
    ensures
        q_lt(a, b) <==> q_lt(a2, b2),
        q_le(a, b) <==> q_le(a2, b2),
        q_eq(a, b) <==> q_eq(a2, b2),
{
    lemma_q_cross_scale(a, a2, b, b2);
    assert((a.0 * b.1 - b.0 * a.1 < 0 <==> a2.0 * b2.1 - b2.0 * a2.1 < 0) && (a.0 * b.1 - b.0
        * a.1 <= 0 <==> a2.0 * b2.1 - b2.0 * a2.1 <= 0) && (a.0 * b.1 - b.0 * a.1 == 0 <==> a2.0
        * b2.1 - b2.0 * a2.1 == 0)) by (nonlinear_arith)
        requires
            (a.0 * b.1 - b.0 * a.1) * (a2.1 * b2.1) == (a2.0 * b2.1 - b2.0 * a2.1) * (a.1
                * b.1),
            a.1 > 0,
            a2.1 > 0,
            b.1 > 0,
            b2.1 > 0,
    ;
}

/// Value equality of fractions with positive denominators is transitive.
pub proof fn lemma_q_eq_trans(a: (int, int), b: (int, int), c: (int, int))
    requires
        a.1 > 0,
        b.1 > 0,
        c.1 > 0,
        q_eq(a, b),
        q_eq(b, c),
    ensures
        q_eq(a, c),
{
    lemma_q_cmp_congr(a, a, b, c);
}

/// The reduced fraction with value `k / 2`, for a nonnegative `k`.
pub open spec fn half_spec(k: i64) -> Frac {
    if k % 2 == 0 {
        Frac { num: (k / 2) as i64, den: 1 }
    } else {
        Frac { num: k, den: 2 }
    }
}

} // verus!
