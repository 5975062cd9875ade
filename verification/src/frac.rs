use vstd::prelude::*;
use vstd::arithmetic::div_mod::lemma_fundamental_div_mod;

verus! {

/// An exact rational number `num / den`. Every coordinate, slope,
/// texture offset and squared distance in this crate is such a
/// fraction, so all geometric claims are exact integer identities
/// rather than approximations.
///
/// Fractions are not kept reduced; values are compared by cross
/// multiplication (`rat_le`). Well-formed fractions keep the
/// denominator positive.
#[derive(Clone, Copy, Debug)]
pub struct Frac {
    pub num: i128,
    pub den: i128,
}

/// `an/ad <= bn/bd`, for positive denominators.
pub open spec fn rat_le(an: int, ad: int, bn: int, bd: int) -> bool
    recommends
        ad > 0,
        bd > 0,
{
    an * bd <= bn * ad
}

/// `an/ad < bn/bd`, for positive denominators.
pub open spec fn rat_lt(an: int, ad: int, bn: int, bd: int) -> bool
    recommends
        ad > 0,
        bd > 0,
{
    an * bd < bn * ad
}

/// The greatest integer at most `n/d`. Spec division is Euclidean, so
/// for `d > 0` this is exactly floor division.
pub open spec fn rat_floor(n: int, d: int) -> int
    recommends
        d > 0,
{
    n / d
}

/// The least integer at least `n/d`, for `d > 0`.
pub open spec fn rat_ceil(n: int, d: int) -> int
    recommends
        d > 0,
{
    -((-n) / d)
}

/// A fraction in its valid form: positive denominator.
pub open spec fn frac_inv(f: Frac) -> bool {
    0 < f.den
}

/// Rational comparison of two well-formed fractions.
pub open spec fn frac_le(a: Frac, b: Frac) -> bool {
    rat_le(a.num as int, a.den as int, b.num as int, b.den as int)
}

/// A fraction whose magnitude is at most `v` and whose denominator is
/// at most `d`. These bounds are what lets every intermediate product
/// of the ray arithmetic fit in an `i128`.
pub open spec fn frac_bounded(f: Frac, v: int, d: int) -> bool {
    &&& 0 < f.den <= d
    &&& -(v * f.den) <= f.num <= v * f.den
}

impl Frac {
    /// Build the fraction `num / den`.
    pub fn new(num: i64, den: i64) -> (r: Frac)
        requires
            den > 0,
        ensures
            r.num == num,
            r.den == den,
            frac_inv(r),
    {
        Frac { num: num as i128, den: den as i128 }
    }

    /// The integer `n` as a fraction.
    pub fn from_int(n: i64) -> (r: Frac)
        ensures
            r.num == n,
            r.den == 1,
            frac_inv(r),
    {
        Frac { num: n as i128, den: 1 }
    }

    /// Rational comparison `self <= other` by cross multiplication.
    pub fn le(&self, other: &Frac) -> (r: bool)
        requires
            frac_inv(*self),
            frac_inv(*other),
            -0x4000_0000_0000_0000 <= self.num <= 0x4000_0000_0000_0000,
            -0x4000_0000_0000_0000 <= other.num <= 0x4000_0000_0000_0000,
            self.den <= 0x4000_0000_0000_0000,
            other.den <= 0x4000_0000_0000_0000,
        ensures
            r == frac_le(*self, *other),
    {
        proof {
            lemma_mul_bounds(self.num as int, 0x4000_0000_0000_0000, other.den as int,
                0x4000_0000_0000_0000);
            lemma_mul_bounds(other.num as int, 0x4000_0000_0000_0000, self.den as int,
                0x4000_0000_0000_0000);
        }
        self.num * other.den <= other.num * self.den
    }

    /// The greatest integer at most the value of `self`.
    pub fn floor(&self) -> (r: i128)
        requires
            frac_inv(*self),
            -0x4000_0000_0000_0000_0000_0000_0000_0000 <= self.num
                <= 0x4000_0000_0000_0000_0000_0000_0000_0000,
            self.den <= 0x4000_0000_0000_0000_0000_0000_0000_0000,
        ensures
            r == rat_floor(self.num as int, self.den as int),
    {
        let d = self.den as u128;
        if self.num >= 0 {
            let q = (self.num as u128) / d;
            q as i128
        } else {
            let m = (-self.num) as u128;
            let q = (m + d - 1) / d;
            proof {
                lemma_fundamental_div_mod(self.num as int, self.den as int);
                lemma_fundamental_div_mod((m + d - 1) as int, d as int);
                let fq = self.num as int / self.den as int;
                let cq = (m + d - 1) as int / d as int;
                assert(-(cq as int) == fq) by (nonlinear_arith)
                    requires
                        d as int == self.den as int,
                        d > 0,
                        m == -(self.num as int),
                        self.num < 0,
                        self.num as int == self.den as int * fq + (self.num as int) % (
                        self.den as int),
                        0 <= (self.num as int) % (self.den as int) < self.den as int,
                        (m + d - 1) as int == d as int * cq + ((m + d - 1) as int) % (d as int),
                        0 <= ((m + d - 1) as int) % (d as int) < d as int,
                ;
            }
            -(q as i128)
        }
    }
}

/// The defining property of `rat_ceil`: it is the unique integer `c`
/// with `n <= d * c < n + d`. For nonnegative `n` it also lies in
/// `[0, n]`.
pub proof fn lemma_ceil_props(n: int, d: int)
    requires
        d > 0,
    ensures
        n <= d * rat_ceil(n, d) < n + d,
        n >= 0 ==> 0 <= rat_ceil(n, d) <= n,
{
    lemma_fundamental_div_mod(-n, d);
    let q = (-n) / d;
    let m = (-n) % d;
    assert(n <= d * -q < n + d) by (nonlinear_arith)
        requires
            d > 0,
            -n == d * q + m,
            0 <= m < d,
    ;
    if n >= 0 {
        assert(0 <= -q <= n) by (nonlinear_arith)
            requires
                d > 0,
                n >= 0,
                n <= d * -q < n + d,
        ;
    }
}

/// Two fractions with the same value have the same floor.
pub proof fn lemma_floor_of_eq(a: int, b: int, n: int, d: int)
    requires
        b > 0,
        d > 0,
        a * d == n * b,
    ensures
        a / b == n / d,
{
    lemma_fundamental_div_mod(a, b);
    lemma_fundamental_div_mod(n, d);
    let qa = a / b;
    let ra = a % b;
    let qn = n / d;
    let rn = n % d;
    assert(qa == qn) by (nonlinear_arith)
        requires
            b > 0,
            d > 0,
            a == b * qa + ra,
            0 <= ra < b,
            n == d * qn + rn,
            0 <= rn < d,
            a * d == n * b,
    ;
}

/// Transitivity of the cross-multiplied order on rationals.
pub proof fn lemma_rat_le_trans(an: int, ad: int, bn: int, bd: int, cn: int, cd: int)
    requires
        ad > 0,
        bd > 0,
        cd > 0,
        rat_le(an, ad, bn, bd),
        rat_le(bn, bd, cn, cd),
    ensures
        rat_le(an, ad, cn, cd),
{
    lemma_scale_le(an * bd, bn * ad, cd);
    assert((an * bd) * cd == (an * cd) * bd) by (nonlinear_arith);
    assert((bn * ad) * cd == (bn * cd) * ad) by (nonlinear_arith);
    lemma_scale_le(bn * cd, cn * bd, ad);
    assert((cn * bd) * ad == (cn * ad) * bd) by (nonlinear_arith);
    lemma_scale_le(an * cd, cn * ad, bd);
}

/// A strict step followed by a non-strict one stays strict.
pub proof fn lemma_rat_lt_le_trans(an: int, ad: int, bn: int, bd: int, cn: int, cd: int)
    requires
        ad > 0,
        bd > 0,
        cd > 0,
        rat_lt(an, ad, bn, bd),
        rat_le(bn, bd, cn, cd),
    ensures
        rat_lt(an, ad, cn, cd),
{
    lemma_scale_lt(an * bd, bn * ad, cd);
    assert((an * bd) * cd == (an * cd) * bd) by (nonlinear_arith);
    assert((bn * ad) * cd == (bn * cd) * ad) by (nonlinear_arith);
    lemma_scale_le(bn * cd, cn * bd, ad);
    assert((cn * bd) * ad == (cn * ad) * bd) by (nonlinear_arith);
    lemma_scale_lt(an * cd, cn * ad, bd);
}

/// Scaling both sides of a strict comparison by a positive factor
/// keeps it.
pub proof fn lemma_scale_lt(x: int, y: int, s: int)
    by (nonlinear_arith)
    requires
        s > 0,
    ensures
        (x < y) == (x * s < y * s),
{
}

/// Crossing an integer threshold: for a positive denominator, the
/// floor reaches `b` exactly when the numerator reaches `b * d`.
pub proof fn lemma_floor_threshold(n: int, d: int, b: int)
    requires
        d > 0,
    ensures
        (n / d >= b) == (n >= b * d),
{
    lemma_fundamental_div_mod(n, d);
    let q = n / d;
    let r = n % d;
    assert((q >= b) == (n >= b * d)) by (nonlinear_arith)
        requires
            d > 0,
            n == d * q + r,
            0 <= r < d,
    ;
}

/// The magnitude of a product is bounded by the product of the bounds.
pub proof fn lemma_mul_bounds(a: int, am: int, b: int, bm: int)
    by (nonlinear_arith)
    requires
        -am <= a <= am,
        -bm <= b <= bm,
        0 <= am,
        0 <= bm,
    ensures
        -(am * bm) <= a * b <= am * bm,
{
}

/// The square of a product is the product of the squares.
pub proof fn lemma_sq_mul(x: int, y: int)
    by (nonlinear_arith)
    ensures
        (x * y) * (x * y) == (x * x) * (y * y),
{
}

/// A product of nonnegatives is nonnegative.
pub proof fn lemma_mul_nonneg(a: int, b: int)
    by (nonlinear_arith)
    requires
        a >= 0,
        b >= 0,
    ensures
        a * b >= 0,
{
}

/// A product of positives is positive.
pub proof fn lemma_mul_pos(a: int, b: int)
    by (nonlinear_arith)
    requires
        a > 0,
        b > 0,
    ensures
        a * b > 0,
{
}

/// A bounded fraction's numerator magnitude is at most the value
/// bound times the denominator bound.
pub proof fn lemma_frac_abs(f: Frac, v: int, d: int)
    by (nonlinear_arith)
    requires
        frac_bounded(f, v, d),
        v >= 0,
    ensures
        -(v * d) <= f.num <= v * d,
        0 < f.den <= d,
{
}

/// Strict order on squares: for nonnegative integers, `a < b` exactly
/// when `a * a < b * b`.
pub proof fn lemma_sq_lt(a: int, b: int)
    by (nonlinear_arith)
    requires
        a >= 0,
        b >= 0,
    ensures
        (a < b) == (a * a < b * b),
{
}

/// Order on squares: for nonnegative integers, `a <= b` exactly when
/// `a * a <= b * b`.
pub proof fn lemma_sq_le(a: int, b: int)
    by (nonlinear_arith)
    requires
        a >= 0,
        b >= 0,
    ensures
        (a <= b) == (a * a <= b * b),
{
}

/// Scaling both sides of a comparison by a positive factor keeps it.
pub proof fn lemma_scale_le(x: int, y: int, s: int)
    by (nonlinear_arith)
    requires
        s > 0,
    ensures
        (x <= y) == (x * s <= y * s),
{
}

} // verus!
