//! Exact rational arithmetic.
//!
//! Every numeric quantity of the solver core (resistance, source values,
//! matrix entries, solved voltages) is an exact rational number, so the
//! whole pipeline is free of rounding error and singular systems are
//! detected exactly.  Operations that would leave the representable range
//! report that instead of wrapping or losing precision.

use vstd::prelude::*;

verus! {

/// Specification-level rational value: a numerator/denominator pair.
/// A well-formed value keeps its denominator positive; equality is the
/// usual cross-multiplication equivalence, so values need not be in
/// lowest terms.
pub open spec fn rat_wf(a: (int, int)) -> bool {
    a.1 >= 1
}

/// `a` and `b` denote the same rational number.
pub open spec fn rat_eq(a: (int, int), b: (int, int)) -> bool {
    a.0 * b.1 == b.0 * a.1
}

pub open spec fn rat_of_int(n: int) -> (int, int) {
    (n, 1)
}

pub open spec fn rat_zero() -> (int, int) {
    (0, 1)
}

pub open spec fn rat_one() -> (int, int) {
    (1, 1)
}

pub open spec fn rat_is_zero(a: (int, int)) -> bool {
    a.0 == 0
}

pub open spec fn rat_add(a: (int, int), b: (int, int)) -> (int, int) {
    (a.0 * b.1 + b.0 * a.1, a.1 * b.1)
}

pub open spec fn rat_sub(a: (int, int), b: (int, int)) -> (int, int) {
    (a.0 * b.1 - b.0 * a.1, a.1 * b.1)
}

pub open spec fn rat_neg(a: (int, int)) -> (int, int) {
    (-a.0, a.1)
}

pub open spec fn rat_mul(a: (int, int), b: (int, int)) -> (int, int) {
    (a.0 * b.0, a.1 * b.1)
}

pub open spec fn rat_div(a: (int, int), b: (int, int)) -> (int, int) {
    (a.0 * b.1, a.1 * b.0)
}

/// The reciprocal; meaningful only for nonzero values.
pub open spec fn rat_inv(a: (int, int)) -> (int, int) {
    (a.1, a.0)
}

/// `rat_eq` is transitive as long as the middle value has a nonzero
/// denominator.
pub proof fn lemma_rat_eq_trans(a: (int, int), b: (int, int), c: (int, int))
    requires
        rat_eq(a, b),
        rat_eq(b, c),
        b.1 != 0,
    ensures
        rat_eq(a, c),
{
    assert(a.0 * c.1 == c.0 * a.1) by (nonlinear_arith)
        requires
            a.0 * b.1 == b.0 * a.1,
            b.0 * c.1 == c.0 * b.1,
            b.1 != 0,
    ;
}

/// Addition respects `rat_eq`.
#[verifier::rlimit(50)]
pub proof fn lemma_rat_add_congr(a: (int, int), a2: (int, int), b: (int, int), b2: (int, int))
    requires
        rat_eq(a, a2),
        rat_eq(b, b2),
    ensures
        rat_eq(rat_add(a, b), rat_add(a2, b2)),
{
    assert((a.0 * b.1) * (a2.1 * b2.1) == (a2.0 * b2.1) * (a.1 * b.1)) by (nonlinear_arith)
        requires
            a.0 * a2.1 == a2.0 * a.1,
    ;
    assert((b.0 * a.1) * (a2.1 * b2.1) == (b2.0 * a2.1) * (a.1 * b.1)) by (nonlinear_arith)
        requires
            b.0 * b2.1 == b2.0 * b.1,
    ;
    assert((a.0 * b.1 + b.0 * a.1) * (a2.1 * b2.1) == (a2.0 * b2.1 + b2.0 * a2.1) * (a.1 * b.1))
        by (nonlinear_arith)
        requires
            (a.0 * b.1) * (a2.1 * b2.1) == (a2.0 * b2.1) * (a.1 * b.1),
            (b.0 * a.1) * (a2.1 * b2.1) == (b2.0 * a2.1) * (a.1 * b.1),
    ;
}

/// Negation respects `rat_eq`.
pub proof fn lemma_rat_neg_congr(a: (int, int), b: (int, int))
    requires
        rat_eq(a, b),
    ensures
        rat_eq(rat_neg(a), rat_neg(b)),
{
    assert((-a.0) * b.1 == (-b.0) * a.1) by (nonlinear_arith)
        requires
            a.0 * b.1 == b.0 * a.1,
    ;
}

/// Multiplication respects `rat_eq`.
pub proof fn lemma_rat_mul_congr(a: (int, int), a2: (int, int), b: (int, int), b2: (int, int))
    requires
        rat_eq(a, a2),
        rat_eq(b, b2),
    ensures
        rat_eq(rat_mul(a, b), rat_mul(a2, b2)),
{
    assert((a.0 * b.0) * (a2.1 * b2.1) == (a2.0 * b2.0) * (a.1 * b.1)) by (nonlinear_arith)
        requires
            a.0 * a2.1 == a2.0 * a.1,
            b.0 * b2.1 == b2.0 * b.1,
    ;
}

/// Adding a value equal to zero changes nothing.
pub proof fn lemma_rat_add_zero(a: (int, int), z: (int, int))
    requires
        rat_is_zero(z),
        z.1 != 0,
    ensures
        rat_eq(rat_add(a, z), a),
{
    assert((a.0 * z.1 + z.0 * a.1) * a.1 == a.0 * (a.1 * z.1)) by (nonlinear_arith)
        requires
            z.0 == 0,
    ;
}

/// Multiplying by one changes nothing.
pub proof fn lemma_rat_mul_one(v: (int, int))
    ensures
        rat_eq(rat_mul(rat_one(), v), v),
{
    assert((1 * v.0) * v.1 == v.0 * (1 * v.1)) by (nonlinear_arith);
}

/// Multiplying by zero gives zero.
pub proof fn lemma_rat_mul_zero(v: (int, int))
    ensures
        rat_eq(rat_mul(rat_zero(), v), rat_zero()),
{
    assert((0 * v.0) * 1 == 0 * (1 * v.1)) by (nonlinear_arith);
}

/// Adding to zero changes nothing.
pub proof fn lemma_rat_zero_add(v: (int, int))
    ensures
        rat_eq(rat_add(rat_zero(), v), v),
{
    assert((0 * v.1 + v.0 * 1) * v.1 == v.0 * (1 * v.1)) by (nonlinear_arith);
}

/// An exact rational number held in machine integers, with a positive
/// denominator.
#[derive(Clone, Copy, Debug)]
pub struct Rational {
    num: i64,
    den: i64,
}

impl View for Rational {
    type V = (int, int);

    closed spec fn view(&self) -> (int, int) {
        (self.num as int, self.den as int)
    }
}

/// The product of an i64 and a positive i64 stays well inside the i128
/// range.
proof fn lemma_i64_prod_bound(x: int, y: int)
    requires
        -0x8000_0000_0000_0000 <= x <= 0x7fff_ffff_ffff_ffff,
        0 <= y <= 0x7fff_ffff_ffff_ffff,
    ensures
        -0x3fff_ffff_ffff_ffff_8000_0000_0000_0000 <= x * y
            <= 0x3fff_ffff_ffff_ffff_8000_0000_0000_0000,
{
    assert(
        -0x3fff_ffff_ffff_ffff_8000_0000_0000_0000 <= x * y
            <= 0x3fff_ffff_ffff_ffff_8000_0000_0000_0000
    ) by (nonlinear_arith)
        requires
            -0x8000_0000_0000_0000 <= x <= 0x7fff_ffff_ffff_ffff,
            0 <= y <= 0x7fff_ffff_ffff_ffff,
    ;
}

/// Greatest common divisor on unsigned machine words; only positivity is
/// relied on, exact divisibility is re-checked by the caller.
fn gcd_u128(a0: u128, b0: u128) -> (g: u128)
    requires
        a0 >= 1,
    ensures
        g >= 1,
{
    let mut a: u128 = a0;
    let mut b: u128 = b0;
    while b != 0
        invariant
            a >= 1,
        decreases b,
    {
        let t: u128 = a % b;
        a = b;
        b = t;
    }
    a
}

/// Bring a wide numerator/denominator pair back into `i64` range,
/// cancelling a common divisor first.  Fails only when even the reduced
/// value does not fit.
fn reduce(n: i128, d: i128) -> (r: Option<Rational>)
    requires
        1 <= d,
    ensures
        r matches Some(q) ==> q.wf() && rat_eq(q@, (n as int, d as int)),
        (-0x7fff_ffff_ffff_ffff <= n <= 0x7fff_ffff_ffff_ffff
            && d <= 0x7fff_ffff_ffff_ffff) ==> r is Some,
{
    if n == i128::MIN {
        // The magnitude of the numerator does not fit; such values only
        // arise from intermediate results that are out of range anyway.
        return None;
    }
    let neg: bool = n < 0;
    let mag: u128 = if n >= 0 { n as u128 } else { (-n) as u128 };
    let dd: u128 = d as u128;
    let g: u128 = gcd_u128(dd, mag);
    let (mag2, dd2): (u128, u128) = if mag % g == 0 && dd % g == 0 {
        let mq: u128 = mag / g;
        let dq: u128 = dd / g;
        proof {
            vstd::arithmetic::div_mod::lemma_fundamental_div_mod(mag as int, g as int);
            vstd::arithmetic::div_mod::lemma_fundamental_div_mod(dd as int, g as int);
            assert(mag == g * mq && dd == g * dq);
            assert(dq >= 1) by (nonlinear_arith)
                requires
                    dd == g * dq,
                    dd >= 1,
                    g >= 1,
                    dq >= 0,
            ;
            // cancelling the common factor keeps the value
            assert(mq * (dd as int) == (mag as int) * dq) by (nonlinear_arith)
                requires
                    mag == g * mq,
                    dd == g * dq,
            ;
        }
        (mq, dq)
    } else {
        (mag, dd)
    };
    assert(mag2 * (dd as int) == (mag as int) * dd2);
    assert(dd2 >= 1);
    if mag2 <= i64::MAX as u128 && dd2 <= i64::MAX as u128 {
        let den: i64 = dd2 as i64;
        let num: i64 = if neg {
            -(mag2 as i64)
        } else {
            mag2 as i64
        };
        let q = Rational { num, den };
        proof {
            // q preserves the value of (n, d)
            if neg {
                assert((-(mag2 as int)) * d == n * (dd2 as int)) by (nonlinear_arith)
                    requires
                        mag2 * (dd as int) == (mag as int) * dd2,
                        n == -(mag as int),
                        d == dd as int,
                ;
            } else {
                assert((mag2 as int) * d == n * (dd2 as int)) by (nonlinear_arith)
                    requires
                        mag2 * (dd as int) == (mag as int) * dd2,
                        n == mag as int,
                        d == dd as int,
                ;
            }
        }
        Some(q)
    } else {
        None
    }
}

impl Rational {
    /// The denominator is positive.
    pub open spec fn wf(self) -> bool {
        rat_wf(self@)
    }

    /// The whole number `n` as a rational.
    pub fn from_int(n: i64) -> (r: Rational)
        ensures
            r.wf(),
            r@ == rat_of_int(n as int),
    {
        Rational { num: n, den: 1 }
    }

    /// Exactly zero.
    pub fn zero() -> (r: Rational)
        ensures
            r.wf(),
            r@ == rat_zero(),
    {
        Rational { num: 0, den: 1 }
    }

    /// The fraction `num / den`; fails exactly on a zero denominator or
    /// when normalising the sign leaves the range.
    pub fn new(num: i64, den: i64) -> (r: Option<Rational>)
        ensures
            r matches Some(q) ==> q.wf() && rat_eq(q@, (num as int, den as int)),
            den >= 1 && num > i64::MIN ==> r is Some,
            den == 0 ==> r is None,
    {
        if den == 0 {
            None
        } else if den > 0 {
            reduce(num as i128, den as i128)
        } else {
            let r = reduce(-(num as i128), -(den as i128));
            proof {
                if r is Some {
                    let q = r->0;
                    assert(q@.0 * (den as int) == (num as int) * q@.1) by (nonlinear_arith)
                        requires
                            q@.0 * (-(den as int)) == (-(num as int)) * q@.1,
                    ;
                }
            }
            r
        }
    }

    /// The numerator of the stored representation.
    pub fn numerator(self) -> (r: i64)
        ensures
            r as int == self@.0,
    {
        self.num
    }

    /// The (positive) denominator of the stored representation.
    pub fn denominator(self) -> (r: i64)
        ensures
            r as int == self@.1,
    {
        self.den
    }

    /// Whether the value is exactly zero.
    pub fn is_zero(self) -> (r: bool)
        requires
            self.wf(),
        ensures
            r == rat_is_zero(self@),
    {
        self.num == 0
    }

    /// Exact value equality (not representation equality).
    pub fn eq_value(self, other: Rational) -> (r: bool)
        requires
            self.wf(),
            other.wf(),
        ensures
            r == rat_eq(self@, other@),
    {
        proof {
            lemma_i64_prod_bound(self.num as int, other.den as int);
            lemma_i64_prod_bound(other.num as int, self.den as int);
        }
        (self.num as i128) * (other.den as i128) == (other.num as i128) * (self.den as i128)
    }

    /// Exact sum; succeeds whenever the unreduced sum already fits the
    /// range, and fails only when even the reduced result does not.
    pub fn add(self, other: Rational) -> (r: Option<Rational>)
        requires
            self.wf(),
            other.wf(),
        ensures
            r matches Some(q) ==> q.wf() && rat_eq(q@, rat_add(self@, other@)),
            (-0x7fff_ffff_ffff_ffff <= rat_add(self@, other@).0 <= 0x7fff_ffff_ffff_ffff
                && rat_add(self@, other@).1 <= 0x7fff_ffff_ffff_ffff) ==> r is Some,
    {
        proof {
            lemma_i64_prod_bound(self.num as int, other.den as int);
            lemma_i64_prod_bound(other.num as int, self.den as int);
            lemma_i64_prod_bound(self.den as int, other.den as int);
            assert((self.den as int) * (other.den as int) >= 1) by (nonlinear_arith)
                requires
                    self.den as int >= 1,
                    other.den as int >= 1,
            ;
        }
        let n: i128 = (self.num as i128) * (other.den as i128)
            + (other.num as i128) * (self.den as i128);
        let d: i128 = (self.den as i128) * (other.den as i128);
        reduce(n, d)
    }

    /// Exact difference; succeeds whenever the unreduced difference fits
    /// the range, and fails only when even the reduced result does not.
    pub fn sub(self, other: Rational) -> (r: Option<Rational>)
        requires
            self.wf(),
            other.wf(),
        ensures
            r matches Some(q) ==> q.wf() && rat_eq(q@, rat_sub(self@, other@)),
            (-0x7fff_ffff_ffff_ffff <= rat_sub(self@, other@).0 <= 0x7fff_ffff_ffff_ffff
                && rat_sub(self@, other@).1 <= 0x7fff_ffff_ffff_ffff) ==> r is Some,
    {
        proof {
            lemma_i64_prod_bound(self.num as int, other.den as int);
            lemma_i64_prod_bound(other.num as int, self.den as int);
            lemma_i64_prod_bound(self.den as int, other.den as int);
            assert((self.den as int) * (other.den as int) >= 1) by (nonlinear_arith)
                requires
                    self.den as int >= 1,
                    other.den as int >= 1,
            ;
        }
        let n: i128 = (self.num as i128) * (other.den as i128)
            - (other.num as i128) * (self.den as i128);
        let d: i128 = (self.den as i128) * (other.den as i128);
        reduce(n, d)
    }

    /// Exact negation; fails only when the reduced result leaves the range.
    pub fn neg(self) -> (r: Option<Rational>)
        requires
            self.wf(),
        ensures
            r matches Some(q) ==> q.wf() && rat_eq(q@, rat_neg(self@)),
            self@.0 > i64::MIN as int ==> r is Some,
    {
        reduce(-(self.num as i128), self.den as i128)
    }

    /// Exact product; succeeds whenever the unreduced product fits the
    /// range, and fails only when even the reduced result does not.
    pub fn mul(self, other: Rational) -> (r: Option<Rational>)
        requires
            self.wf(),
            other.wf(),
        ensures
            r matches Some(q) ==> q.wf() && rat_eq(q@, rat_mul(self@, other@)),
            (-0x7fff_ffff_ffff_ffff <= rat_mul(self@, other@).0 <= 0x7fff_ffff_ffff_ffff
                && rat_mul(self@, other@).1 <= 0x7fff_ffff_ffff_ffff) ==> r is Some,
    {
        proof {
            lemma_i64_prod_bound(self.num as int, other.den as int);
            assert(
                -0x4000_0000_0000_0000_0000_0000_0000_0000 <= (self.num as int) * (other.num as int)
                    <= 0x4000_0000_0000_0000_0000_0000_0000_0000
            ) by (nonlinear_arith)
                requires
                    -0x8000_0000_0000_0000 <= self.num as int <= 0x7fff_ffff_ffff_ffff,
                    -0x8000_0000_0000_0000 <= other.num as int <= 0x7fff_ffff_ffff_ffff,
            ;
            lemma_i64_prod_bound(self.den as int, other.den as int);
            assert((self.den as int) * (other.den as int) >= 1) by (nonlinear_arith)
                requires
                    self.den as int >= 1,
                    other.den as int >= 1,
            ;
        }
        let n: i128 = (self.num as i128) * (other.num as i128);
        let d: i128 = (self.den as i128) * (other.den as i128);
        reduce(n, d)
    }

    /// Exact quotient by a nonzero value; succeeds whenever the unreduced
    /// quotient fits the range, and fails only when even the reduced
    /// result does not.
    pub fn div(self, other: Rational) -> (r: Option<Rational>)
        requires
            self.wf(),
            other.wf(),
            !rat_is_zero(other@),
        ensures
            r matches Some(q) ==> q.wf() && rat_eq(q@, rat_div(self@, other@)),
            (-0x7fff_ffff_ffff_ffff <= rat_div(self@, other@).0 <= 0x7fff_ffff_ffff_ffff
                && -0x7fff_ffff_ffff_ffff <= rat_div(self@, other@).1 <= 0x7fff_ffff_ffff_ffff) ==> r is Some,
    {
        proof {
            lemma_i64_prod_bound(self.num as int, other.den as int);
            lemma_i64_prod_bound(other.num as int, self.den as int);
            assert((self.den as int) * (other.num as int) != 0) by (nonlinear_arith)
                requires
                    self.den as int >= 1,
                    other.num as int != 0,
            ;
        }
        let n: i128 = (self.num as i128) * (other.den as i128);
        let d: i128 = (self.den as i128) * (other.num as i128);
        if d >= 1 {
            reduce(n, d)
        } else {
            let r = reduce(-n, -d);
            proof {
                if r is Some {
                    let q = r->0;
                    assert(q@.0 * (d as int) == (n as int) * q@.1) by (nonlinear_arith)
                        requires
                            q@.0 * (-(d as int)) == (-(n as int)) * q@.1,
                    ;
                }
            }
            r
        }
    }

    /// Exact reciprocal of a nonzero value; succeeds for every
    /// representable numerator.
    pub fn invert(self) -> (r: Option<Rational>)
        requires
            self.wf(),
            !rat_is_zero(self@),
        ensures
            r matches Some(q) ==> q.wf() && rat_eq(q@, rat_inv(self@)),
            self@.0 > i64::MIN as int ==> r is Some,
    {
        let one = Rational::from_int(1);
        let r = one.div(self);
        proof {
            if r is Some {
                let q = r->0;
                assert(rat_eq(q@, rat_inv(self@))) by (nonlinear_arith)
                    requires
                        q@.0 * (1 * (self@.0)) == (1 * self@.1) * q@.1,
                ;
            }
        }
        r
    }
}

} // verus!
