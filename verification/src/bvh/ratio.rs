//! Exact ratios of two integers, with the infinite ones.
//!
//! A ratio with the denominator zero is infinite and has the sign of its
//! numerator; with both zero it is zero.

use vstd::prelude::*;

verus! {

/// The ratio of `num` to `den`.
#[derive(Debug, Clone, Copy, PartialEq, Eq, Structural)]
pub struct Ratio {
    pub num: i64,
    pub den: i64,
}

impl Ratio {
    /// The numerator, once the denominator is made not negative.
    pub open spec fn top(self) -> int {
        if self.den < 0 {
            -self.num
        } else {
            self.num as int
        }
    }

    /// The denominator made not negative, and 1 for the ratio of zero to
    /// zero.
    pub open spec fn bottom(self) -> int {
        if self.den < 0 {
            -self.den
        } else if self.den == 0 && self.num == 0 {
            1
        } else {
            self.den as int
        }
    }

    /// Whether this ratio is less than `other`.
    pub open spec fn spec_less(self, other: Ratio) -> bool {
        if self.bottom() == 0 && other.bottom() == 0 {
            self.top() < 0 && other.top() > 0
        } else {
            self.top() * other.bottom() < other.top() * self.bottom()
        }
    }

    /// Whether this ratio is no larger than `other`.
    pub open spec fn spec_at_most(self, other: Ratio) -> bool {
        !other.spec_less(self)
    }

    /// Where the ratio stands among the finite ones: 0 below them all, 2
    /// above them all, 1 among them.
    pub open spec fn class(self) -> int {
        if self.bottom() != 0 {
            1
        } else if self.top() > 0 {
            2
        } else {
            0
        }
    }

    /// The larger of this ratio and `other`; this one where they are equal.
    pub open spec fn spec_larger(self, other: Ratio) -> Ratio {
        if self.spec_less(other) {
            other
        } else {
            self
        }
    }

    /// The ratio zero.
    pub open spec fn spec_zero() -> Ratio {
        Ratio { num: 0, den: 1 }
    }

    /// The ratio that is larger than every finite one.
    pub open spec fn spec_infinite() -> Ratio {
        Ratio { num: 1, den: 0 }
    }

    /// The integer part of `by` times this ratio, rounded down; zero for
    /// an infinite ratio.
    pub open spec fn spec_scale(self, by: i64) -> int {
        if self.bottom() == 0 {
            0
        } else {
            (by * self.top()) / self.bottom()
        }
    }

    /// Makes the ratio of `num` to `den`.
    pub fn new(num: i64, den: i64) -> (r: Ratio)
        ensures
            r.num == num,
            r.den == den,
    {
        Ratio { num, den }
    }

    /// Returns the ratio zero.
    pub fn zero() -> (r: Ratio)
        ensures
            r == Ratio::spec_zero(),
    {
        Ratio { num: 0, den: 1 }
    }

    /// Returns the ratio that is larger than every finite one.
    pub fn infinite() -> (r: Ratio)
        ensures
            r == Ratio::spec_infinite(),
    {
        Ratio { num: 1, den: 0 }
    }

    /// Numerator and denominator with the denominator made not negative.
    fn parts(&self) -> (r: (i128, i128))
        ensures
            r.0 == self.top(),
            r.1 == self.bottom(),
    {
        let num: i128 = self.num as i128;
        let den: i128 = self.den as i128;
        if den < 0 {
            (-num, -den)
        } else if den == 0 && num == 0 {
            (0, 1)
        } else {
            (num, den)
        }
    }

    /// Tests whether this ratio is less than `other`.
    pub fn less(&self, other: &Ratio) -> (r: bool)
        ensures
            r == self.spec_less(*other),
    {
        let (a, b) = self.parts();
        let (c, d) = other.parts();
        if b == 0 && d == 0 {
            a < 0 && c > 0
        } else {
            proof {
                lemma_product_fits(a as int, d as int);
                lemma_product_fits(c as int, b as int);
            }
            a * d < c * b
        }
    }

    /// Returns the larger of this ratio and `other`.
    pub fn larger(self, other: Ratio) -> (r: Ratio)
        ensures
            r == self.spec_larger(other),
    {
        if self.less(&other) {
            other
        } else {
            self
        }
    }

    /// Multiplies `by` with this ratio and rounds down. The result has to
    /// fit the scalar.
    pub fn scale(&self, by: i64) -> (r: i64)
        requires
            i64::MIN <= self.spec_scale(by) <= i64::MAX,
        ensures
            r == self.spec_scale(by),
    {
        let (top, bottom) = self.parts();
        if bottom == 0 {
            return 0;
        }
        proof {
            lemma_product_fits(by as int, top as int);
        }
        let product: i128 = (by as i128) * top;
        if product >= 0 {
            let q: u128 = (product as u128) / (bottom as u128);
            q as i64
        } else {
            // rounding down a negative quotient
            let positive: u128 = (-product) as u128;
            let divisor: u128 = bottom as u128;
            let q: u128 = (positive + (divisor - 1)) / divisor;
            proof {
                lemma_floor_negative(product as int, bottom as int, q as int);
            }
            (-(q as i128)) as i64
        }
    }
}

/// With positive denominators, the order by cross products is that of
/// the quotients.
pub proof fn lemma_cross_order(at: int, ab: int, bt: int, bb: int, ct: int, cb: int)
    requires
        ab > 0,
        bb > 0,
        cb > 0,
    ensures
        at * bb <= bt * ab && bt * cb <= ct * bb ==> at * cb <= ct * ab,
        at * bb < bt * ab && bt * cb <= ct * bb ==> at * cb < ct * ab,
        at * bb <= bt * ab && bt * cb < ct * bb ==> at * cb < ct * ab,
{
    let x = (at * cb) * bb;
    let y = (bt * ab) * cb;
    let z = (ct * ab) * bb;
    assert(x == (at * bb) * cb) by (nonlinear_arith)
        requires
            x == (at * cb) * bb,
    ;
    assert(z == (ct * bb) * ab) by (nonlinear_arith)
        requires
            z == (ct * ab) * bb,
    ;
    assert(y == (bt * cb) * ab) by (nonlinear_arith)
        requires
            y == (bt * ab) * cb,
    ;
    if at * bb <= bt * ab && bt * cb <= ct * bb {
        assert((at * bb) * cb <= (bt * ab) * cb) by (nonlinear_arith)
            requires
                at * bb <= bt * ab,
                cb > 0,
        ;
        assert((bt * cb) * ab <= (ct * bb) * ab) by (nonlinear_arith)
            requires
                bt * cb <= ct * bb,
                ab > 0,
        ;
        assert(x <= z);
        assert(at * cb <= ct * ab) by (nonlinear_arith)
            requires
                (at * cb) * bb <= (ct * ab) * bb,
                bb > 0,
        ;
    }
    if at * bb < bt * ab && bt * cb <= ct * bb {
        assert((at * bb) * cb < (bt * ab) * cb) by (nonlinear_arith)
            requires
                at * bb < bt * ab,
                cb > 0,
        ;
        assert((bt * cb) * ab <= (ct * bb) * ab) by (nonlinear_arith)
            requires
                bt * cb <= ct * bb,
                ab > 0,
        ;
        assert(x < z);
        assert(at * cb < ct * ab) by (nonlinear_arith)
            requires
                (at * cb) * bb < (ct * ab) * bb,
                bb > 0,
        ;
    }
    if at * bb <= bt * ab && bt * cb < ct * bb {
        assert((at * bb) * cb <= (bt * ab) * cb) by (nonlinear_arith)
            requires
                at * bb <= bt * ab,
                cb > 0,
        ;
        assert((bt * cb) * ab < (ct * bb) * ab) by (nonlinear_arith)
            requires
                bt * cb < ct * bb,
                ab > 0,
        ;
        assert(x < z);
        assert(at * cb < ct * ab) by (nonlinear_arith)
            requires
                (at * cb) * bb < (ct * ab) * bb,
                bb > 0,
        ;
    }
}

/// One ratio is less than another where it stands lower among the finite
/// ones, or where both are finite and the cross products say so.
pub proof fn lemma_less_form(a: Ratio, b: Ratio)
    ensures
        a.spec_less(b) == (a.class() < b.class() || (a.class() == 1 && b.class() == 1 && a.top()
            * b.bottom() < b.top() * a.bottom())),
        a.bottom() >= 0,
        b.bottom() >= 0,
{
    let at = a.top();
    let ab = a.bottom();
    let bt = b.top();
    let bb = b.bottom();
    if ab == 0 && bb == 0 {
    } else if ab == 0 {
        assert(at != 0);
        assert(at * bb < bt * ab <==> at < 0) by (nonlinear_arith)
            requires
                ab == 0,
                bb > 0,
        ;
    } else if bb == 0 {
        assert(bt != 0);
        assert(at * bb < bt * ab <==> bt > 0) by (nonlinear_arith)
            requires
                bb == 0,
                ab > 0,
        ;
    }
}

/// The ratios are in a total order: no two are each less than the other,
/// and what is no larger than a ratio is no larger than what that ratio
/// is no larger than.
pub proof fn lemma_ratio_order(a: Ratio, b: Ratio, c: Ratio)
    ensures
        !(a.spec_less(b) && b.spec_less(a)),
        a.spec_at_most(b) && b.spec_at_most(c) ==> a.spec_at_most(c),
        a.spec_less(b) && b.spec_at_most(c) ==> a.spec_less(c),
        a.spec_at_most(b) && b.spec_less(c) ==> a.spec_less(c),
{
    lemma_less_form(a, b);
    lemma_less_form(b, a);
    lemma_less_form(b, c);
    lemma_less_form(c, b);
    lemma_less_form(a, c);
    lemma_less_form(c, a);
    if a.class() == 1 && b.class() == 1 && c.class() == 1 {
        lemma_cross_order(a.top(), a.bottom(), b.top(), b.bottom(), c.top(), c.bottom());
    }
}

/// The larger of two ratios is one of them, and neither is larger.
pub proof fn lemma_larger(a: Ratio, b: Ratio)
    ensures
        a.spec_larger(b) == a || a.spec_larger(b) == b,
        a.spec_at_most(a.spec_larger(b)),
        b.spec_at_most(a.spec_larger(b)),
{
    lemma_ratio_order(a, b, a);
    lemma_less_form(a, a);
    lemma_less_form(b, b);
}

/// The product of two scalars, or of their negations, fits 128 bits.
pub proof fn lemma_product_fits(a: int, b: int)
    requires
        -0x8000_0000_0000_0000 <= a <= 0x8000_0000_0000_0000,
        -0x8000_0000_0000_0000 <= b <= 0x8000_0000_0000_0000,
    ensures
        -0x4000_0000_0000_0000_0000_0000_0000_0000 <= a * b
            <= 0x4000_0000_0000_0000_0000_0000_0000_0000,
{
    assert(-0x4000_0000_0000_0000_0000_0000_0000_0000 <= a * b
        <= 0x4000_0000_0000_0000_0000_0000_0000_0000) by (nonlinear_arith)
        requires
            -0x8000_0000_0000_0000 <= a <= 0x8000_0000_0000_0000,
            -0x8000_0000_0000_0000 <= b <= 0x8000_0000_0000_0000,
    ;
}

/// Rounding a negative quotient down: the negated quotient of the negated
/// dividend, rounded up.
pub proof fn lemma_floor_negative(p: int, d: int, q: int)
    requires
        p < 0,
        d > 0,
        q == (-p + (d - 1)) / d,
    ensures
        p / d == -q,
{
    let m = -p;
    assert(q * d <= m + d - 1 < q * d + d) by (nonlinear_arith)
        requires
            q == (m + (d - 1)) / d,
            d > 0,
    ;
    // -q * d <= p < -q * d + d
    assert(p == (-q) * d + (q * d - m)) by (nonlinear_arith)
        requires
            m == -p,
    ;
    vstd::arithmetic::div_mod::lemma_fundamental_div_mod_converse(p, d, -q, q * d - m);
}

} // verus!
