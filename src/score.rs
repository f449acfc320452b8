//! Exact relevance scores: non-negative rationals compared without overflow.

use vstd::prelude::*;

verus! {

/// The rational `num / den`.
#[derive(Clone, Copy, Debug)]
pub struct Score {
    pub num: u128,
    pub den: u128,
}

/// `a / b <= c / d` for positive `b` and `d`.
pub open spec fn frac_le(a: int, b: int, c: int, d: int) -> bool {
    a * d <= c * b
}

proof fn lemma_quotients(a: int, b: int, c: int, d: int, q1: int, r1: int, q2: int, r2: int)
    requires
        b > 0,
        d > 0,
        a == q1 * b + r1,
        c == q2 * d + r2,
        0 <= r1 < b,
        0 <= r2 < d,
        q1 >= 0,
        q2 >= 0,
    ensures
        q1 < q2 ==> a * d < c * b,
        q2 < q1 ==> c * b < a * d,
        q1 == q2 ==> (a * d <= c * b <==> r1 * d <= r2 * b),
{
    if q1 < q2 {
        assert(a * d < (q1 + 1) * b * d) by (nonlinear_arith)
            requires
                a == q1 * b + r1,
                r1 < b,
                d > 0,
        ;
        assert((q1 + 1) * b * d <= q2 * d * b) by (nonlinear_arith)
            requires
                q1 + 1 <= q2,
                b > 0,
                d > 0,
        ;
        assert(q2 * d * b <= c * b) by (nonlinear_arith)
            requires
                c == q2 * d + r2,
                r2 >= 0,
                b > 0,
        ;
    }
    if q2 < q1 {
        assert(c * b < (q2 + 1) * d * b) by (nonlinear_arith)
            requires
                c == q2 * d + r2,
                r2 < d,
                b > 0,
        ;
        assert((q2 + 1) * d * b <= q1 * b * d) by (nonlinear_arith)
            requires
                q2 + 1 <= q1,
                b > 0,
                d > 0,
        ;
        assert(q1 * b * d <= a * d) by (nonlinear_arith)
            requires
                a == q1 * b + r1,
                r1 >= 0,
                d > 0,
        ;
    }
    if q1 == q2 {
        assert(a * d == q1 * b * d + r1 * d) by (nonlinear_arith)
            requires
                a == q1 * b + r1,
        ;
        assert(c * b == q1 * d * b + r2 * b) by (nonlinear_arith)
            requires
                c == q2 * d + r2,
                q1 == q2,
        ;
        assert(q1 * b * d == q1 * d * b) by (nonlinear_arith);
    }
}

/// Decides `a / b <= c / d` by comparing integer parts and, where they agree,
/// the reciprocals of the remainders; no product is ever formed.
pub fn fraction_le(a: u128, b: u128, c: u128, d: u128) -> (r: bool)
    requires
        b > 0,
        d > 0,
    ensures
        r == frac_le(a as int, b as int, c as int, d as int),
    decreases b + d,
{
    let q1 = a / b;
    let q2 = c / d;
    let r1 = a % b;
    let r2 = c % d;
    proof {
        vstd::arithmetic::div_mod::lemma_fundamental_div_mod(a as int, b as int);
        vstd::arithmetic::div_mod::lemma_fundamental_div_mod(c as int, d as int);
        assert(a as int == b * q1 + r1);
        assert(c as int == d * q2 + r2);
        assert(b * q1 == q1 * b) by (nonlinear_arith);
        assert(d * q2 == q2 * d) by (nonlinear_arith);
        lemma_quotients(a as int, b as int, c as int, d as int, q1 as int, r1 as int, q2 as int, r2 as int);
    }
    if q1 != q2 {
        return q1 < q2;
    }
    if r1 == 0 {
        proof {
            assert(0 <= r2 * b) by (nonlinear_arith)
                requires
                    r2 >= 0,
                    b > 0,
            ;
            assert(r1 * d == 0) by (nonlinear_arith)
                requires
                    r1 == 0,
            ;
        }
        return true;
    }
    if r2 == 0 {
        proof {
            assert(r1 * d > 0) by (nonlinear_arith)
                requires
                    r1 > 0,
                    d > 0,
            ;
            assert(r2 * b == 0) by (nonlinear_arith)
                requires
                    r2 == 0,
            ;
        }
        return false;
    }
    let rec = fraction_le(d, r2, b, r1);
    proof {
        assert(d * r1 == r1 * d) by (nonlinear_arith);
        assert(b * r2 == r2 * b) by (nonlinear_arith);
    }
    rec
}

impl Score {
    pub open spec fn wf(self) -> bool {
        self.den > 0
    }

    /// `self <= other` as rationals.
    pub open spec fn le_spec(self, other: Score) -> bool {
        frac_le(self.num as int, self.den as int, other.num as int, other.den as int)
    }

    /// `self < other` as rationals.
    pub open spec fn lt_spec(self, other: Score) -> bool {
        !other.le_spec(self)
    }

    /// `self == other` as rationals.
    pub open spec fn same_value(self, other: Score) -> bool {
        self.num * other.den == other.num * self.den
    }

    pub fn new(num: u128, den: u128) -> (r: Score)
        requires
            den > 0,
        ensures
            r.num == num,
            r.den == den,
            r.wf(),
    {
        Score { num, den }
    }

    pub fn le(&self, other: &Score) -> (r: bool)
        requires
            self.wf(),
            other.wf(),
        ensures
            r == self.le_spec(*other),
    {
        fraction_le(self.num, self.den, other.num, other.den)
    }

    pub fn lt(&self, other: &Score) -> (r: bool)
        requires
            self.wf(),
            other.wf(),
        ensures
            r == self.lt_spec(*other),
    {
        !fraction_le(other.num, other.den, self.num, self.den)
    }
}

/// The order on rationals is total.
pub proof fn lemma_le_total(x: Score, y: Score)
    ensures
        x.le_spec(y) || y.le_spec(x),
{
    assert(x.num * y.den <= y.num * x.den || y.num * x.den <= x.num * y.den);
}

/// The order on rationals is transitive.
pub proof fn lemma_le_trans(x: Score, y: Score, z: Score)
    requires
        x.wf(),
        y.wf(),
        z.wf(),
        x.le_spec(y),
        y.le_spec(z),
    ensures
        x.le_spec(z),
{
    let (a, b, c, d, e, f) = (
        x.num as int,
        x.den as int,
        y.num as int,
        y.den as int,
        z.num as int,
        z.den as int,
    );
    assert(a * f <= e * b) by (nonlinear_arith)
        requires
            a * d <= c * b,
            c * f <= e * d,
            b > 0,
            d > 0,
            f > 0,
            a >= 0,
            c >= 0,
            e >= 0,
    {
        assert(a * d * f <= c * b * f) by (nonlinear_arith)
            requires
                a * d <= c * b,
                f > 0,
        ;
        assert(c * f * b <= e * d * b) by (nonlinear_arith)
            requires
                c * f <= e * d,
                b > 0,
        ;
        assert(c * b * f == c * f * b) by (nonlinear_arith);
        assert(a * f * d <= e * b * d) by (nonlinear_arith)
            requires
                a * d * f <= e * d * b,
        ;
        assert(a * f <= e * b) by (nonlinear_arith)
            requires
                a * f * d <= e * b * d,
                d > 0,
        ;
    }
}

} // verus!
