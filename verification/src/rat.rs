//! Exact rational scalars.
//!
//! The kernel computes over exact fractions rather than machine reals: a
//! value is `num / den` with `den > 0`.  Every arithmetic step is checked,
//! so a result is either exact or an explicit overflow signal — there is no
//! silent rounding and no NaN/Inf-like state.

use vstd::prelude::*;

verus! {

/// Mathematical value of a scalar: a fraction over unbounded integers.
pub struct Q {
    pub n: int,
    pub d: int,
}

pub open spec fn q_wf(a: Q) -> bool {
    a.d > 0
}

pub open spec fn q_zero() -> Q {
    Q { n: 0, d: 1 }
}

pub open spec fn q_one() -> Q {
    Q { n: 1, d: 1 }
}

/// Equality of fractions by cross-multiplication.
pub open spec fn q_eq(a: Q, b: Q) -> bool {
    a.n * b.d == b.n * a.d
}

pub open spec fn q_add(a: Q, b: Q) -> Q {
    Q { n: a.n * b.d + b.n * a.d, d: a.d * b.d }
}

pub open spec fn q_neg(a: Q) -> Q {
    Q { n: -a.n, d: a.d }
}

pub open spec fn q_sub(a: Q, b: Q) -> Q {
    Q { n: a.n * b.d - b.n * a.d, d: a.d * b.d }
}

pub open spec fn q_mul(a: Q, b: Q) -> Q {
    Q { n: a.n * b.n, d: a.d * b.d }
}

/// Division, with the sign moved into the numerator so the result keeps a
/// positive denominator.
pub open spec fn q_div(a: Q, b: Q) -> Q {
    if b.n >= 0 {
        Q { n: a.n * b.d, d: a.d * b.n }
    } else {
        Q { n: -(a.n * b.d), d: -(a.d * b.n) }
    }
}

pub proof fn lemma_q_eq_trans(a: Q, b: Q, c: Q)
    by (nonlinear_arith)
    requires
        q_wf(a),
        q_wf(b),
        q_wf(c),
        q_eq(a, b),
        q_eq(b, c),
    ensures
        q_eq(a, c),
{
}

pub proof fn lemma_q_add_wf(a: Q, b: Q)
    by (nonlinear_arith)
    requires
        q_wf(a),
        q_wf(b),
    ensures
        q_wf(q_add(a, b)),
        q_wf(q_mul(a, b)),
        q_wf(q_sub(a, b)),
{
}

pub proof fn lemma_q_add_comm(a: Q, b: Q)
    by (nonlinear_arith)
    ensures
        q_add(a, b) == q_add(b, a),
{
}

#[verifier::rlimit(60)]
proof fn lemma_int_assoc_shuffle(p: int, q: int, r: int, s: int, t: int, u: int)
    by (nonlinear_arith)
    ensures
        (p * s + r * q) * u + t * (q * s) == p * (s * u) + (r * u + t * s) * q,
{
}

pub proof fn lemma_q_add_assoc(a: Q, b: Q, c: Q)
    ensures
        q_add(q_add(a, b), c) == q_add(a, q_add(b, c)),
{
    lemma_int_assoc_shuffle(a.n, a.d, b.n, b.d, c.n, c.d);
    assert((a.d * b.d) * c.d == a.d * (b.d * c.d)) by (nonlinear_arith);
}

#[verifier::rlimit(100)]
proof fn lemma_int_cross_shuffle(p: int, q: int, r: int, s: int, y: int, w: int)
    ensures
        (p * s + r * q) * (y * w) == (p * y) * (s * w) + (r * w) * (q * y),
{
    assert((p * s + r * q) * (y * w) == (p * s) * (y * w) + (r * q) * (y * w))
        by (nonlinear_arith);
    assert((p * s) * (y * w) == (p * y) * (s * w)) by (nonlinear_arith);
    assert((r * q) * (y * w) == (r * w) * (q * y)) by (nonlinear_arith);
}

/// Addition respects fraction equality.
pub proof fn lemma_q_add_congruence(a1: Q, a2: Q, b1: Q, b2: Q)
    requires
        q_wf(a1),
        q_wf(a2),
        q_wf(b1),
        q_wf(b2),
        q_eq(a1, a2),
        q_eq(b1, b2),
    ensures
        q_eq(q_add(a1, b1), q_add(a2, b2)),
{
    lemma_int_cross_shuffle(a1.n, a1.d, b1.n, b1.d, a2.d, b2.d);
    lemma_int_cross_shuffle(a2.n, a2.d, b2.n, b2.d, a1.d, b1.d);
    assert((a2.n * a1.d) * (b2.d * b1.d) == (a2.n * a1.d) * (b1.d * b2.d)) by (nonlinear_arith);
    assert((b2.n * b1.d) * (a2.d * a1.d) == (b2.n * b1.d) * (a1.d * a2.d)) by (nonlinear_arith);
    assert((a1.n * a2.d) * (b1.d * b2.d) == (a2.n * a1.d) * (b1.d * b2.d)) by (nonlinear_arith)
        requires
            a1.n * a2.d == a2.n * a1.d,
    ;
    assert((b1.n * b2.d) * (a1.d * a2.d) == (b2.n * b1.d) * (a1.d * a2.d)) by (nonlinear_arith)
        requires
            b1.n * b2.d == b2.n * b1.d,
    ;
}

/// Multiplication respects fraction equality.
pub proof fn lemma_q_mul_congruence(a1: Q, a2: Q, b1: Q, b2: Q)
    requires
        q_wf(a1),
        q_wf(a2),
        q_wf(b1),
        q_wf(b2),
        q_eq(a1, a2),
        q_eq(b1, b2),
    ensures
        q_eq(q_mul(a1, b1), q_mul(a2, b2)),
{
    assert((a1.n * b1.n) * (a2.d * b2.d) == (a1.n * a2.d) * (b1.n * b2.d)) by (nonlinear_arith);
    assert((a2.n * b2.n) * (a1.d * b1.d) == (a2.n * a1.d) * (b2.n * b1.d)) by (nonlinear_arith);
    assert((a1.n * a2.d) * (b1.n * b2.d) == (a2.n * a1.d) * (b2.n * b1.d)) by (nonlinear_arith)
        requires
            a1.n * a2.d == a2.n * a1.d,
            b1.n * b2.d == b2.n * b1.d,
    ;
}

pub proof fn lemma_q_add_zero(a: Q)
    requires
        q_wf(a),
    ensures
        q_add(a, q_zero()) == a,
        q_eq(q_add(q_zero(), a), a),
{
    assert(q_add(a, q_zero()) == a) by (nonlinear_arith);
    assert(q_eq(q_add(q_zero(), a), a)) by (nonlinear_arith);
}

pub proof fn lemma_q_div_wf(a: Q, b: Q)
    by (nonlinear_arith)
    requires
        q_wf(a),
        q_wf(b),
        b.n != 0,
    ensures
        q_wf(q_div(a, b)),
{
}

/// Multiplying a quotient back by its divisor recovers the dividend.
pub proof fn lemma_q_mul_div(a: Q, b: Q)
    requires
        q_wf(a),
        q_wf(b),
        b.n != 0,
    ensures
        q_eq(q_mul(b, q_div(a, b)), a),
{
    if b.n >= 0 {
        assert((b.n * (a.n * b.d)) * a.d == a.n * (b.d * (a.d * b.n))) by (nonlinear_arith);
    } else {
        assert((b.n * (-(a.n * b.d))) * a.d == a.n * (b.d * (-(a.d * b.n)))) by (nonlinear_arith);
    }
}

pub proof fn lemma_q_mul_zero(a: Q)
    by (nonlinear_arith)
    requires
        q_wf(a),
    ensures
        q_eq(q_mul(q_zero(), a), q_zero()),
        q_eq(q_mul(a, q_zero()), q_zero()),
{
}

/// Exact scalar held by the kernel: `num / den` with a positive denominator.
#[derive(Clone, Copy, Debug, PartialEq, Eq, Structural)]
pub struct Rat {
    pub num: i64,
    pub den: i64,
}

impl View for Rat {
    type V = Q;

    open spec fn view(&self) -> Q {
        Q { n: self.num as int, d: self.den as int }
    }
}

proof fn lemma_i64_mul_bound(a: int, b: int)
    by (nonlinear_arith)
    requires
        -0x8000_0000_0000_0000 <= a <= 0x7fff_ffff_ffff_ffff,
        -0x8000_0000_0000_0000 <= b <= 0x7fff_ffff_ffff_ffff,
    ensures
        -0x4000_0000_0000_0000_0000_0000_0000_0000 <= a * b
            <= 0x4000_0000_0000_0000_0000_0000_0000_0000,
{
}

proof fn lemma_num_den_mul_bound(a: int, b: int)
    by (nonlinear_arith)
    requires
        -0x8000_0000_0000_0000 <= a <= 0x7fff_ffff_ffff_ffff,
        1 <= b <= 0x7fff_ffff_ffff_ffff,
    ensures
        -0x3fff_ffff_ffff_ffff_8000_0000_0000_0000 <= a * b
            <= 0x3fff_ffff_ffff_ffff_8000_0000_0000_0000,
{
}

proof fn lemma_den_den_mul_bound(a: int, b: int)
    by (nonlinear_arith)
    requires
        1 <= a <= 0x7fff_ffff_ffff_ffff,
        1 <= b <= 0x7fff_ffff_ffff_ffff,
    ensures
        1 <= a * b <= 0x4000_0000_0000_0000_0000_0000_0000_0000,
{
}

/// Product of two word-sized factors, computed exactly in a double-wide word.
fn mul_wide(a: i64, b: i64) -> (r: i128)
    ensures
        r as int == (a as int) * (b as int),
{
    proof {
        lemma_i64_mul_bound(a as int, b as int);
    }
    (a as i128) * (b as i128)
}

/// Narrowing back to the word size; `None` reports the overflow.
fn narrow(x: i128) -> (r: Option<i64>)
    ensures
        r is Some <==> -0x8000_0000_0000_0000 <= x as int <= 0x7fff_ffff_ffff_ffff,
        r matches Some(v) ==> v as int == x as int,
{
    if -0x8000_0000_0000_0000i128 <= x && x <= 0x7fff_ffff_ffff_ffffi128 {
        Some(x as i64)
    } else {
        None
    }
}

/// Euclid's algorithm.  No contract: `reduced` validates the divisions it
/// performs with this result.
fn gcd64(x0: u64, y0: u64) -> u64 {
    let mut x = x0;
    let mut y = y0;
    while y != 0
        invariant
            true,
        decreases y,
    {
        let t = x % y;
        x = y;
        y = t;
    }
    x
}

/// Whether a mathematical fraction fits the word-sized representation.
pub open spec fn q_fits(q: Q) -> bool {
    &&& -0x8000_0000_0000_0000 <= q.n <= 0x7fff_ffff_ffff_ffff
    &&& 1 <= q.d <= 0x7fff_ffff_ffff_ffff
}

impl Rat {
    pub open spec fn wf(self) -> bool {
        self.den > 0
    }

    /// Builds `num / den`; the caller supplies a positive denominator.
    pub fn new(num: i64, den: i64) -> (r: Rat)
        requires
            den > 0,
        ensures
            r.wf(),
            r@ == (Q { n: num as int, d: den as int }),
    {
        Rat { num, den }
    }

    pub fn from_int(n: i64) -> (r: Rat)
        ensures
            r.wf(),
            r@ == (Q { n: n as int, d: 1 }),
    {
        Rat { num: n, den: 1 }
    }

    pub fn zero() -> (r: Rat)
        ensures
            r.wf(),
            r@ == q_zero(),
    {
        Rat { num: 0, den: 1 }
    }

    pub fn one() -> (r: Rat)
        ensures
            r.wf(),
            r@ == q_one(),
    {
        Rat { num: 1, den: 1 }
    }

    pub fn num(self) -> (r: i64)
        ensures
            r as int == self@.n,
    {
        self.num
    }

    pub fn den(self) -> (r: i64)
        ensures
            r as int == self@.d,
    {
        self.den
    }

    pub fn is_zero(self) -> (r: bool)
        requires
            self.wf(),
        ensures
            r <==> q_eq(self@, q_zero()),
    {
        self.num == 0
    }

    /// Exact comparison by cross-multiplication.
    pub fn eq_rat(self, other: Rat) -> (r: bool)
        requires
            self.wf(),
            other.wf(),
        ensures
            r <==> q_eq(self@, other@),
    {
        mul_wide(self.num, other.den) == mul_wide(other.num, self.den)
    }

    /// A smaller representation of the same value: both components divided
    /// by their greatest common divisor.  The divisions are re-checked by
    /// multiplication, so nothing is trusted about the gcd computation.
    pub fn reduced(self) -> (r: Rat)
        requires
            self.wf(),
        ensures
            r.wf(),
            q_eq(r@, self@),
    {
        if self.num == -0x8000_0000_0000_0000i64 {
            return self;
        }
        let ua: u64 = if self.num < 0 {
            (-self.num) as u64
        } else {
            self.num as u64
        };
        let g = gcd64(ua, self.den as u64);
        if g == 0 || g > 0x7fff_ffff_ffff_ffffu64 {
            return self;
        }
        let gi = g as i64;
        let num2 = self.num / gi;
        let den2 = self.den / gi;
        if den2 > 0 && mul_wide(num2, gi) == self.num as i128 && mul_wide(den2, gi)
            == self.den as i128 {
            let r = Rat { num: num2, den: den2 };
            proof {
                assert(r@.n * self@.d == self@.n * r@.d) by (nonlinear_arith)
                    requires
                        r@.n * (gi as int) == self@.n,
                        r@.d * (gi as int) == self@.d,
                ;
            }
            r
        } else {
            self
        }
    }

    /// Exact sum; `None` exactly when the unreduced result leaves the word range.
    pub fn checked_add(self, other: Rat) -> (r: Option<Rat>)
        requires
            self.wf(),
            other.wf(),
        ensures
            r is Some <==> q_fits(q_add(self@, other@)),
            r matches Some(s) ==> s.wf() && s@ == q_add(self@, other@),
    {
        proof {
            lemma_num_den_mul_bound(self@.n, other@.d);
            lemma_num_den_mul_bound(other@.n, self@.d);
            lemma_den_den_mul_bound(self@.d, other@.d);
        }
        let n = mul_wide(self.num, other.den) + mul_wide(other.num, self.den);
        let d = mul_wide(self.den, other.den);
        match (narrow(n), narrow(d)) {
            (Some(num), Some(den)) => Some(Rat { num, den }),
            _ => None,
        }
    }

    /// Exact difference; `None` exactly when the result leaves the word range.
    pub fn checked_sub(self, other: Rat) -> (r: Option<Rat>)
        requires
            self.wf(),
            other.wf(),
        ensures
            r is Some <==> q_fits(q_sub(self@, other@)),
            r matches Some(s) ==> s.wf() && s@ == q_sub(self@, other@),
    {
        proof {
            lemma_num_den_mul_bound(self@.n, other@.d);
            lemma_num_den_mul_bound(other@.n, self@.d);
            lemma_den_den_mul_bound(self@.d, other@.d);
        }
        let n = mul_wide(self.num, other.den) - mul_wide(other.num, self.den);
        let d = mul_wide(self.den, other.den);
        match (narrow(n), narrow(d)) {
            (Some(num), Some(den)) => Some(Rat { num, den }),
            _ => None,
        }
    }

    /// Exact product; `None` exactly when the result leaves the word range.
    pub fn checked_mul(self, other: Rat) -> (r: Option<Rat>)
        requires
            self.wf(),
            other.wf(),
        ensures
            r is Some <==> q_fits(q_mul(self@, other@)),
            r matches Some(s) ==> s.wf() && s@ == q_mul(self@, other@),
    {
        proof {
            lemma_den_den_mul_bound(self@.d, other@.d);
        }
        let n = mul_wide(self.num, other.num);
        let d = mul_wide(self.den, other.den);
        match (narrow(n), narrow(d)) {
            (Some(num), Some(den)) => Some(Rat { num, den }),
            _ => None,
        }
    }

    /// Exact quotient by a nonzero divisor; `None` exactly when the result
    /// leaves the word range.
    pub fn checked_div(self, other: Rat) -> (r: Option<Rat>)
        requires
            self.wf(),
            other.wf(),
            other@.n != 0,
        ensures
            r is Some <==> q_fits(q_div(self@, other@)),
            r matches Some(s) ==> s.wf() && s@ == q_div(self@, other@),
    {
        proof {
            lemma_num_den_mul_bound(self@.n, other@.d);
            lemma_num_den_mul_bound(self@.d, other@.d);
            assert((self@.d) * (other@.n) != 0 && (self@.d) * (other@.n)
                >= -0x3fff_ffff_ffff_ffff_8000_0000_0000_0000 && (self@.d) * (other@.n)
                <= 0x3fff_ffff_ffff_ffff_8000_0000_0000_0000) by (nonlinear_arith)
                requires
                    1 <= self@.d <= 0x7fff_ffff_ffff_ffff,
                    -0x8000_0000_0000_0000 <= other@.n <= 0x7fff_ffff_ffff_ffff,
                    other@.n != 0;
        }
        let ghost qd = q_div(self@, other@);
        let mut n = mul_wide(self.num, other.den);
        let mut d = mul_wide(self.den, other.num);
        proof {
            assert(other@.n > 0 ==> (self@.d) * (other@.n) > 0) by (nonlinear_arith)
                requires
                    self@.d > 0,
            ;
            assert(other@.n < 0 ==> (self@.d) * (other@.n) < 0) by (nonlinear_arith)
                requires
                    self@.d > 0,
            ;
        }
        if d < 0 {
            n = -n;
            d = -d;
        }
        assert(n as int == qd.n && d as int == qd.d && d > 0);
        match (narrow(n), narrow(d)) {
            (Some(num), Some(den)) => Some(Rat { num, den }),
            _ => None,
        }
    }
}

} // verus!
