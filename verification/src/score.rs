//! Scores: exact fractions, together with the two infinities that stand
//! for a game that is won or lost for certain.

use vstd::prelude::*;
use vstd::arithmetic::div_mod::{lemma_fundamental_div_mod, lemma_mod_multiples_basic};

verus! {

/// The product of the numbers from 1 to `n`. Every number from 1 to `n`
/// divides it.
pub open spec fn span(n: nat) -> nat
    decreases n,
{
    if n == 0 {
        1
    } else {
        n * span((n - 1) as nat)
    }
}

/// A common multiple of every denominator that a score can have.
pub open spec fn scale() -> int {
    span(0xffff_ffff) as int
}

/// The place of the fraction `num / den` in the order of all scores: the
/// fraction brought to the denominator [`scale`]. Of two fractions the
/// smaller one has the smaller rank.
pub open spec fn ratio_rank(num: int, den: int) -> int {
    num * (scale() / den)
}

/// The rank of plus infinity, above the rank of every fraction.
pub open spec fn top_rank() -> int {
    0x8000_0000_0000_0000 * scale() + 1
}

/// Every number from 1 to `n` divides `span(n)`, which is positive.
pub proof fn lemma_span(d: int, n: nat)
    requires
        1 <= d <= n,
    ensures
        span(n) > 0,
        span(n) as int % d == 0,
        span(n) as int / d >= 1,
        d * (span(n) as int / d) == span(n),
    decreases n,
{
    let rest = span((n - 1) as nat) as int;
    assert(rest > 0) by {
        lemma_span_positive((n - 1) as nat);
    }
    assert(span(n) == n * rest);
    assert(n * rest > 0) by (nonlinear_arith)
        requires
            n >= 1,
            rest > 0,
    ;
    if d == n {
        lemma_mod_multiples_basic(rest, d);
        assert(rest * d == d * rest) by (nonlinear_arith);
    } else {
        lemma_span(d, (n - 1) as nat);
        let q = rest / d;
        assert(n * rest == (n * q) * d) by (nonlinear_arith)
            requires
                d * q == rest,
        ;
        lemma_mod_multiples_basic(n * q, d);
    }
    lemma_fundamental_div_mod(span(n) as int, d);
    let whole = span(n) as int;
    assert(whole / d >= 1) by (nonlinear_arith)
        requires
            whole == d * (whole / d),
            whole > 0,
            d >= 1,
    ;
}

/// `span(n)` is positive.
pub proof fn lemma_span_positive(n: nat)
    ensures
        span(n) > 0,
    decreases n,
{
    if n > 0 {
        lemma_span_positive((n - 1) as nat);
        let rest = span((n - 1) as nat) as int;
        assert(n * rest > 0) by (nonlinear_arith)
            requires
                n >= 1,
                rest > 0,
        ;
    }
}

/// Ranks order fractions as cross-multiplication does:
/// `x / da <= y / db` exactly when `x * db <= y * da`.
pub proof fn lemma_rank_order(x: int, da: int, y: int, db: int)
    requires
        1 <= da <= 0xffff_ffff,
        1 <= db <= 0xffff_ffff,
    ensures
        (ratio_rank(x, da) <= ratio_rank(y, db)) == (x * db <= y * da),
        (ratio_rank(x, da) < ratio_rank(y, db)) == (x * db < y * da),
{
    lemma_span(da, 0xffff_ffff);
    lemma_span(db, 0xffff_ffff);
    let s = scale();
    let qa = s / da;
    let qb = s / db;
    assert((x * qa <= y * qb) == (x * db <= y * da) && (x * qa < y * qb) == (x * db < y * da)) by {
        lemma_cross(x, da, qa, y, db, qb, s);
    }
}

/// The arithmetic behind [`lemma_rank_order`].
proof fn lemma_cross(x: int, da: int, qa: int, y: int, db: int, qb: int, s: int)
    requires
        da >= 1,
        db >= 1,
        qa >= 1,
        qb >= 1,
        da * qa == s,
        db * qb == s,
    ensures
        (x * qa <= y * qb) == (x * db <= y * da),
        (x * qa < y * qb) == (x * db < y * da),
{
    // Both sides compare x * s * db with y * s * da after scaling.
    let l = x * db;
    let r = y * da;
    assert((x * qa) * (da * db) == l * s) by (nonlinear_arith)
        requires
            da * qa == s,
            l == x * db,
    ;
    assert((y * qb) * (da * db) == r * s) by (nonlinear_arith)
        requires
            db * qb == s,
            r == y * da,
    ;
    let k = da * db;
    assert(k >= 1) by (nonlinear_arith)
        requires
            da >= 1,
            db >= 1,
            k == da * db,
    ;
    assert(s >= 1) by (nonlinear_arith)
        requires
            da >= 1,
            qa >= 1,
            da * qa == s,
    ;
    let u = x * qa;
    let v = y * qb;
    assert((u <= v) == (u * k <= v * k) && (u < v) == (u * k < v * k)) by (nonlinear_arith)
        requires
            k >= 1,
    ;
    assert((l <= r) == (l * s <= r * s) && (l < r) == (l * s < r * s)) by (nonlinear_arith)
        requires
            s >= 1,
    ;
}

/// The rank of every fraction lies strictly between the ranks of the two
/// infinities.
pub proof fn lemma_rank_bounded(num: int, den: int)
    requires
        -0x8000_0000_0000_0000 <= num < 0x8000_0000_0000_0000,
        1 <= den <= 0xffff_ffff,
    ensures
        -top_rank() < ratio_rank(num, den) < top_rank(),
{
    lemma_span(den, 0xffff_ffff);
    let s = scale();
    let q = s / den;
    assert(q <= s) by (nonlinear_arith)
        requires
            den * q == s,
            den >= 1,
            q >= 1,
    ;
    assert(-0x8000_0000_0000_0000 * s <= num * q <= 0x8000_0000_0000_0000 * s)
        by (nonlinear_arith)
        requires
            1 <= q <= s,
            -0x8000_0000_0000_0000 <= num < 0x8000_0000_0000_0000,
    ;
}

/// A score: plus infinity, minus infinity, or the fraction of a numerator
/// and a positive denominator.
#[derive(Clone, Copy, Debug)]
pub struct Score {
    side: i8,
    num: i64,
    den: u32,
}

impl Score {
    /// The score is plus infinity.
    pub closed spec fn spec_is_infinity(&self) -> bool {
        self.side > 0
    }

    /// The score is minus infinity.
    pub closed spec fn spec_is_neg_infinity(&self) -> bool {
        self.side < 0
    }

    /// The numerator of a fraction; 0 for an infinity.
    pub closed spec fn spec_numerator(&self) -> i64 {
        self.num
    }

    /// The denominator of a fraction; 1 for an infinity.
    pub closed spec fn spec_denominator(&self) -> u32 {
        self.den
    }

    /// The score is a fraction.
    pub open spec fn spec_is_finite(&self) -> bool {
        !self.spec_is_infinity() && !self.spec_is_neg_infinity()
    }

    /// Every score is well formed: its denominator is positive, and an
    /// infinity is written in one way only.
    #[verifier::type_invariant]
    pub closed spec fn wf(&self) -> bool {
        &&& self.den >= 1
        &&& -1 <= self.side <= 1
        &&& self.side != 0 ==> self.num == 0 && self.den == 1
    }

    /// The place of the score in the order of all scores.
    pub open spec fn rank(&self) -> int {
        if self.spec_is_infinity() {
            top_rank()
        } else if self.spec_is_neg_infinity() {
            -top_rank()
        } else {
            ratio_rank(self.spec_numerator() as int, self.spec_denominator() as int)
        }
    }

    /// What being well formed says in the terms that contracts use.
    pub proof fn lemma_wf(&self)
        requires
            self.wf(),
        ensures
            self.spec_denominator() >= 1,
            !(self.spec_is_infinity() && self.spec_is_neg_infinity()),
            !self.spec_is_finite() ==> self.spec_numerator() == 0 && self.spec_denominator() == 1,
            self.spec_is_finite() ==> -top_rank() < self.rank() < top_rank(),
    {
        if self.spec_is_finite() {
            lemma_rank_bounded(self.num as int, self.den as int);
        }
    }

    /// Plus infinity.
    pub fn infinity() -> (s: Score)
        ensures
            s.spec_is_infinity(),
            s.rank() == top_rank(),
    {
        Score { side: 1, num: 0, den: 1 }
    }

    /// Minus infinity.
    pub fn neg_infinity() -> (s: Score)
        ensures
            s.spec_is_neg_infinity(),
            s.rank() == -top_rank(),
    {
        Score { side: -1, num: 0, den: 1 }
    }

    /// The fraction `num / den`.
    pub fn ratio(num: i64, den: u32) -> (s: Score)
        requires
            den >= 1,
        ensures
            s.spec_is_finite(),
            s.spec_numerator() == num,
            s.spec_denominator() == den,
    {
        Score { side: 0, num, den }
    }

    /// The whole number `n`.
    pub fn whole(n: i64) -> (s: Score)
        ensures
            s.spec_is_finite(),
            s.spec_numerator() == n,
            s.spec_denominator() == 1,
    {
        Score { side: 0, num: n, den: 1 }
    }

    /// Whether the score is plus infinity.
    #[verifier::when_used_as_spec(spec_is_infinity)]
    pub fn is_infinity(&self) -> (b: bool)
        ensures
            b == self.spec_is_infinity(),
    {
        self.side > 0
    }

    /// Whether the score is minus infinity.
    #[verifier::when_used_as_spec(spec_is_neg_infinity)]
    pub fn is_neg_infinity(&self) -> (b: bool)
        ensures
            b == self.spec_is_neg_infinity(),
    {
        self.side < 0
    }

    /// Whether the score is a fraction.
    #[verifier::when_used_as_spec(spec_is_finite)]
    pub fn is_finite(&self) -> (b: bool)
        ensures
            b == self.spec_is_finite(),
    {
        self.side == 0
    }

    /// The numerator of a fraction; 0 for an infinity.
    #[verifier::when_used_as_spec(spec_numerator)]
    pub fn numerator(&self) -> (n: i64)
        ensures
            n == self.spec_numerator(),
    {
        self.num
    }

    /// The denominator of a fraction; 1 for an infinity.
    #[verifier::when_used_as_spec(spec_denominator)]
    pub fn denominator(&self) -> (d: u32)
        ensures
            d == self.spec_denominator(),
            d >= 1,
    {
        proof {
            use_type_invariant(self);
        }
        self.den
    }

    /// Whether this score is below `other`.
    pub fn lt(&self, other: &Score) -> (b: bool)
        ensures
            b == (self.rank() < other.rank()),
    {
        proof {
            use_type_invariant(self);
            use_type_invariant(other);
            self.lemma_wf();
            other.lemma_wf();
        }
        if self.side != 0 || other.side != 0 {
            self.side < other.side
        } else {
            let left: i128 = Self::product(self.num, other.den);
            let right: i128 = Self::product(other.num, self.den);
            proof {
                lemma_rank_order(self.num as int, self.den as int, other.num as int, other.den as int);
            }
            left < right
        }
    }

    /// Whether this score is not above `other`.
    pub fn le(&self, other: &Score) -> (b: bool)
        ensures
            b == (self.rank() <= other.rank()),
    {
        !other.lt(self)
    }

    /// Whether this score is not below `other`.
    pub fn ge(&self, other: &Score) -> (b: bool)
        ensures
            b == (self.rank() >= other.rank()),
    {
        !self.lt(other)
    }

    /// Whether this score is above `other`.
    pub fn gt(&self, other: &Score) -> (b: bool)
        ensures
            b == (self.rank() > other.rank()),
    {
        other.lt(self)
    }

    /// Whether the two scores have the same value.
    pub fn same(&self, other: &Score) -> (b: bool)
        ensures
            b == (self.rank() == other.rank()),
    {
        !self.lt(other) && !other.lt(self)
    }

    /// The product of a numerator and a denominator.
    fn product(n: i64, d: u32) -> (p: i128)
        ensures
            p == n * d,
    {
        assert(-0x8000_0000_0000_0000 * 0x1_0000_0000 <= n * d <= 0x8000_0000_0000_0000
            * 0x1_0000_0000) by (nonlinear_arith)
            requires
                -0x8000_0000_0000_0000 <= n < 0x8000_0000_0000_0000,
                0 <= d < 0x1_0000_0000,
        ;
        (n as i128) * (d as i128)
    }
}

/// The smaller of two scores; the second where they have the same value.
pub fn min(v1: Score, v2: Score) -> (v: Score)
    ensures
        v == (if v1.rank() < v2.rank() {
            v1
        } else {
            v2
        }),
{
    if v1.lt(&v2) {
        v1
    } else {
        v2
    }
}

/// The larger of two scores; the second where they have the same value.
pub fn max(v1: Score, v2: Score) -> (v: Score)
    ensures
        v == (if v1.rank() > v2.rank() {
            v1
        } else {
            v2
        }),
{
    if v1.gt(&v2) {
        v1
    } else {
        v2
    }
}

} // verus!
