//! The quality of a match, kept as the three lengths it is computed from.

use vstd::prelude::*;

verus! {

/// The mathematical content of a [`Score`]: the byte length of the uppercase
/// pattern, the byte length of the uppercase candidate, and the byte offset of
/// the leftmost occurrence of the former in the latter.
pub struct Measure {
    pub pattern_len: nat,
    pub candidate_len: nat,
    pub index: nat,
}

impl Measure {
    /// The numerator of the score, `100 * P - I`.
    pub open spec fn numerator(self) -> int {
        100 * self.pattern_len - self.index
    }

    /// The denominator of the score, `S`.
    pub open spec fn denominator(self) -> int {
        self.candidate_len as int
    }

    /// The pattern fits into the candidate at `index`, and the score is
    /// strictly positive.
    pub open spec fn wf(self) -> bool {
        &&& self.index + self.pattern_len <= self.candidate_len
        &&& self.index < 100 * self.pattern_len
    }

    /// `self` is worth at least as much as `other`. Denominators of
    /// well-formed measures are positive, so the fractions are compared by
    /// cross multiplication.
    pub open spec fn at_least(self, other: Measure) -> bool {
        self.numerator() * other.denominator() >= other.numerator() * self.denominator()
    }

    /// The score is exactly 100.
    pub open spec fn perfect(self) -> bool {
        self.numerator() == 100 * self.denominator()
    }
}

/// A match score: the fraction `(100 * P - I) / S`, held exactly.
#[derive(Clone, Copy, Debug)]
pub struct Score {
    /// Byte length of the uppercase pattern.
    pub pattern_len: usize,
    /// Byte length of the uppercase candidate.
    pub candidate_len: usize,
    /// Byte offset of the leftmost occurrence.
    pub index: usize,
}

impl View for Score {
    type V = Measure;

    open spec fn view(&self) -> Measure {
        Measure {
            pattern_len: self.pattern_len as nat,
            candidate_len: self.candidate_len as nat,
            index: self.index as nat,
        }
    }
}

impl Score {
    /// Well-formedness of the underlying measure.
    pub open spec fn wf(self) -> bool {
        self@.wf()
    }

    /// Whether the score is exactly 100: the pattern covers the whole
    /// candidate.
    pub fn is_perfect(&self) -> (r: bool)
        ensures
            r == self@.perfect(),
            self.wf() ==> r == (self.index == 0 && self.pattern_len == self.candidate_len),
    {
        let whole: u128 = 100 * (self.candidate_len as u128) + (self.index as u128);
        100 * (self.pattern_len as u128) == whole
    }

    /// Whether this score is worth at least as much as `other`.
    pub fn ge(&self, other: &Score) -> (r: bool)
        requires
            self.wf(),
            other.wf(),
        ensures
            r == self@.at_least(other@),
    {
        let a: u128 = 100 * (self.pattern_len as u128) - (self.index as u128);
        let b: u128 = self.candidate_len as u128;
        let c: u128 = 100 * (other.pattern_len as u128) - (other.index as u128);
        let d: u128 = other.candidate_len as u128;
        let q1: u128 = a / b;
        let r1: u128 = a % b;
        let q2: u128 = c / d;
        let r2: u128 = c % d;
        proof {
            lemma_split_compare(a as int, b as int, c as int, d as int);
            assert(r1 * d <= 0xffff_ffff_ffff_ffff * 0xffff_ffff_ffff_ffff) by (nonlinear_arith)
                requires
                    0 <= r1 <= 0xffff_ffff_ffff_ffff,
                    0 <= d <= 0xffff_ffff_ffff_ffff,
            ;
            assert(r2 * b <= 0xffff_ffff_ffff_ffff * 0xffff_ffff_ffff_ffff) by (nonlinear_arith)
                requires
                    0 <= r2 <= 0xffff_ffff_ffff_ffff,
                    0 <= b <= 0xffff_ffff_ffff_ffff,
            ;
        }
        if q1 != q2 {
            q1 > q2
        } else {
            r1 * d >= r2 * b
        }
    }
}

/// Two fractions with positive denominators compare as their integer parts
/// do, and by their remainders where the integer parts agree.
pub proof fn lemma_split_compare(a: int, b: int, c: int, d: int)
    requires
        0 <= a,
        0 < b,
        0 <= c,
        0 < d,
    ensures
        0 <= a % b < b,
        0 <= c % d < d,
        a / b > c / d ==> a * d > c * b,
        a / b < c / d ==> a * d < c * b,
        a / b == c / d ==> (a * d >= c * b <==> (a % b) * d >= (c % d) * b),
{
    let q1 = a / b;
    let r1 = a % b;
    let q2 = c / d;
    let r2 = c % d;
    vstd::arithmetic::div_mod::lemma_fundamental_div_mod(a, b);
    vstd::arithmetic::div_mod::lemma_fundamental_div_mod(c, d);
    vstd::arithmetic::div_mod::lemma_mod_bound(a, b);
    vstd::arithmetic::div_mod::lemma_mod_bound(c, d);
    assert(a * d == q1 * (b * d) + r1 * d) by (nonlinear_arith)
        requires
            a == b * q1 + r1,
    ;
    assert(c * b == q2 * (b * d) + r2 * b) by (nonlinear_arith)
        requires
            c == d * q2 + r2,
    ;
    assert(0 <= r1 * d < b * d) by (nonlinear_arith)
        requires
            0 <= r1 < b,
            0 < d,
    ;
    assert(0 <= r2 * b < b * d) by (nonlinear_arith)
        requires
            0 <= r2 < d,
            0 < b,
    ;
    let m = b * d;
    assert(q1 > q2 ==> q1 * m >= q2 * m + m) by (nonlinear_arith)
        requires
            m > 0,
    ;
    assert(q1 < q2 ==> q2 * m >= q1 * m + m) by (nonlinear_arith)
        requires
            m > 0,
    ;
}

/// Worth is transitive across a score with a positive denominator.
pub proof fn lemma_at_least_transitive(x: Measure, y: Measure, z: Measure)
    requires
        y.denominator() > 0,
        x.at_least(y),
        y.at_least(z),
    ensures
        x.at_least(z),
{
    let (xn, xd) = (x.numerator(), x.denominator());
    let (yn, yd) = (y.numerator(), y.denominator());
    let (zn, zd) = (z.numerator(), z.denominator());
    assert(xn * zd >= zn * xd) by (nonlinear_arith)
        requires
            xd >= 0,
            yd > 0,
            zd >= 0,
            xn * yd >= yn * xd,
            yn * zd >= zn * yd,
    {
        assert((xn * yd) * zd >= (yn * xd) * zd);
        assert((yn * zd) * xd >= (zn * yd) * xd);
        assert((xn * zd) * yd >= (zn * xd) * yd);
    }
}

} // verus!
