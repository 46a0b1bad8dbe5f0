//! Exact coordinates.
//!
//! Every coordinate of an edge string is a rational number, so it is held
//! exactly: a sign, a numerator of any size and a positive denominator.

use crate::natural::Natural;
use vstd::prelude::*;

verus! {

/// `a <= b` for two rationals given as (numerator, denominator) pairs.
pub open spec fn ratio_le(a: (int, int), b: (int, int)) -> bool {
    a.0 * b.1 <= b.0 * a.1
}

/// The value `sign * (whole + frac / count)` of a decimal literal.
pub open spec fn decimal_ratio(negative: bool, whole: int, frac: int, count: int) -> (int, int) {
    let n = whole * count + frac;
    (if negative { -n } else { n }, count)
}

/// The value `whole + frac / 256` of a fixed-point literal.
pub open spec fn fixed_ratio(whole: int, frac: int) -> (int, int) {
    (whole * 256 + frac, 256)
}

pub proof fn lemma_ratio_le_trans(a: (int, int), b: (int, int), c: (int, int))
    requires
        a.1 > 0,
        b.1 > 0,
        c.1 > 0,
        ratio_le(a, b),
        ratio_le(b, c),
    ensures
        ratio_le(a, c),
{
    assert(a.0 * b.1 * c.1 <= b.0 * a.1 * c.1) by (nonlinear_arith)
        requires
            a.0 * b.1 <= b.0 * a.1,
            c.1 > 0,
    ;
    assert(b.0 * c.1 * a.1 <= c.0 * b.1 * a.1) by (nonlinear_arith)
        requires
            b.0 * c.1 <= c.0 * b.1,
            a.1 > 0,
    ;
    assert(a.0 * c.1 <= c.0 * a.1) by (nonlinear_arith)
        requires
            a.0 * b.1 * c.1 <= b.0 * a.1 * c.1,
            b.0 * c.1 * a.1 <= c.0 * b.1 * a.1,
            b.1 > 0,
    ;
}

/// An exact coordinate: a sign, a magnitude of any size, and a positive
/// denominator.
#[derive(Debug)]
pub struct Coord {
    negative: bool,
    magnitude: Natural,
    den: usize,
}

impl View for Coord {
    type V = (int, int);

    /// The numerator and the denominator. The denominator is never zero; the
    /// view reads a zero as one, so that every view is a proper rational.
    closed spec fn view(&self) -> (int, int) {
        (
            if self.negative {
                -(self.magnitude@ as int)
            } else {
                self.magnitude@ as int
            },
            if self.den == 0 {
                1
            } else {
                self.den as int
            },
        )
    }
}

/// Every coordinate has a positive denominator.
pub broadcast proof fn lemma_den_positive(c: Coord)
    ensures
        #[trigger] c@.1 > 0,
{
}

impl Coord {
    #[verifier::type_invariant]
    spec fn inv(self) -> bool {
        0 < self.den
    }

    /// The coordinate `±magnitude / den`, or `None` where `den` is zero.
    pub fn new(negative: bool, magnitude: Natural, den: usize) -> (r: Option<Coord>)
        ensures
            r is Some <==> den > 0,
            r matches Some(c) ==> c@ == (
                if negative {
                    -(magnitude@ as int)
                } else {
                    magnitude@ as int
                },
                den as int,
            ),
    {
        if den == 0 {
            None
        } else {
            Some(Coord { negative, magnitude, den })
        }
    }

    /// The coordinate `sign * (whole + frac / count)`.
    pub fn decimal(negative: bool, whole: &Natural, frac: &Natural, count: usize) -> (r: Coord)
        requires
            count > 0,
        ensures
            r@ == decimal_ratio(negative, whole@ as int, frac@ as int, count as int),
    {
        let scaled = whole.mul_add(count as u64, 0);
        let magnitude = scaled.add(frac);
        Coord { negative, magnitude, den: count }
    }

    /// The coordinate `whole + frac / 256`.
    pub fn fixed(whole: u32, frac: u32) -> (r: Coord)
        ensures
            r@ == fixed_ratio(whole as int, frac as int),
    {
        let magnitude = Natural::zero().mul_add(0, whole as u64 * 256 + frac as u64);
        Coord { negative: false, magnitude, den: 256 }
    }

    /// An equal coordinate.
    pub fn copy(&self) -> (r: Coord)
        ensures
            r@ == self@,
    {
        proof {
            use_type_invariant(self);
        }
        Coord { negative: self.negative, magnitude: self.magnitude.copy(), den: self.den }
    }

    /// Whether the numerator carries a minus sign.
    pub fn is_negative(&self) -> (r: bool)
        ensures
            self@.0 < 0 ==> r,
            r ==> self@.0 <= 0,
    {
        self.negative
    }

    /// The magnitude of the numerator.
    pub fn magnitude(&self) -> (r: &Natural)
        ensures
            r@ as int == if self@.0 < 0 {
                -self@.0
            } else {
                self@.0
            },
    {
        &self.magnitude
    }

    pub fn den(&self) -> (r: usize)
        ensures
            r as int == self@.1,
            r > 0,
    {
        proof {
            use_type_invariant(self);
        }
        self.den
    }

    /// Whether `self <= other` as numbers.
    pub fn le(&self, other: &Coord) -> (r: bool)
        ensures
            r == ratio_le(self@, other@),
    {
        proof {
            use_type_invariant(self);
            use_type_invariant(other);
        }
        let x = self.magnitude.mul_add(other.den as u64, 0);
        let y = other.magnitude.mul_add(self.den as u64, 0);
        let zero = Natural::zero();
        let ghost ma = self.magnitude@ as int;
        let ghost mb = other.magnitude@ as int;
        let ghost da = self.den as int;
        let ghost db = other.den as int;
        assert((-ma) * db == -(ma * db)) by (nonlinear_arith);
        assert((-mb) * da == -(mb * da)) by (nonlinear_arith);
        assert(ma * db >= 0 && mb * da >= 0) by (nonlinear_arith)
            requires
                ma >= 0,
                mb >= 0,
                da > 0,
                db > 0,
        ;
        match (self.negative, other.negative) {
            (true, false) => true,
            (false, true) => x.le(&zero) && y.le(&zero),
            (false, false) => x.le(&y),
            (true, true) => y.le(&x),
        }
    }
}

} // verus!
