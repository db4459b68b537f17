//! A circular sector swept by a taut rope about one pivot.
use crate::rational::{
    canonical_of, fraction_checked_div, fraction_checked_mul, fraction_to_text,
    lemma_canonical_of, lemma_lowest_le, lemma_mul_rep, Rational, LIMIT,
};
use vstd::prelude::*;
use vstd::string::StringExecFns;

verus! {

/// A sector of radius `radius` swept through `angle` degrees.
#[derive(Debug, Clone, Copy, PartialEq, Eq, Structural)]
pub struct Circle {
    pub radius: Rational,
    pub angle: Rational,
}

/// Numerator of `radius² × angle / 360`, the area in multiples of π.
pub open spec fn area_num(c: Circle) -> int {
    (c.radius.num() * c.radius.num()) * c.angle.num()
}

/// Denominator of `radius² × angle / 360`.
pub open spec fn area_den(c: Circle) -> int {
    (c.radius.den() * c.radius.den()) * (c.angle.den() * 360)
}

/// The share of a full turn that the sector sweeps, `angle / 360`.
pub open spec fn sweep_share(c: Circle) -> Rational {
    canonical_of(c.angle.num(), c.angle.den() * 360)
}

/// `sweep_share(c)` is the canonical form of `angle / 360`.
pub open spec fn share_exact(c: Circle) -> bool {
    sweep_share(c).canonical() && sweep_share(c).equals(c.angle.num(), c.angle.den() * 360)
}

/// The term `(angle/360)(radius)²` that stands for the sector in a formula.
pub open spec fn term_text(c: Circle) -> Seq<char> {
    "("@ + sweep_share(c).text() + ")("@ + c.radius.text() + ")²"@
}

/// Parts small enough that the area is computed without overflow.
pub open spec fn area_fits(c: Circle) -> bool {
    c.radius.numer * c.radius.numer <= LIMIT && c.radius.denom * c.radius.denom <= LIMIT
        && c.angle.numer <= LIMIT && c.angle.denom * 360 <= LIMIT
}

impl Circle {
    pub open spec fn wf(self) -> bool {
        self.radius.wf() && self.angle.wf()
    }

    /// A whole circle of the given radius.
    pub fn full(radius: Rational) -> (r: Circle)
        ensures
            r.radius == radius,
            r.angle == (Rational { negative: false, numer: 360, denom: 1 }),
            r.angle.canonical(),
    {
        Circle { radius, angle: Rational::integer(360) }
    }

    /// A sector of the given radius and angle.
    pub fn partial(radius: Rational, angle: Rational) -> (r: Circle)
        ensures
            r.radius == radius,
            r.angle == angle,
    {
        Circle { radius, angle }
    }

    /// The area of the sector in multiples of π, or `None` if the exact
    /// value overflows.
    pub fn area(&self) -> (r: Option<Rational>)
        requires
            self.wf(),
        ensures
            r matches Some(x) ==> x.canonical() && x.equals(area_num(*self), area_den(*self)),
            area_fits(*self) ==> r is Some,
    {
        self.partial_area(self.angle)
    }

    /// The area swept by this radius through `angle` degrees, in multiples
    /// of π, or `None` if the exact value overflows.
    pub fn partial_area(&self, angle: Rational) -> (r: Option<Rational>)
        requires
            self.radius.wf(),
            angle.wf(),
        ensures
            r matches Some(x) ==> x.canonical() && x.equals(
                area_num(Circle { radius: self.radius, angle }),
                area_den(Circle { radius: self.radius, angle }),
            ),
            area_fits(Circle { radius: self.radius, angle }) ==> r is Some,
    {
        let full_turn = Rational::integer(360);
        proof {
            let (n, d) = (self.radius.numer as int, self.radius.denom as int);
            assert(n * n <= LIMIT ==> n <= LIMIT) by (nonlinear_arith)
                requires
                    n >= 0,
            ;
            assert(d * d <= LIMIT ==> d <= LIMIT) by (nonlinear_arith)
                requires
                    d >= 0,
            ;
        }
        let squared = match fraction_checked_mul(&self.radius, &self.radius) {
            Some(x) => x,
            None => return None,
        };
        let share = match fraction_checked_div(&angle, &full_turn) {
            Some(x) => x,
            None => return None,
        };
        let ghost rn = self.radius.num();
        let ghost rd = self.radius.den();
        proof {
            assert(rd * rd > 0) by (nonlinear_arith)
                requires
                    rd > 0,
            ;
            lemma_lowest_le(squared, rn * rn, rd * rd);
            lemma_lowest_le(share, angle.num() * 1, angle.den() * 360);
            assert(rn * rn == self.radius.numer * self.radius.numer) by (nonlinear_arith)
                requires
                    rn == self.radius.numer || rn == -self.radius.numer,
            ;
        }
        let r = fraction_checked_mul(&squared, &share);
        proof {
            if let Some(x) = r {
                lemma_mul_rep(squared, share, x, rn * rn, rd * rd, angle.num() * 1, angle.den() * 360);
            }
        }
        r
    }

    /// The sector's term of an area formula, `(angle/360)(radius)²`, or `None`
    /// if `angle / 360` overflows.
    pub fn area_formula(&self) -> (r: Option<String>)
        requires
            self.wf(),
        ensures
            r matches Some(s) ==> s@ == term_text(*self) && share_exact(*self),
            self.angle.fits() ==> r is Some,
    {
        let full_turn = Rational::integer(360);
        let share = match fraction_checked_div(&self.angle, &full_turn) {
            Some(x) => x,
            None => return None,
        };
        proof {
            lemma_canonical_of(share, self.angle.num() * 1, self.angle.den() * 360);
            assert(share.equals(self.angle.num(), self.angle.den() * 360));
        }
        let mut s = String::from_str("(");
        let share_text = fraction_to_text(&share);
        s.append(share_text.as_str());
        s.append(")(");
        let radius_text = fraction_to_text(&self.radius);
        s.append(radius_text.as_str());
        s.append(")²");
        Some(s)
    }
}

} // verus!
