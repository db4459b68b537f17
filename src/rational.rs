//! Exact rational numbers held in lowest terms, with arithmetic delegated to
//! the `fraction` crate through checked operations.
use fraction::{CheckedAdd, CheckedDiv, CheckedMul, CheckedSub, Fraction, Sign};
use vstd::math::abs;
use vstd::prelude::*;

verus! {

/// Largest numerator or denominator of an operand for which the checked
/// operations are known not to overflow their 64-bit storage.
pub const LIMIT: u64 = 0x8000_0000;

/// `n / d == m / e`, written without division.
pub open spec fn same_ratio(n: int, d: int, m: int, e: int) -> bool {
    n * e == m * d
}

/// `n / d` is in lowest terms: no other representation of the same value
/// with a positive denominator has a smaller numerator or denominator.
pub open spec fn lowest_terms(n: int, d: int) -> bool {
    forall|m: int, e: int|
        #![trigger same_ratio(n, d, m, e)]
        e > 0 && same_ratio(n, d, m, e) ==> d <= e && n <= m
}

/// What the `Display` impl of the `fraction` crate writes for the value with
/// this sign, numerator and denominator.
pub uninterp spec fn fraction_text(negative: bool, numer: nat, denom: nat) -> Seq<char>;

/// A rational number: `-numer / denom` when `negative`, else `numer / denom`.
#[derive(Debug, Clone, Copy, PartialEq, Eq, Structural)]
pub struct Rational {
    pub negative: bool,
    pub numer: u64,
    pub denom: u64,
}

impl Rational {
    /// The signed numerator.
    pub open spec fn num(self) -> int {
        if self.negative {
            -(self.numer as int)
        } else {
            self.numer as int
        }
    }

    pub open spec fn den(self) -> int {
        self.denom as int
    }

    /// Positive denominator, lowest terms.
    pub open spec fn wf(self) -> bool {
        self.denom > 0 && lowest_terms(self.numer as int, self.denom as int)
    }

    /// Well formed, and zero carries no sign.
    pub open spec fn canonical(self) -> bool {
        self.wf() && (self.negative ==> self.numer > 0)
    }

    /// Both parts are small enough to be an operand of a checked operation
    /// that cannot overflow.
    pub open spec fn fits(self) -> bool {
        self.numer <= LIMIT && self.denom <= LIMIT
    }

    /// The value of `self` is `n / d`.
    pub open spec fn equals(self, n: int, d: int) -> bool {
        self.num() * d == n * self.den()
    }

    pub open spec fn is_positive_spec(self) -> bool {
        self.num() > 0
    }

    pub open spec fn integer_spec(k: u64) -> Rational {
        Rational { negative: false, numer: k, denom: 1 }
    }

    pub open spec fn text(self) -> Seq<char> {
        fraction_text(self.negative, self.numer as nat, self.denom as nat)
    }
}

impl Rational {
    /// The integer `k`.
    pub fn integer(k: u64) -> (r: Rational)
        ensures
            r.canonical(),
            r.equals(k as int, 1),
            r == (Rational { negative: false, numer: k, denom: 1 }),
    {
        proof {
            lemma_integer_lowest(k as int);
        }
        Rational { negative: false, numer: k, denom: 1 }
    }

    /// The fraction `numer / denom`, reduced to lowest terms.
    pub fn new(numer: u64, denom: u64) -> (r: Rational)
        requires
            denom > 0,
        ensures
            r.wf(),
            !r.negative,
            r.equals(numer as int, denom as int),
    {
        let (n, d) = reduce(numer, denom);
        Rational { negative: false, numer: n, denom: d }
    }

    /// The fraction `-numer / denom`, reduced to lowest terms.
    pub fn new_neg(numer: u64, denom: u64) -> (r: Rational)
        requires
            denom > 0,
        ensures
            r.wf(),
            r.negative,
            r.equals(-(numer as int), denom as int),
    {
        let (n, d) = reduce(numer, denom);
        assert(-(n as int) * denom == -(numer as int) * d) by (nonlinear_arith)
            requires
                n * denom == numer * d,
        ;
        Rational { negative: true, numer: n, denom: d }
    }

    /// Whether the value is greater than zero.
    pub fn is_positive(&self) -> (r: bool)
        ensures
            r == self.is_positive_spec(),
    {
        !self.negative && self.numer > 0
    }
}

pub proof fn lemma_integer_lowest(k: int)
    requires
        k >= 0,
    ensures
        lowest_terms(k, 1),
{
    assert forall|m: int, e: int| e > 0 && #[trigger] same_ratio(k, 1, m, e) implies 1 <= e && k <= m by {
        assert(k * e >= k * 1) by (nonlinear_arith)
            requires
                k >= 0,
                e >= 1,
        ;
    }
}

/// A value in lowest terms has no part larger than in any other representation.
pub proof fn lemma_lowest_le(x: Rational, m: int, e: int)
    requires
        x.wf(),
        e > 0,
        x.equals(m, e),
    ensures
        x.denom <= e,
        x.numer <= abs(m),
        x.num() > 0 <==> m > 0,
        x.num() < 0 <==> m < 0,
{
    let n = x.numer as int;
    let d = x.denom as int;
    assert(x.num() * e == m * d);
    lemma_sign_match(x.num(), d, m, e);
    assert(n * e == abs(m) * d) by (nonlinear_arith)
        requires
            x.num() * e == m * d,
            n == abs(x.num()),
            x.num() > 0 <==> m > 0,
            x.num() < 0 <==> m < 0,
    ;
    assert(same_ratio(n, d, abs(m) as int, e));
}

/// `a * e == m * d` with positive `d` and `e` forces `a` and `m` to share a sign.
pub proof fn lemma_sign_match(a: int, d: int, m: int, e: int)
    requires
        d > 0,
        e > 0,
        a * e == m * d,
    ensures
        a > 0 <==> m > 0,
        a < 0 <==> m < 0,
{
    if a > 0 {
        assert(a * e > 0) by (nonlinear_arith)
            requires
                a > 0,
                e > 0,
        ;
        assert(m > 0) by (nonlinear_arith)
            requires
                m * d > 0,
                d > 0,
        ;
    } else if a < 0 {
        assert(a * e < 0) by (nonlinear_arith)
            requires
                a < 0,
                e > 0,
        ;
        assert(m < 0) by (nonlinear_arith)
            requires
                m * d < 0,
                d > 0,
        ;
    } else {
        assert(m * d == 0);
        assert(m == 0) by (nonlinear_arith)
            requires
                m * d == 0,
                d > 0,
        ;
    }
}

/// Two canonical values that are equal have the same parts.
pub proof fn lemma_canonical_unique(x: Rational, y: Rational)
    requires
        x.canonical(),
        y.canonical(),
        x.equals(y.num(), y.den()),
    ensures
        x == y,
{
    lemma_lowest_le(x, y.num(), y.den());
    assert(y.equals(x.num(), x.den())) by (nonlinear_arith)
        requires
            x.num() * y.den() == y.num() * x.den(),
    ;
    lemma_lowest_le(y, x.num(), x.den());
}

/// Moving from the representations that the checked operations speak of to
/// any other representations of the operands.
pub proof fn lemma_add_rep(a: Rational, b: Rational, x: Rational, an: int, ad: int, bn: int, bd: int)
    requires
        a.wf(),
        b.wf(),
        ad > 0,
        bd > 0,
        a.equals(an, ad),
        b.equals(bn, bd),
        x.equals(a.num() * b.den() + b.num() * a.den(), a.den() * b.den()),
    ensures
        x.equals(an * bd + bn * ad, ad * bd),
{
    let (p, q, r, s, xn, xd) = (a.num(), a.den(), b.num(), b.den(), x.num(), x.den());
    lemma_ring_add(xn, xd, p, q, r, s, an, ad, bn, bd);
    lemma_pos_mul(q, s);
    lemma_mul_cancel(xn * (ad * bd), (an * bd + bn * ad) * xd, q * s);
}

pub proof fn lemma_sub_rep(a: Rational, b: Rational, x: Rational, an: int, ad: int, bn: int, bd: int)
    requires
        a.wf(),
        b.wf(),
        ad > 0,
        bd > 0,
        a.equals(an, ad),
        b.equals(bn, bd),
        x.equals(a.num() * b.den() - b.num() * a.den(), a.den() * b.den()),
    ensures
        x.equals(an * bd - bn * ad, ad * bd),
{
    let (p, q, r, s, xn, xd) = (a.num(), a.den(), b.num(), b.den(), x.num(), x.den());
    assert((-r) * bd == (-bn) * s && (p * s - r * q) * xd == (p * s + (-r) * q) * xd) by (nonlinear_arith)
        requires
            r * bd == bn * s,
    ;
    lemma_ring_add(xn, xd, p, q, -r, s, an, ad, -bn, bd);
    assert((an * bd + (-bn) * ad) * xd * (q * s) == (an * bd - bn * ad) * xd * (q * s)) by (nonlinear_arith);
    lemma_pos_mul(q, s);
    lemma_mul_cancel(xn * (ad * bd), (an * bd - bn * ad) * xd, q * s);
}

pub proof fn lemma_mul_rep(a: Rational, b: Rational, x: Rational, an: int, ad: int, bn: int, bd: int)
    requires
        a.wf(),
        b.wf(),
        ad > 0,
        bd > 0,
        a.equals(an, ad),
        b.equals(bn, bd),
        x.equals(a.num() * b.num(), a.den() * b.den()),
    ensures
        x.equals(an * bn, ad * bd),
{
    let (p, q, r, s, xn, xd) = (a.num(), a.den(), b.num(), b.den(), x.num(), x.den());
    lemma_ring_mul(xn, xd, p, q, r, s, an, ad, bn, bd);
    lemma_pos_mul(q, s);
    lemma_mul_cancel(xn * (ad * bd), (an * bn) * xd, q * s);
}

proof fn lemma_ring_add(xn: int, xd: int, p: int, q: int, r: int, s: int, an: int, ad: int, bn: int, bd: int)
    requires
        p * ad == an * q,
        r * bd == bn * s,
        xn * (q * s) == (p * s + r * q) * xd,
    ensures
        xn * (ad * bd) * (q * s) == (an * bd + bn * ad) * xd * (q * s),
{
    assert(xn * (ad * bd) * (q * s) == (xn * (q * s)) * (ad * bd)) by (nonlinear_arith);
    lemma_distribute(p * s, r * q, xd, ad * bd);
    lemma_regroup(p, s, xd, ad, bd);
    lemma_regroup(r, q, xd, bd, ad);
    assert((xd * s * bd) * (p * ad) == (xd * s * bd) * (an * q));
    assert((xd * q * ad) * (r * bd) == (xd * q * ad) * (bn * s));
    lemma_regroup2(an, bd, xd, q, s);
    lemma_regroup2(bn, ad, xd, s, q);
    lemma_distribute(an * bd, bn * ad, xd, q * s);
}

proof fn lemma_distribute(t: int, u: int, v: int, w: int)
    ensures
        ((t + u) * v) * w == (t * v) * w + (u * v) * w,
{
    assert(((t + u) * v) * w == (t * v) * w + (u * v) * w) by (nonlinear_arith);
}

proof fn lemma_regroup(p: int, s: int, xd: int, ad: int, bd: int)
    ensures
        ((p * s) * xd) * (ad * bd) == (xd * s * bd) * (p * ad),
{
    assert(((p * s) * xd) * (ad * bd) == (xd * s * bd) * (p * ad)) by (nonlinear_arith);
}

proof fn lemma_regroup2(an: int, bd: int, xd: int, q: int, s: int)
    ensures
        (xd * s * bd) * (an * q) == ((an * bd) * xd) * (q * s),
        (xd * q * bd) * (an * s) == ((an * bd) * xd) * (q * s),
{
    assert((xd * s * bd) * (an * q) == ((an * bd) * xd) * (q * s)) by (nonlinear_arith);
    assert((xd * q * bd) * (an * s) == ((an * bd) * xd) * (q * s)) by (nonlinear_arith);
}

proof fn lemma_ring_mul(xn: int, xd: int, p: int, q: int, r: int, s: int, an: int, ad: int, bn: int, bd: int)
    requires
        p * ad == an * q,
        r * bd == bn * s,
        xn * (q * s) == (p * r) * xd,
    ensures
        xn * (ad * bd) * (q * s) == (an * bn) * xd * (q * s),
{
    assert(xn * (ad * bd) * (q * s) == (xn * (q * s)) * (ad * bd)) by (nonlinear_arith);
    assert(((p * r) * xd) * (ad * bd) == xd * (p * ad) * (r * bd)) by (nonlinear_arith);
    assert(xd * (an * q) * (bn * s) == (an * bn) * xd * (q * s)) by (nonlinear_arith);
}

pub proof fn lemma_pos_mul(a: int, b: int)
    requires
        a > 0,
        b > 0,
    ensures
        a * b > 0,
{
    assert(a * b > 0) by (nonlinear_arith)
        requires
            a > 0,
            b > 0,
    ;
}

pub proof fn lemma_mul_cancel(u: int, v: int, k: int)
    requires
        k > 0,
        u * k == v * k,
    ensures
        u == v,
{
    assert((u - v) * k == 0) by (nonlinear_arith)
        requires
            u * k == v * k,
    ;
    assert(u - v == 0) by (nonlinear_arith)
        requires
            (u - v) * k == 0,
            k != 0,
    ;
}

/// Two values equal to the same `n / d` are equal to each other.
pub proof fn lemma_equals_trans(x: Rational, y: Rational, n: int, d: int)
    requires
        d > 0,
        x.equals(n, d),
        y.equals(n, d),
    ensures
        x.equals(y.num(), y.den()),
{
    let (a, b, c, e) = (x.num(), x.den(), y.num(), y.den());
    assert((a * e) * d == (c * b) * d) by (nonlinear_arith)
        requires
            a * d == n * b,
            c * d == n * e,
    ;
    lemma_mul_cancel(a * e, c * b, d);
}

/// A value equal to `n / d` is equal to every other representation of it.
pub proof fn lemma_equals_rep(x: Rational, n: int, d: int, m: int, e: int)
    requires
        d > 0,
        e > 0,
        x.equals(n, d),
        n * e == m * d,
    ensures
        x.equals(m, e),
{
    let (a, b) = (x.num(), x.den());
    assert((a * e) * d == (m * b) * d) by (nonlinear_arith)
        requires
            a * d == n * b,
            n * e == m * d,
    ;
    lemma_mul_cancel(a * e, m * b, d);
}

/// The canonical rational equal to `n / d`.
pub open spec fn canonical_of(n: int, d: int) -> Rational {
    choose|x: Rational| x.canonical() && x.equals(n, d)
}

/// A canonical value equal to `n / d` is the one `canonical_of` names.
pub proof fn lemma_canonical_of(x: Rational, n: int, d: int)
    requires
        d > 0,
        x.canonical(),
        x.equals(n, d),
    ensures
        canonical_of(n, d) == x,
{
    let y = canonical_of(n, d);
    assert(y.canonical() && y.equals(n, d));
    lemma_equals_trans(y, x, n, d);
    lemma_canonical_unique(y, x);
}

/// Relies on `GenericFraction::new` of `fraction`, which stores `numer / denom`
/// reduced to lowest terms.
#[verifier::external_body]
pub(crate) fn reduce(numer: u64, denom: u64) -> (r: (u64, u64))
    requires
        denom > 0,
    ensures
        r.1 > 0,
        lowest_terms(r.0 as int, r.1 as int),
        same_ratio(numer as int, denom as int, r.0 as int, r.1 as int),
{
    let f = Fraction::new(numer, denom);
    (*f.numer().unwrap(), *f.denom().unwrap())
}

/// Relies on `CheckedAdd` for `GenericFraction` of `fraction`: the exact sum in
/// lowest terms, or `None` on overflow, which cannot happen while both parts of
/// both operands are at most `LIMIT`.
#[verifier::external_body]
pub(crate) fn fraction_checked_add(a: &Rational, b: &Rational) -> (r: Option<Rational>)
    requires
        a.wf(),
        b.wf(),
    ensures
        r matches Some(x) ==> x.wf() && x.equals(a.num() * b.den() + b.num() * a.den(), a.den() * b.den()),
        a.fits() && b.fits() ==> r is Some,
{
    let x = Fraction::new_raw_signed(if a.negative { Sign::Minus } else { Sign::Plus }, a.numer, a.denom);
    let y = Fraction::new_raw_signed(if b.negative { Sign::Minus } else { Sign::Plus }, b.numer, b.denom);
    let f = x.checked_add(&y)?;
    Some(Rational { negative: f.is_sign_negative(), numer: *f.numer()?, denom: *f.denom()? })
}

/// Relies on `CheckedSub` for `GenericFraction` of `fraction`: the exact
/// difference in lowest terms, or `None` on overflow, which cannot happen while
/// both parts of both operands are at most `LIMIT`.
#[verifier::external_body]
pub(crate) fn fraction_checked_sub(a: &Rational, b: &Rational) -> (r: Option<Rational>)
    requires
        a.wf(),
        b.wf(),
    ensures
        r matches Some(x) ==> x.wf() && x.equals(a.num() * b.den() - b.num() * a.den(), a.den() * b.den()),
        a.fits() && b.fits() ==> r is Some,
{
    let x = Fraction::new_raw_signed(if a.negative { Sign::Minus } else { Sign::Plus }, a.numer, a.denom);
    let y = Fraction::new_raw_signed(if b.negative { Sign::Minus } else { Sign::Plus }, b.numer, b.denom);
    let f = x.checked_sub(&y)?;
    Some(Rational { negative: f.is_sign_negative(), numer: *f.numer()?, denom: *f.denom()? })
}

/// Relies on `CheckedMul` for `GenericFraction` of `fraction`: the exact
/// product in lowest terms with a zero never negative, or `None` on overflow,
/// which cannot happen while both parts of both operands are at most `LIMIT`.
#[verifier::external_body]
pub(crate) fn fraction_checked_mul(a: &Rational, b: &Rational) -> (r: Option<Rational>)
    requires
        a.wf(),
        b.wf(),
    ensures
        r matches Some(x) ==> x.canonical() && x.equals(a.num() * b.num(), a.den() * b.den()),
        a.fits() && b.fits() ==> r is Some,
{
    let x = Fraction::new_raw_signed(if a.negative { Sign::Minus } else { Sign::Plus }, a.numer, a.denom);
    let y = Fraction::new_raw_signed(if b.negative { Sign::Minus } else { Sign::Plus }, b.numer, b.denom);
    let f = x.checked_mul(&y)?;
    Some(Rational { negative: f.is_sign_negative(), numer: *f.numer()?, denom: *f.denom()? })
}

/// Relies on `CheckedDiv` for `GenericFraction` of `fraction`: the exact
/// quotient in lowest terms with a zero never negative, or `None` on overflow,
/// which cannot happen while both parts of both operands are at most `LIMIT`.
#[verifier::external_body]
pub(crate) fn fraction_checked_div(a: &Rational, b: &Rational) -> (r: Option<Rational>)
    requires
        a.wf(),
        b.wf(),
        b.numer > 0,
    ensures
        r matches Some(x) ==> x.canonical() && x.equals(a.num() * b.den(), a.den() * b.num()),
        a.fits() && b.fits() ==> r is Some,
{
    let x = Fraction::new_raw_signed(if a.negative { Sign::Minus } else { Sign::Plus }, a.numer, a.denom);
    let y = Fraction::new_raw_signed(if b.negative { Sign::Minus } else { Sign::Plus }, b.numer, b.denom);
    let f = x.checked_div(&y)?;
    Some(Rational { negative: f.is_sign_negative(), numer: *f.numer()?, denom: *f.denom()? })
}

/// Relies on the `Display` impl of `GenericFraction` of `fraction` to write
/// the value as text.
#[verifier::external_body]
pub(crate) fn fraction_to_text(x: &Rational) -> (r: String)
    ensures
        r@ == fraction_text(x.negative, x.numer as nat, x.denom as nat),
{
    Fraction::new_raw_signed(if x.negative { Sign::Minus } else { Sign::Plus }, x.numer, x.denom).to_string()
}

} // verus!
