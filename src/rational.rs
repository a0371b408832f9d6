//! Exact rationals of any size, held as sign and base-2^32 digits. The
//! arithmetic itself is done by `num`'s `BigRational`.
use vstd::prelude::*;
use num::bigint::{BigInt, Sign};
use num::BigRational;

verus! {

/// The natural number whose base-2^32 digits, least significant first, are `s`.
pub open spec fn digits_value(s: Seq<u32>) -> nat
    decreases s.len(),
{
    if s.len() == 0 {
        0
    } else {
        s[0] as nat + 4294967296 * digits_value(s.drop_first())
    }
}

/// A rational number `numer / denom`, negated when `negative` holds.
#[derive(Debug, PartialEq, Eq, Hash)]
pub struct Rational {
    pub negative: bool,
    pub numer: Vec<u32>,
    pub denom: Vec<u32>,
}

/// How two fractions `(numerator, positive denominator)` compare by value.
pub open spec fn frac_order(a: (int, int), b: (int, int)) -> core::cmp::Ordering {
    if a.0 * b.1 < b.0 * a.1 {
        core::cmp::Ordering::Less
    } else if a.0 * b.1 == b.0 * a.1 {
        core::cmp::Ordering::Equal
    } else {
        core::cmp::Ordering::Greater
    }
}

/// How two rationals compare by value.
pub open spec fn rat_order(a: Rational, b: Rational) -> core::cmp::Ordering {
    frac_order(a.frac(), b.frac())
}

/// `a` is smaller than `b`.
pub open spec fn rat_lt(a: Rational, b: Rational) -> bool {
    rat_order(a, b) == core::cmp::Ordering::Less
}

impl Rational {
    /// The signed numerator.
    pub open spec fn num(&self) -> int {
        if self.negative {
            -(digits_value(self.numer@) as int)
        } else {
            digits_value(self.numer@) as int
        }
    }

    /// The denominator.
    pub open spec fn den(&self) -> int {
        digits_value(self.denom@) as int
    }

    /// The value as a fraction.
    pub open spec fn frac(&self) -> (int, int) {
        (self.num(), self.den())
    }

    /// The denominator is positive.
    pub open spec fn wf(&self) -> bool {
        self.den() > 0
    }

    /// `self` has the value `n / d`.
    pub open spec fn has_value(&self, n: int, d: int) -> bool {
        self.num() * d == n * self.den()
    }

    /// The rational with integer value `n`.
    pub fn from_integer(n: i64) -> (r: Rational)
        ensures
            r.wf(),
            r.num() == n as int,
            r.den() == 1,
    {
        let magnitude: u64 = if n < 0 {
            (-(n as i128)) as u64
        } else {
            n as u64
        };
        let low: u32 = (magnitude % 4294967296) as u32;
        let high: u32 = (magnitude / 4294967296) as u32;
        let numer = vec![low, high];
        let denom = vec![1u32];
        proof {
            assert(numer@.drop_first().drop_first().len() == 0);
            assert(digits_value(numer@.drop_first().drop_first()) == 0);
            assert(numer@.drop_first()[0] == high);
            assert(digits_value(numer@.drop_first()) == high as nat);
            assert(digits_value(numer@) == magnitude as nat);
            assert(denom@.drop_first().len() == 0);
            assert(digits_value(denom@.drop_first()) == 0);
            assert(digits_value(denom@) == 1);
        }
        Rational { negative: n < 0, numer, denom }
    }
}

impl Clone for Rational {
    fn clone(&self) -> (r: Rational)
        ensures
            r.negative == self.negative,
            r.numer@ == self.numer@,
            r.denom@ == self.denom@,
    {
        let r = Rational { negative: self.negative, numer: self.numer.clone(), denom: self.denom.clone() };
        assert(r.numer@ =~= self.numer@);
        assert(r.denom@ =~= self.denom@);
        r
    }
}

/// Relies on `num`'s `Ord` for `BigRational`: it orders rationals by value,
/// also when they are not in lowest terms (`new_raw` skips the reduction).
#[verifier::external_body]
pub(crate) fn rat_cmp(a: &Rational, b: &Rational) -> (r: core::cmp::Ordering)
    requires
        a.wf(),
        b.wf(),
    ensures
        r == rat_order(*a, *b),
{
    let sa = if a.negative { Sign::Minus } else { Sign::Plus };
    let sb = if b.negative { Sign::Minus } else { Sign::Plus };
    let x = BigRational::new_raw(BigInt::new(sa, a.numer.clone()), BigInt::new(Sign::Plus, a.denom.clone()));
    let y = BigRational::new_raw(BigInt::new(sb, b.numer.clone()), BigInt::new(Sign::Plus, b.denom.clone()));
    x.cmp(&y)
}

/// Relies on `num`'s `Add` for `BigRational`: the exact sum, reduced, with a
/// positive denominator.
#[verifier::external_body]
fn rat_add(a: &Rational, b: &Rational) -> (r: Rational)
    requires
        a.wf(),
        b.wf(),
    ensures
        r.wf(),
        r.has_value(a.num() * b.den() + b.num() * a.den(), a.den() * b.den()),
{
    let sa = if a.negative { Sign::Minus } else { Sign::Plus };
    let sb = if b.negative { Sign::Minus } else { Sign::Plus };
    let x = BigRational::new(BigInt::new(sa, a.numer.clone()), BigInt::new(Sign::Plus, a.denom.clone()));
    let y = BigRational::new(BigInt::new(sb, b.numer.clone()), BigInt::new(Sign::Plus, b.denom.clone()));
    let z = x + y;
    let (sign, numer) = z.numer().to_u32_digits();
    Rational { negative: sign == Sign::Minus, numer, denom: z.denom().to_u32_digits().1 }
}

/// Relies on `num`'s `Sub` for `BigRational`: the exact difference, reduced,
/// with a positive denominator.
#[verifier::external_body]
fn rat_sub(a: &Rational, b: &Rational) -> (r: Rational)
    requires
        a.wf(),
        b.wf(),
    ensures
        r.wf(),
        r.has_value(a.num() * b.den() - b.num() * a.den(), a.den() * b.den()),
{
    let sa = if a.negative { Sign::Minus } else { Sign::Plus };
    let sb = if b.negative { Sign::Minus } else { Sign::Plus };
    let x = BigRational::new(BigInt::new(sa, a.numer.clone()), BigInt::new(Sign::Plus, a.denom.clone()));
    let y = BigRational::new(BigInt::new(sb, b.numer.clone()), BigInt::new(Sign::Plus, b.denom.clone()));
    let z = x - y;
    let (sign, numer) = z.numer().to_u32_digits();
    Rational { negative: sign == Sign::Minus, numer, denom: z.denom().to_u32_digits().1 }
}

/// Relies on `num`'s `Div` for `BigRational`: the exact quotient, reduced,
/// with a positive denominator; it panics on a zero divisor, which `requires`
/// leaves out.
#[verifier::external_body]
fn rat_div(a: &Rational, b: &Rational) -> (r: Rational)
    requires
        a.wf(),
        b.wf(),
        b.num() != 0,
    ensures
        r.wf(),
        r.has_value(a.num() * b.den(), a.den() * b.num()),
{
    let sa = if a.negative { Sign::Minus } else { Sign::Plus };
    let sb = if b.negative { Sign::Minus } else { Sign::Plus };
    let x = BigRational::new(BigInt::new(sa, a.numer.clone()), BigInt::new(Sign::Plus, a.denom.clone()));
    let y = BigRational::new(BigInt::new(sb, b.numer.clone()), BigInt::new(Sign::Plus, b.denom.clone()));
    let z = x / y;
    let (sign, numer) = z.numer().to_u32_digits();
    Rational { negative: sign == Sign::Minus, numer, denom: z.denom().to_u32_digits().1 }
}

proof fn lemma_cancel_lt(x: int, y: int, k: int)
    requires
        k > 0,
        x * k < y * k,
    ensures
        x < y,
{
    assert(x < y) by (nonlinear_arith)
        requires
            k > 0,
            x * k < y * k,
    ;
}

proof fn lemma_pos_mul(x: int, y: int)
    requires
        x > 0,
        y > 0,
    ensures
        x * y > 0,
{
    assert(x * y > 0) by (nonlinear_arith)
        requires
            x > 0,
            y > 0,
    ;
}

/// With `s = a + b` and `m = s / 2`, the mean `m` lies strictly between `a < b`.
proof fn lemma_mean_ints(an: int, ad: int, bn: int, bd: int, sn: int, sd: int, mn: int, md: int)
    requires
        ad > 0,
        bd > 0,
        sd > 0,
        md > 0,
        an * bd < bn * ad,
        sn * (ad * bd) == (an * bd + bn * ad) * sd,
        mn * (sd * 2) == sn * md,
    ensures
        an * md < mn * ad,
        mn * bd < bn * md,
{
    let p = ad * bd;
    let t = an * bd + bn * ad;
    let f = mn * (sd * 2);
    assert(mn * ad * (2 * sd * bd) == f * p) by (nonlinear_arith)
        requires
            p == ad * bd,
            f == mn * (sd * 2),
    ;
    assert(f * p == (sn * md) * p);
    assert((sn * md) * p == md * (sn * p)) by (nonlinear_arith);
    assert(md * (sn * p) == md * (t * sd));
    assert(an * md * (2 * sd * bd) == (md * sd) * (2 * an * bd)) by (nonlinear_arith);
    assert(md * (t * sd) == (md * sd) * t) by (nonlinear_arith);
    lemma_pos_mul(md, sd);
    let q = md * sd;
    assert(q * t - q * (2 * an * bd) == q * (bn * ad - an * bd)) by (nonlinear_arith)
        requires
            t == an * bd + bn * ad,
    ;
    lemma_pos_mul(q, bn * ad - an * bd);
    lemma_pos_mul(2 * sd, bd);
    lemma_cancel_lt(an * md, mn * ad, 2 * sd * bd);
    assert(mn * bd * (2 * sd * ad) == f * p) by (nonlinear_arith)
        requires
            p == ad * bd,
            f == mn * (sd * 2),
    ;
    assert(bn * md * (2 * sd * ad) == q * (2 * bn * ad)) by (nonlinear_arith)
        requires
            q == md * sd,
    ;
    assert(q * (2 * bn * ad) - q * t == q * (bn * ad - an * bd)) by (nonlinear_arith)
        requires
            t == an * bd + bn * ad,
    ;
    lemma_pos_mul(2 * sd, ad);
    lemma_cancel_lt(mn * bd, bn * md, 2 * sd * ad);
}

proof fn lemma_step_ints(an: int, ad: int, sn: int, sd: int)
    requires
        ad > 0,
        sd > 0,
    ensures
        sn * ad == (an + ad) * sd ==> an * sd < sn * ad,
        sn * ad == (an - ad) * sd ==> sn * ad < an * sd,
{
    assert(ad * sd > 0) by (nonlinear_arith)
        requires
            ad > 0,
            sd > 0,
    ;
    assert((an + ad) * sd == an * sd + ad * sd) by (nonlinear_arith);
    assert((an - ad) * sd == an * sd - ad * sd) by (nonlinear_arith);
}

/// A rational chosen between optional bounds: zero without bounds, one above
/// a lower bound alone, one below an upper bound alone, and the mean of two
/// bounds.
pub fn rational_between(low: Option<&Rational>, high: Option<&Rational>) -> (r: Rational)
    requires
        low matches Some(l) ==> l.wf(),
        high matches Some(h) ==> h.wf(),
    ensures
        r.wf(),
        (low, high) matches (None, None) ==> r.num() == 0 && r.den() == 1,
        high is None ==> (low matches Some(l) ==> r.has_value(l.num() + l.den(), l.den()) && rat_lt(
            *l,
            r,
        )),
        low is None ==> (high matches Some(h) ==> r.has_value(h.num() - h.den(), h.den()) && rat_lt(
            r,
            *h,
        )),
        (low, high) matches (Some(l), Some(h)) ==> r.has_value(
            l.num() * h.den() + h.num() * l.den(),
            2 * l.den() * h.den(),
        ),
        (low, high) matches (Some(l), Some(h)) ==> (rat_lt(*l, *h) ==> rat_lt(*l, r) && rat_lt(
            r,
            *h,
        )),
{
    let one = Rational::from_integer(1);
    match (low, high) {
        (None, None) => Rational::from_integer(0),
        (Some(l), None) => {
            let r = rat_add(l, &one);
            proof {
                lemma_step_ints(l.num(), l.den(), r.num(), r.den());
            }
            r
        },
        (None, Some(h)) => {
            let r = rat_sub(h, &one);
            proof {
                lemma_step_ints(h.num(), h.den(), r.num(), r.den());
            }
            r
        },
        (Some(l), Some(h)) => {
            let two = Rational::from_integer(2);
            let sum = rat_add(l, h);
            let r = rat_div(&sum, &two);
            proof {
                let (an, ad, bn, bd) = (l.num(), l.den(), h.num(), h.den());
                let (sn, sd, mn, md) = (sum.num(), sum.den(), r.num(), r.den());
                assert(mn * (sd * 2) == sn * md);
                assert(r.has_value(an * bd + bn * ad, 2 * ad * bd)) by (nonlinear_arith)
                    requires
                        mn * (sd * 2) == sn * md,
                        sn * (ad * bd) == (an * bd + bn * ad) * sd,
                        sd > 0,
                        mn == r.num(),
                        md == r.den(),
                ;
                if rat_lt(*l, *h) {
                    lemma_mean_ints(an, ad, bn, bd, sn, sd, mn, md);
                }
            }
            r
        },
    }
}

} // verus!
