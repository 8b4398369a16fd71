//! Equality and order of NUMERIC values: not-a-number equals itself and comes
//! before every decimal; decimals are ordered by the number they denote,
//! whatever their scales.
use crate::bignum::{big_cmp, big_mul, big_pow, is_zero, limbs_value};
use crate::numeric::{pow10, Decimal, NumericModel, PgNumeric};
use core::cmp::Ordering;
use vstd::arithmetic::power::lemma_pow_positive;
use vstd::prelude::*;

verus! {

/// `(-1)^negative * m * 10^k`.
pub open spec fn signed_scaled(negative: bool, m: nat, k: nat) -> int {
    if negative {
        -(m * pow10(k))
    } else {
        m * pow10(k) as int
    }
}

/// The order of two integers.
pub open spec fn int_cmp(x: int, y: int) -> Ordering {
    if x < y {
        Ordering::Less
    } else if x == y {
        Ordering::Equal
    } else {
        Ordering::Greater
    }
}

/// The order of two values: both decimals are brought to the sum of their
/// scales and compared as integers.
pub open spec fn numeric_cmp(a: NumericModel, b: NumericModel) -> Ordering {
    match (a, b) {
        (NumericModel::NaN, NumericModel::NaN) => Ordering::Equal,
        (NumericModel::NaN, _) => Ordering::Less,
        (_, NumericModel::NaN) => Ordering::Greater,
        (
            NumericModel::Value { negative: n1, magnitude: m1, scale: s1 },
            NumericModel::Value { negative: n2, magnitude: m2, scale: s2 },
        ) => int_cmp(signed_scaled(n1, m1, s2), signed_scaled(n2, m2, s1)),
    }
}

/// Compares two decimals by the number they denote.
fn compare_decimals(a: &Decimal, b: &Decimal) -> (r: Ordering)
    ensures
        r == numeric_cmp(a@, b@),
{
    let x = big_mul(&a.magnitude, &big_pow(10, b.scale));
    let y = big_mul(&b.magnitude, &big_pow(10, a.scale));
    let na = a.negative && !is_zero(&a.magnitude);
    let nb = b.negative && !is_zero(&b.magnitude);
    proof {
        let ma = limbs_value(a.magnitude@);
        let mb = limbs_value(b.magnitude@);
        lemma_pow_positive(10, b.scale as nat);
        lemma_pow_positive(10, a.scale as nat);
        let pb = pow10(b.scale as nat);
        let pa = pow10(a.scale as nat);
        assert(ma > 0 ==> ma * pb > 0) by (nonlinear_arith)
            requires
                pb > 0,
        ;
        assert(mb > 0 ==> mb * pa > 0) by (nonlinear_arith)
            requires
                pa > 0,
        ;
    }
    if na && !nb {
        Ordering::Less
    } else if !na && nb {
        Ordering::Greater
    } else if !na {
        big_cmp(&x, &y)
    } else {
        big_cmp(&y, &x)
    }
}

impl PgNumeric {
    /// Compares two values: not-a-number equals itself and comes before
    /// every decimal; decimals compare by the number they denote, so `1.0`
    /// and `1.00` are equal.
    pub fn compare(&self, other: &PgNumeric) -> (r: Ordering)
        ensures
            r == numeric_cmp(self@, other@),
    {
        match (&self.n, &other.n) {
            (None, None) => Ordering::Equal,
            (None, Some(_)) => Ordering::Less,
            (Some(_), None) => Ordering::Greater,
            (Some(a), Some(b)) => compare_decimals(a, b),
        }
    }
}

impl PartialEq for PgNumeric {
    fn eq(&self, other: &PgNumeric) -> (r: bool) {
        matches!(self.compare(other), Ordering::Equal)
    }
}

impl vstd::std_specs::cmp::PartialEqSpecImpl for PgNumeric {
    open spec fn obeys_eq_spec() -> bool {
        true
    }

    open spec fn eq_spec(&self, other: &PgNumeric) -> bool {
        numeric_cmp(self@, other@) == Ordering::Equal
    }
}

impl PartialOrd for PgNumeric {
    fn partial_cmp(&self, other: &PgNumeric) -> (r: Option<Ordering>) {
        Some(self.compare(other))
    }
}

impl vstd::std_specs::cmp::PartialOrdSpecImpl for PgNumeric {
    open spec fn obeys_partial_cmp_spec() -> bool {
        true
    }

    open spec fn partial_cmp_spec(&self, other: &PgNumeric) -> Option<Ordering> {
        Some(numeric_cmp(self@, other@))
    }
}

} // verus!
