//! Unsigned arbitrary-precision integers held as little-endian base 2^32 limbs,
//! with their arithmetic done by `num`'s `BigUint`.
use vstd::arithmetic::power::pow;
use vstd::prelude::*;

verus! {

/// The radix of one limb.
pub open spec fn limb_base() -> nat {
    4294967296
}

/// The number that little-endian base 2^32 limbs denote.
pub open spec fn limbs_value(s: Seq<u32>) -> nat
    decreases s.len(),
{
    if s.len() == 0 {
        0
    } else {
        s[0] as nat + limb_base() * limbs_value(s.subrange(1, s.len() as int))
    }
}

/// A number is zero exactly when all of its limbs are.
pub proof fn lemma_limbs_zero(s: Seq<u32>)
    ensures
        limbs_value(s) == 0 <==> (forall|j: int| 0 <= j < s.len() ==> s[j] == 0),
    decreases s.len(),
{
    if s.len() > 0 {
        let rest = s.subrange(1, s.len() as int);
        lemma_limbs_zero(rest);
        assert(limb_base() * limbs_value(rest) >= 0) by (nonlinear_arith);
        if limbs_value(s) == 0 {
            assert(limbs_value(rest) == 0) by (nonlinear_arith)
                requires
                    limb_base() * limbs_value(rest) == 0,
                    limb_base() > 0,
            ;
            assert forall|j: int| 0 <= j < s.len() implies s[j] == 0 by {
                if j > 0 {
                    assert(s[j] == rest[j - 1]);
                }
            }
        } else {
            if forall|j: int| 0 <= j < s.len() ==> s[j] == 0 {
                assert forall|j: int| 0 <= j < rest.len() implies rest[j] == 0 by {
                    assert(rest[j] == s[j + 1]);
                }
                assert(s[0] == 0);
            }
        }
    }
}

/// Whether the limbs denote zero.
pub fn is_zero(v: &Vec<u32>) -> (r: bool)
    ensures
        r == (limbs_value(v@) == 0),
{
    let mut i: usize = 0;
    while i < v.len()
        invariant
            i <= v.len(),
            forall|j: int| 0 <= j < i ==> v@[j] == 0,
        decreases v.len() - i,
    {
        if v[i] != 0 {
            proof {
                lemma_limbs_zero(v@);
                assert(!(v@[i as int] == 0));
            }
            return false;
        }
        i = i + 1;
    }
    proof {
        lemma_limbs_zero(v@);
    }
    true
}

/// The number that the limbs denote, where it fits in one limb.
pub fn small_value(v: &Vec<u32>) -> (r: u32)
    requires
        limbs_value(v@) < limb_base(),
    ensures
        r as nat == limbs_value(v@),
{
    if v.len() == 0 {
        0
    } else {
        proof {
            let rest = v@.subrange(1, v@.len() as int);
            let x = v@[0] as nat;
            let y = limbs_value(rest);
            assert(y == 0) by (nonlinear_arith)
                requires
                    x + limb_base() * y < limb_base(),
                    limb_base() > 0,
            ;
        }
        v[0]
    }
}

/// The limbs of a number that fits in one limb.
pub fn from_small(x: u32) -> (r: Vec<u32>)
    ensures
        limbs_value(r@) == x as nat,
{
    let r = vec![x];
    proof {
        assert(limbs_value(r@.subrange(1, 1)) == 0);
    }
    r
}

/// Relies on num-bigint's `Pow<u64>` for `BigUint`: `base` raised to the
/// power `exp`.
#[verifier::external_body]
pub(crate) fn big_pow(base: u32, exp: u64) -> (r: Vec<u32>)
    ensures
        limbs_value(r@) == pow(base as int, exp as nat),
{
    num::traits::Pow::pow(num::BigUint::from(base), exp).to_u32_digits()
}

/// Relies on num-bigint's `Ord` for `BigUint`: the numeric order.
#[verifier::external_body]
pub(crate) fn big_cmp(a: &Vec<u32>, b: &Vec<u32>) -> (r: core::cmp::Ordering)
    ensures
        (r == core::cmp::Ordering::Less) == (limbs_value(a@) < limbs_value(b@)),
        (r == core::cmp::Ordering::Equal) == (limbs_value(a@) == limbs_value(b@)),
        (r == core::cmp::Ordering::Greater) == (limbs_value(a@) > limbs_value(b@)),
{
    num::BigUint::new(a.clone()).cmp(&num::BigUint::new(b.clone()))
}

/// Relies on num-integer's `Integer::div_rem` for `BigUint`: quotient and
/// remainder of a division, which panics on a zero divisor.
#[verifier::external_body]
pub(crate) fn big_div_rem(a: &Vec<u32>, b: &Vec<u32>) -> (r: (Vec<u32>, Vec<u32>))
    requires
        limbs_value(b@) > 0,
    ensures
        limbs_value(r.0@) == limbs_value(a@) / limbs_value(b@),
        limbs_value(r.1@) == limbs_value(a@) % limbs_value(b@),
{
    let (q, m) = num::Integer::div_rem(&num::BigUint::new(a.clone()), &num::BigUint::new(b.clone()));
    (q.to_u32_digits(), m.to_u32_digits())
}

/// Relies on num-bigint's `Mul` for `&BigUint`: the product.
#[verifier::external_body]
pub(crate) fn big_mul(a: &Vec<u32>, b: &Vec<u32>) -> (r: Vec<u32>)
    ensures
        limbs_value(r@) == limbs_value(a@) * limbs_value(b@),
{
    (&num::BigUint::new(a.clone()) * &num::BigUint::new(b.clone())).to_u32_digits()
}

/// Relies on num-bigint's `Add` for `&BigUint`: the sum.
#[verifier::external_body]
pub(crate) fn big_add(a: &Vec<u32>, b: &Vec<u32>) -> (r: Vec<u32>)
    ensures
        limbs_value(r@) == limbs_value(a@) + limbs_value(b@),
{
    (&num::BigUint::new(a.clone()) + &num::BigUint::new(b.clone())).to_u32_digits()
}

} // verus!
