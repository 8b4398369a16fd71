//! Base-10000 digit groups: splitting a number into groups, the number that a
//! group sequence denotes, and dropping trailing zero groups.
use crate::bignum::{big_div_rem, from_small, is_zero, limbs_value, small_value};
use vstd::arithmetic::power::{lemma_pow_adds, pow};
use vstd::prelude::*;

verus! {

/// The radix of one digit group.
pub open spec fn group_base() -> nat {
    10000
}

/// The number that a sequence of digit groups denotes, most significant first.
pub open spec fn group_value(s: Seq<u16>) -> nat
    decreases s.len(),
{
    if s.len() == 0 {
        0
    } else {
        group_value(s.drop_last()) * group_base() + s.last() as nat
    }
}

/// The base-10000 groups of `n`, most significant first; empty for zero.
pub open spec fn groups_of(n: nat) -> Seq<u16>
    decreases n,
{
    if n == 0 {
        seq![]
    } else {
        groups_of(n / group_base()).push((n % group_base()) as u16)
    }
}

/// `s` without its trailing zero groups.
pub open spec fn strip_zeros(s: Seq<u16>) -> Seq<u16>
    decreases s.len(),
{
    if s.len() > 0 && s.last() == 0 {
        strip_zeros(s.drop_last())
    } else {
        s
    }
}

/// `c` zero groups.
pub open spec fn zero_groups(c: nat) -> Seq<u16> {
    Seq::new(c, |i: int| 0u16)
}

/// The groups of `n` denote `n`, and each is below the radix.
pub proof fn lemma_groups_of(n: nat)
    ensures
        group_value(groups_of(n)) == n,
        forall|i: int| 0 <= i < groups_of(n).len() ==> (#[trigger] groups_of(n)[i]) < 10000,
    decreases n,
{
    if n > 0 {
        lemma_groups_of(n / group_base());
        let g = groups_of(n);
        assert(g.drop_last() =~= groups_of(n / group_base()));
    }
}

/// A number below `10000^k` has at most `k` groups.
pub proof fn lemma_groups_len(n: nat, k: nat)
    requires
        n < pow(group_base() as int, k),
    ensures
        groups_of(n).len() <= k,
    decreases n,
{
    reveal(pow);
    if n > 0 {
        assert(k > 0);
        let k1 = (k - 1) as nat;
        assert(pow(group_base() as int, k) == group_base() * pow(group_base() as int, k1));
        assert(n / group_base() < pow(group_base() as int, k1)) by (nonlinear_arith)
            requires
                n < group_base() * pow(group_base() as int, k1),
                group_base() == 10000,
        ;
        lemma_groups_len(n / group_base(), k1);
    }
}

/// The value of a concatenation: the first part is shifted by the length of
/// the second.
pub proof fn lemma_concat_value(a: Seq<u16>, b: Seq<u16>)
    ensures
        group_value(a + b) == group_value(a) * pow(group_base() as int, b.len()) + group_value(b),
    decreases b.len(),
{
    reveal(pow);
    if b.len() == 0 {
        assert(a + b =~= a);
        assert(pow(group_base() as int, 0) == 1);
    } else {
        let b1 = b.drop_last();
        lemma_concat_value(a, b1);
        assert((a + b).drop_last() =~= a + b1);
        assert((a + b).last() == b.last());
        assert(group_value(a + b) == group_value(a + b1) * 10000 + b.last());
        assert(group_value(b) == group_value(b1) * 10000 + b.last());
        let p = pow(group_base() as int, b1.len());
        assert(pow(group_base() as int, b.len()) == group_base() * p);
        let va = group_value(a) as int;
        let vb = group_value(b1) as int;
        assert((va * p + vb) * 10000 + b.last() == va * (10000 * p) + (vb * 10000 + b.last()))
            by (nonlinear_arith);
    }
}

/// Zero groups denote zero.
pub proof fn lemma_zero_groups(c: nat)
    ensures
        group_value(zero_groups(c)) == 0,
    decreases c,
{
    if c > 0 {
        assert(zero_groups(c).drop_last() =~= zero_groups((c - 1) as nat));
        assert(zero_groups(c).last() == 0);
        lemma_zero_groups((c - 1) as nat);
        let z = zero_groups(c);
        assert(group_value(z) == group_value(z.drop_last()) * group_base() + z.last() as nat);
    } else {
        assert(zero_groups(c).len() == 0);
    }
}

/// Stripping keeps a prefix, leaves no trailing zero, and divides the value by
/// one radix for each group dropped.
pub proof fn lemma_strip_zeros(s: Seq<u16>)
    ensures
        strip_zeros(s).len() <= s.len(),
        strip_zeros(s) =~= s.subrange(0, strip_zeros(s).len() as int),
        strip_zeros(s).len() == 0 || strip_zeros(s).last() != 0,
        group_value(strip_zeros(s)) * pow(group_base() as int, (s.len() - strip_zeros(s).len()) as nat)
            == group_value(s),
    decreases s.len(),
{
    reveal(pow);
    if s.len() > 0 && s.last() == 0 {
        let s1 = s.drop_last();
        lemma_strip_zeros(s1);
        let t = strip_zeros(s1);
        let d = (s1.len() - t.len()) as nat;
        assert(((s.len() - t.len()) as nat) == d + 1);
        assert(pow(group_base() as int, d + 1) == group_base() * pow(group_base() as int, d));
        let v = group_value(t) as int;
        let p = pow(group_base() as int, d);
        assert(v * (10000 * p) == (v * p) * 10000) by (nonlinear_arith);
    } else {
        assert(s.subrange(0, s.len() as int) =~= s);
    }
}

/// Splits a number into its base-10000 digit groups, most significant first.
/// Zero gives no group.
pub fn base10000(n: Vec<u32>) -> (r: Vec<u16>)
    ensures
        r@ == groups_of(limbs_value(n@)),
        group_value(r@) == limbs_value(n@),
        forall|i: int| 0 <= i < r@.len() ==> r@[i] < 10000,
{
    let ghost orig = limbs_value(n@);
    let radix = from_small(10000);
    let mut cur = n;
    let mut res: Vec<u16> = Vec::new();
    while !is_zero(&cur)
        invariant
            limbs_value(radix@) == 10000,
            groups_of(orig) == groups_of(limbs_value(cur@)) + res@,
        decreases limbs_value(cur@),
    {
        let (q, m) = big_div_rem(&cur, &radix);
        let d = small_value(&m);
        proof {
            let c = limbs_value(cur@);
            assert(groups_of(c) == groups_of(c / 10000).push(d as u16));
            assert(groups_of(c / 10000).push(d as u16) + res@ =~= groups_of(c / 10000) + (
            seq![d as u16] + res@));
        }
        res.insert(0, d as u16);
        cur = q;
    }
    proof {
        assert(groups_of(orig) =~= res@);
        lemma_groups_of(orig);
    }
    res
}

/// Drops the trailing zero groups of `digits`; the groups before the last
/// non-zero one stay as they are.
pub fn strip_trailing_zeroes(digits: &mut Vec<u16>)
    ensures
        final(digits)@ == strip_zeros(old(digits)@),
{
    while digits.len() > 0 && digits[digits.len() - 1] == 0
        invariant
            strip_zeros(old(digits)@) == strip_zeros(digits@),
        decreases digits.len(),
    {
        let ghost before = digits@;
        digits.pop();
        proof {
            assert(digits@ =~= before.drop_last());
        }
    }
}

} // verus!
