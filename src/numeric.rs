//! The decimal value, its mathematical model, and the encoder and decoder
//! between it and the wire bytes.
use crate::bignum::{big_add, big_div_rem, big_mul, big_pow, from_small, is_zero, limbs_value};
use crate::groups::{
    base10000, group_base, group_value, groups_of, lemma_concat_value, lemma_groups_len,
    lemma_groups_of, lemma_strip_zeros, lemma_zero_groups, strip_trailing_zeroes, strip_zeros,
    zero_groups,
};
use crate::wire::{
    push_groups, push_u16, read_u16, signed_word, u16_at, wire_bytes, wire_digits, weight_word,
    HEADER_LEN, SIGN_NAN, SIGN_NEGATIVE, SIGN_POSITIVE,
};
use vstd::arithmetic::div_mod::{lemma_div_by_multiple, lemma_div_multiples_vanish_quotient};
use vstd::arithmetic::power::{
    lemma_pow0, lemma_pow_adds, lemma_pow_multiplies, lemma_pow_positive, pow,
};
use vstd::prelude::*;

verus! {

/// A finite decimal: `(-1)^negative * magnitude / 10^scale`. The magnitude is
/// held as little-endian base 2^32 limbs; a zero magnitude has no sign.
#[derive(Clone, Debug)]
pub struct Decimal {
    pub negative: bool,
    pub magnitude: Vec<u32>,
    pub scale: u64,
}

/// A value of the NUMERIC type: a decimal, or not-a-number (`None`).
#[derive(Clone, Debug)]
pub struct PgNumeric {
    pub n: Option<Decimal>,
}

/// Why encoding or decoding failed.
#[derive(Clone, Copy, Debug, PartialEq, Eq, Structural)]
pub enum CodecError {
    /// A header field does not fit in its 16-bit word.
    EncodingOverflow,
    /// Fewer bytes than the header, or than its digit count asks for.
    TruncatedInput,
    /// The sign word is none of the three known codes.
    MalformedSign,
}

/// What a NUMERIC value means.
pub enum NumericModel {
    NaN,
    Value { negative: bool, magnitude: nat, scale: nat },
}

/// The model of a decimal: zero is never negative.
pub open spec fn decimal_model(negative: bool, magnitude: nat, scale: nat) -> NumericModel {
    NumericModel::Value { negative: negative && magnitude > 0, magnitude, scale }
}

impl View for Decimal {
    type V = NumericModel;

    open spec fn view(&self) -> NumericModel {
        decimal_model(self.negative, limbs_value(self.magnitude@), self.scale as nat)
    }
}

impl View for PgNumeric {
    type V = NumericModel;

    open spec fn view(&self) -> NumericModel {
        match self.n {
            None => NumericModel::NaN,
            Some(d) => d@,
        }
    }
}

/// `10^e` as a natural number.
pub open spec fn pow10(e: nat) -> nat {
    pow(10, e) as nat
}

/// Scales a magnitude by `10^e`, truncating where `e` is negative.
pub open spec fn rescale(m: nat, e: int) -> nat {
    if e >= 0 {
        m * pow10(e as nat)
    } else {
        m / pow10((-e) as nat)
    }
}

/// What the wire bytes decode to.
pub open spec fn decoding_of(b: Seq<u8>) -> Result<NumericModel, CodecError> {
    if b.len() < 8 {
        Err(CodecError::TruncatedInput)
    } else {
        let n = u16_at(b, 0) as nat;
        let w = signed_word(u16_at(b, 2));
        let sign = u16_at(b, 4);
        let s = u16_at(b, 6) as nat;
        if sign == SIGN_NAN {
            Ok(NumericModel::NaN)
        } else if sign != SIGN_POSITIVE && sign != SIGN_NEGATIVE {
            Err(CodecError::MalformedSign)
        } else if b.len() < 8 + 2 * n {
            Err(CodecError::TruncatedInput)
        } else {
            let m = rescale(group_value(wire_digits(b, n)), 4 * (w - n + 1) + s);
            Ok(decimal_model(sign == SIGN_NEGATIVE, m, s))
        }
    }
}

/// Multiplication by -1: not-a-number stays, zero stays non-negative.
pub open spec fn negation_of(d: NumericModel) -> NumericModel {
    match d {
        NumericModel::NaN => NumericModel::NaN,
        NumericModel::Value { negative, magnitude, scale } => decimal_model(
            !negative,
            magnitude,
            scale,
        ),
    }
}

/// The model of a decode result.
pub open spec fn decoded(r: Result<PgNumeric, CodecError>) -> Result<NumericModel, CodecError> {
    match r {
        Ok(p) => Ok(p@),
        Err(e) => Err(e),
    }
}

/// How many fractional digit groups a scale asks for (one for scale zero).
pub open spec fn want_groups(s: nat) -> nat {
    if s == 0 {
        1
    } else {
        (1 + (s - 1) / 4) as nat
    }
}

/// The power of ten that moves the fractional digits onto the group grid:
/// `s + shift` is a whole number of groups.
pub open spec fn pad_shift(s: nat) -> nat {
    (4 * want_groups(s) - s) as nat
}

/// The groups of the integer part.
pub open spec fn integer_groups(m: nat, s: nat) -> Seq<u16> {
    groups_of(m / pow10(s))
}

/// The groups of the fractional part, moved onto the group grid; leading zero
/// groups are not among them.
pub open spec fn fraction_groups(m: nat, s: nat) -> Seq<u16> {
    groups_of((m % pow10(s)) * pow10(pad_shift(s)))
}

/// How many leading zero groups the fractional part lacks.
pub open spec fn fraction_correction(m: nat, s: nat) -> nat {
    (want_groups(s) - fraction_groups(m, s).len()) as nat
}

/// The weight of the first group written.
pub open spec fn encoded_weight(m: nat, s: nat) -> int {
    if integer_groups(m, s).len() == 0 {
        -1 - fraction_correction(m, s)
    } else {
        integer_groups(m, s).len() - 1
    }
}

/// The groups written, before trailing zero groups are dropped.
pub open spec fn padded_groups(m: nat, s: nat) -> Seq<u16> {
    if integer_groups(m, s).len() == 0 {
        fraction_groups(m, s)
    } else {
        integer_groups(m, s) + zero_groups(fraction_correction(m, s)) + fraction_groups(m, s)
    }
}

/// The groups written.
pub open spec fn encoded_groups(m: nat, s: nat) -> Seq<u16> {
    strip_zeros(padded_groups(m, s))
}

/// The bytes of not-a-number: a header alone.
pub open spec fn nan_bytes() -> Seq<u8> {
    seq![0u8, 0u8, 0u8, 0u8, 0xC0u8, 0u8, 0u8, 0u8]
}

/// What a value encodes to.
pub open spec fn encoding_of(d: NumericModel) -> Result<Seq<u8>, CodecError> {
    match d {
        NumericModel::NaN => Ok(nan_bytes()),
        NumericModel::Value { negative, magnitude, scale } => {
            if scale > 65535 || integer_groups(magnitude, scale).len() > 32768
                || encoded_groups(magnitude, scale).len() > 65535 {
                Err(CodecError::EncodingOverflow)
            } else {
                Ok(
                    wire_bytes(
                        encoded_groups(magnitude, scale).len(),
                        encoded_weight(magnitude, scale),
                        if negative {
                            SIGN_NEGATIVE
                        } else {
                            SIGN_POSITIVE
                        },
                        scale,
                        encoded_groups(magnitude, scale),
                    ),
                )
            }
        },
    }
}

/// The model of an encode result.
pub open spec fn encoded(r: Result<Vec<u8>, CodecError>) -> Result<Seq<u8>, CodecError> {
    match r {
        Ok(v) => Ok(v@),
        Err(e) => Err(e),
    }
}

/// One digit group spans four decimal digits.
pub proof fn lemma_ten_thousand()
    ensures
        pow(10, 4) == 10000,
{
    reveal_with_fuel(pow, 5);
}

/// Fractional groups never outnumber the groups a scale asks for.
pub proof fn lemma_fraction_len(m: nat, s: nat)
    ensures
        fraction_groups(m, s).len() <= want_groups(s),
{
    let p = pow10(s);
    let k = pad_shift(s);
    lemma_pow_positive(10, s);
    lemma_pow_positive(10, k);
    let r = m % p;
    assert(r < p);
    assert(r * pow10(k) < p * pow10(k)) by (nonlinear_arith)
        requires
            r < p,
            pow10(k) > 0,
    ;
    lemma_pow_adds(10, s, k);
    assert(s + k == 4 * want_groups(s));
    lemma_pow_multiplies(10, 4, want_groups(s));
    lemma_ten_thousand();
    lemma_groups_len(r * pow10(k), want_groups(s));
}

/// Multiplying by `10^k` before rescaling is rescaling by `k` more.
pub proof fn lemma_rescale_shift(g: nat, k: nat, e: int)
    ensures
        rescale(g * pow10(k), e) == rescale(g, e + k),
{
    lemma_pow_positive(10, k);
    let pk = pow(10, k);
    if e >= 0 {
        let en = e as nat;
        lemma_pow_positive(10, en);
        lemma_pow_adds(10, en, k);
        let pe = pow(10, en);
        assert((g * pk) * pe == g * (pe * pk)) by (nonlinear_arith);
        assert(pow10(k) == pk && pow10(en) == pe && pow10(en + k) == pe * pk);
        assert(rescale(g * pow10(k), e) == (g * pk) * pe);
        assert(rescale(g, e + k) == g * (pe * pk));
    } else if e + k >= 0 {
        let a = (-e) as nat;
        let b = (k - a) as nat;
        lemma_pow_positive(10, a);
        lemma_pow_positive(10, b);
        lemma_pow_adds(10, a, b);
        assert(a + b == k);
        let pa = pow(10, a);
        let pb = pow(10, b);
        assert(g * pk == (g * pb) * pa) by (nonlinear_arith)
            requires
                pk == pa * pb,
        ;
        lemma_div_by_multiple(g * pb, pa);
        assert(((e + k) as nat) == b);
        assert(pow10(k) == pk && pow10(a) == pa && pow10(b) == pb);
        assert(rescale(g * pow10(k), e) == (g * pk) / pa);
        assert(rescale(g, e + k) == g * pb);
    } else {
        let a = (-e) as nat;
        let c = (a - k) as nat;
        lemma_pow_positive(10, a);
        lemma_pow_positive(10, c);
        lemma_pow_adds(10, k, c);
        assert(k + c == a);
        let pc = pow(10, c);
        lemma_div_multiples_vanish_quotient(pk, g as int, pc);
        assert(((-(e + k)) as nat) == c);
        assert(pow10(k) == pk && pow10(c) == pc && pow10(a) == pk * pc);
        assert(rescale(g * pow10(k), e) == (pk * g) / (pk * pc));
        assert(rescale(g, e + k) == (g as int) / pc);
    }
}

/// `10000^k` is `10^(4k)`.
pub proof fn lemma_group_power(k: nat)
    ensures
        pow(group_base() as int, k) == pow10(4 * k),
        pow10(4 * k) > 0,
{
    lemma_ten_thousand();
    lemma_pow_multiplies(10, 4, k);
    lemma_pow_positive(10, 4 * k);
}

/// The groups written, shifted to the weight written, give back the
/// magnitude, and the weight stays within one group of the fraction.
pub proof fn lemma_encoded_value(m: nat, s: nat)
    ensures
        rescale(
            group_value(encoded_groups(m, s)),
            4 * (encoded_weight(m, s) - encoded_groups(m, s).len() + 1) + s,
        ) == m,
        encoded_weight(m, s) >= -1 - want_groups(s),
{
    let p = pow10(s);
    let f = pad_shift(s);
    let want = want_groups(s);
    let q = m / p;
    let r = m % p;
    let i = integer_groups(m, s);
    let fr = fraction_groups(m, s);
    let c = fraction_correction(m, s);
    let pp = padded_groups(m, s);
    let d = encoded_groups(m, s);
    lemma_pow_positive(10, s);
    lemma_pow_positive(10, f);
    let pf = pow10(f);
    lemma_fraction_len(m, s);
    lemma_groups_of(q);
    lemma_groups_of(r * pf);
    assert(m == q * p + r) by (nonlinear_arith)
        requires
            p > 0,
            q == m / p,
            r == m % p,
    ;
    assert(4 * want == s + f);
    lemma_pow_adds(10, s, f);
    lemma_group_power(want);
    assert(pow(group_base() as int, want) == p * pf);
    if i.len() == 0 {
        assert(q == 0);
        assert(q * p == 0) by (nonlinear_arith)
            requires
                q == 0,
        ;
        assert(m == r);
        assert(pp == fr);
        assert(group_value(fr) == r * pf);
        assert(group_value(pp) == m * pf);
        assert(pp.len() == fr.len());
    } else {
        let z = zero_groups(c);
        lemma_zero_groups(c);
        lemma_concat_value(i, z);
        lemma_concat_value(i + z, fr);
        lemma_pow_adds(group_base() as int, c, fr.len());
        assert(c + fr.len() == want);
        let gi = group_value(i) as int;
        let pc = pow(group_base() as int, c);
        let pr = pow(group_base() as int, fr.len());
        assert(group_value(pp) == (gi * pc) * pr + r * pf);
        assert((gi * pc) * pr + r * pf == (q * p + r) * pf) by (nonlinear_arith)
            requires
                gi == q,
                pc * pr == p * pf,
        ;
        assert(group_value(pp) == m * pf);
        assert(pp.len() == i.len() + want);
    }
    lemma_strip_zeros(pp);
    let t = (pp.len() - d.len()) as nat;
    lemma_group_power(t);
    assert(group_value(d) * pow10(4 * t) == m * pf);
    assert(4 * (encoded_weight(m, s) - d.len() + 1) + s == -(f as int) + 4 * t);
    lemma_rescale_shift(group_value(d), 4 * t, -(f as int));
    lemma_rescale_shift(m, f, -(f as int));
    lemma_pow0(10);
    assert(pow10(0) == 1);
    assert(m * pow10(0) == m);
    assert(rescale(m, 0) == m * pow10(0));
    assert(rescale(m * pf, -(f as int)) == m);
    assert(rescale(group_value(d), -(f as int) + 4 * t) == m);
}

/// Appends `c` zero groups.
fn push_zero_groups(digits: &mut Vec<u16>, c: usize)
    ensures
        final(digits)@ == old(digits)@ + zero_groups(c as nat),
{
    let mut i: usize = 0;
    while i < c
        invariant
            i <= c,
            digits@ == old(digits)@ + zero_groups(i as nat),
        decreases c - i,
    {
        digits.push(0);
        i = i + 1;
        assert(digits@ =~= old(digits)@ + zero_groups(i as nat));
    }
}

/// The word that carries a weight in the 16-bit signed range.
fn weight_to_word(w: i64) -> (r: u16)
    requires
        -32768 <= w <= 32767,
    ensures
        r == weight_word(w as int),
{
    if w < 0 {
        (w + 65536) as u16
    } else {
        w as u16
    }
}

/// Encodes a finite decimal.
fn encode_decimal(d: &Decimal) -> (r: Result<Vec<u8>, CodecError>)
    ensures
        encoded(r) == encoding_of(d@),
{
    if d.scale > 65535 {
        return Err(CodecError::EncodingOverflow);
    }
    let ghost m = limbs_value(d.magnitude@);
    let ghost sn = d.scale as nat;
    let s = d.scale as u32;
    let p = big_pow(10, s as u64);
    proof {
        lemma_pow_positive(10, sn);
    }
    let (q, rem) = big_div_rem(&d.magnitude, &p);
    let int_digits = base10000(q);
    let want: u32 = if s == 0 {
        1
    } else {
        1 + (s - 1) / 4
    };
    let shift: u32 = 4 * want - s;
    let frac_digits = base10000(big_mul(&rem, &big_pow(10, shift as u64)));
    proof {
        lemma_fraction_len(m, sn);
        assert(int_digits@ == integer_groups(m, sn));
        assert(frac_digits@ == fraction_groups(m, sn));
    }
    if int_digits.len() > 32768 {
        return Err(CodecError::EncodingOverflow);
    }
    let correction: usize = want as usize - frac_digits.len();
    let weight: i64 = if int_digits.len() == 0 {
        -1 - correction as i64
    } else {
        int_digits.len() as i64 - 1
    };
    let mut digits: Vec<u16> = Vec::new();
    if int_digits.len() > 0 {
        let mut ints = int_digits;
        digits.append(&mut ints);
        push_zero_groups(&mut digits, correction);
    }
    let mut fracs = frac_digits;
    digits.append(&mut fracs);
    proof {
        assert(digits@ =~= padded_groups(m, sn));
    }
    strip_trailing_zeroes(&mut digits);
    if digits.len() > 65535 {
        return Err(CodecError::EncodingOverflow);
    }
    let negative = d.negative && !is_zero(&d.magnitude);
    let mut out: Vec<u8> = Vec::new();
    push_u16(&mut out, digits.len() as u16);
    push_u16(&mut out, weight_to_word(weight));
    push_u16(
        &mut out,
        if negative {
            SIGN_NEGATIVE
        } else {
            SIGN_POSITIVE
        },
    );
    push_u16(&mut out, s as u16);
    push_groups(&mut out, &digits);
    proof {
        assert(out@ =~= wire_bytes(
            digits@.len(),
            weight as int,
            if negative {
                SIGN_NEGATIVE
            } else {
                SIGN_POSITIVE
            },
            sn,
            digits@,
        ));
    }
    Ok(out)
}

impl PgNumeric {
    /// Whether the value is not-a-number.
    pub fn is_nan(&self) -> (r: bool)
        ensures
            r == (self@ is NaN),
    {
        self.n.is_none()
    }

    /// Multiplies the value by -1: the sign flips where the magnitude is not
    /// zero; magnitude and scale stay as they are.
    pub fn negate(&self) -> (r: PgNumeric)
        ensures
            r@ == negation_of(self@),
    {
        match &self.n {
            None => PgNumeric { n: None },
            Some(d) => {
                let magnitude = d.magnitude.clone();
                assert(magnitude@ =~= d.magnitude@);
                let negative = !d.negative && !is_zero(&d.magnitude);
                PgNumeric { n: Some(Decimal { negative, magnitude, scale: d.scale }) }
            },
        }
    }

    /// Encodes the value into its wire bytes. Fails where the scale, the
    /// weight or the number of digit groups does not fit in its header word.
    pub fn encode(&self) -> (r: Result<Vec<u8>, CodecError>)
        ensures
            encoded(r) == encoding_of(self@),
    {
        match &self.n {
            None => {
                let r = vec![0u8, 0, 0, 0, 0xC0, 0, 0, 0];
                assert(r@ =~= nan_bytes());
                Ok(r)
            },
            Some(d) => encode_decimal(d),
        }
    }

    /// Decodes one value from its wire bytes. Bytes after the digit groups
    /// are ignored.
    pub fn decode(raw: &[u8]) -> (r: Result<PgNumeric, CodecError>)
        ensures
            decoded(r) == decoding_of(raw@),
    {
        if raw.len() < HEADER_LEN {
            return Err(CodecError::TruncatedInput);
        }
        let n = read_u16(raw, 0);
        let wu = read_u16(raw, 2);
        let sign = read_u16(raw, 4);
        let s = read_u16(raw, 6);
        if sign == SIGN_NAN {
            return Ok(PgNumeric { n: None });
        }
        if sign != SIGN_POSITIVE && sign != SIGN_NEGATIVE {
            return Err(CodecError::MalformedSign);
        }
        if raw.len() - HEADER_LEN < 2 * (n as usize) {
            return Err(CodecError::TruncatedInput);
        }
        let ghost digits = wire_digits(raw@, n as nat);
        let radix = from_small(10000);
        let mut mag: Vec<u32> = Vec::new();
        let mut i: usize = 0;
        while i < n as usize
            invariant
                i <= n,
                raw@.len() >= 8 + 2 * n,
                digits == wire_digits(raw@, n as nat),
                limbs_value(radix@) == 10000,
                limbs_value(mag@) == group_value(digits.take(i as int)),
            decreases n - i,
        {
            let g = read_u16(raw, HEADER_LEN + 2 * i);
            mag = big_add(&big_mul(&mag, &radix), &from_small(g as u32));
            proof {
                let t = digits.take(i as int + 1);
                assert(t.drop_last() =~= digits.take(i as int));
                assert(t.last() == g);
            }
            i = i + 1;
        }
        proof {
            assert(digits.take(i as int) =~= digits);
        }
        let w: i64 = if wu >= 32768 {
            wu as i64 - 65536
        } else {
            wu as i64
        };
        let e: i64 = 4 * (w - n as i64 + 1) + s as i64;
        let m = if e >= 0 {
            big_mul(&mag, &big_pow(10, e as u64))
        } else {
            proof {
                lemma_pow_positive(10, (-e) as nat);
            }
            big_div_rem(&mag, &big_pow(10, (-e) as u64)).0
        };
        let negative = sign == SIGN_NEGATIVE && !is_zero(&m);
        Ok(PgNumeric { n: Some(Decimal { negative, magnitude: m, scale: s as u64 }) })
    }
}

} // verus!
