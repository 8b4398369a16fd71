//! Laws that relate the encoder and the decoder.
use crate::groups::{group_value, groups_of, lemma_strip_zeros, strip_zeros};
use crate::numeric::{
    decimal_model, decoding_of, encoding_of, encoded_groups, encoded_weight, fraction_groups,
    integer_groups, lemma_encoded_value, lemma_group_power, lemma_rescale_shift, nan_bytes,
    negation_of, padded_groups, pow10, want_groups, CodecError, NumericModel,
};
use crate::wire::{lemma_wire_read, u16_at, wire_bytes, SIGN_NEGATIVE, SIGN_POSITIVE};
use vstd::arithmetic::power::lemma_pow_positive;
use vstd::prelude::*;

verus! {

/// A successful encoding has header fields that fit their words.
proof fn lemma_encoded_fits(negative: bool, magnitude: nat, scale: nat)
    requires
        encoding_of(decimal_model(negative, magnitude, scale)) is Ok,
    ensures
        scale <= 65535,
        encoded_groups(magnitude, scale).len() <= 65535,
        -32768 <= encoded_weight(magnitude, scale) <= 32767,
{
    lemma_encoded_value(magnitude, scale);
    assert(want_groups(scale) <= 16384);
}

/// Decoding what a finite decimal encodes to gives back its sign, its
/// magnitude and its scale.
pub proof fn lemma_round_trip(negative: bool, magnitude: nat, scale: nat)
    requires
        encoding_of(decimal_model(negative, magnitude, scale)) is Ok,
    ensures
        decoding_of(encoding_of(decimal_model(negative, magnitude, scale))->Ok_0) == Ok::<
            NumericModel,
            CodecError,
        >(decimal_model(negative, magnitude, scale)),
{
    let d = encoded_groups(magnitude, scale);
    let w = encoded_weight(magnitude, scale);
    let sign = if negative && magnitude > 0 {
        SIGN_NEGATIVE
    } else {
        SIGN_POSITIVE
    };
    lemma_encoded_fits(negative, magnitude, scale);
    lemma_encoded_value(magnitude, scale);
    lemma_wire_read(d.len(), w, sign, scale, d);
}

/// Not-a-number encodes to a header of eight bytes alone, which decodes to
/// not-a-number.
pub proof fn lemma_nan_round_trip()
    ensures
        encoding_of(NumericModel::NaN) == Ok::<Seq<u8>, CodecError>(nan_bytes()),
        nan_bytes().len() == 8,
        decoding_of(nan_bytes()) == Ok::<NumericModel, CodecError>(NumericModel::NaN),
{
    assert(u16_at(nan_bytes(), 4) == 0xC000);
}

/// Negating a finite decimal changes its encoding in the sign word alone:
/// digit count, weight, scale and digit groups stay.
pub proof fn lemma_sign_symmetry(negative: bool, magnitude: nat, scale: nat)
    requires
        encoding_of(decimal_model(negative, magnitude, scale)) is Ok,
    ensures
        ({
            let a = encoding_of(decimal_model(negative, magnitude, scale))->Ok_0;
            let r = encoding_of(negation_of(decimal_model(negative, magnitude, scale)));
            &&& r is Ok
            &&& (r->Ok_0).len() == a.len()
            &&& forall|i: int|
                0 <= i < a.len() && !(4 <= i < 6) ==> #[trigger] (r->Ok_0)[i] == a[i]
            &&& u16_at(a, 4) == (if negative && magnitude > 0 {
                SIGN_NEGATIVE
            } else {
                SIGN_POSITIVE
            })
            &&& u16_at(r->Ok_0, 4) == (if !negative && magnitude > 0 {
                SIGN_NEGATIVE
            } else {
                SIGN_POSITIVE
            })
        }),
{
    let d = encoded_groups(magnitude, scale);
    let w = encoded_weight(magnitude, scale);
    let sa = if negative && magnitude > 0 {
        SIGN_NEGATIVE
    } else {
        SIGN_POSITIVE
    };
    let sb = if !negative && magnitude > 0 {
        SIGN_NEGATIVE
    } else {
        SIGN_POSITIVE
    };
    lemma_encoded_fits(negative, magnitude, scale);
    lemma_wire_read(d.len(), w, sa, scale, d);
    lemma_wire_read(d.len(), w, sb, scale, d);
}

/// Dropping trailing zero digit groups changes the bytes but not what they
/// decode to.
pub proof fn lemma_strip_keeps_value(weight: int, sign: u16, scale: nat, digits: Seq<u16>)
    requires
        digits.len() <= 65535,
        -32768 <= weight <= 32767,
        scale <= 65535,
    ensures
        decoding_of(wire_bytes(digits.len(), weight, sign, scale, digits)) == decoding_of(
            wire_bytes(strip_zeros(digits).len(), weight, sign, scale, strip_zeros(digits)),
        ),
{
    let t = strip_zeros(digits);
    lemma_strip_zeros(digits);
    lemma_wire_read(digits.len(), weight, sign, scale, digits);
    lemma_wire_read(t.len(), weight, sign, scale, t);
    let k = (digits.len() - t.len()) as nat;
    lemma_group_power(k);
    let e = 4 * (weight - digits.len() + 1) + scale;
    lemma_rescale_shift(group_value(t), 4 * k, e);
    assert(e + 4 * k == 4 * (weight - t.len() + 1) + scale);
}

/// Zero at any scale that fits encodes with no digit group, and decodes to
/// zero at that scale.
pub proof fn lemma_zero_at_scale(scale: nat)
    requires
        scale <= 65535,
    ensures
        ({
            let r = encoding_of(decimal_model(false, 0, scale));
            &&& r is Ok
            &&& (r->Ok_0).len() == 8
            &&& u16_at(r->Ok_0, 0) == 0
            &&& decoding_of(r->Ok_0) == Ok::<NumericModel, CodecError>(
                decimal_model(false, 0, scale),
            )
        }),
{
    lemma_pow_positive(10, scale);
    assert(0nat / pow10(scale) == 0);
    assert(0nat % pow10(scale) == 0);
    assert(0nat * pow10(crate::numeric::pad_shift(scale)) == 0);
    assert(groups_of(0) =~= Seq::<u16>::empty());
    assert(integer_groups(0, scale).len() == 0);
    assert(fraction_groups(0, scale).len() == 0);
    assert(padded_groups(0, scale).len() == 0);
    assert(encoded_groups(0, scale).len() == 0);
    lemma_encoded_value(0, scale);
    assert(want_groups(scale) <= 16384);
    lemma_wire_read(0, encoded_weight(0, scale), SIGN_POSITIVE, scale, encoded_groups(0, scale));
    lemma_round_trip(false, 0, scale);
}

} // verus!
