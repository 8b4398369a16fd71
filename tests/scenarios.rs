use bigdecimal::BigDecimal;
use num::bigint::{BigInt, Sign};
use num::BigUint;
use pgnumeric::numeric::{CodecError, Decimal, PgNumeric};
use std::cmp::Ordering;
use std::str::FromStr;

fn numeric_of(text: &str) -> PgNumeric {
    let (int, exp) = BigDecimal::from_str(text).unwrap().into_bigint_and_exponent();
    let (sign, mag) = int.into_parts();
    PgNumeric {
        n: Some(Decimal {
            negative: sign == Sign::Minus,
            magnitude: mag.to_u32_digits(),
            scale: exp as u64,
        }),
    }
}

fn text_of(p: &PgNumeric) -> String {
    let d = p.n.as_ref().unwrap();
    let sign = if d.negative { Sign::Minus } else { Sign::Plus };
    let int = BigInt::from_biguint(sign, BigUint::new(d.magnitude.clone()));
    BigDecimal::new(int, d.scale as i64).to_string()
}

fn parts(p: &PgNumeric) -> Option<(bool, BigUint, u64)> {
    p.n.as_ref()
        .map(|d| (d.negative, BigUint::new(d.magnitude.clone()), d.scale))
}

fn header(bytes: &[u8]) -> (u16, i16, u16, u16) {
    (
        u16::from_be_bytes([bytes[0], bytes[1]]),
        i16::from_be_bytes([bytes[2], bytes[3]]),
        u16::from_be_bytes([bytes[4], bytes[5]]),
        u16::from_be_bytes([bytes[6], bytes[7]]),
    )
}

fn groups(bytes: &[u8]) -> Vec<u16> {
    bytes[8..]
        .chunks(2)
        .map(|c| u16::from_be_bytes([c[0], c[1]]))
        .collect()
}

fn wire(count: u16, weight: i16, sign: u16, scale: u16, digits: &[u16]) -> Vec<u8> {
    let mut out = Vec::new();
    out.extend_from_slice(&count.to_be_bytes());
    out.extend_from_slice(&weight.to_be_bytes());
    out.extend_from_slice(&sign.to_be_bytes());
    out.extend_from_slice(&scale.to_be_bytes());
    for d in digits {
        out.extend_from_slice(&d.to_be_bytes());
    }
    out
}

#[test]
fn encode_one_ten_thousandth() {
    let bytes = numeric_of("0.0001").encode().unwrap();
    // One group of weight -1: 1 * 10000^-1.
    assert_eq!(header(&bytes), (1, -1, 0x0000, 4));
    assert_eq!(groups(&bytes), vec![1]);
    assert_eq!(bytes, vec![0, 1, 0xFF, 0xFF, 0, 0, 0, 4, 0, 1]);
    let back = PgNumeric::decode(&bytes).unwrap();
    assert_eq!(text_of(&back), "0.0001");
}

#[test]
fn encode_ten_thousand_one_hundred() {
    let p = numeric_of("10100");
    let bytes = p.encode().unwrap();
    assert_eq!(header(&bytes), (2, 1, 0x0000, 0));
    assert_eq!(groups(&bytes), vec![1, 100]);
    let back = PgNumeric::decode(&bytes).unwrap();
    assert_eq!(text_of(&back), "10100");
    assert_eq!(parts(&back), parts(&p));
}

#[test]
fn decode_pi_to_eight_places() {
    let bytes = wire(3, 0, 0x0000, 8, &[3, 1415, 9265]);
    let p = PgNumeric::decode(&bytes).unwrap();
    assert_eq!(text_of(&p), "3.14159265");
    let d = p.n.unwrap();
    assert_eq!(d.scale, 8);
    assert!(!d.negative);
    assert_eq!(BigUint::new(d.magnitude), BigUint::from(314159265u32));
}

#[test]
fn encode_nan_is_a_bare_header() {
    let bytes = PgNumeric { n: None }.encode().unwrap();
    assert_eq!(bytes, vec![0x00, 0x00, 0x00, 0x00, 0xC0, 0x00, 0x00, 0x00]);
    let back = PgNumeric::decode(&bytes).unwrap();
    assert!(back.is_nan());
}

#[test]
fn round_trip_large_magnitude_with_fraction() {
    let mut text = String::new();
    for i in 0..300 {
        text.push(char::from(b'1' + (i % 9) as u8));
    }
    text.push('.');
    for i in 0..77 {
        text.push(char::from(b'0' + (i % 10) as u8));
    }
    let p = numeric_of(&text);
    let back = PgNumeric::decode(&p.encode().unwrap()).unwrap();
    assert_eq!(parts(&back), parts(&p));
    assert_eq!(text_of(&back), text);
    let neg = p.negate();
    let back = PgNumeric::decode(&neg.encode().unwrap()).unwrap();
    assert_eq!(parts(&back), parts(&neg));
    assert_eq!(text_of(&back), format!("-{}", text));
}

#[test]
fn negation_changes_only_the_sign_word() {
    for text in ["0.0001", "10100", "3.14159265", "204093200000000000000000000000000000000", "1.00001"] {
        let p = numeric_of(text);
        let a = p.encode().unwrap();
        let b = p.negate().encode().unwrap();
        assert_eq!(a.len(), b.len());
        assert_eq!(a[0..4], b[0..4]);
        assert_eq!(a[6..], b[6..]);
        assert_eq!(header(&a).2, 0x0000);
        assert_eq!(header(&b).2, 0x4000);
        assert_eq!(text_of(&PgNumeric::decode(&b).unwrap()), format!("-{}", text));
    }
}

#[test]
fn trailing_zero_groups_do_not_change_the_value() {
    let long = PgNumeric::decode(&wire(3, 0, 0x0000, 0, &[1, 0, 0])).unwrap();
    let short = PgNumeric::decode(&wire(1, 0, 0x0000, 0, &[1])).unwrap();
    assert_eq!(parts(&long), parts(&short));
    assert_eq!(text_of(&short), "1");
    let bytes = numeric_of("204093200000000000000000000000000000000").encode().unwrap();
    assert_eq!(header(&bytes), (2, 9, 0x0000, 0));
    assert_eq!(groups(&bytes), vec![204, 932]);
}

#[test]
fn zero_at_any_scale() {
    for scale in [0u64, 1, 4, 7, 65535] {
        let p = PgNumeric { n: Some(Decimal { negative: false, magnitude: vec![], scale }) };
        let bytes = p.encode().unwrap();
        assert_eq!(bytes.len(), 8);
        assert_eq!(header(&bytes).0, 0);
        assert_eq!(header(&bytes).3 as u64, scale);
        let back = PgNumeric::decode(&bytes).unwrap();
        assert_eq!(parts(&back), Some((false, BigUint::from(0u32), scale)));
    }
}

#[test]
fn negative_zero_has_no_sign() {
    let p = PgNumeric { n: Some(Decimal { negative: true, magnitude: vec![0, 0], scale: 2 }) };
    let bytes = p.encode().unwrap();
    assert_eq!(bytes, vec![0, 0, 0xFF, 0xFE, 0, 0, 0, 2]);
    let back = PgNumeric::decode(&bytes).unwrap();
    assert_eq!(parts(&back), Some((false, BigUint::from(0u32), 2)));
}

#[test]
fn scale_too_large_overflows() {
    let p = PgNumeric { n: Some(Decimal { negative: false, magnitude: vec![1], scale: 65536 }) };
    assert_eq!(p.encode(), Err(CodecError::EncodingOverflow));
}

#[test]
fn too_many_integer_groups_overflow() {
    let mut text = String::from("1");
    for _ in 0..(4 * 32768) {
        text.push('0');
    }
    assert_eq!(numeric_of(&text).encode(), Err(CodecError::EncodingOverflow));
}

#[test]
fn short_header_is_truncated() {
    assert_eq!(PgNumeric::decode(&[0, 1, 0, 0, 0]).err(), Some(CodecError::TruncatedInput));
    assert_eq!(PgNumeric::decode(&[]).err(), Some(CodecError::TruncatedInput));
}

#[test]
fn missing_digit_groups_are_truncated() {
    let mut bytes = wire(2, 0, 0x0000, 0, &[1, 2]);
    bytes.pop();
    assert_eq!(PgNumeric::decode(&bytes).err(), Some(CodecError::TruncatedInput));
}

#[test]
fn unknown_sign_is_malformed() {
    let bytes = wire(1, 0, 0x1234, 0, &[1]);
    assert_eq!(PgNumeric::decode(&bytes).err(), Some(CodecError::MalformedSign));
}

#[test]
fn nan_needs_no_digit_groups() {
    let p = PgNumeric::decode(&wire(5, 0, 0xC000, 0, &[])).unwrap();
    assert!(p.is_nan());
}

#[test]
fn decode_truncates_below_the_scale() {
    let p = PgNumeric::decode(&wire(2, 0, 0x4000, 2, &[1, 2345])).unwrap();
    assert_eq!(text_of(&p), "-1.23");
}

#[test]
fn comparison_follows_the_number() {
    let nan = PgNumeric { n: None };
    let one = numeric_of("1.0");
    let one_again = numeric_of("1.00");
    let half = numeric_of("0.5");
    let minus_two = numeric_of("2").negate();
    assert_eq!(one.compare(&one_again), Ordering::Equal);
    assert!(one == one_again);
    assert_eq!(half.compare(&one), Ordering::Less);
    assert_eq!(minus_two.compare(&half), Ordering::Less);
    assert_eq!(nan.compare(&minus_two), Ordering::Less);
    assert_eq!(nan.compare(&PgNumeric { n: None }), Ordering::Equal);
    assert!(one > half);
    assert!(numeric_of("3").negate() < minus_two);
}
