use bigdecimal::BigDecimal;
use num::bigint::Sign;
use num::BigUint;
use pgnumeric::groups::{base10000, strip_trailing_zeroes};
use pgnumeric::numeric::{Decimal, PgNumeric};
use std::str::FromStr;

fn numeric_of(text: &str) -> PgNumeric {
    if text == "nan" {
        return PgNumeric { n: None };
    }
    let (int, exp) = BigDecimal::from_str(text).unwrap().into_bigint_and_exponent();
    let (sign, mag) = int.into_parts();
    PgNumeric {
        n: Some(Decimal {
            negative: sign == Sign::Minus,
            magnitude: mag.to_u32_digits(),
            scale: exp as u64,
        }),
    }
}

fn parts(p: &PgNumeric) -> Option<(bool, BigUint, u64)> {
    p.n.as_ref()
        .map(|d| (d.negative, BigUint::new(d.magnitude.clone()), d.scale))
}

fn round_trip(p: &PgNumeric) -> PgNumeric {
    let bytes = p.encode().unwrap();
    PgNumeric::decode(&bytes).unwrap()
}

#[test]
fn strip_trailing_zeroes_tests() {
    let cases: Vec<(Vec<u16>, Vec<u16>)> = vec![
        (vec![], vec![]),
        (vec![10, 5, 105], vec![10, 5, 105]),
        (vec![10, 5, 105, 0, 0, 0], vec![10, 5, 105]),
        (vec![0, 10, 0, 0, 5, 0, 105, 0, 0, 0], vec![0, 10, 0, 0, 5, 0, 105]),
        (vec![0], vec![]),
    ];
    for (inp, exp) in cases {
        let mut got = inp.clone();
        strip_trailing_zeroes(&mut got);
        assert_eq!(exp, got);
    }
}

#[test]
fn base10000_tests() {
    let cases: Vec<(&str, Vec<u16>)> = vec![
        ("0", vec![]),
        ("1", vec![1]),
        ("10", vec![10]),
        ("100", vec![100]),
        ("1000", vec![1000]),
        ("9999", vec![9999]),
        ("10000", vec![1, 0]),
        ("100000000", vec![1, 0, 0]),
        ("900087000", vec![9, 8, 7000]),
    ];
    for (inp, exp) in cases {
        let n = BigUint::parse_bytes(inp.as_bytes(), 10).unwrap();
        assert_eq!(exp, base10000(n.to_u32_digits()));
    }
}

#[test]
fn integration_tests() {
    let tests = [
        "10",
        "100",
        "1000",
        "10000",
        "10100",
        "30109",
        "0.1",
        "0.01",
        "0.001",
        "0.0001",
        "0.00001",
        "0.0000001",
        "1.1",
        "1.001",
        "1.00001",
        "3.14159265",
        "98756756756756756756756757657657656756756756756757656745644534534535435434567567656756757658787687676855674456345345364564.5675675675765765765765765756",
        "204093200000000000000000000000000000000",
        "nan",
    ];
    for n in tests.iter() {
        let p = numeric_of(n);
        assert_eq!(parts(&p), parts(&round_trip(&p)), "{}", n);
    }
    for n in tests.iter() {
        if *n == "nan" {
            continue;
        }
        let p = numeric_of(n).negate();
        assert_eq!(parts(&p), parts(&round_trip(&p)), "-{}", n);
    }
}
