use exact_ledger::parser::{parse_literal, parse_mixed_number, RawLiteral};
use exact_ledger::rational::ExactRational;

#[test]
fn rational_from_number() {
    let s = parse_literal(&RawLiteral::Integer(321)).unwrap();
    assert_eq!(s, ExactRational::from_integer(321));
}

#[test]
fn rational_from_number_large() {
    let s = parse_literal(&RawLiteral::Integer(321)).unwrap();
    assert_eq!(s, ExactRational::from_integer(321));
}

#[test]
fn rational_from_string_whole() {
    let s = parse_literal(&RawLiteral::Text("321".to_string())).unwrap();
    assert_eq!(s, ExactRational::from_integer(321));
}

#[test]
fn rational_from_string_fractional() {
    let s = parse_literal(&RawLiteral::Text("5/9".to_string())).unwrap();
    assert_eq!(s, ExactRational::from_fraction(5, 9));
}

#[test]
fn fraction_is_reduced() {
    assert_eq!(
        parse_mixed_number("2/4").unwrap(),
        ExactRational::from_fraction(1, 2)
    );
    assert_eq!(
        parse_mixed_number("007").unwrap(),
        ExactRational::from_integer(7)
    );
}

#[test]
fn mixed_number_sign_applies_to_whole() {
    // -(3 + 1/2), not (-3) + 1/2
    assert_eq!(
        parse_mixed_number("-3 1/2").unwrap(),
        ExactRational::from_fraction(-7, 2)
    );
    assert_eq!(
        parse_mixed_number("3 1/2").unwrap(),
        ExactRational::from_fraction(7, 2)
    );
}

#[test]
fn negative_fraction_and_integer() {
    assert_eq!(
        parse_mixed_number("-5/9").unwrap(),
        ExactRational::from_fraction(-5, 9)
    );
    assert_eq!(
        parse_mixed_number("-321").unwrap(),
        ExactRational::from_integer(-321)
    );
}

#[test]
fn malformed_literals_are_rejected() {
    for text in [
        "",
        "abc",
        "1/0-weird",
        "321 ",
        " 321",
        "3 4",
        "--3",
        "3 1/2 junk",
        "1/2/3",
        "3/ 4",
        "-",
        "1/",
        "/2",
        "3.5",
        "+3",
    ] {
        let e = parse_mixed_number(text).unwrap_err();
        assert_eq!(e.text, text);
    }
}

#[test]
fn zero_denominator_is_rejected() {
    assert!(parse_mixed_number("1/0").is_err());
    assert!(parse_mixed_number("1/00").is_err());
    assert!(parse_mixed_number("3 1/0").is_err());
    // a zero numerator is fine
    assert_eq!(
        parse_mixed_number("0/5").unwrap(),
        ExactRational::from_integer(0)
    );
}

#[test]
fn serializer_canonical_form() {
    assert_eq!(ExactRational::from_integer(3).serialize(), "3/1");
    assert_eq!(ExactRational::from_integer(-85).serialize(), "-85/1");
    assert_eq!(ExactRational::from_fraction(5, 9).serialize(), "5/9");
    assert_eq!(ExactRational::from_fraction(-7, 2).serialize(), "-7/2");
    assert_eq!(ExactRational::from_fraction(2, 4).serialize(), "1/2");
    assert_eq!(ExactRational::from_integer(0).serialize(), "0/1");
}

#[test]
fn round_trip_through_parser() {
    for text in ["321", "5/9", "-3 1/2", "0", "-85", "2/4", "1000000000000000000000000000001"] {
        let r = parse_mixed_number(text).unwrap();
        let back = parse_mixed_number(&r.serialize()).unwrap();
        assert_eq!(back, r);
    }
}

#[test]
fn exact_arithmetic() {
    let half = ExactRational::from_fraction(1, 2);
    let third = ExactRational::from_fraction(1, 3);
    assert_eq!(half.add(&third), ExactRational::from_fraction(5, 6));
    assert_eq!(half.neg(), ExactRational::from_fraction(-1, 2));
    assert!(half.add(&half.neg()).is_zero());
    assert!(!half.is_zero());
}

#[test]
fn arbitrary_precision_survives() {
    // far beyond any machine integer
    let big = "123456789012345678901234567890123456789012345678901234567890";
    let r = parse_mixed_number(big).unwrap();
    let doubled = r.add(&r);
    assert_eq!(
        doubled.serialize(),
        "246913578024691357802469135780246913578024691357802469135780/1"
    );
}
