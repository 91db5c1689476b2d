use egyptian_fractions::fraction::{Fraction, FractionError};

#[test]
fn test_new() {
    let fraction = Fraction::new(3, 4).unwrap();
    assert_eq!(fraction.numerator, 3);
    assert_eq!(fraction.denominator, 4);
}

#[test]
#[should_panic]
fn test_new_zero_denominator() {
    Fraction::new(3, 0).unwrap();
}

#[test]
fn test_is_unitary() {
    let fraction1 = Fraction::new(5, 1).unwrap();
    assert!(fraction1.is_unitary());

    let fraction2 = Fraction::new(5, 2).unwrap();
    assert!(!fraction2.is_unitary());
}

#[test]
fn test_display() {
    let fraction1 = Fraction::new(5, 1).unwrap();
    assert_eq!(fraction1.display(), "5");

    let fraction2 = Fraction::new(3, 4).unwrap();
    assert_eq!(fraction2.display(), "3/4");
}

#[test]
fn test_from_str() {
    let fraction = Fraction::from_str("3/4").unwrap();
    assert_eq!(fraction.numerator, 3);
    assert_eq!(fraction.denominator, 4);
}

#[test]
fn test_from_i128() {
    let fraction: Fraction = 5.into();
    assert_eq!(fraction.numerator, 5);
    assert_eq!(fraction.denominator, 1);
}

#[test]
fn test_eq() {
    let fraction1 = Fraction::new(3, 4).unwrap();
    let fraction2 = Fraction::new(6, 8).unwrap();
    assert_eq!(fraction1, fraction2);
}

#[test]
fn test_cmp() {
    let fraction1 = Fraction::new(3, 4).unwrap();
    let fraction2 = Fraction::new(5, 6).unwrap();
    assert!(fraction1 < fraction2);
}

#[test]
fn test_new_rejects_zero_denominator() {
    assert_eq!(Fraction::new(3, 0), Err(FractionError::InvalidFraction));
}

#[test]
fn test_get_ratio_reduces() {
    let fraction = Fraction::new(6, 8).unwrap();
    assert_eq!(fraction.get_ratio(), (3, 4));

    let negative = Fraction::new(-6, 8).unwrap();
    assert_eq!(negative.get_ratio(), (-3, 4));

    let already_reduced = Fraction::new(5, 7).unwrap();
    assert_eq!(already_reduced.get_ratio(), (5, 7));
}

#[test]
fn test_display_negative_and_zero() {
    assert_eq!(Fraction::new(-5, 1).unwrap().display(), "-5");
    assert_eq!(Fraction::new(0, 1).unwrap().display(), "0");
    assert_eq!(Fraction::new(-2, 7).unwrap().display(), "-2/7");
    assert_eq!(Fraction::new(123456789, 1).unwrap().display(), "123456789");
}

#[test]
fn test_from_str_errors() {
    assert_eq!(Fraction::from_str("3"), Err(FractionError::ParseError));
    assert_eq!(Fraction::from_str("abc"), Err(FractionError::ParseError));
    assert_eq!(Fraction::from_str("3/"), Err(FractionError::ParseError));
    assert_eq!(Fraction::from_str("/4"), Err(FractionError::ParseError));
    assert_eq!(Fraction::from_str("3/x"), Err(FractionError::ParseError));
    assert_eq!(Fraction::from_str(""), Err(FractionError::ParseError));
    assert_eq!(Fraction::from_str("3/0"), Err(FractionError::InvalidFraction));
}

#[test]
fn test_from_str_signs_and_extra_parts() {
    let negative = Fraction::from_str("-3/4").unwrap();
    assert_eq!(negative.numerator, -3);
    assert_eq!(negative.denominator, 4);

    let plus = Fraction::from_str("+3/4").unwrap();
    assert_eq!(plus.numerator, 3);

    // anything after a second slash is ignored
    let extra = Fraction::from_str("3/4/5").unwrap();
    assert_eq!(extra.numerator, 3);
    assert_eq!(extra.denominator, 4);
}

#[test]
fn test_from_str_range() {
    // the most negative 128-bit value parses; its positive twin does not
    let min = Fraction::from_str("-170141183460469231731687303715884105728/3").unwrap();
    assert_eq!(min.numerator, i128::MIN);
    assert_eq!(min.denominator, 3);
    assert_eq!(
        Fraction::from_str("170141183460469231731687303715884105728/3"),
        Err(FractionError::ParseError)
    );
}

#[test]
fn test_display_parse_round_trip() {
    let fraction = Fraction::new(-41, 152).unwrap();
    let text = fraction.display();
    let back = Fraction::from_str(text.as_str()).unwrap();
    assert_eq!(back.numerator, -41);
    assert_eq!(back.denominator, 152);
}
