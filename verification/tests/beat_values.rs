use mtxt::beat_expression::BeatExpression;
use mtxt::beat_fraction::parse_beat_fraction;
use mtxt::beat_time::{parse_beat_time, BeatTime};
use mtxt::errors::MtxtError;

fn expr_value(e: &BeatExpression) -> f64 {
    e.value_nanos() as f64 / 1_000_000_000.0
}

#[test]
fn test_valid_expressions() {
    let cases = vec![
        ("1.25", 1.25),
        ("1.0+1/4", 1.25),
        ("1/4+1.0", 1.25),
        ("1/2*2/3", 1.0 / 3.0),
        ("9/5*5/7*9/11*7/13+2.3", 0.5664336 + 2.3),
        ("1.33+4/5*6/5+1.0", 1.33 + 0.96 + 1.0),
        ("2.0-1/4", 1.75),
        ("4/1*5/6", 20.0 / 6.0),
        ("1/3*2/5+5/7*7/11+11/13*13/17", 1.234937),
    ];

    for (input, expected) in cases {
        let expr = BeatExpression::parse(input).unwrap();
        assert!(
            (expr_value(&expr) - expected).abs() < 1e-6,
            "Failed for {}: got {}, expected {}",
            input,
            expr_value(&expr),
            expected
        );
        let reconstructed = expr.to_text();
        assert_eq!(reconstructed, input);
    }
}

#[test]
fn test_invalid_expressions() {
    let cases = vec!["2-4*5/6", "1.33+4.2*6/5", "1/2/3", "1 + 2", "1.5/2", "1-2"];

    for input in cases {
        assert!(
            BeatExpression::parse(input).is_err(),
            "Should have failed: {}",
            input
        );
    }
}

#[test]
fn test_beat_fraction_parsing() {
    let f = parse_beat_fraction("1/4").unwrap();
    assert_eq!(f.numerator, 1);
    assert_eq!(f.denominator, 4);
    assert_eq!(f.as_beat_time().to_text(), "0.25");

    let f = parse_beat_fraction("3/2").unwrap();
    assert_eq!(f.as_beat_time().to_text(), "1.5");

    let f = parse_beat_fraction("10/1000").unwrap();
    assert_eq!(f.as_beat_time().to_text(), "0.01");

    assert!(parse_beat_fraction("1").is_err());
    assert!(parse_beat_fraction("1.5").is_err());
    assert!(parse_beat_fraction("1.5/2").is_err());
    assert!(parse_beat_fraction("1/2.5").is_err());
    assert!(parse_beat_fraction("1/0").is_err());
    assert!(parse_beat_fraction("1//2").is_err());
    assert!(parse_beat_fraction("1 /2").is_err());
    assert!(parse_beat_fraction("1/ 2").is_err());
    assert!(parse_beat_fraction("-1/2").is_err());
    assert!(parse_beat_fraction("1/-2").is_err());
}

#[test]
fn expression_error_kinds() {
    assert_eq!(
        BeatExpression::parse("").unwrap_err(),
        MtxtError::EmptyExpression
    );
    assert_eq!(
        BeatExpression::parse("   ").unwrap_err(),
        MtxtError::EmptyExpression
    );
    assert_eq!(
        BeatExpression::parse("1 + 2").unwrap_err(),
        MtxtError::SpaceDisallowed
    );
    assert_eq!(
        BeatExpression::parse("*1/2").unwrap_err(),
        MtxtError::BadMultiplyPosition
    );
    assert_eq!(
        BeatExpression::parse("1/2*").unwrap_err(),
        MtxtError::BadMultiplyPosition
    );
    assert_eq!(
        BeatExpression::parse("2.0-4.0*5/6").unwrap_err(),
        MtxtError::BadMultiplyOperand
    );
    assert_eq!(
        BeatExpression::parse("1.0-2.0").unwrap_err(),
        MtxtError::NegativeResult
    );
    assert_eq!(
        BeatExpression::parse("1/0").unwrap_err(),
        MtxtError::BadFraction
    );
    assert_eq!(
        BeatExpression::parse("abc").unwrap_err(),
        MtxtError::BadNumber
    );
}

#[test]
fn expressions_must_alternate_value_and_operator() {
    // a trailing operator
    assert_eq!(
        BeatExpression::parse("1.0+").unwrap_err(),
        MtxtError::InputParse
    );
    // consecutive operators
    assert_eq!(
        BeatExpression::parse("2.0+-1.0").unwrap_err(),
        MtxtError::InputParse
    );
    // a leading operator
    assert_eq!(
        BeatExpression::parse("+1.0").unwrap_err(),
        MtxtError::InputParse
    );
    // the multiply rules are checked first
    assert_eq!(
        BeatExpression::parse("1/2*").unwrap_err(),
        MtxtError::BadMultiplyPosition
    );
}

#[test]
fn additive_terms_commute() {
    let orders = vec!["1.0+1/4+0.5", "0.5+1.0+1/4", "1/4+0.5+1.0"];
    let mut values = Vec::new();
    for s in orders {
        values.push(BeatExpression::parse(s).unwrap().value_nanos());
    }
    assert_eq!(values[0], 1_750_000_000);
    assert_eq!(values[0], values[1]);
    assert_eq!(values[1], values[2]);
}

#[test]
fn expression_arithmetic_mixes_fractions_and_decimals() {
    let expr = BeatExpression::parse("1/2*2/3+1.25").unwrap();
    assert!((expr_value(&expr) - 1.5833333).abs() < 1e-6);
    assert_eq!(expr.to_text(), "1/2*2/3+1.25");
}

#[test]
fn beat_time_text_and_parse() {
    let b = parse_beat_time("1.25").unwrap();
    assert_eq!(b.nanos, 1_250_000_000);
    assert_eq!(b.to_text(), "1.25");

    let b = parse_beat_time("20").unwrap();
    assert_eq!(b.nanos, 20_000_000_000);
    assert_eq!(b.to_text(), "20.0");

    let b = parse_beat_time("0.000000001").unwrap();
    assert_eq!(b.nanos, 1);

    assert_eq!(parse_beat_time("").unwrap_err(), MtxtError::BadNumber);
    assert_eq!(parse_beat_time(".5").unwrap_err(), MtxtError::BadNumber);
    assert_eq!(parse_beat_time("1.").unwrap_err(), MtxtError::BadNumber);
    assert_eq!(parse_beat_time("-1.0").unwrap_err(), MtxtError::BadNumber);
    assert_eq!(
        parse_beat_time("5000000000").unwrap_err(),
        MtxtError::BadNumber
    );
}

#[test]
fn beat_time_arithmetic() {
    let a = BeatTime::from_parts(1, 500_000_000);
    let b = BeatTime::from_parts(0, 750_000_000);
    assert_eq!(a.add_sat(&b).nanos, 2_250_000_000);
    assert_eq!(a.sub_sat(&b).nanos, 750_000_000);
    assert_eq!(b.sub_sat(&a).nanos, 0);
    // 1.5 * 0.75 = 1.125
    assert_eq!(a.mul_beats(&b).nanos, 1_125_000_000);
    assert!(b.lt(&a));
    assert!(b.le(&a));
    assert_eq!(a.whole(), 1);
    assert_eq!(a.frac_nanos(), 500_000_000);
}

#[test]
fn fraction_value_is_exact() {
    // a fraction greater than one keeps its whole part exactly
    let f = mtxt::beat_fraction::BeatFraction::new(5, 2).unwrap();
    assert_eq!(f.as_beat_time().nanos, 2_500_000_000);
    assert_eq!(f.to_text(), "5/2");
}
