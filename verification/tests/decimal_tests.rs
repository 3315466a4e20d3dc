use arith::decimal::Decimal;
use arith::lexer::is_number;

fn dec(text: &str) -> Decimal {
    Decimal::parse(text).expect("a numeral")
}

#[test]
fn numerals_are_recognised() {
    for text in ["0", "7", "42", "-5", "3.25", "-0.5", "5.", ".5", "-.5", "-5.", "007", "1.50"] {
        assert!(is_number(text), "{text}");
        assert!(Decimal::parse(text).is_some(), "{text}");
    }
}

#[test]
fn other_text_is_no_numeral() {
    for text in [
        "", "-", ".", "-.", "+", "*", "+5", "1e5", "inf", "NaN", "1.2.3", "1,5", "--5", "5-", "0x10",
        "1 2", " 1", "1 ", "?", "a", "1_000",
    ] {
        assert!(!is_number(text), "{text}");
        assert!(Decimal::parse(text).is_none(), "{text}");
    }
}

#[test]
fn numerals_are_written_in_canonical_form() {
    assert_eq!(dec("0").to_string(), "0");
    assert_eq!(dec("-0").to_string(), "0");
    assert_eq!(dec("-0.00").to_string(), "0");
    assert_eq!(dec("007").to_string(), "7");
    assert_eq!(dec("1.50").to_string(), "1.5");
    assert_eq!(dec("5.").to_string(), "5");
    assert_eq!(dec(".5").to_string(), "0.5");
    assert_eq!(dec("-.5").to_string(), "-0.5");
    assert_eq!(dec("100").to_string(), "100");
    assert_eq!(dec("100.0").to_string(), "100");
    assert_eq!(dec("0.001").to_string(), "0.001");
    assert_eq!(dec("-12.345").to_string(), "-12.345");
    assert_eq!(dec("123456789012345678901234567890.5").to_string(), "123456789012345678901234567890.5");
}

#[test]
fn equal_numbers_are_equal_values() {
    assert_eq!(dec("1.50"), dec("1.5"));
    assert_eq!(dec("-0"), dec("0"));
    assert_eq!(dec("0"), Decimal::zero());
    assert_eq!(dec("010"), dec("10.0"));
    assert_ne!(dec("1"), dec("-1"));
    assert_ne!(dec("1"), dec("10"));
    assert_ne!(dec("0.1"), dec("0.01"));
}

#[test]
fn sums() {
    assert_eq!(dec("1").plus(&dec("2")), dec("3"));
    assert_eq!(dec("0.1").plus(&dec("0.2")), dec("0.3"));
    assert_eq!(dec("0.5").plus(&dec("0.5")), dec("1"));
    assert_eq!(dec("999").plus(&dec("1")), dec("1000"));
    assert_eq!(dec("5").plus(&dec("-5")), dec("0"));
    assert_eq!(dec("3").plus(&dec("-5")), dec("-2"));
    assert_eq!(dec("-3").plus(&dec("5")), dec("2"));
    assert_eq!(dec("-3").plus(&dec("-5")), dec("-8"));
    assert_eq!(dec("1.25").plus(&dec("-0.25")), dec("1"));
    assert_eq!(dec("100").plus(&dec("0.001")), dec("100.001"));
    assert_eq!(
        dec("99999999999999999999").plus(&dec("1")),
        dec("100000000000000000000")
    );
}

#[test]
fn differences() {
    assert_eq!(dec("10").minus(&dec("3")), dec("7"));
    assert_eq!(dec("3").minus(&dec("10")), dec("-7"));
    assert_eq!(dec("1").minus(&dec("0.999")), dec("0.001"));
    assert_eq!(dec("1000").minus(&dec("1")), dec("999"));
    assert_eq!(dec("2.5").minus(&dec("2.5")), dec("0"));
    assert_eq!(dec("-2").minus(&dec("-2")), dec("0"));
    assert_eq!(dec("-2").minus(&dec("3")), dec("-5"));
}

#[test]
fn products() {
    assert_eq!(dec("5").times(&dec("2")), dec("10"));
    assert_eq!(dec("1.5").times(&dec("2")), dec("3"));
    assert_eq!(dec("0.1").times(&dec("0.1")), dec("0.01"));
    assert_eq!(dec("-3").times(&dec("4")), dec("-12"));
    assert_eq!(dec("-3").times(&dec("-4")), dec("12"));
    assert_eq!(dec("0").times(&dec("-4")), dec("0"));
    assert_eq!(dec("12.5").times(&dec("0.08")), dec("1"));
    assert_eq!(dec("99").times(&dec("99")), dec("9801"));
    assert_eq!(
        dec("123456789").times(&dec("987654321")),
        dec("121932631112635269")
    );
    assert_eq!(
        dec("4294967296").times(&dec("4294967296")),
        dec("18446744073709551616")
    );
}

#[test]
fn negation() {
    assert_eq!(dec("5").negate(), dec("-5"));
    assert_eq!(dec("-5").negate(), dec("5"));
    assert_eq!(dec("0").negate(), dec("0"));
    assert_eq!(dec("0.25").negate().to_string(), "-0.25");
    assert!(dec("-0.25").is_negative());
    assert!(!dec("0").negate().is_negative());
}

#[test]
fn parts_of_a_decimal() {
    let d = dec("-12.340");
    assert_eq!(d.scale(), 2);
    assert_eq!(d.magnitude(), &vec![4u8, 3, 2, 1]);
    let small = dec("0.05");
    assert_eq!(small.scale(), 2);
    assert_eq!(small.magnitude(), &vec![5u8, 0, 0]);
    assert_eq!(Decimal::from_digits(true, vec![0, 5, 2, 0, 0], 1), dec("-25"));
    assert_eq!(Decimal::from_digits(false, vec![0, 0], 1), dec("0"));
    assert_eq!(d.clone(), d);
}

#[test]
fn a_decimal_rounds_to_the_nearest_float() {
    let third = dec("0.1").plus(&dec("0.2"));
    assert_eq!(third.to_string().parse::<f64>().unwrap(), 0.3);
    assert_eq!(dec("20").to_string().parse::<f64>().unwrap(), 20.0);
}
