use arith::decimal::Decimal;
use arith::lexer::classify_word;
use arith::numeral::append_nat;
use arith::text::{to_chars, to_text};
use arith::token::Token;

#[test]
fn a_string_and_its_characters() {
    assert_eq!(to_chars("1 + é"), vec!['1', ' ', '+', ' ', 'é']);
    assert_eq!(to_chars(""), Vec::<char>::new());
    assert_eq!(to_text(&['-', '2', '.', '5']), "-2.5");
    assert_eq!(to_text(&[]), "");
    assert_eq!(to_text(&to_chars("12 * ü")), "12 * ü");
}

#[test]
fn natural_numbers_are_appended_in_decimal() {
    for n in [0usize, 1, 9, 10, 11, 99, 100, 101, 4096, 1234567890, usize::MAX] {
        let mut out = String::from("at ");
        append_nat(&mut out, n);
        assert_eq!(out, format!("at {n}"));
    }
}

#[test]
fn numerals_are_read_from_characters() {
    let d = Decimal::from_chars(&['-', '0', '1', '.', '2', '0']).unwrap();
    assert_eq!(d.to_string(), "-1.2");
    assert_eq!(Decimal::from_chars(&['.']), None);
    assert_eq!(Decimal::from_chars(&[]), None);
    assert_eq!(Decimal::from_chars(&['1', '.', '.', '2']), None);
    assert_eq!(Decimal::from_chars(&['1', '-']), None);
    assert_eq!(Decimal::from_chars(&['٣']), None);
}

#[test]
fn words_are_classified() {
    assert_eq!(classify_word(&['+']), Some(Token::Plus));
    assert_eq!(classify_word(&['-']), Some(Token::Minus));
    assert_eq!(classify_word(&['*']), Some(Token::Multiply));
    assert_eq!(
        classify_word(&['4', '2']),
        Some(Token::Number(Decimal::parse("42").unwrap()))
    );
    assert_eq!(classify_word(&['-', '-']), None);
    assert_eq!(classify_word(&['/']), None);
    assert_eq!(classify_word(&[]), None);
}
