use arith::decimal::Decimal;
use arith::lexer::{tokenise, tokenise_single, LexError};
use arith::token::{display, Token};

fn num(text: &str) -> Token {
    Token::Number(Decimal::parse(text).expect("a numeral"))
}

#[test]
fn single_words() {
    assert_eq!(tokenise_single("+"), Some(Token::Plus));
    assert_eq!(tokenise_single("-"), Some(Token::Minus));
    assert_eq!(tokenise_single("*"), Some(Token::Multiply));
    assert_eq!(tokenise_single("12"), Some(num("12")));
    assert_eq!(tokenise_single("-12.5"), Some(num("-12.5")));
    assert_eq!(tokenise_single("/"), None);
    assert_eq!(tokenise_single("++"), None);
    assert_eq!(tokenise_single("1+2"), None);
    assert_eq!(tokenise_single(""), None);
    assert_eq!(tokenise_single("x"), None);
}

#[test]
fn a_long_sum_is_cut_into_eleven_tokens() {
    let tokens = tokenise("1 + 2 + 3 + 4 + 5 * 2").unwrap();
    assert_eq!(
        tokens,
        vec![
            num("1"),
            Token::Plus,
            num("2"),
            Token::Plus,
            num("3"),
            Token::Plus,
            num("4"),
            Token::Plus,
            num("5"),
            Token::Multiply,
            num("2"),
        ]
    );
}

#[test]
fn whitespace_of_any_kind_and_length_separates() {
    let tokens = tokenise("  1\t+\n\n2 \r\n *\x0C3  ").unwrap();
    assert_eq!(tokens, vec![num("1"), Token::Plus, num("2"), Token::Multiply, num("3")]);
}

#[test]
fn empty_and_blank_text_have_no_tokens() {
    assert_eq!(tokenise("").unwrap(), vec![]);
    assert_eq!(tokenise(" \t\n").unwrap(), vec![]);
}

#[test]
fn a_sign_attached_to_digits_belongs_to_the_number() {
    assert_eq!(tokenise("-5").unwrap(), vec![num("-5")]);
    assert_eq!(tokenise("- 5").unwrap(), vec![Token::Minus, num("5")]);
    assert_eq!(tokenise("3 -5").unwrap(), vec![num("3"), num("-5")]);
}

#[test]
fn malformed_token_rejection() {
    let err = tokenise("1 + ? ").unwrap_err();
    assert_eq!(err, LexError { text: "?".to_string(), position: 4 });
    assert_eq!(err.message(), "malformed token `?` at position 4");
}

#[test]
fn the_first_malformed_word_is_reported() {
    let err = tokenise("  12 abc 3 $").unwrap_err();
    assert_eq!(err.text, "abc");
    assert_eq!(err.position, 5);
    let err = tokenise("1+2").unwrap_err();
    assert_eq!(err.text, "1+2");
    assert_eq!(err.position, 0);
    let err = tokenise("1 + 2e3").unwrap_err();
    assert_eq!(err.text, "2e3");
    assert_eq!(err.position, 4);
}

#[test]
fn positions_count_characters() {
    let err = tokenise("1 + é ü").unwrap_err();
    assert_eq!(err.text, "é");
    assert_eq!(err.position, 4);
    let err = tokenise("é 1 + x1234567890").unwrap_err();
    assert_eq!(err.position, 0);
    let err = tokenise("1 + 2 + 3 + 4 x").unwrap_err();
    assert_eq!(err.message(), "malformed token `x` at position 14");
}

#[test]
fn a_no_break_space_is_no_separator() {
    let err = tokenise("1\u{a0}+").unwrap_err();
    assert_eq!(err.text, "1\u{a0}+");
}

#[test]
fn tokens_are_displayed_with_spaces_between() {
    assert_eq!(display(&[]), ".. ");
    assert_eq!(display(&[num("1")]), ".. 1");
    assert_eq!(
        display(&[num("1.50"), Token::Plus, Token::Minus, num("-2"), Token::Multiply]),
        ".. 1.5 + - -2 *"
    );
    assert_eq!(display(&[num("1"), Token::EndOfInput, num("2")]), ".. 1  2");
    assert_eq!(Token::Multiply.to_string(), "*");
    assert_eq!(Token::EndOfInput.to_string(), "");
    assert_eq!(num("3").clone(), num("3"));
}

#[test]
fn what_is_displayed_is_cut_into_the_same_tokens() {
    let tokens = vec![
        num("-12.5"),
        Token::Multiply,
        Token::Minus,
        num("0.001"),
        Token::Plus,
        num("7"),
        Token::Minus,
        num("0"),
    ];
    let shown = display(&tokens);
    assert_eq!(shown, ".. -12.5 * - 0.001 + 7 - 0");
    assert_eq!(tokenise(&shown[3..]).unwrap(), tokens);
}
