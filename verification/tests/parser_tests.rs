use arith::ast::{evaluate, Ast};
use arith::calculator::{calculate, parse_text, CalcError};
use arith::decimal::Decimal;
use arith::lexer::tokenise;
use arith::parser::{parse, Expected, ParseError, Parser};
use arith::token::Token;

fn dec(text: &str) -> Decimal {
    Decimal::parse(text).expect("a numeral")
}

fn num(text: &str) -> Token {
    Token::Number(dec(text))
}

fn lit(text: &str) -> Box<Ast> {
    Box::new(Ast::Literal(dec(text)))
}

fn tree(text: &str) -> Ast {
    parse(&tokenise(text).unwrap()).unwrap()
}

fn value(text: &str) -> String {
    calculate(text).unwrap().to_string()
}

fn as_float(text: &str) -> f64 {
    value(text).parse::<f64>().unwrap()
}

fn parse_error(text: &str) -> ParseError {
    parse(&tokenise(text).unwrap()).unwrap_err()
}

#[test]
fn a_long_sum_with_a_product_at_its_end() {
    let expected = Ast::Add(
        Box::new(Ast::Add(
            Box::new(Ast::Add(Box::new(Ast::Add(lit("1"), lit("2"))), lit("3"))),
            lit("4"),
        )),
        Box::new(Ast::Multiply(lit("5"), lit("2"))),
    );
    let parsed = tree("1 + 2 + 3 + 4 + 5 * 2");
    assert_eq!(parsed, expected);
    assert_eq!(evaluate(&parsed), dec("20"));
    assert_eq!(as_float("1 + 2 + 3 + 4 + 5 * 2"), 20.0);
}

#[test]
fn precedence() {
    assert_eq!(
        tree("1 + 2 * 3"),
        Ast::Add(lit("1"), Box::new(Ast::Multiply(lit("2"), lit("3"))))
    );
    assert_eq!(as_float("1 + 2 * 3"), 7.0);
    assert_eq!(value("2 * 3 + 1"), "7");
    assert_eq!(value("10 - 2 * 3"), "4");
    assert_eq!(value("0.5 + 1.5 * 4"), "6.5");
    for (a, b, c) in [(1i64, 2i64, 3i64), (7, 0, 9), (12, 34, 56), (100, 3, 7)] {
        let text = format!("{a} + {b} * {c}");
        assert_eq!(value(&text), (a + b * c).to_string());
    }
}

#[test]
fn left_associativity() {
    assert_eq!(
        tree("10 - 3 - 2"),
        Ast::Subtract(Box::new(Ast::Subtract(lit("10"), lit("3"))), lit("2"))
    );
    assert_eq!(as_float("10 - 3 - 2"), 5.0);
    assert_ne!(as_float("10 - 3 - 2"), 9.0);
    assert_eq!(
        tree("2 * 3 * 4"),
        Ast::Multiply(Box::new(Ast::Multiply(lit("2"), lit("3"))), lit("4"))
    );
    assert_eq!(value("1 - 2 + 3"), "2");
    for (a, b, c) in [(10i64, 3i64, 2i64), (0, 5, 5), (1, 2, 3), (50, 20, 40)] {
        let text = format!("{a} - {b} - {c}");
        assert_eq!(value(&text), ((a - b) - c).to_string());
    }
}

#[test]
fn unary_chaining() {
    assert_eq!(as_float("- - 5"), 5.0);
    assert_eq!(as_float("- - - 5"), -5.0);
    assert_eq!(
        tree("- - - 5"),
        Ast::Negate(Box::new(Ast::Negate(Box::new(Ast::Negate(lit("5"))))))
    );
    assert_eq!(value("- 5"), "-5");
    assert_eq!(value("- -5"), "5");
    assert_eq!(value("- 0"), "0");
}

#[test]
fn unary_minus_binds_tighter_than_the_binary_signs() {
    assert_eq!(
        tree("1 + - 2"),
        Ast::Add(lit("1"), Box::new(Ast::Negate(lit("2"))))
    );
    assert_eq!(
        tree("1 - - 2"),
        Ast::Subtract(lit("1"), Box::new(Ast::Negate(lit("2"))))
    );
    assert_eq!(
        tree("- 2 * 3"),
        Ast::Multiply(Box::new(Ast::Negate(lit("2"))), lit("3"))
    );
    assert_eq!(
        tree("2 * - 3"),
        Ast::Multiply(lit("2"), Box::new(Ast::Negate(lit("3"))))
    );
    assert_eq!(value("1 - - 2"), "3");
    assert_eq!(value("2 * - 3 - 4"), "-10");
}

#[test]
fn round_trip_determinism() {
    let text = "1.5 * - 2 + 3 - 0.25 * 4";
    assert_eq!(parse_text(text), parse_text(text));
    assert_eq!(calculate(text), calculate(text));
    assert_eq!(value(text), "-1");
    assert_eq!(parse_text("1 + ?"), parse_text("1 + ?"));
    assert_eq!(parse_text("1 +"), parse_text("1 +"));
}

#[test]
fn trailing_token_rejection() {
    let err = parse_error("1 + 2 3");
    assert_eq!(
        err,
        ParseError {
            expected: Expected::EndOfInput,
            found: num("3"),
            position: 3,
            context: vec![num("1"), Token::Plus, num("2")],
        }
    );
    assert_eq!(
        err.message(),
        "expected end of input, found `3` at position 3 after: .. 1 + 2"
    );
}

#[test]
fn empty_input_is_an_error() {
    let err = parse_error("");
    assert_eq!(
        err,
        ParseError {
            expected: Expected::Number,
            found: Token::EndOfInput,
            position: 0,
            context: vec![],
        }
    );
    assert_eq!(
        err.message(),
        "expected a number, found end of input at position 0 after: .. "
    );
    assert!(calculate("").is_err());
    assert!(calculate("   ").is_err());
}

#[test]
fn operators_without_operands_are_errors() {
    let err = parse_error("+");
    assert_eq!(err.expected, Expected::Number);
    assert_eq!(err.found, Token::Plus);
    assert_eq!(err.position, 0);
    let err = parse_error("-");
    assert_eq!(err.found, Token::EndOfInput);
    assert_eq!(err.position, 1);
    let err = parse_error("* 2");
    assert_eq!(err.found, Token::Multiply);
    assert_eq!(err.position, 0);
    let err = parse_error("1 +");
    assert_eq!(err.found, Token::EndOfInput);
    assert_eq!(err.position, 2);
    assert_eq!(err.message(), "expected a number, found end of input at position 2 after: .. 1 +");
    let err = parse_error("1 * * 2");
    assert_eq!(err.found, Token::Multiply);
    assert_eq!(err.position, 2);
    assert_eq!(err.context, vec![num("1"), Token::Multiply]);
    assert_eq!(err.message(), "expected a number, found `*` at position 2 after: .. 1 *");
    let err = parse_error("- - +");
    assert_eq!(err.found, Token::Plus);
    assert_eq!(err.position, 2);
}

#[test]
fn the_context_holds_at_most_five_tokens() {
    let err = parse_error("1 + 2 + 3 + 4 + +");
    assert_eq!(err.position, 8);
    assert_eq!(
        err.context,
        vec![Token::Plus, num("3"), Token::Plus, num("4"), Token::Plus]
    );
    assert_eq!(
        err.message(),
        "expected a number, found `+` at position 8 after: .. + 3 + 4 +"
    );
    let err = parse_error("1 + 2 + 3 4");
    assert_eq!(err.position, 5);
    assert_eq!(
        err.context,
        vec![num("1"), Token::Plus, num("2"), Token::Plus, num("3")]
    );
    let err = parse_error("1 + 2 + 3 + 4 * 5 * 6 + 7 8");
    assert_eq!(err.position, 13);
    assert_eq!(
        err.message(),
        "expected end of input, found `8` at position 13 after: .. 5 * 6 + 7"
    );
}

#[test]
fn the_leftmost_failure_is_reported() {
    let err = parse_error("1 + + 2 3 *");
    assert_eq!(err.position, 2);
    assert_eq!(err.expected, Expected::Number);
}

#[test]
fn an_end_mark_among_the_tokens_does_not_fit() {
    let tokens = vec![num("1"), Token::EndOfInput, num("2")];
    let err = parse(&tokens).unwrap_err();
    assert_eq!(err.expected, Expected::EndOfInput);
    assert_eq!(err.found, Token::EndOfInput);
    assert_eq!(err.position, 1);
    let tokens = vec![num("1"), Token::Plus, Token::EndOfInput];
    let err = parse(&tokens).unwrap_err();
    assert_eq!(err.expected, Expected::Number);
    assert_eq!(err.position, 2);
}

#[test]
fn both_kinds_of_error_come_out_of_the_whole_way() {
    match calculate("1 + ? ") {
        Err(CalcError::Lex(e)) => {
            assert_eq!(e.text, "?");
            assert_eq!(e.position, 4);
        }
        other => panic!("{other:?}"),
    }
    match calculate("1 + 2 3") {
        Err(CalcError::Parse(e)) => {
            assert_eq!(e.expected, Expected::EndOfInput);
            assert_eq!(e.position, 3);
        }
        other => panic!("{other:?}"),
    }
    assert_eq!(
        calculate("2 * x").unwrap_err().message(),
        "malformed token `x` at position 4"
    );
    assert_eq!(
        calculate("2 *").unwrap_err().message(),
        "expected a number, found end of input at position 2 after: .. 2 *"
    );
    assert_eq!(
        calculate("? +").unwrap_err(),
        parse_text("? +").unwrap_err()
    );
}

#[test]
fn evaluation_is_exact() {
    assert_eq!(value("0.1 + 0.2"), "0.3");
    assert_eq!(value("0.1 * 3 - 0.3"), "0");
    assert_eq!(value("1.10 * 1.10"), "1.21");
    assert_eq!(
        value("99999999999999999999 * 99999999999999999999 + 1"),
        "9999999999999999999800000000000000000002"
    );
    assert_eq!(value("-7"), "-7");
    assert_eq!(value("- -7 * - 2"), "-14");
    assert_eq!(value("3 - 5"), "-2");
    assert_eq!(value("2.5 - 2.5"), "0");
}

#[test]
fn the_reader_moves_token_by_token() {
    let tokens = vec![num("4"), Token::Minus, num("1")];
    let mut parser = Parser::new(&tokens);
    assert_eq!(parser.position(), 0);
    assert!(!parser.match_token(&Token::Minus));
    assert_eq!(parser.position(), 0);
    assert!(parser.match_token(&num("99")));
    assert_eq!(parser.position(), 1);
    assert_eq!(parser.previous(), num("4"));
    assert_eq!(parser.consume_token(), Token::Minus);
    assert_eq!(parser.previous(), Token::Minus);
    assert!(!parser.match_token(&Token::EndOfInput));
    assert_eq!(parser.consume_token(), num("1"));
    assert_eq!(parser.position(), 3);
    assert_eq!(parser.previous(), num("1"));
    assert!(!parser.match_token(&Token::Plus));
    assert_eq!(parser.position(), 3);
}

#[test]
fn behind_the_last_token_the_reader_sees_the_end_mark_and_moves_on() {
    let tokens = vec![num("4"), Token::Minus, num("1")];
    let mut parser = Parser::new(&tokens);
    assert!(parser.binary().is_ok());
    assert_eq!(parser.position(), 3);
    assert_eq!(parser.consume_token(), Token::EndOfInput);
    assert_eq!(parser.position(), 4);
    assert!(!parser.match_token(&Token::Plus));
    assert!(!parser.match_token(&num("7")));
    assert_eq!(parser.position(), 4);
    assert!(parser.match_token(&Token::EndOfInput));
    assert_eq!(parser.position(), 5);
    assert_eq!(parser.consume_token(), Token::EndOfInput);
    assert_eq!(parser.position(), 6);

    let mut parser = Parser::new(&tokens);
    assert_eq!(parser.consume_token(), num("4"));
    assert_eq!(parser.consume_token(), Token::Minus);
    assert_eq!(parser.consume_token(), num("1"));
    assert!(parser.match_token(&Token::EndOfInput));
    assert_eq!(parser.position(), 4);

    let empty: Vec<Token> = Vec::new();
    let mut parser = Parser::new(&empty);
    assert!(parser.match_token(&Token::EndOfInput));
    assert_eq!(parser.position(), 1);
    assert_eq!(parser.consume_token(), Token::EndOfInput);
    assert_eq!(parser.position(), 2);
}

#[test]
fn behind_the_last_token_no_number_is_found() {
    let tokens = vec![num("4"), Token::Minus, num("1")];
    let mut parser = Parser::new(&tokens);
    assert!(parser.parse().is_ok());
    assert_eq!(parser.consume_token(), Token::EndOfInput);
    assert_eq!(parser.position(), 4);
    let expected = ParseError {
        expected: Expected::Number,
        found: Token::EndOfInput,
        position: 4,
        context: vec![num("4"), Token::Minus, num("1")],
    };
    assert_eq!(parser.number().unwrap_err(), expected);
    assert_eq!(parser.minus().unwrap_err(), expected);
    assert_eq!(parser.multiply().unwrap_err(), expected);
    assert_eq!(parser.binary().unwrap_err(), expected);
    assert_eq!(parser.parse().unwrap_err(), expected);
    assert_eq!(parser.position(), 4);

    let long = tokenise("1 + 2 + 3 + 4").unwrap();
    let mut parser = Parser::new(&long);
    assert!(parser.parse().is_ok());
    for _ in 0..3 {
        assert_eq!(parser.consume_token(), Token::EndOfInput);
    }
    let err = parser.number().unwrap_err();
    assert_eq!(err.position, 10);
    assert_eq!(err.context, vec![Token::Plus, num("4")]);
    for _ in 0..3 {
        assert!(parser.match_token(&Token::EndOfInput));
    }
    let err = parser.number().unwrap_err();
    assert_eq!(err.position, 13);
    assert_eq!(err.context, vec![]);
}

#[test]
fn each_level_of_the_grammar_stops_where_it_ends() {
    let tokens = tokenise("- 2 * 3 + 4 5").unwrap();
    let mut parser = Parser::new(&tokens);
    assert_eq!(parser.minus().unwrap(), Ast::Negate(lit("2")));
    assert_eq!(parser.position(), 2);
    let mut parser = Parser::new(&tokens);
    assert_eq!(
        parser.multiply().unwrap(),
        Ast::Multiply(Box::new(Ast::Negate(lit("2"))), lit("3"))
    );
    assert_eq!(parser.position(), 4);
    let mut parser = Parser::new(&tokens);
    assert!(parser.binary().is_ok());
    assert_eq!(parser.position(), 6);
    let mut parser = Parser::new(&tokens);
    assert_eq!(parser.number().unwrap_err().position, 0);
    assert_eq!(parser.position(), 0);
    let mut parser = Parser::new(&tokens);
    assert_eq!(parser.parse().unwrap_err().position, 6);
    assert_eq!(parser.position(), 6);
}

#[test]
fn an_error_depends_on_nothing_behind_the_offending_token() {
    let first = parse_error("1 + * 2");
    let second = parse_error("1 + * 9 - - 4 4 +");
    let third = parse_error("1 + *");
    assert_eq!(first.position, 2);
    assert_eq!(first, second);
    assert_eq!(first, third);
    assert_eq!(parse_error("1 2"), parse_error("1 2 * 3"));
}

#[test]
fn the_tokens_before_an_error_begin_an_expression() {
    for text in ["1 + * 2", "- - +", "", "1 *", "2 * 3 - *", "-", "* *"] {
        let tokens = tokenise(text).unwrap();
        let err = parse(&tokens).unwrap_err();
        assert_eq!(err.expected, Expected::Number, "{text}");
        let mut mended: Vec<Token> = tokens[..err.position].to_vec();
        mended.push(num("7"));
        assert!(parse(&mended).is_ok(), "{text}");
    }
    for text in ["1 2", "1 + 2 3 *", "- 4 * 5 6 7"] {
        let tokens = tokenise(text).unwrap();
        let err = parse(&tokens).unwrap_err();
        assert_eq!(err.expected, Expected::EndOfInput, "{text}");
        assert!(parse(&tokens[..err.position].to_vec()).is_ok(), "{text}");
    }
}
