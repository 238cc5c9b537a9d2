use parsecfg::{tokenize, Decimal, LexError, Lexer, Token};

fn tokens_of(text: &str) -> Vec<Token> {
    let mut lexer = tokenize(text).unwrap();
    let mut out = Vec::new();
    while let Some(t) = lexer.pop_front() {
        out.push(t);
    }
    out
}

fn float_token(text: &str) -> Token {
    Token::Float(Decimal::parse(text).unwrap())
}

fn ident(text: &str) -> Token {
    Token::Identifier(String::from(text))
}

#[test]
fn empty_text_has_no_tokens() {
    assert_eq!(tokens_of(""), vec![]);
    assert_eq!(tokens_of(" \t\r\n\u{b}\u{c}"), vec![]);
}

#[test]
fn number_without_suffix_or_point_is_integer() {
    assert_eq!(tokens_of("500"), vec![Token::Integer(500)]);
    assert_eq!(tokens_of("0"), vec![Token::Integer(0)]);
    assert_eq!(tokens_of("007"), vec![Token::Integer(7)]);
}

#[test]
fn number_with_point_is_float() {
    assert_eq!(tokens_of("0.67"), vec![float_token("0.67")]);
    assert_eq!(tokens_of("1."), vec![float_token("1.")]);
    match &tokens_of("0.67")[0] {
        Token::Float(d) => assert_eq!(d.as_str().parse::<f64>().unwrap(), 0.67f64),
        _ => panic!(),
    }
}

#[test]
fn suffix_forces_the_type() {
    assert_eq!(tokens_of("400i"), vec![Token::Integer(400)]);
    assert_eq!(tokens_of("400I"), vec![Token::Integer(400)]);
    assert_eq!(tokens_of("300u"), vec![Token::Unsigned(300)]);
    assert_eq!(tokens_of("300U"), vec![Token::Unsigned(300)]);
    assert_eq!(tokens_of("200f"), vec![float_token("200")]);
    assert_eq!(tokens_of("200F"), vec![float_token("200")]);
    assert_eq!(tokens_of("2.5f"), vec![float_token("2.5")]);
}

#[test]
fn only_one_suffix_letter_is_taken() {
    assert_eq!(tokens_of("5if"), vec![Token::Integer(5), ident("f")]);
    assert_eq!(tokens_of("5abc"), vec![Token::Integer(5), ident("abc")]);
}

#[test]
fn leading_dot_is_read_with_a_zero() {
    assert_eq!(tokens_of(".5"), vec![float_token("0.5")]);
    assert_eq!(tokens_of(".5"), tokens_of("0.5"));
    assert_eq!(tokens_of("x = .25f"), tokens_of("x = 0.25f"));
    match &tokens_of(".5")[0] {
        Token::Float(d) => assert_eq!(d.as_str().parse::<f64>().unwrap(), 0.5f64),
        _ => panic!(),
    }
}

#[test]
fn integer_with_point_is_truncated() {
    assert_eq!(tokens_of("3.7i"), vec![Token::Integer(3)]);
    assert_eq!(tokens_of("3.2u"), vec![Token::Unsigned(3)]);
    assert_eq!(tokens_of(".9i"), vec![Token::Integer(0)]);
    assert_eq!(tokens_of("12.u"), vec![Token::Unsigned(12)]);
}

#[test]
fn integer_with_point_stops_at_the_largest_value() {
    assert_eq!(tokens_of("99999999999999999999.5i"), vec![Token::Integer(i64::MAX)]);
    assert_eq!(tokens_of("99999999999999999999.5u"), vec![Token::Unsigned(u64::MAX)]);
    assert_eq!(tokens_of("9223372036854775808.0i"), vec![Token::Integer(i64::MAX)]);
}

#[test]
fn largest_numbers_fit() {
    assert_eq!(tokens_of("9223372036854775807"), vec![Token::Integer(i64::MAX)]);
    assert_eq!(tokens_of("18446744073709551615u"), vec![Token::Unsigned(u64::MAX)]);
}

#[test]
fn number_that_does_not_fit_is_malformed() {
    assert_eq!(
        tokenize("9223372036854775808").err(),
        Some(LexError::MalformedNumber(String::from("9223372036854775808")))
    );
    assert_eq!(
        tokenize("x = 18446744073709551616u").err(),
        Some(LexError::MalformedNumber(String::from("18446744073709551616")))
    );
}

#[test]
fn second_decimal_point_is_refused() {
    assert_eq!(tokenize("1.2.3").err(), Some(LexError::MultipleDecimalPoints));
    assert_eq!(tokenize(".5.3").err(), Some(LexError::MultipleDecimalPoints));
    assert_eq!(tokenize("5..").err(), Some(LexError::MultipleDecimalPoints));
}

#[test]
fn identifiers() {
    assert_eq!(tokens_of("abc _x9 A_b"), vec![ident("abc"), ident("_x9"), ident("A_b")]);
}

#[test]
fn structural_tokens() {
    assert_eq!(
        tokens_of("=,+-*/%[]{}()"),
        vec![
            Token::Equals,
            Token::Separator,
            Token::Add,
            Token::Subtract,
            Token::Multiply,
            Token::Divide,
            Token::Modulo,
            Token::OpenBracket,
            Token::CloseBracket,
            Token::OpenBrace,
            Token::CloseBrace,
            Token::OpenParen,
            Token::CloseParen,
        ]
    );
}

#[test]
fn string_literal() {
    assert_eq!(tokens_of("\"No Thanks!\""), vec![Token::String(String::from("No Thanks!"))]);
    assert_eq!(tokens_of("\"\""), vec![Token::String(String::new())]);
    assert_eq!(tokens_of("\"a # b\""), vec![Token::String(String::from("a # b"))]);
}

#[test]
fn adjacent_strings_merge() {
    assert_eq!(tokens_of("\"Ban\" \"ana\""), vec![Token::String(String::from("Banana"))]);
    assert_eq!(tokens_of("\"Ban\"\"ana\""), vec![Token::String(String::from("Banana"))]);
    assert_eq!(
        tokens_of("\"a\" # note\n \"b\"\n\"c\""),
        vec![Token::String(String::from("abc"))]
    );
    assert_eq!(
        tokens_of("\"a\", \"b\""),
        vec![
            Token::String(String::from("a")),
            Token::Separator,
            Token::String(String::from("b"))
        ]
    );
}

#[test]
fn string_at_the_start_of_an_empty_stream() {
    let mut lexer = Lexer::new();
    assert_eq!(lexer.parse_string("\"first\""), Ok(()));
    assert_eq!(lexer.len(), 1);
    assert_eq!(lexer.pop_front(), Some(Token::String(String::from("first"))));
}

#[test]
fn unterminated_string_is_refused() {
    assert_eq!(tokenize("x = \"abc").err(), Some(LexError::UnterminatedString));
    assert_eq!(tokenize("\"").err(), Some(LexError::UnterminatedString));
}

#[test]
fn comments_are_stripped() {
    assert_eq!(tokens_of("x=1 # trailing comment\ny=2"), tokens_of("x=1 \ny=2"));
    assert_eq!(
        tokens_of("x=1 # trailing comment\ny=2"),
        vec![
            ident("x"),
            Token::Equals,
            Token::Integer(1),
            ident("y"),
            Token::Equals,
            Token::Integer(2)
        ]
    );
    assert_eq!(tokens_of("# only a comment"), vec![]);
    assert_eq!(tokens_of("#\n#\nz"), vec![ident("z")]);
}

#[test]
fn unrecognised_character_is_refused() {
    assert_eq!(tokenize("x = @").err(), Some(LexError::UnrecognizedCharacter('@')));
    assert_eq!(tokenize(".").err(), Some(LexError::UnrecognizedCharacter('.')));
    assert_eq!(tokenize(".x").err(), Some(LexError::UnrecognizedCharacter('.')));
}

#[test]
fn multi_byte_text_is_refused() {
    assert_eq!(tokenize("x = \"\u{e9}\"").err(), Some(LexError::MultiByte));
    assert_eq!(tokenize("\u{3000}").err(), Some(LexError::MultiByte));
}

#[test]
fn failure_leaves_the_stream_as_it_was() {
    let mut lexer = tokenize("a = 1").unwrap();
    assert_eq!(lexer.parse_string("b = 2 @"), Err(LexError::UnrecognizedCharacter('@')));
    assert_eq!(lexer.len(), 3);
    assert_eq!(lexer.parse_string("\u{e9}"), Err(LexError::MultiByte));
    assert_eq!(lexer.len(), 3);
}

#[test]
fn parse_string_appends_and_joins_strings() {
    let mut lexer = tokenize("a = \"x\"").unwrap();
    assert_eq!(lexer.parse_string(" \"y\" b"), Ok(()));
    assert_eq!(lexer.len(), 4);
    assert_eq!(lexer.pop_front(), Some(ident("a")));
    assert_eq!(lexer.pop_front(), Some(Token::Equals));
    assert_eq!(lexer.pop_front(), Some(Token::String(String::from("xy"))));
    assert_eq!(lexer.pop_front(), Some(ident("b")));
    assert_eq!(lexer.pop_front(), None);
}

#[test]
fn failed_join_keeps_the_old_string() {
    let mut lexer = tokenize("\"x\"").unwrap();
    assert_eq!(lexer.parse_string("\"y\" @"), Err(LexError::UnrecognizedCharacter('@')));
    assert_eq!(lexer.len(), 1);
    assert_eq!(lexer.pop_front(), Some(Token::String(String::from("x"))));
}

#[test]
fn queue_operations() {
    let mut lexer = Lexer::new();
    assert!(lexer.is_empty());
    assert_eq!(lexer.peek(), None);
    assert_eq!(lexer.pop_front(), None);
    lexer.push_front(Token::Integer(2));
    lexer.push_front(Token::Integer(1));
    assert!(!lexer.is_empty());
    assert_eq!(lexer.len(), 2);
    assert_eq!(lexer.peek(), Some(&Token::Integer(1)));
    assert_eq!(lexer.peek_to(1), vec![&Token::Integer(1)]);
    assert_eq!(lexer.peek_to(2), vec![&Token::Integer(1), &Token::Integer(2)]);
    assert_eq!(lexer.peek_to(5), vec![&Token::Integer(1), &Token::Integer(2)]);
    assert_eq!(lexer.peek_to(0).len(), 0);
    assert_eq!(lexer.pop_front(), Some(Token::Integer(1)));
    lexer.clear();
    assert!(lexer.is_empty());
    assert_eq!(lexer.len(), 0);
}

#[test]
fn check_and_expect() {
    let mut lexer = Lexer::new();
    assert!(!lexer.check(|t: &Token| matches!(t, Token::Equals)));
    assert_eq!(
        lexer
            .expect(|t: &Token| matches!(t, Token::Equals), "no equals")
            .err()
            .unwrap()
            .message(),
        "Expected token but lexer is empty."
    );
    lexer.push_front(Token::Equals);
    assert!(lexer.check(|t: &Token| matches!(t, Token::Equals)));
    assert!(!lexer.check(|t: &Token| matches!(t, Token::Separator)));
    assert_eq!(
        lexer
            .expect(|t: &Token| matches!(t, Token::Separator), "no comma")
            .err()
            .unwrap()
            .message(),
        "no comma"
    );
    assert_eq!(lexer.len(), 1);
    assert_eq!(
        lexer.expect(|t: &Token| matches!(t, Token::Equals), "no equals").ok(),
        Some(Token::Equals)
    );
    assert!(lexer.is_empty());
}

#[test]
fn decimal_literals() {
    assert!(Decimal::parse("0.5").is_some());
    assert!(Decimal::parse("12").is_some());
    assert!(Decimal::parse("12.").is_some());
    assert!(Decimal::parse("").is_none());
    assert!(Decimal::parse(".5").is_none());
    assert!(Decimal::parse("1.2.3").is_none());
    assert!(Decimal::parse("1e5").is_none());
    assert!(Decimal::parse("-1").is_none());
    assert_eq!(Decimal::parse("12.75").unwrap().as_str(), "12.75");
    assert_eq!(Decimal::parse("7").unwrap().clone(), Decimal::parse("7").unwrap());
}
