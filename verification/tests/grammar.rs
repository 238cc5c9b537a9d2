use parsecfg::{
    parse_key, parse_value, tokenize, Decimal, Delimiter, Document, Expected, FromLexer, Key,
    KeyValue, LexError, Lexer, ParseError, ScalarKind, Section, Token,
};

fn value_of(text: &str) -> Result<KeyValue, ParseError> {
    let mut lexer = tokenize(text).unwrap();
    parse_value(&mut lexer)
}

fn float_value(text: &str) -> KeyValue {
    KeyValue::Float(Decimal::parse(text).unwrap())
}

fn unexpected(found: Token, expected: Expected) -> ParseError {
    ParseError::UnexpectedToken { found, expected }
}

#[test]
fn scalar_literals_keep_their_value() {
    assert_eq!(value_of("500"), Ok(KeyValue::Integer(500)));
    assert_eq!(value_of("0.67"), Ok(float_value("0.67")));
    assert_eq!(value_of("400i"), Ok(KeyValue::Integer(400)));
    assert_eq!(value_of("300u"), Ok(KeyValue::Unsigned(300)));
    assert_eq!(value_of("200f"), Ok(float_value("200")));
    assert_eq!(value_of("\"text\""), Ok(KeyValue::String(String::from("text"))));
    match value_of("200f").unwrap() {
        KeyValue::Float(d) => assert_eq!(d.as_str().parse::<f64>().unwrap(), 200.0f64),
        _ => panic!(),
    }
}

#[test]
fn scalar_takes_one_token() {
    let mut lexer = tokenize("1 2 3").unwrap();
    assert_eq!(parse_value(&mut lexer), Ok(KeyValue::Integer(1)));
    assert_eq!(lexer.len(), 2);
}

#[test]
fn empty_stream_has_no_value() {
    let mut lexer = Lexer::new();
    assert_eq!(parse_value(&mut lexer), Err(ParseError::EmptyInput));
    assert_eq!(KeyValue::from_lexer(&mut lexer), Err(ParseError::EmptyInput));
}

#[test]
fn value_cannot_start_with_other_tokens() {
    assert_eq!(value_of("= 1"), Err(unexpected(Token::Equals, Expected::Value)));
    assert_eq!(value_of("]"), Err(unexpected(Token::CloseBracket, Expected::Value)));
    assert_eq!(
        value_of("name"),
        Err(unexpected(Token::Identifier(String::from("name")), Expected::Value))
    );
    assert_eq!(value_of("-5"), Err(unexpected(Token::Subtract, Expected::Value)));
}

#[test]
fn arrays_of_each_kind() {
    assert_eq!(value_of("[1, 2, 3]"), Ok(KeyValue::IntegerArray(vec![1, 2, 3])));
    assert_eq!(value_of("[4u]"), Ok(KeyValue::UnsignedArray(vec![4])));
    assert_eq!(
        value_of("[\"a\", \"b\"]"),
        Ok(KeyValue::StringArray(vec![String::from("a"), String::from("b")]))
    );
    assert_eq!(
        value_of("[1.5, 2f]"),
        Ok(KeyValue::FloatArray(vec![
            Decimal::parse("1.5").unwrap(),
            Decimal::parse("2").unwrap()
        ]))
    );
}

#[test]
fn empty_array_is_an_array_of_strings() {
    assert_eq!(value_of("[]"), Ok(KeyValue::StringArray(vec![])));
}

#[test]
fn array_takes_its_tokens_only() {
    let mut lexer = tokenize("[1, 2] 7").unwrap();
    assert_eq!(parse_value(&mut lexer), Ok(KeyValue::IntegerArray(vec![1, 2])));
    assert_eq!(lexer.len(), 1);
    assert_eq!(lexer.pop_front(), Some(Token::Integer(7)));
}

#[test]
fn array_of_mixed_kinds_is_refused() {
    assert_eq!(
        value_of("[1, 2.5]"),
        Err(ParseError::KindMismatch {
            found: Token::Float(Decimal::parse("2.5").unwrap()),
            kind: ScalarKind::Integer
        })
    );
    assert_eq!(
        value_of("[2.5, 1]"),
        Err(ParseError::KindMismatch { found: Token::Integer(1), kind: ScalarKind::Float })
    );
    assert_eq!(
        value_of("[1u, \"x\"]"),
        Err(ParseError::KindMismatch {
            found: Token::String(String::from("x")),
            kind: ScalarKind::Unsigned
        })
    );
    assert_eq!(
        value_of("[1 2u]"),
        Err(ParseError::KindMismatch { found: Token::Unsigned(2), kind: ScalarKind::Integer })
    );
}

#[test]
fn array_with_trailing_comma_is_refused() {
    assert_eq!(value_of("[1,]"), Err(unexpected(Token::CloseBracket, Expected::Element)));
}

#[test]
fn array_needs_separators_and_elements() {
    assert_eq!(value_of("[1 2]"), Err(unexpected(Token::Integer(2), Expected::SeparatorOrClose)));
    assert_eq!(value_of("[1,,2]"), Err(unexpected(Token::Separator, Expected::Element)));
    assert_eq!(value_of("[,1]"), Err(unexpected(Token::Separator, Expected::ValueOrClose)));
    assert_eq!(value_of("[1 = 2]"), Err(unexpected(Token::Equals, Expected::SeparatorOrClose)));
    assert_eq!(value_of("[1, (2)]"), Err(unexpected(Token::OpenParen, Expected::Element)));
    assert_eq!(value_of("[[1]]"), Err(unexpected(Token::OpenBracket, Expected::ValueOrClose)));
}

#[test]
fn array_must_be_closed() {
    assert_eq!(value_of("["), Err(ParseError::MissingClose(Delimiter::Bracket)));
    assert_eq!(value_of("[1"), Err(ParseError::MissingClose(Delimiter::Bracket)));
    assert_eq!(value_of("[1,"), Err(ParseError::MissingClose(Delimiter::Bracket)));
}

#[test]
fn tuple_may_mix_kinds() {
    assert_eq!(
        value_of("(\"x\", 4f)"),
        Ok(KeyValue::Tuple(vec![KeyValue::String(String::from("x")), float_value("4")]))
    );
    match value_of("(\"x\", 4f)").unwrap() {
        KeyValue::Tuple(items) => match &items[1] {
            KeyValue::Float(d) => assert_eq!(d.as_str().parse::<f64>().unwrap(), 4.0f64),
            _ => panic!(),
        },
        _ => panic!(),
    }
}

#[test]
fn tuples_nest() {
    assert_eq!(value_of("()"), Ok(KeyValue::Tuple(vec![])));
    assert_eq!(
        value_of("(1, (2u, [3]), {a = ()})"),
        Ok(KeyValue::Tuple(vec![
            KeyValue::Integer(1),
            KeyValue::Tuple(vec![KeyValue::Unsigned(2), KeyValue::IntegerArray(vec![3])]),
            KeyValue::Table(vec![Key::new("a", KeyValue::Tuple(vec![]))]),
        ]))
    );
}

#[test]
fn tuple_errors() {
    assert_eq!(value_of("("), Err(ParseError::MissingClose(Delimiter::Paren)));
    assert_eq!(value_of("(1"), Err(ParseError::MissingClose(Delimiter::Paren)));
    assert_eq!(value_of("(1,"), Err(ParseError::MissingClose(Delimiter::Paren)));
    assert_eq!(value_of("(1 2)"), Err(unexpected(Token::Integer(2), Expected::SeparatorOrClose)));
    assert_eq!(value_of("(1,)"), Err(unexpected(Token::CloseParen, Expected::Value)));
    assert_eq!(value_of("(,)"), Err(unexpected(Token::Separator, Expected::Value)));
    assert_eq!(value_of("([1, 2.5])").is_err(), true);
}

#[test]
fn table_keeps_its_keys_in_order() {
    assert_eq!(
        value_of("{a=1, b=2}"),
        Ok(KeyValue::Table(vec![
            Key::new("a", KeyValue::Integer(1)),
            Key::new("b", KeyValue::Integer(2))
        ]))
    );
    assert_eq!(value_of("{}"), Ok(KeyValue::Table(vec![])));
}

#[test]
fn table_with_a_name_twice_is_refused() {
    assert_eq!(value_of("{a=1, a=2}"), Err(ParseError::DuplicateName(String::from("a"))));
    assert_eq!(
        value_of("{Name=1, b=2, NAME=3}"),
        Err(ParseError::DuplicateName(String::from("NAME")))
    );
}

#[test]
fn table_errors() {
    assert_eq!(value_of("{"), Err(ParseError::MissingClose(Delimiter::Brace)));
    assert_eq!(value_of("{a=1"), Err(ParseError::MissingClose(Delimiter::Brace)));
    assert_eq!(
        value_of("{a=1 b=2}"),
        Err(unexpected(Token::Identifier(String::from("b")), Expected::SeparatorOrClose))
    );
    assert_eq!(value_of("{a=1,}"), Err(ParseError::NotEnoughTokens));
    assert_eq!(value_of("{a=1, }  1 2"), Err(unexpected(Token::CloseBrace, Expected::Identifier)));
    assert_eq!(value_of("{a}"), Err(ParseError::NotEnoughTokens));
    assert_eq!(value_of("{1=2}"), Err(unexpected(Token::Integer(1), Expected::Identifier)));
    assert_eq!(value_of("{a 1 2}"), Err(unexpected(Token::Integer(1), Expected::Equals)));
    assert_eq!(value_of("{a = ]}"), Err(unexpected(Token::CloseBracket, Expected::Value)));
}

#[test]
fn key_is_name_equals_value() {
    let mut lexer = tokenize("Width = 800u Height = 600u").unwrap();
    assert_eq!(parse_key(&mut lexer), Ok(Key::new("Width", KeyValue::Unsigned(800))));
    assert_eq!(lexer.len(), 3);
    assert_eq!(Key::from_lexer(&mut lexer), Ok(Key::new("Height", KeyValue::Unsigned(600))));
    assert!(lexer.is_empty());
}

#[test]
fn key_needs_three_tokens() {
    let mut lexer = tokenize("a =").unwrap();
    assert_eq!(parse_key(&mut lexer), Err(ParseError::NotEnoughTokens));
    assert_eq!(lexer.len(), 2);
    let mut empty = Lexer::new();
    assert_eq!(parse_key(&mut empty), Err(ParseError::NotEnoughTokens));
}

#[test]
fn key_errors() {
    let mut lexer = tokenize("1 = 2").unwrap();
    assert_eq!(parse_key(&mut lexer), Err(unexpected(Token::Integer(1), Expected::Identifier)));
    let mut lexer = tokenize("a , 2").unwrap();
    assert_eq!(parse_key(&mut lexer), Err(unexpected(Token::Separator, Expected::Equals)));
    let mut lexer = tokenize("a = [1").unwrap();
    assert_eq!(parse_key(&mut lexer), Err(ParseError::MissingClose(Delimiter::Bracket)));
}

#[test]
fn key_name_from_an_odd_identifier_is_made_valid() {
    let mut lexer = Lexer::new();
    lexer.push_front(Token::Integer(1));
    lexer.push_front(Token::Equals);
    lexer.push_front(Token::Identifier(String::from(" 9 lives ")));
    let key = parse_key(&mut lexer).unwrap();
    assert_eq!(key.name().as_str(), "_9_lives");
    assert!(key.is_valid());
}

#[test]
fn section_reads_up_to_the_next_header() {
    let mut lexer = tokenize("[A] x = 1 y = [2] [B] z = 3").unwrap();
    let a = Section::from_lexer(&mut lexer).unwrap();
    assert_eq!(a.name().as_str(), "A");
    assert_eq!(a.len(), 2);
    assert_eq!(a.get("Y").unwrap().value, KeyValue::IntegerArray(vec![2]));
    assert_eq!(lexer.len(), 6);
    let b = Section::from_lexer(&mut lexer).unwrap();
    assert_eq!(b.name().as_str(), "B");
    assert_eq!(b.len(), 1);
    assert!(lexer.is_empty());
}

#[test]
fn section_errors() {
    let mut lexer = tokenize("x = 1").unwrap();
    assert_eq!(Section::from_lexer(&mut lexer).err(), Some(ParseError::MissingSectionHeader));
    assert_eq!(lexer.len(), 3);
    let mut lexer = tokenize("[A").unwrap();
    assert_eq!(Section::from_lexer(&mut lexer).err(), Some(ParseError::MissingSectionHeader));
    let mut lexer = tokenize("[A] x = 1 X = 2").unwrap();
    assert_eq!(
        Section::from_lexer(&mut lexer).err(),
        Some(ParseError::DuplicateName(String::from("X")))
    );
    let mut lexer = tokenize("[A] x = ").unwrap();
    assert_eq!(Section::from_lexer(&mut lexer).err(), Some(ParseError::NotEnoughTokens));
    let mut lexer = tokenize("[A] x = 1 ]").unwrap();
    assert_eq!(Section::from_lexer(&mut lexer).err(), Some(ParseError::NotEnoughTokens));
}

#[test]
fn empty_section() {
    let mut lexer = tokenize("[A][B]").unwrap();
    let a = Section::from_lexer(&mut lexer).unwrap();
    assert!(a.is_empty());
    assert_eq!(lexer.len(), 3);
}

#[test]
fn document_scenario() {
    let doc =
        Document::from_str("[Size]\nWidth = 800u\nHeight = 600u\n[Position]\nX = 20\nY = 40")
            .unwrap();
    assert_eq!(doc.len(), 2);
    let size = doc.get_at(0).unwrap();
    assert_eq!(size.name().as_str(), "Size");
    assert_eq!(size.len(), 2);
    assert_eq!(*size.get_at(0).unwrap(), Key::new("Width", KeyValue::Unsigned(800)));
    assert_eq!(*size.get_at(1).unwrap(), Key::new("Height", KeyValue::Unsigned(600)));
    let position = doc.get_at(1).unwrap();
    assert_eq!(position.name().as_str(), "Position");
    assert_eq!(position.len(), 2);
    assert_eq!(*position.get_at(0).unwrap(), Key::new("X", KeyValue::Integer(20)));
    assert_eq!(*position.get_at(1).unwrap(), Key::new("Y", KeyValue::Integer(40)));
    assert_eq!(doc.get("SIZE").unwrap().get("width").unwrap().value, KeyValue::Unsigned(800));
    assert_eq!(doc.get("position").unwrap().get("y").unwrap().value, KeyValue::Integer(40));
    assert_eq!(doc.index_of("POSITION"), Some(1));
    assert!(doc.get("Colour").is_none());
}

#[test]
fn document_errors() {
    assert_eq!(Document::from_str("").err(), Some(ParseError::EmptyInput));
    assert_eq!(Document::from_str(" # nothing\n").err(), Some(ParseError::EmptyInput));
    assert_eq!(Document::from_str("x = 1").err(), Some(ParseError::MissingSectionHeader));
    assert_eq!(
        Document::from_str("[A] x = 1 [a] y = 2").err(),
        Some(ParseError::DuplicateName(String::from("a")))
    );
    assert_eq!(
        Document::from_str("[A] x = @").err(),
        Some(ParseError::Lex(LexError::UnrecognizedCharacter('@')))
    );
    assert_eq!(
        Document::from_str("[A] x = \u{e9}").err(),
        Some(ParseError::Lex(LexError::MultiByte))
    );
    let mut lexer = Lexer::new();
    assert_eq!(Document::from_lexer(&mut lexer).err(), Some(ParseError::EmptyInput));
}

#[test]
fn failure_takes_the_offending_token() {
    let mut lexer = tokenize("[1, 2.5] 9").unwrap();
    assert!(parse_value(&mut lexer).is_err());
    assert_eq!(lexer.len(), 2);
    assert_eq!(lexer.pop_front(), Some(Token::CloseBracket));
}

#[test]
fn document_through_the_standard_trait() {
    let doc: Document = "[A] x = 1".parse().unwrap();
    assert_eq!(doc.len(), 1);
    assert_eq!("x = 1".parse::<Document>().err(), Some(ParseError::MissingSectionHeader));
}
