use parsecfg::{
    tokenize, Decimal, Delimiter, Document, Expected, FromLexer, Key, KeyValue, LexError,
    ParseError, ScalarKind, Section, Token,
};

fn float_value(text: &str) -> KeyValue {
    KeyValue::Float(Decimal::parse(text).unwrap())
}

#[test]
fn tokens_as_text() {
    assert_eq!(Token::Identifier(String::from("name")).to_string(), "name");
    assert_eq!(Token::String(String::from("a b")).to_string(), "\"a b\"");
    assert_eq!(Token::Integer(0).to_string(), "0");
    assert_eq!(Token::Integer(-15).to_string(), "-15");
    assert_eq!(Token::Integer(i64::MIN).to_string(), "-9223372036854775808");
    assert_eq!(Token::Integer(i64::MAX).to_string(), "9223372036854775807");
    assert_eq!(Token::Unsigned(u64::MAX).to_string(), "18446744073709551615u");
    assert_eq!(Token::Float(Decimal::parse("0.5").unwrap()).to_string(), "0.5");
    assert_eq!(Token::Float(Decimal::parse("200").unwrap()).to_string(), "200f");
    assert_eq!(Token::Equals.to_string(), "=");
    assert_eq!(Token::Separator.to_string(), ",");
    assert_eq!(Token::Add.to_string(), "+");
    assert_eq!(Token::Subtract.to_string(), "-");
    assert_eq!(Token::Multiply.to_string(), "*");
    assert_eq!(Token::Divide.to_string(), "/");
    assert_eq!(Token::Modulo.to_string(), "%");
    assert_eq!(Token::OpenBracket.to_string(), "[");
    assert_eq!(Token::CloseBracket.to_string(), "]");
    assert_eq!(Token::OpenBrace.to_string(), "{");
    assert_eq!(Token::CloseBrace.to_string(), "}");
    assert_eq!(Token::OpenParen.to_string(), "(");
    assert_eq!(Token::CloseParen.to_string(), ")");
    assert_eq!(Token::Integer(7).clone(), Token::Integer(7));
    assert_eq!(Token::Integer(7).scalar_kind(), Some(ScalarKind::Integer));
    assert_eq!(Token::Equals.scalar_kind(), None);
}

#[test]
fn scalars_as_text() {
    assert_eq!(KeyValue::String(String::from("C++")).to_string(), "\"C++\"");
    assert_eq!(KeyValue::Integer(1024).to_string(), "1024");
    assert_eq!(KeyValue::Unsigned(800).to_string(), "800u");
    assert_eq!(float_value("0.67").to_string(), "0.67");
    assert_eq!(float_value("4").to_string(), "4f");
}

#[test]
fn arrays_as_text() {
    assert_eq!(KeyValue::IntegerArray(vec![1, 2, 3]).to_string(), "[\n\t1,\n\t2,\n\t3\n]");
    assert_eq!(KeyValue::UnsignedArray(vec![7]).to_string(), "[\n\t7u\n]");
    assert_eq!(KeyValue::StringArray(vec![]).to_string(), "[\n]");
    assert_eq!(
        KeyValue::StringArray(vec![String::from("a"), String::from("b")]).to_string(),
        "[\n\t\"a\",\n\t\"b\"\n]"
    );
    assert_eq!(
        KeyValue::FloatArray(vec![Decimal::parse("1.5").unwrap(), Decimal::parse("2").unwrap()])
            .to_string(),
        "[\n\t1.5,\n\t2f\n]"
    );
}

#[test]
fn nested_values_as_text() {
    let value = KeyValue::Tuple(vec![
        KeyValue::Integer(1),
        KeyValue::Table(vec![Key::new("a", KeyValue::IntegerArray(vec![2]))]),
    ]);
    assert_eq!(value.to_string(), "(\n\t1,\n\t{\n\t\ta = [\n\t\t\t2\n\t\t]\n\t}\n)");
    assert_eq!(KeyValue::Tuple(vec![]).to_string(), "(\n)");
    assert_eq!(KeyValue::Table(vec![]).to_string(), "{\n}");
}

#[test]
fn keys_sections_and_documents_as_text() {
    let key = Key::new("Width", KeyValue::Unsigned(800));
    assert_eq!(key.to_string(), "Width = 800u");
    let section = Section::new("Size", &[key, Key::new("Height", KeyValue::Unsigned(600))]);
    assert_eq!(section.to_string(), "[Size]\nWidth = 800u\nHeight = 600u");
    assert_eq!(Section::new("Empty", &[]).to_string(), "[Empty]");
    let doc = Document::new(&[section, Section::new("Empty", &[])]);
    assert_eq!(doc.to_string(), "[Size]\nWidth = 800u\nHeight = 600u\n\n[Empty]\n\n");
    assert_eq!(Document::new(&[]).to_string(), "");
}

#[test]
fn written_document_reads_back() {
    let text = "[Window]\nTitle = \"Demo\" Size = (800u, 600u) Scale = 1.5 Depth = 24f\n\
                Modes = [1, 2, 3] Tags = [\"a\", \"b\"] Ratios = [0.5, 2f] Ids = [7u]\n\
                Font = {Name = \"Mono\", Sizes = [8, 10], Style = {Bold = 1, Slant = ()}}\n\
                [Empty]\n[Last]\nNone = []";
    let doc = Document::from_str(text).unwrap();
    let written = doc.to_string();
    let again = Document::from_str(&written).unwrap();
    assert_eq!(again, doc);
    assert_eq!(again.to_string(), written);
}

#[test]
fn written_value_reads_back() {
    let value = KeyValue::Tuple(vec![
        KeyValue::Unsigned(5),
        float_value("200"),
        KeyValue::IntegerArray(vec![1]),
    ]);
    let mut lexer = tokenize(&value.to_string()).unwrap();
    assert_eq!(KeyValue::from_lexer(&mut lexer), Ok(value));
    assert!(lexer.is_empty());
}

#[test]
fn lex_errors_in_words() {
    assert_eq!(
        LexError::MultiByte.to_string(),
        "Unable to parse strings containing multi-byte characters."
    );
    assert_eq!(LexError::MultipleDecimalPoints.to_string(), "Number has multiple decimal points.");
    assert_eq!(
        LexError::MalformedNumber(String::from("99999999999999999999")).to_string(),
        "Failed parsing number: 99999999999999999999"
    );
    assert_eq!(LexError::UnterminatedString.to_string(), "String has no ending quote.");
    assert_eq!(LexError::UnrecognizedCharacter('@').to_string(), "Unrecognised token: @");
}

#[test]
fn parse_errors_in_words() {
    assert_eq!(
        ParseError::Lex(LexError::UnterminatedString).to_string(),
        "Cannot parse string into tokens: String has no ending quote."
    );
    assert_eq!(ParseError::EmptyInput.to_string(), "Unexpected end of tokens: nothing to load.");
    assert_eq!(ParseError::NotEnoughTokens.to_string(), "Not enough tokens left to load Key.");
    assert_eq!(
        ParseError::UnexpectedToken { found: Token::Separator, expected: Expected::Value }
            .to_string(),
        "Unexpected token: ,; expected value"
    );
    assert_eq!(
        ParseError::UnexpectedToken { found: Token::Integer(1), expected: Expected::ValueOrClose }
            .to_string(),
        "Unexpected token: 1; expected value or close bracket"
    );
    assert_eq!(
        ParseError::UnexpectedToken { found: Token::Equals, expected: Expected::Element }
            .to_string(),
        "Unexpected token: =; expected element"
    );
    assert_eq!(
        ParseError::UnexpectedToken {
            found: Token::Integer(2),
            expected: Expected::SeparatorOrClose
        }
        .to_string(),
        "Unexpected token: 2; expected separator or closing delimiter"
    );
    assert_eq!(
        ParseError::UnexpectedToken { found: Token::Integer(2), expected: Expected::Identifier }
            .to_string(),
        "Unexpected token: 2; expected Identifier"
    );
    assert_eq!(
        ParseError::UnexpectedToken { found: Token::Integer(2), expected: Expected::Equals }
            .to_string(),
        "Unexpected token: 2; expected Equals"
    );
    assert_eq!(
        ParseError::KindMismatch { found: Token::Unsigned(2), kind: ScalarKind::String }
            .to_string(),
        "Unexpected token: 2u; expected string"
    );
    assert_eq!(
        ParseError::KindMismatch { found: Token::Unsigned(2), kind: ScalarKind::Integer }
            .to_string(),
        "Unexpected token: 2u; expected integer"
    );
    assert_eq!(
        ParseError::KindMismatch { found: Token::Integer(2), kind: ScalarKind::Unsigned }
            .to_string(),
        "Unexpected token: 2; expected unsigned integer"
    );
    assert_eq!(
        ParseError::KindMismatch { found: Token::Integer(2), kind: ScalarKind::Float }.to_string(),
        "Unexpected token: 2; expected float"
    );
    assert_eq!(
        ParseError::MissingClose(Delimiter::Bracket).to_string(),
        "Missing closing square bracket"
    );
    assert_eq!(
        ParseError::MissingClose(Delimiter::Paren).to_string(),
        "Missing closing parenthesis"
    );
    assert_eq!(ParseError::MissingClose(Delimiter::Brace).to_string(), "Missing closing brace");
    assert_eq!(ParseError::InvalidName(String::from("9")).to_string(), "Invalid name: 9");
    assert_eq!(
        ParseError::DuplicateName(String::from("a")).to_string(),
        "A name is used twice: a"
    );
    assert_eq!(
        ParseError::MissingSectionHeader.to_string(),
        "Failed loading section: No section header found."
    );
    assert_eq!(
        ParseError::MissingSectionHeader.to_error().message(),
        "Failed loading section: No section header found."
    );
}
