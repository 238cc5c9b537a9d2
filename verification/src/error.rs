//! The errors of the library: what can go wrong while text is turned into
//! tokens, and while tokens are turned into values.
use crate::render::{token_text, token_to_string};
use crate::token::{ScalarKind, Token, TokenView};
use vstd::prelude::*;
use vstd::string::StringExecFns;

verus! {

/// A result as a mathematical value.
pub open spec fn outcome<T: View, E: View>(r: Result<T, E>) -> Result<T::V, E::V> {
    match r {
        Ok(v) => Ok(v@),
        Err(e) => Err(e@),
    }
}

/// An error that is a message and nothing more.
#[derive(Debug)]
pub struct CfgError {
    message: String,
}

impl View for CfgError {
    type V = Seq<char>;

    closed spec fn view(&self) -> Seq<char> {
        self.message@
    }
}

impl CfgError {
    /// Creates a new error with the given message.
    pub fn new(msg: &str) -> (e: Self)
        ensures
            e@ == msg@,
    {
        Self { message: msg.to_owned() }
    }

    /// The message of the error, as a string of its own.
    pub fn to_string(&self) -> (r: String)
        ensures
            r@ == self@,
    {
        self.message.clone()
    }

    /// The message of the error.
    pub fn message(&self) -> (m: &str)
        ensures
            m@ == self@,
    {
        self.message.as_str()
    }
}

/// Creates a new error with the given message.
pub fn make_error(msg: &str) -> (e: CfgError)
    ensures
        e@ == msg@,
{
    CfgError::new(msg)
}

/// Creates a new boxed error with the given message.
pub fn box_error(msg: &str) -> (e: Box<CfgError>)
    ensures
        e@ == msg@,
{
    Box::new(make_error(msg))
}

/// Why a text could not be turned into tokens.
#[derive(Debug, PartialEq)]
pub enum LexError {
    /// The text holds a character that takes more than one byte.
    MultiByte,
    /// A number with a second decimal point.
    MultipleDecimalPoints,
    /// A number that does not fit its type; the literal is given.
    MalformedNumber(String),
    /// A string literal without its closing quote.
    UnterminatedString,
    /// A character that starts no token.
    UnrecognizedCharacter(char),
}

/// A `LexError` as a mathematical value.
pub ghost enum LexErrorView {
    MultiByte,
    MultipleDecimalPoints,
    MalformedNumber(Seq<char>),
    UnterminatedString,
    UnrecognizedCharacter(char),
}

impl View for LexError {
    type V = LexErrorView;

    open spec fn view(&self) -> LexErrorView {
        match self {
            LexError::MultiByte => LexErrorView::MultiByte,
            LexError::MultipleDecimalPoints => LexErrorView::MultipleDecimalPoints,
            LexError::MalformedNumber(s) => LexErrorView::MalformedNumber(s@),
            LexError::UnterminatedString => LexErrorView::UnterminatedString,
            LexError::UnrecognizedCharacter(c) => LexErrorView::UnrecognizedCharacter(*c),
        }
    }
}

/// The message for a `LexError`.
pub open spec fn lex_error_text(e: LexErrorView) -> Seq<char> {
    match e {
        LexErrorView::MultiByte => "Unable to parse strings containing multi-byte characters."@,
        LexErrorView::MultipleDecimalPoints => "Number has multiple decimal points."@,
        LexErrorView::MalformedNumber(s) => "Failed parsing number: "@ + s,
        LexErrorView::UnterminatedString => "String has no ending quote."@,
        LexErrorView::UnrecognizedCharacter(c) => "Unrecognised token: "@.push(c),
    }
}

impl LexError {
    /// The error in words.
    pub fn to_string(&self) -> (r: String)
        ensures
            r@ == lex_error_text(self@),
    {
        match self {
            LexError::MultiByte => "Unable to parse strings containing multi-byte characters."
                .to_owned(),
            LexError::MultipleDecimalPoints => "Number has multiple decimal points.".to_owned(),
            LexError::MalformedNumber(s) => {
                let mut out = "Failed parsing number: ".to_owned();
                out.append(s.as_str());
                out
            },
            LexError::UnterminatedString => "String has no ending quote.".to_owned(),
            LexError::UnrecognizedCharacter(c) => {
                let mut out = "Unrecognised token: ".to_owned();
                out.push(*c);
                out
            },
        }
    }
}

/// What the grammar expected where it found something else.
#[derive(Clone, Copy, Debug, PartialEq, Eq, Structural)]
pub enum Expected {
    /// A scalar, or the opening of an array, a tuple or a table.
    Value,
    /// A scalar or the closing bracket, right after an opening bracket.
    ValueOrClose,
    /// A further element, after a separator.
    Element,
    /// A separator or the closing delimiter, after an element.
    SeparatorOrClose,
    /// The name of a key.
    Identifier,
    /// The equals sign after the name of a key.
    Equals,
}

impl Expected {
    /// What was expected, in words.
    pub open spec fn text(self) -> Seq<char> {
        match self {
            Expected::Value => "value"@,
            Expected::ValueOrClose => "value or close bracket"@,
            Expected::Element => "element"@,
            Expected::SeparatorOrClose => "separator or closing delimiter"@,
            Expected::Identifier => "Identifier"@,
            Expected::Equals => "Equals"@,
        }
    }

    /// What was expected, in words.
    pub fn to_string(&self) -> (r: String)
        ensures
            r@ == self.text(),
    {
        match self {
            Expected::Value => "value".to_owned(),
            Expected::ValueOrClose => "value or close bracket".to_owned(),
            Expected::Element => "element".to_owned(),
            Expected::SeparatorOrClose => "separator or closing delimiter".to_owned(),
            Expected::Identifier => "Identifier".to_owned(),
            Expected::Equals => "Equals".to_owned(),
        }
    }
}

/// The name of a kind of scalar.
pub open spec fn kind_text(kind: ScalarKind) -> Seq<char> {
    match kind {
        ScalarKind::String => "string"@,
        ScalarKind::Integer => "integer"@,
        ScalarKind::Unsigned => "unsigned integer"@,
        ScalarKind::Float => "float"@,
    }
}

/// The name of a kind of scalar.
pub(crate) fn kind_to_string(kind: ScalarKind) -> (r: String)
    ensures
        r@ == kind_text(kind),
{
    match kind {
        ScalarKind::String => "string".to_owned(),
        ScalarKind::Integer => "integer".to_owned(),
        ScalarKind::Unsigned => "unsigned integer".to_owned(),
        ScalarKind::Float => "float".to_owned(),
    }
}

/// The three pairs of delimiters.
#[derive(Clone, Copy, Debug, PartialEq, Eq, Structural)]
pub enum Delimiter {
    Bracket,
    Paren,
    Brace,
}

impl Delimiter {
    /// The name of the closing delimiter.
    pub open spec fn text(self) -> Seq<char> {
        match self {
            Delimiter::Bracket => "square bracket"@,
            Delimiter::Paren => "parenthesis"@,
            Delimiter::Brace => "brace"@,
        }
    }

    /// The name of the closing delimiter.
    pub fn to_string(&self) -> (r: String)
        ensures
            r@ == self.text(),
    {
        match self {
            Delimiter::Bracket => "square bracket".to_owned(),
            Delimiter::Paren => "parenthesis".to_owned(),
            Delimiter::Brace => "brace".to_owned(),
        }
    }
}

/// Why a sequence of tokens could not be turned into a value, a key, a
/// section or a document.
#[derive(Debug, PartialEq)]
pub enum ParseError {
    /// The text could not be turned into tokens.
    Lex(LexError),
    /// There was no token where a value or a document had to start.
    EmptyInput,
    /// Fewer than the three tokens that every key takes.
    NotEnoughTokens,
    /// A token that the grammar does not allow at its place.
    UnexpectedToken { found: Token, expected: Expected },
    /// A scalar of another kind than the array that it stands in.
    KindMismatch { found: Token, kind: ScalarKind },
    /// The tokens ended before the delimiter was closed.
    MissingClose(Delimiter),
    /// A name that is not a valid name.
    InvalidName(String),
    /// A name that, but for the case of its letters, was used before.
    DuplicateName(String),
    /// No section header where a section had to start.
    MissingSectionHeader,
}

/// A `ParseError` as a mathematical value.
pub ghost enum ParseErrorView {
    Lex(LexErrorView),
    EmptyInput,
    NotEnoughTokens,
    UnexpectedToken { found: TokenView, expected: Expected },
    KindMismatch { found: TokenView, kind: ScalarKind },
    MissingClose(Delimiter),
    InvalidName(Seq<char>),
    DuplicateName(Seq<char>),
    MissingSectionHeader,
}

impl View for ParseError {
    type V = ParseErrorView;

    open spec fn view(&self) -> ParseErrorView {
        match self {
            ParseError::Lex(e) => ParseErrorView::Lex(e@),
            ParseError::EmptyInput => ParseErrorView::EmptyInput,
            ParseError::NotEnoughTokens => ParseErrorView::NotEnoughTokens,
            ParseError::UnexpectedToken { found, expected } => ParseErrorView::UnexpectedToken {
                found: found@,
                expected: *expected,
            },
            ParseError::KindMismatch { found, kind } => ParseErrorView::KindMismatch {
                found: found@,
                kind: *kind,
            },
            ParseError::MissingClose(d) => ParseErrorView::MissingClose(*d),
            ParseError::InvalidName(s) => ParseErrorView::InvalidName(s@),
            ParseError::DuplicateName(s) => ParseErrorView::DuplicateName(s@),
            ParseError::MissingSectionHeader => ParseErrorView::MissingSectionHeader,
        }
    }
}

/// The message for a `ParseError`.
pub open spec fn parse_error_text(e: ParseErrorView) -> Seq<char> {
    match e {
        ParseErrorView::Lex(e) => "Cannot parse string into tokens: "@ + lex_error_text(e),
        ParseErrorView::EmptyInput => "Unexpected end of tokens: nothing to load."@,
        ParseErrorView::NotEnoughTokens => "Not enough tokens left to load Key."@,
        ParseErrorView::UnexpectedToken { found, expected } => "Unexpected token: "@ + token_text(
            found,
        ) + "; expected "@ + expected.text(),
        ParseErrorView::KindMismatch { found, kind } => "Unexpected token: "@ + token_text(found)
            + "; expected "@ + kind_text(kind),
        ParseErrorView::MissingClose(d) => "Missing closing "@ + d.text(),
        ParseErrorView::InvalidName(s) => "Invalid name: "@ + s,
        ParseErrorView::DuplicateName(s) => "A name is used twice: "@ + s,
        ParseErrorView::MissingSectionHeader => "Failed loading section: No section header found."@,
    }
}

impl ParseError {
    /// The error in words.
    pub fn to_string(&self) -> (r: String)
        ensures
            r@ == parse_error_text(self@),
    {
        match self {
            ParseError::Lex(e) => {
                let mut out = "Cannot parse string into tokens: ".to_owned();
                out.append(e.to_string().as_str());
                out
            },
            ParseError::EmptyInput => "Unexpected end of tokens: nothing to load.".to_owned(),
            ParseError::NotEnoughTokens => "Not enough tokens left to load Key.".to_owned(),
            ParseError::UnexpectedToken { found, expected } => {
                let mut out = "Unexpected token: ".to_owned();
                out.append(token_to_string(found).as_str());
                out.append("; expected ");
                out.append(expected.to_string().as_str());
                out
            },
            ParseError::KindMismatch { found, kind } => {
                let mut out = "Unexpected token: ".to_owned();
                out.append(token_to_string(found).as_str());
                out.append("; expected ");
                out.append(kind_to_string(*kind).as_str());
                out
            },
            ParseError::MissingClose(d) => {
                let mut out = "Missing closing ".to_owned();
                out.append(d.to_string().as_str());
                out
            },
            ParseError::InvalidName(s) => {
                let mut out = "Invalid name: ".to_owned();
                out.append(s.as_str());
                out
            },
            ParseError::DuplicateName(s) => {
                let mut out = "A name is used twice: ".to_owned();
                out.append(s.as_str());
                out
            },
            ParseError::MissingSectionHeader => "Failed loading section: No section header found."
                .to_owned(),
        }
    }

    /// The error as a plain message.
    pub fn to_error(&self) -> (e: CfgError)
        ensures
            e@ == parse_error_text(self@),
    {
        CfgError { message: self.to_string() }
    }
}

} // verus!
