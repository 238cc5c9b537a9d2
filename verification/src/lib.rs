//! A parser for a small configuration text format: sections of typed
//! key/value pairs with nested arrays, tuples and tables.
//!
//! A text is turned into tokens by the [`Lexer`], and the tokens into
//! values, keys, sections and documents by the functions of [`parser`].
//! The modules [`tokenizer`] and [`grammar`] say, as functions on
//! sequences, what the two steps give for every input; [`render`] says how
//! a document is written as text. What holds of all of them is proved in
//! [`laws`] and [`roundtrip`]: among other things, that a document which
//! was read from a text is read again from the text it is written as.
pub mod decimal;
pub mod document;
pub mod error;
pub mod grammar;
pub mod key;
pub mod key_value;
pub mod laws;
pub mod lexer;
pub mod name;
pub mod parser;
pub mod render;
pub mod roundtrip;
pub mod section;
pub mod text;
pub mod token;
pub mod tokenizer;
pub mod utility;

pub use decimal::Decimal;
pub use document::Document;
pub use error::{box_error, make_error, CfgError, Delimiter, Expected, LexError, ParseError};
pub use key::Key;
pub use key_value::KeyValue;
pub use lexer::{tokenize, FromLexer, Lexer};
pub use name::{as_valid_name, is_valid_name};
pub use parser::{parse_document, parse_key, parse_section, parse_value};
pub use section::Section;
pub use token::{ScalarKind, Token, COMMENT_CHAR};
pub use utility::indent;
