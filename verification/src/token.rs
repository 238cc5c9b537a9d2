//! The tokens that the tokenizer produces and the grammar consumes.
use crate::decimal::Decimal;
use crate::render::{token_text, token_to_string};
use vstd::prelude::*;

verus! {

/// The character used to start an inline comment.
pub const COMMENT_CHAR: char = '#';

/// The four kinds of scalar.
#[derive(Clone, Copy, Debug, PartialEq, Eq, Structural)]
pub enum ScalarKind {
    String,
    Integer,
    Unsigned,
    Float,
}

/// Possible tokens.
#[derive(Debug, PartialEq)]
pub enum Token {
    Identifier(String),
    String(String),
    Integer(i64),
    Unsigned(u64),
    Float(Decimal),
    Equals,
    Separator,
    Add,
    Subtract,
    Multiply,
    Divide,
    Modulo,
    OpenBracket,
    CloseBracket,
    OpenBrace,
    CloseBrace,
    OpenParen,
    CloseParen,
}

/// A token as a mathematical value: texts are sequences of characters.
pub ghost enum TokenView {
    Identifier(Seq<char>),
    String(Seq<char>),
    Integer(i64),
    Unsigned(u64),
    Float(Seq<char>),
    Equals,
    Separator,
    Add,
    Subtract,
    Multiply,
    Divide,
    Modulo,
    OpenBracket,
    CloseBracket,
    OpenBrace,
    CloseBrace,
    OpenParen,
    CloseParen,
}

impl TokenView {
    /// The kind of scalar that the token holds, if it holds one.
    pub open spec fn scalar_kind(self) -> Option<ScalarKind> {
        match self {
            TokenView::String(_) => Some(ScalarKind::String),
            TokenView::Integer(_) => Some(ScalarKind::Integer),
            TokenView::Unsigned(_) => Some(ScalarKind::Unsigned),
            TokenView::Float(_) => Some(ScalarKind::Float),
            _ => None,
        }
    }
}

impl View for Token {
    type V = TokenView;

    open spec fn view(&self) -> TokenView {
        match self {
            Token::Identifier(s) => TokenView::Identifier(s@),
            Token::String(s) => TokenView::String(s@),
            Token::Integer(i) => TokenView::Integer(*i),
            Token::Unsigned(u) => TokenView::Unsigned(*u),
            Token::Float(d) => TokenView::Float(d@),
            Token::Equals => TokenView::Equals,
            Token::Separator => TokenView::Separator,
            Token::Add => TokenView::Add,
            Token::Subtract => TokenView::Subtract,
            Token::Multiply => TokenView::Multiply,
            Token::Divide => TokenView::Divide,
            Token::Modulo => TokenView::Modulo,
            Token::OpenBracket => TokenView::OpenBracket,
            Token::CloseBracket => TokenView::CloseBracket,
            Token::OpenBrace => TokenView::OpenBrace,
            Token::CloseBrace => TokenView::CloseBrace,
            Token::OpenParen => TokenView::OpenParen,
            Token::CloseParen => TokenView::CloseParen,
        }
    }
}

/// The views of a list of tokens, in order.
pub open spec fn tokens_view(v: Seq<Token>) -> Seq<TokenView> {
    v.map_values(|t: Token| t@)
}

impl Clone for Token {
    fn clone(&self) -> (t: Token)
        ensures
            t@ == self@,
    {
        match self {
            Token::Identifier(s) => Token::Identifier(s.clone()),
            Token::String(s) => Token::String(s.clone()),
            Token::Integer(i) => Token::Integer(*i),
            Token::Unsigned(u) => Token::Unsigned(*u),
            Token::Float(d) => Token::Float(d.clone()),
            Token::Equals => Token::Equals,
            Token::Separator => Token::Separator,
            Token::Add => Token::Add,
            Token::Subtract => Token::Subtract,
            Token::Multiply => Token::Multiply,
            Token::Divide => Token::Divide,
            Token::Modulo => Token::Modulo,
            Token::OpenBracket => Token::OpenBracket,
            Token::CloseBracket => Token::CloseBracket,
            Token::OpenBrace => Token::OpenBrace,
            Token::CloseBrace => Token::CloseBrace,
            Token::OpenParen => Token::OpenParen,
            Token::CloseParen => Token::CloseParen,
        }
    }
}

impl Token {
    /// The token as it is written in a text.
    pub fn to_string(&self) -> (r: String)
        ensures
            r@ == token_text(self@),
    {
        token_to_string(self)
    }

    /// The kind of scalar that the token holds, if it holds one.
    pub fn scalar_kind(&self) -> (k: Option<ScalarKind>)
        ensures
            k == self@.scalar_kind(),
    {
        match self {
            Token::String(_) => Some(ScalarKind::String),
            Token::Integer(_) => Some(ScalarKind::Integer),
            Token::Unsigned(_) => Some(ScalarKind::Unsigned),
            Token::Float(_) => Some(ScalarKind::Float),
            _ => None,
        }
    }
}

} // verus!
