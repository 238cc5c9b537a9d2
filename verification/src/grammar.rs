//! The grammar, as functions from a sequence of tokens to what is read from
//! its front and what is left behind it.
//!
//! ```text
//! document = section { section }
//! section  = "[" name "]" { key }
//! key      = name "=" value
//! value    = scalar | array | tuple | table
//! array    = "[" [ scalar { "," scalar } ] "]"      all of one kind
//! tuple    = "(" [ value { "," value } ] ")"
//! table    = "{" [ key { "," key } ] "}"            no name twice
//! scalar   = string | integer | unsigned | float
//! ```
//!
//! Each function gives the outcome for every sequence of tokens: the value
//! read, or the first error met, and in both cases the tokens that remain.
//! A token at which reading fails counts as consumed.
use crate::error::{Delimiter, Expected, ParseErrorView};
use crate::key::KeyView;
use crate::key_value::ValueView;
use crate::name::{distinct_names, has_name, sanitized, valid_name};
use crate::token::{ScalarKind, TokenView};
use vstd::prelude::*;

verus! {

/// The outcome of reading one construct: the result, and the tokens left.
pub ghost struct Parsed<T> {
    pub result: Result<T, ParseErrorView>,
    pub rest: Seq<TokenView>,
}

/// A section as a mathematical value.
pub ghost struct SectionView {
    pub name: Seq<char>,
    pub keys: Seq<KeyView>,
}

/// A successful outcome.
pub open spec fn done<T>(value: T, rest: Seq<TokenView>) -> Parsed<T> {
    Parsed { result: Ok(value), rest }
}

/// A failed outcome.
pub open spec fn failed<T>(error: ParseErrorView, rest: Seq<TokenView>) -> Parsed<T> {
    Parsed { result: Err(error), rest }
}

/// The error for a token that stands where `expected` should.
pub open spec fn unexpected(found: TokenView, expected: Expected) -> ParseErrorView {
    ParseErrorView::UnexpectedToken { found, expected }
}

/// The names of `keys`, in order.
pub open spec fn key_names(keys: Seq<KeyView>) -> Seq<Seq<char>> {
    Seq::new(keys.len(), |i: int| keys[i].name)
}

/// The names of `sections`, in order.
pub open spec fn section_names(sections: Seq<SectionView>) -> Seq<Seq<char>> {
    Seq::new(sections.len(), |i: int| sections[i].name)
}

/// Tells whether one of `keys` goes by `name`, whatever the case of the
/// letters.
pub open spec fn has_key(keys: Seq<KeyView>, name: Seq<char>) -> bool {
    has_name(key_names(keys), name)
}

/// Tells whether one of `sections` goes by `name`, whatever the case of the
/// letters.
pub open spec fn has_section(sections: Seq<SectionView>, name: Seq<char>) -> bool {
    has_name(section_names(sections), name)
}

/// The text of a string or float token; empty for any other token.
pub open spec fn text_of(t: TokenView) -> Seq<char> {
    match t {
        TokenView::String(s) => s,
        TokenView::Float(s) => s,
        _ => Seq::empty(),
    }
}

/// The number of an integer token; zero for any other token.
pub open spec fn integer_of(t: TokenView) -> i64 {
    match t {
        TokenView::Integer(i) => i,
        _ => 0,
    }
}

/// The number of an unsigned token; zero for any other token.
pub open spec fn unsigned_of(t: TokenView) -> u64 {
    match t {
        TokenView::Unsigned(u) => u,
        _ => 0,
    }
}

/// The scalar value that a scalar token stands for.
pub open spec fn scalar_of(t: TokenView) -> ValueView {
    match t {
        TokenView::String(s) => ValueView::String(s),
        TokenView::Integer(i) => ValueView::Integer(i),
        TokenView::Unsigned(u) => ValueView::Unsigned(u),
        TokenView::Float(s) => ValueView::Float(s),
        _ => ValueView::String(Seq::empty()),
    }
}

/// The array of the given kind whose elements are the scalars of `items`.
pub open spec fn array_of(kind: ScalarKind, items: Seq<TokenView>) -> ValueView {
    match kind {
        ScalarKind::String => ValueView::StringArray(items.map_values(|t: TokenView| text_of(t))),
        ScalarKind::Integer => ValueView::IntegerArray(
            items.map_values(|t: TokenView| integer_of(t)),
        ),
        ScalarKind::Unsigned => ValueView::UnsignedArray(
            items.map_values(|t: TokenView| unsigned_of(t)),
        ),
        ScalarKind::Float => ValueView::FloatArray(items.map_values(|t: TokenView| text_of(t))),
    }
}

/// Reads the elements of an array of the given kind up to and including
/// the closing bracket. `ready` tells whether an element may come next: at
/// the start and after a separator.
pub open spec fn array_items(
    kind: ScalarKind,
    s: Seq<TokenView>,
    items: Seq<TokenView>,
    ready: bool,
) -> Parsed<Seq<TokenView>>
    decreases s.len(),
{
    if s.len() == 0 {
        failed(ParseErrorView::MissingClose(Delimiter::Bracket), s)
    } else {
        let t = s[0];
        let rest = s.skip(1);
        if t.scalar_kind() == Some(kind) {
            if ready {
                array_items(kind, rest, items.push(t), false)
            } else {
                failed(unexpected(t, Expected::SeparatorOrClose), rest)
            }
        } else if t.scalar_kind() is Some {
            failed(ParseErrorView::KindMismatch { found: t, kind }, rest)
        } else if t == TokenView::Separator && !ready {
            array_items(kind, rest, items, true)
        } else if t == TokenView::CloseBracket && !ready {
            done(items, rest)
        } else {
            failed(
                unexpected(
                    t,
                    if ready {
                        Expected::Element
                    } else {
                        Expected::SeparatorOrClose
                    },
                ),
                rest,
            )
        }
    }
}

/// Reads an array whose opening bracket has been taken. The first token
/// fixes the kind of the elements; a closing bracket at once gives an empty
/// array of strings.
pub open spec fn parse_array(s: Seq<TokenView>) -> Parsed<ValueView> {
    if s.len() == 0 {
        failed(ParseErrorView::MissingClose(Delimiter::Bracket), s)
    } else if s[0] == TokenView::CloseBracket {
        done(ValueView::StringArray(Seq::empty()), s.skip(1))
    } else {
        match s[0].scalar_kind() {
            Some(kind) => {
                let p = array_items(kind, s, Seq::empty(), true);
                match p.result {
                    Ok(items) => done(array_of(kind, items), p.rest),
                    Err(e) => failed(e, p.rest),
                }
            },
            None => failed(unexpected(s[0], Expected::ValueOrClose), s.skip(1)),
        }
    }
}

/// Reads one value from the front of `s`.
pub open spec fn parse_value(s: Seq<TokenView>) -> Parsed<ValueView>
    decreases s.len(), 0nat,
{
    if s.len() == 0 {
        failed(ParseErrorView::EmptyInput, s)
    } else {
        let rest = s.skip(1);
        match s[0] {
            TokenView::OpenBracket => parse_array(rest),
            TokenView::OpenParen => {
                let p = tuple_items(rest, Seq::empty(), true);
                match p.result {
                    Ok(items) => done(ValueView::Tuple(items), p.rest),
                    Err(e) => failed(e, p.rest),
                }
            },
            TokenView::OpenBrace => {
                let p = table_items(rest, Seq::empty(), true);
                match p.result {
                    Ok(keys) => done(ValueView::Table(keys), p.rest),
                    Err(e) => failed(e, p.rest),
                }
            },
            t => if t.scalar_kind() is Some {
                done(scalar_of(t), rest)
            } else {
                failed(unexpected(t, Expected::Value), rest)
            },
        }
    }
}

/// Reads the values of a tuple up to and including the closing parenthesis.
/// `ready` tells whether a value may come next: at the start and after a
/// separator. The closing parenthesis may follow a value, or the opening
/// parenthesis at once.
pub open spec fn tuple_items(s: Seq<TokenView>, items: Seq<ValueView>, ready: bool) -> Parsed<
    Seq<ValueView>,
>
    decreases s.len(), 3nat,
{
    if s.len() == 0 {
        failed(ParseErrorView::MissingClose(Delimiter::Paren), s)
    } else if s[0] == TokenView::CloseParen && (!ready || items.len() == 0) {
        done(items, s.skip(1))
    } else if !ready {
        if s[0] == TokenView::Separator {
            tuple_items(s.skip(1), items, true)
        } else {
            failed(unexpected(s[0], Expected::SeparatorOrClose), s.skip(1))
        }
    } else {
        let p = parse_value(s);
        match p.result {
            Ok(v) => if p.rest.len() < s.len() {
                tuple_items(p.rest, items.push(v), false)
            } else {
                failed(ParseErrorView::EmptyInput, p.rest)
            },
            Err(e) => failed(e, p.rest),
        }
    }
}

/// Reads one key from the front of `s`: a name, the equals sign and a
/// value. The name is made valid.
pub open spec fn parse_key(s: Seq<TokenView>) -> Parsed<KeyView>
    decreases s.len(), 1nat,
{
    if s.len() < 3 {
        failed(ParseErrorView::NotEnoughTokens, s)
    } else {
        match s[0] {
            TokenView::Identifier(id) => if s[1] == TokenView::Equals {
                let p = parse_value(s.skip(2));
                match p.result {
                    Ok(v) => done(KeyView { name: sanitized(id, '_'), value: v }, p.rest),
                    Err(e) => failed(e, p.rest),
                }
            } else {
                failed(unexpected(s[1], Expected::Equals), s.skip(2))
            },
            t => failed(unexpected(t, Expected::Identifier), s.skip(1)),
        }
    }
}

/// Reads one key and holds it against the keys read before: its name must
/// be valid and new.
pub open spec fn parse_member(s: Seq<TokenView>, keys: Seq<KeyView>) -> Parsed<KeyView>
    decreases s.len(), 2nat,
{
    let p = parse_key(s);
    match p.result {
        Ok(k) => if !valid_name(k.name) {
            failed(ParseErrorView::InvalidName(k.name), p.rest)
        } else if has_key(keys, k.name) {
            failed(ParseErrorView::DuplicateName(k.name), p.rest)
        } else {
            p
        },
        Err(e) => p,
    }
}

/// Reads the keys of a table up to and including the closing brace, with
/// the discipline of `tuple_items`.
pub open spec fn table_items(s: Seq<TokenView>, keys: Seq<KeyView>, ready: bool) -> Parsed<
    Seq<KeyView>,
>
    decreases s.len(), 3nat,
{
    if s.len() == 0 {
        failed(ParseErrorView::MissingClose(Delimiter::Brace), s)
    } else if s[0] == TokenView::CloseBrace && (!ready || keys.len() == 0) {
        done(keys, s.skip(1))
    } else if !ready {
        if s[0] == TokenView::Separator {
            table_items(s.skip(1), keys, true)
        } else {
            failed(unexpected(s[0], Expected::SeparatorOrClose), s.skip(1))
        }
    } else {
        let p = parse_member(s, keys);
        match p.result {
            Ok(k) => if p.rest.len() < s.len() {
                table_items(p.rest, keys.push(k), false)
            } else {
                failed(ParseErrorView::EmptyInput, p.rest)
            },
            Err(e) => failed(e, p.rest),
        }
    }
}

/// Tells whether `s` starts with a section header: `[`, a name, `]`.
pub open spec fn starts_section(s: Seq<TokenView>) -> bool {
    &&& s.len() >= 3
    &&& s[0] == TokenView::OpenBracket
    &&& s[1] is Identifier
    &&& s[2] == TokenView::CloseBracket
}

/// Reads the keys of a section: up to the next section header or the end
/// of the tokens.
pub open spec fn section_keys(s: Seq<TokenView>, keys: Seq<KeyView>) -> Parsed<Seq<KeyView>>
    decreases s.len(),
{
    if s.len() == 0 || starts_section(s) {
        done(keys, s)
    } else {
        let p = parse_member(s, keys);
        match p.result {
            Ok(k) => if p.rest.len() < s.len() {
                section_keys(p.rest, keys.push(k))
            } else {
                failed(ParseErrorView::EmptyInput, p.rest)
            },
            Err(e) => failed(e, p.rest),
        }
    }
}

/// Reads one section from the front of `s`: its header and its keys. The
/// name is made valid.
pub open spec fn parse_section(s: Seq<TokenView>) -> Parsed<SectionView> {
    if !starts_section(s) {
        failed(ParseErrorView::MissingSectionHeader, s)
    } else {
        let p = section_keys(s.skip(3), Seq::empty());
        match p.result {
            Ok(keys) => done(
                SectionView { name: sanitized(text_of_name(s[1]), '_'), keys },
                p.rest,
            ),
            Err(e) => failed(e, p.rest),
        }
    }
}

/// The text of an identifier token; empty for any other token.
pub open spec fn text_of_name(t: TokenView) -> Seq<char> {
    match t {
        TokenView::Identifier(s) => s,
        _ => Seq::empty(),
    }
}

/// Reads sections until the tokens end. The name of each must be valid and
/// new.
pub open spec fn document_sections(s: Seq<TokenView>, sections: Seq<SectionView>) -> Parsed<
    Seq<SectionView>,
>
    decreases s.len(),
{
    if s.len() == 0 {
        done(sections, s)
    } else {
        let p = parse_section(s);
        match p.result {
            Ok(sec) => if !valid_name(sec.name) {
                failed(ParseErrorView::InvalidName(sec.name), p.rest)
            } else if has_section(sections, sec.name) {
                failed(ParseErrorView::DuplicateName(sec.name), p.rest)
            } else if p.rest.len() < s.len() {
                document_sections(p.rest, sections.push(sec))
            } else {
                failed(ParseErrorView::EmptyInput, p.rest)
            },
            Err(e) => failed(e, p.rest),
        }
    }
}

/// Reads a document: one or more sections that use up all the tokens.
pub open spec fn parse_document(s: Seq<TokenView>) -> Parsed<Seq<SectionView>> {
    if s.len() == 0 {
        failed(ParseErrorView::EmptyInput, s)
    } else {
        document_sections(s, Seq::empty())
    }
}

/// A value is well formed where every table in it, at any depth, has keys
/// with valid names of which no two are the same.
pub open spec fn well_formed(v: ValueView) -> bool
    decreases v,
{
    match v {
        ValueView::Tuple(items) => forall|i: int|
            0 <= i < items.len() ==> well_formed(#[trigger] items[i]),
        ValueView::Table(keys) => distinct_names(key_names(keys)) && forall|i: int|
            0 <= i < keys.len() ==> valid_name((#[trigger] keys[i]).name) && well_formed(
                keys[i].value,
            ),
        _ => true,
    }
}

/// Keys with valid names of which no two are the same, and well-formed
/// values.
pub open spec fn well_formed_keys(keys: Seq<KeyView>) -> bool {
    well_formed(ValueView::Table(keys))
}

/// A section with a valid name and well-formed keys.
pub open spec fn well_formed_section(s: SectionView) -> bool {
    valid_name(s.name) && well_formed_keys(s.keys)
}

/// Sections that are well formed, with names of which no two are the same.
pub open spec fn well_formed_document(sections: Seq<SectionView>) -> bool {
    distinct_names(section_names(sections)) && forall|i: int|
        0 <= i < sections.len() ==> well_formed_section(#[trigger] sections[i])
}

} // verus!
