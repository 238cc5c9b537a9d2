//! The recursive-descent parser: reads values and keys from the front of a
//! token stream, as the grammar says.
use crate::decimal::Decimal;
use crate::document::{index_of_section, sections_view, Document};
use crate::error::{outcome, Delimiter, Expected, ParseError};
use crate::grammar;
use crate::grammar::{
    array_items, array_of, document_sections, integer_of, key_names, section_keys, section_names,
    starts_section, table_items, text_of, tuple_items, unsigned_of, well_formed,
    well_formed_document, well_formed_section, SectionView,
};
use crate::key::{index_of_key, Key, KeyView};
use crate::key_value::{
    keys_view, lemma_table_view, lemma_tuple_view, values_view, KeyValue, ValueView,
};
use crate::laws::{
    lemma_document_well_formed, lemma_key_well_formed, lemma_section_well_formed,
    lemma_value_well_formed,
};
use crate::lexer::Lexer;
use crate::name::{as_valid_name, lemma_position_of, valid_name};
use crate::section::Section;
use crate::token::{tokens_view, ScalarKind, Token, TokenView};
use vstd::prelude::*;

verus! {

/// Builds the array of the given kind from its elements.
fn array_from(kind: ScalarKind, items: &Vec<Token>) -> (v: KeyValue)
    requires
        forall|j: int| 0 <= j < items.len() ==> (#[trigger] items[j])@.scalar_kind() == Some(kind),
    ensures
        v@ == array_of(kind, tokens_view(items@)),
{
    let n = items.len();
    let ghost views = tokens_view(items@);
    match kind {
        ScalarKind::String => {
            let mut out: Vec<String> = Vec::new();
            let mut i: usize = 0;
            while i < n
                invariant
                    i <= n,
                    n == items.len(),
                    out.len() == i,
                    kind == ScalarKind::String,
                    forall|j: int|
                        0 <= j < n ==> (#[trigger] items[j])@.scalar_kind() == Some(kind),
                    forall|j: int| 0 <= j < i ==> (#[trigger] out[j])@ == text_of(items[j]@),
                decreases n - i,
            {
                let s = match &items[i] {
                    Token::String(s) => s.clone(),
                    _ => String::new(),
                };
                out.push(s);
                i += 1;
            }
            assert(out@.map_values(|s: String| s@) =~= views.map_values(
                |t: TokenView| text_of(t),
            ));
            KeyValue::StringArray(out)
        },
        ScalarKind::Integer => {
            let mut out: Vec<i64> = Vec::new();
            let mut i: usize = 0;
            while i < n
                invariant
                    i <= n,
                    n == items.len(),
                    out.len() == i,
                    forall|j: int| 0 <= j < i ==> #[trigger] out[j] == integer_of(items[j]@),
                decreases n - i,
            {
                let x = match &items[i] {
                    Token::Integer(x) => *x,
                    _ => 0,
                };
                out.push(x);
                i += 1;
            }
            assert(out@ =~= views.map_values(|t: TokenView| integer_of(t)));
            KeyValue::IntegerArray(out)
        },
        ScalarKind::Unsigned => {
            let mut out: Vec<u64> = Vec::new();
            let mut i: usize = 0;
            while i < n
                invariant
                    i <= n,
                    n == items.len(),
                    out.len() == i,
                    forall|j: int| 0 <= j < i ==> #[trigger] out[j] == unsigned_of(items[j]@),
                decreases n - i,
            {
                let x = match &items[i] {
                    Token::Unsigned(x) => *x,
                    _ => 0,
                };
                out.push(x);
                i += 1;
            }
            assert(out@ =~= views.map_values(|t: TokenView| unsigned_of(t)));
            KeyValue::UnsignedArray(out)
        },
        ScalarKind::Float => {
            let mut out: Vec<Decimal> = Vec::new();
            let mut i: usize = 0;
            while i < n
                invariant
                    i <= n,
                    n == items.len(),
                    out.len() == i,
                    kind == ScalarKind::Float,
                    forall|j: int| 0 <= j < i ==> (#[trigger] out[j])@ == text_of(items[j]@),
                    forall|j: int|
                        0 <= j < n ==> (#[trigger] items[j])@.scalar_kind() == Some(kind),
                decreases n - i,
            {
                match &items[i] {
                    Token::Float(d) => {
                        out.push(d.clone());
                    },
                    _ => {
                        assert(items[i as int]@.scalar_kind() == Some(kind));
                    },
                }
                i += 1;
            }
            assert(out@.map_values(|d: Decimal| d@) =~= views.map_values(
                |t: TokenView| text_of(t),
            ));
            KeyValue::FloatArray(out)
        },
    }
}

/// Reads an array whose opening bracket has been taken.
fn parse_array(lexer: &mut Lexer) -> (r: Result<KeyValue, ParseError>)
    ensures
        outcome(r) == grammar::parse_array(old(lexer)@).result,
        final(lexer)@ == grammar::parse_array(old(lexer)@).rest,
        final(lexer)@.len() <= old(lexer)@.len(),
{
    let ghost start = lexer@;
    let mut closes = false;
    let mut first: Option<ScalarKind> = None;
    match lexer.peek() {
        None => {
            return Err(ParseError::MissingClose(Delimiter::Bracket));
        },
        Some(t) => {
            closes = matches!(t, Token::CloseBracket);
            first = t.scalar_kind();
        },
    }
    if closes {
        lexer.pop_front();
        let v = KeyValue::StringArray(Vec::new());
        assert(v@ == ValueView::StringArray(Seq::<Seq<char>>::empty())) by {
            assert(Seq::<String>::empty().map_values(|s: String| s@) =~= Seq::<Seq<char>>::empty());
        }
        return Ok(v);
    }
    let kind = match first {
        Some(k) => k,
        None => {
            return match lexer.pop_front() {
                Some(t) => Err(
                    ParseError::UnexpectedToken { found: t, expected: Expected::ValueOrClose },
                ),
                None => Err(ParseError::MissingClose(Delimiter::Bracket)),
            };
        },
    };
    let mut items: Vec<Token> = Vec::new();
    let mut ready = true;
    assert(tokens_view(items@) =~= Seq::<TokenView>::empty());
    loop
        invariant
            array_items(kind, lexer@, tokens_view(items@), ready) == array_items(
                kind,
                start,
                Seq::empty(),
                true,
            ),
            forall|j: int|
                0 <= j < items.len() ==> (#[trigger] items[j])@.scalar_kind() == Some(kind),
            lexer@.len() <= start.len(),
            start == old(lexer)@,
            start.len() > 0,
            start[0].scalar_kind() == Some(kind),
            start[0] != TokenView::CloseBracket,
        decreases lexer@.len(),
    {
        let ghost before = lexer@;
        let ghost seen = tokens_view(items@);
        let t = match lexer.pop_front() {
            Some(t) => t,
            None => {
                return Err(ParseError::MissingClose(Delimiter::Bracket));
            },
        };
        match t.scalar_kind() {
            Some(k) => {
                if !same_kind(k, kind) {
                    return Err(ParseError::KindMismatch { found: t, kind });
                }
                if !ready {
                    return Err(
                        ParseError::UnexpectedToken {
                            found: t,
                            expected: Expected::SeparatorOrClose,
                        },
                    );
                }
                items.push(t);
                ready = false;
                assert(tokens_view(items@) =~= seen.push(before[0]));
            },
            None => {
                if ready {
                    return Err(
                        ParseError::UnexpectedToken { found: t, expected: Expected::Element },
                    );
                }
                match t {
                    Token::Separator => {
                        ready = true;
                    },
                    Token::CloseBracket => {
                        return Ok(array_from(kind, &items));
                    },
                    other => {
                        return Err(
                            ParseError::UnexpectedToken {
                                found: other,
                                expected: Expected::SeparatorOrClose,
                            },
                        );
                    },
                }
            },
        }
    }
}

/// Tells whether two kinds are the same.
fn same_kind(a: ScalarKind, b: ScalarKind) -> (r: bool)
    ensures
        r == (a == b),
{
    match (a, b) {
        (ScalarKind::String, ScalarKind::String) => true,
        (ScalarKind::Integer, ScalarKind::Integer) => true,
        (ScalarKind::Unsigned, ScalarKind::Unsigned) => true,
        (ScalarKind::Float, ScalarKind::Float) => true,
        _ => false,
    }
}

/// Reads the values of a tuple whose opening parenthesis has been taken.
fn parse_tuple(lexer: &mut Lexer) -> (r: Result<KeyValue, ParseError>)
    ensures
        match tuple_items(old(lexer)@, Seq::empty(), true).result {
            Ok(items) => r is Ok && r->Ok_0@ == ValueView::Tuple(items),
            Err(e) => r is Err && r->Err_0@ == e,
        },
        final(lexer)@ == tuple_items(old(lexer)@, Seq::empty(), true).rest,
        final(lexer)@.len() <= old(lexer)@.len(),
    decreases old(lexer)@.len(), 3nat,
{
    let ghost start = lexer@;
    let mut items: Vec<KeyValue> = Vec::new();
    let mut ready = true;
    assert(values_view(items@) =~= Seq::<ValueView>::empty());
    loop
        invariant
            tuple_items(lexer@, values_view(items@), ready) == tuple_items(
                start,
                Seq::empty(),
                true,
            ),
            lexer@.len() <= start.len(),
            start == old(lexer)@,
        decreases lexer@.len(),
    {
        let ghost seen = values_view(items@);
        let mut closes = false;
        let mut separates = false;
        match lexer.peek() {
            None => {
                return Err(ParseError::MissingClose(Delimiter::Paren));
            },
            Some(t) => {
                closes = matches!(t, Token::CloseParen);
                separates = matches!(t, Token::Separator);
            },
        }
        if closes && (!ready || items.len() == 0) {
            lexer.pop_front();
            proof {
                lemma_tuple_view(items);
            }
            return Ok(KeyValue::Tuple(items));
        }
        if !ready {
            match lexer.pop_front() {
                Some(t) => {
                    if !separates {
                        return Err(
                            ParseError::UnexpectedToken {
                                found: t,
                                expected: Expected::SeparatorOrClose,
                            },
                        );
                    }
                    ready = true;
                },
                None => {
                    return Err(ParseError::MissingClose(Delimiter::Paren));
                },
            }
        } else {
            match parse_value(lexer) {
                Ok(v) => {
                    items.push(v);
                    ready = false;
                    assert(values_view(items@) =~= seen.push(v@));
                },
                Err(e) => {
                    return Err(e);
                },
            }
        }
    }
}

/// Reads one key and holds it against the keys read before it.
fn parse_member(lexer: &mut Lexer, keys: &Vec<Key>) -> (r: Result<Key, ParseError>)
    ensures
        outcome(r) == grammar::parse_member(old(lexer)@, keys_view(keys@)).result,
        final(lexer)@ == grammar::parse_member(old(lexer)@, keys_view(keys@)).rest,
        final(lexer)@.len() <= old(lexer)@.len(),
        r is Ok ==> final(lexer)@.len() < old(lexer)@.len(),
    decreases old(lexer)@.len(), 2nat,
{
    let key = match parse_key(lexer) {
        Ok(k) => k,
        Err(e) => {
            return Err(e);
        },
    };
    if !key.is_valid() {
        return Err(ParseError::InvalidName(key.name().clone()));
    }
    let found = index_of_key(keys, key.name().as_str());
    proof {
        lemma_position_of(key_names(keys_view(keys@)), key@.name);
    }
    if found.is_some() {
        return Err(ParseError::DuplicateName(key.name().clone()));
    }
    Ok(key)
}

/// Reads the keys of a table whose opening brace has been taken.
fn parse_table(lexer: &mut Lexer) -> (r: Result<KeyValue, ParseError>)
    ensures
        match table_items(old(lexer)@, Seq::empty(), true).result {
            Ok(keys) => r is Ok && r->Ok_0@ == ValueView::Table(keys),
            Err(e) => r is Err && r->Err_0@ == e,
        },
        final(lexer)@ == table_items(old(lexer)@, Seq::empty(), true).rest,
        final(lexer)@.len() <= old(lexer)@.len(),
    decreases old(lexer)@.len(), 3nat,
{
    let ghost start = lexer@;
    let mut keys: Vec<Key> = Vec::new();
    let mut ready = true;
    assert(keys_view(keys@) =~= Seq::<KeyView>::empty());
    loop
        invariant
            table_items(lexer@, keys_view(keys@), ready) == table_items(start, Seq::empty(), true),
            lexer@.len() <= start.len(),
            start == old(lexer)@,
        decreases lexer@.len(),
    {
        let ghost seen = keys_view(keys@);
        let mut closes = false;
        let mut separates = false;
        match lexer.peek() {
            None => {
                return Err(ParseError::MissingClose(Delimiter::Brace));
            },
            Some(t) => {
                closes = matches!(t, Token::CloseBrace);
                separates = matches!(t, Token::Separator);
            },
        }
        if closes && (!ready || keys.len() == 0) {
            lexer.pop_front();
            proof {
                lemma_table_view(keys);
            }
            return Ok(KeyValue::Table(keys));
        }
        if !ready {
            match lexer.pop_front() {
                Some(t) => {
                    if !separates {
                        return Err(
                            ParseError::UnexpectedToken {
                                found: t,
                                expected: Expected::SeparatorOrClose,
                            },
                        );
                    }
                    ready = true;
                },
                None => {
                    return Err(ParseError::MissingClose(Delimiter::Brace));
                },
            }
        } else {
            match parse_member(lexer, &keys) {
                Ok(k) => {
                    keys.push(k);
                    ready = false;
                    assert(keys_view(keys@) =~= seen.push(k@));
                },
                Err(e) => {
                    return Err(e);
                },
            }
        }
    }
}

/// Reads one value from the front of the stream: a scalar, an array, a
/// tuple or a table. Takes exactly the tokens of that value; where it
/// fails, the token at which it failed is taken too.
pub fn parse_value(lexer: &mut Lexer) -> (r: Result<KeyValue, ParseError>)
    ensures
        outcome(r) == grammar::parse_value(old(lexer)@).result,
        final(lexer)@ == grammar::parse_value(old(lexer)@).rest,
        final(lexer)@.len() <= old(lexer)@.len(),
        r is Ok ==> final(lexer)@.len() < old(lexer)@.len(),
        r matches Ok(v) ==> well_formed(v@),
    decreases old(lexer)@.len(), 0nat,
{
    proof {
        lemma_value_well_formed(lexer@);
    }
    let token = match lexer.pop_front() {
        Some(t) => t,
        None => {
            return Err(ParseError::EmptyInput);
        },
    };
    match token {
        Token::String(s) => Ok(KeyValue::String(s)),
        Token::Integer(i) => Ok(KeyValue::Integer(i)),
        Token::Unsigned(u) => Ok(KeyValue::Unsigned(u)),
        Token::Float(d) => Ok(KeyValue::Float(d)),
        Token::OpenBracket => parse_array(lexer),
        Token::OpenParen => parse_tuple(lexer),
        Token::OpenBrace => parse_table(lexer),
        other => Err(ParseError::UnexpectedToken { found: other, expected: Expected::Value }),
    }
}

/// Reads one key from the front of the stream: a name, the equals sign and
/// a value. Fails at once where fewer than three tokens are left.
pub fn parse_key(lexer: &mut Lexer) -> (r: Result<Key, ParseError>)
    ensures
        outcome(r) == grammar::parse_key(old(lexer)@).result,
        final(lexer)@ == grammar::parse_key(old(lexer)@).rest,
        final(lexer)@.len() <= old(lexer)@.len(),
        r is Ok ==> final(lexer)@.len() < old(lexer)@.len(),
        r matches Ok(k) ==> valid_name(k@.name) && well_formed(k@.value),
    decreases old(lexer)@.len(), 1nat,
{
    proof {
        lemma_key_well_formed(lexer@);
    }
    if lexer.len() < 3 {
        return Err(ParseError::NotEnoughTokens);
    }
    let id = match lexer.pop_front() {
        Some(Token::Identifier(id)) => id,
        Some(t) => {
            return Err(ParseError::UnexpectedToken { found: t, expected: Expected::Identifier });
        },
        None => {
            return Err(ParseError::NotEnoughTokens);
        },
    };
    match lexer.pop_front() {
        Some(Token::Equals) => {},
        Some(t) => {
            return Err(ParseError::UnexpectedToken { found: t, expected: Expected::Equals });
        },
        None => {
            return Err(ParseError::NotEnoughTokens);
        },
    }
    assert(lexer@ =~= old(lexer)@.skip(2));
    match parse_value(lexer) {
        Ok(value) => Ok(Key::new(id.as_str(), value)),
        Err(e) => Err(e),
    }
}

/// Tells whether the stream starts with a section header.
fn at_section(lexer: &Lexer) -> (r: bool)
    ensures
        r == starts_section(lexer@),
{
    if lexer.len() < 3 {
        return false;
    }
    let front = lexer.peek_to(3);
    matches!(front[0], Token::OpenBracket) && matches!(front[1], Token::Identifier(_)) && matches!(
        front[2],
        Token::CloseBracket
    )
}

/// Reads one section from the front of the stream: its header, then keys
/// up to the next header or the end of the stream. The name of each key
/// must be valid and new in the section.
pub fn parse_section(lexer: &mut Lexer) -> (r: Result<Section, ParseError>)
    ensures
        outcome(r) == grammar::parse_section(old(lexer)@).result,
        final(lexer)@ == grammar::parse_section(old(lexer)@).rest,
        final(lexer)@.len() <= old(lexer)@.len(),
        r is Ok ==> final(lexer)@.len() < old(lexer)@.len(),
        r matches Ok(section) ==> well_formed_section(section@),
{
    proof {
        lemma_section_well_formed(lexer@);
    }
    if !at_section(lexer) {
        return Err(ParseError::MissingSectionHeader);
    }
    lexer.pop_front();
    let id = match lexer.pop_front() {
        Some(Token::Identifier(id)) => id,
        _ => {
            return Err(ParseError::MissingSectionHeader);
        },
    };
    lexer.pop_front();
    assert(lexer@ =~= old(lexer)@.skip(3));
    let ghost start = lexer@;
    let mut keys: Vec<Key> = Vec::new();
    assert(keys_view(keys@) =~= Seq::<KeyView>::empty());
    while !lexer.is_empty() && !at_section(lexer)
        invariant
            section_keys(lexer@, keys_view(keys@)) == section_keys(start, Seq::empty()),
            lexer@.len() <= start.len(),
            start == old(lexer)@.skip(3),
            starts_section(old(lexer)@),
            old(lexer)@[1] == TokenView::Identifier(id@),
        decreases lexer@.len(),
    {
        let ghost seen = keys_view(keys@);
        match parse_member(lexer, &keys) {
            Ok(k) => {
                keys.push(k);
                assert(keys_view(keys@) =~= seen.push(k@));
            },
            Err(e) => {
                return Err(e);
            },
        }
    }
    Ok(Section { m_name: as_valid_name(id.as_str(), '_'), m_keys: keys })
}

/// Reads a document: sections until the stream is empty. The name of each
/// section must be valid and new in the document. Fails on an empty stream.
pub fn parse_document(lexer: &mut Lexer) -> (r: Result<Document, ParseError>)
    ensures
        outcome(r) == grammar::parse_document(old(lexer)@).result,
        final(lexer)@ == grammar::parse_document(old(lexer)@).rest,
        final(lexer)@.len() <= old(lexer)@.len(),
        r matches Ok(document) ==> well_formed_document(document@),
{
    proof {
        lemma_document_well_formed(lexer@);
    }
    if lexer.is_empty() {
        return Err(ParseError::EmptyInput);
    }
    let ghost start = lexer@;
    let mut sections: Vec<Section> = Vec::new();
    assert(sections_view(sections@) =~= Seq::<SectionView>::empty());
    while !lexer.is_empty()
        invariant
            document_sections(lexer@, sections_view(sections@)) == document_sections(
                start,
                Seq::empty(),
            ),
            lexer@.len() <= start.len(),
            start == old(lexer)@,
        decreases lexer@.len(),
    {
        let ghost seen = sections_view(sections@);
        let section = match parse_section(lexer) {
            Ok(s) => s,
            Err(e) => {
                return Err(e);
            },
        };
        if !section.is_valid() {
            return Err(ParseError::InvalidName(section.name().clone()));
        }
        let found = index_of_section(&sections, section.name().as_str());
        proof {
            lemma_position_of(section_names(seen), section@.name);
        }
        if found.is_some() {
            return Err(ParseError::DuplicateName(section.name().clone()));
        }
        sections.push(section);
        assert(sections_view(sections@) =~= seen.push(section@));
    }
    Ok(Document { m_sections: sections })
}

} // verus!
