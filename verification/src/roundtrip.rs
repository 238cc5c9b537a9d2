//! Reading back what was written: the text of a value, a key, a section or
//! a document stands for that value, key, section or document again.
//!
//! This holds of everything that the text form can carry. A string cannot
//! hold a quote or a character beyond ASCII, a signed integer cannot be
//! negative, and an array without elements is read as an array of strings,
//! because the format has no way to write these.
use crate::decimal::{is_decimal, lemma_literal_is_decimal, literal_text, whole_digits};
use crate::document::document_of;
use crate::error::{LexErrorView, ParseErrorView};
use crate::grammar::{
    array_items, array_of, document_sections, done, integer_of, key_names, parse_document,
    parse_key, parse_member, parse_section, parse_value, section_keys, section_names,
    starts_section, table_items, text_of, text_of_name, tuple_items, unsigned_of, SectionView,
};
use crate::key::KeyView;
use crate::key_value::ValueView;
use crate::laws::{
    all_digits, is_rest_of, lemma_member_rest, lemma_rest_of_rest, lemma_string_literal,
    lemma_value_rest, lemma_whitespace_skipped, value_of,
};
use crate::name::{
    distinct_names, has_name, lemma_sanitized_is_valid, lemma_valid_name_unchanged, valid_name,
};
use crate::render::{
    decimal_text, digit_char, document_text, enclosed, float_text, integer_text, key_lines,
    key_text_at, key_texts, lemma_key_texts, lemma_value_texts, lines, quoted, section_text,
    unsigned_text, value_text, value_text_at, value_texts,
};
use crate::text::{
    digits_value, eq_ignore_case, is_digit, is_name_char, is_name_start, is_whitespace,
    lemma_span_is, lemma_span_props, span,
};
use crate::token::{ScalarKind, TokenView};
use crate::tokenizer::{
    emit, identifier_step, lex, next_step, number_of, punctuation, starts_number, suffix_kind,
    tokenized, Step,
};
use crate::utility::tabs;
use vstd::prelude::*;

verus! {

/// A text that can stand between quotes: ASCII, and without a quote.
pub open spec fn plain(s: Seq<char>) -> bool {
    vstd::utf8::is_ascii_chars(s) && forall|i: int| 0 <= i < s.len() ==> #[trigger] s[i] != '"'
}

/// A value that the text form can carry.
pub open spec fn writable(v: ValueView) -> bool
    decreases v,
{
    match v {
        ValueView::String(s) => plain(s),
        ValueView::Integer(i) => i >= 0,
        ValueView::Unsigned(_) => true,
        ValueView::Float(s) => is_decimal(s),
        ValueView::StringArray(a) => forall|i: int| 0 <= i < a.len() ==> plain(#[trigger] a[i]),
        ValueView::IntegerArray(a) => a.len() > 0 && forall|i: int|
            0 <= i < a.len() ==> #[trigger] a[i] >= 0,
        ValueView::UnsignedArray(a) => a.len() > 0,
        ValueView::FloatArray(a) => a.len() > 0 && forall|i: int|
            0 <= i < a.len() ==> is_decimal(#[trigger] a[i]),
        ValueView::Tuple(items) => forall|i: int|
            0 <= i < items.len() ==> writable(#[trigger] items[i]),
        ValueView::Table(keys) => writable_keys(keys),
    }
}

/// Keys that the text form can carry: with valid names of which no two
/// are the same, and with values that it can carry.
pub open spec fn writable_keys(keys: Seq<KeyView>) -> bool
    decreases keys,
{
    distinct_names(key_names(keys)) && forall|i: int|
        0 <= i < keys.len() ==> valid_name((#[trigger] keys[i]).name) && writable(keys[i].value)
}

/// A section that the text form can carry.
pub open spec fn writable_section(s: SectionView) -> bool {
    valid_name(s.name) && writable_keys(s.keys)
}

/// A document that the text form can carry: one section or more, with
/// names of which no two are the same.
pub open spec fn writable_document(sections: Seq<SectionView>) -> bool {
    &&& sections.len() > 0
    &&& distinct_names(section_names(sections))
    &&& forall|i: int| 0 <= i < sections.len() ==> writable_section(#[trigger] sections[i])
}

/// Groups of tokens with a separator between each two.
pub open spec fn joined(groups: Seq<Seq<TokenView>>) -> Seq<TokenView>
    decreases groups.len(),
{
    if groups.len() == 0 {
        Seq::empty()
    } else if groups.len() == 1 {
        groups[0]
    } else {
        groups[0] + seq![TokenView::Separator] + joined(groups.drop_first())
    }
}

/// Groups of tokens one after the other.
pub open spec fn chained(groups: Seq<Seq<TokenView>>) -> Seq<TokenView>
    decreases groups.len(),
{
    if groups.len() == 0 {
        Seq::empty()
    } else {
        groups[0] + chained(groups.drop_first())
    }
}

/// The tokens of an array: its elements between brackets.
pub open spec fn array_tokens(elements: Seq<TokenView>) -> Seq<TokenView> {
    seq![TokenView::OpenBracket] + joined(elements.map_values(|t: TokenView| seq![t])) + seq![
        TokenView::CloseBracket,
    ]
}

/// The tokens that a value is written with.
pub open spec fn value_tokens(v: ValueView) -> Seq<TokenView>
    decreases v,
{
    match v {
        ValueView::String(s) => seq![TokenView::String(s)],
        ValueView::Integer(i) => seq![TokenView::Integer(i)],
        ValueView::Unsigned(u) => seq![TokenView::Unsigned(u)],
        ValueView::Float(s) => seq![TokenView::Float(s)],
        ValueView::StringArray(a) => array_tokens(
            a.map_values(|s: Seq<char>| TokenView::String(s)),
        ),
        ValueView::IntegerArray(a) => array_tokens(a.map_values(|i: i64| TokenView::Integer(i))),
        ValueView::UnsignedArray(a) => array_tokens(a.map_values(|u: u64| TokenView::Unsigned(u))),
        ValueView::FloatArray(a) => array_tokens(a.map_values(|s: Seq<char>| TokenView::Float(s))),
        ValueView::Tuple(items) => seq![TokenView::OpenParen] + joined(values_tokens(items)) + seq![
            TokenView::CloseParen,
        ],
        ValueView::Table(keys) => seq![TokenView::OpenBrace] + joined(keys_tokens(keys)) + seq![
            TokenView::CloseBrace,
        ],
    }
}

/// The tokens of each of a list of values.
pub open spec fn values_tokens(items: Seq<ValueView>) -> Seq<Seq<TokenView>>
    decreases items,
{
    if items.len() == 0 {
        Seq::empty()
    } else {
        values_tokens(items.drop_last()).push(value_tokens(items.last()))
    }
}

/// The tokens that a key is written with.
pub open spec fn key_tokens(k: KeyView) -> Seq<TokenView>
    decreases k,
{
    seq![TokenView::Identifier(k.name), TokenView::Equals] + value_tokens(k.value)
}

/// The tokens of each of a list of keys.
pub open spec fn keys_tokens(keys: Seq<KeyView>) -> Seq<Seq<TokenView>>
    decreases keys,
{
    if keys.len() == 0 {
        Seq::empty()
    } else {
        keys_tokens(keys.drop_last()).push(key_tokens(keys.last()))
    }
}

/// The tokens that a section is written with.
pub open spec fn section_tokens(s: SectionView) -> Seq<TokenView> {
    seq![TokenView::OpenBracket, TokenView::Identifier(s.name), TokenView::CloseBracket] + chained(
        keys_tokens(s.keys),
    )
}

/// The tokens that a document is written with.
pub open spec fn document_tokens(sections: Seq<SectionView>) -> Seq<TokenView> {
    chained(Seq::new(sections.len(), |i: int| section_tokens(sections[i])))
}

/// The tokens of a list stand at the places of the values.
pub proof fn lemma_values_tokens(items: Seq<ValueView>)
    ensures
        values_tokens(items).len() == items.len(),
        forall|i: int|
            0 <= i < items.len() ==> values_tokens(items)[i] == value_tokens(#[trigger] items[i]),
    decreases items.len(),
{
    if items.len() > 0 {
        let front = items.drop_last();
        lemma_values_tokens(front);
        assert forall|i: int| 0 <= i < items.len() implies values_tokens(items)[i] == value_tokens(
            #[trigger] items[i],
        ) by {
            if i < front.len() {
                assert(front[i] == items[i]);
            }
        }
    }
}

/// The tokens of a list stand at the places of the keys.
pub proof fn lemma_keys_tokens(keys: Seq<KeyView>)
    ensures
        keys_tokens(keys).len() == keys.len(),
        forall|i: int|
            0 <= i < keys.len() ==> keys_tokens(keys)[i] == key_tokens(#[trigger] keys[i]),
    decreases keys.len(),
{
    if keys.len() > 0 {
        let front = keys.drop_last();
        lemma_keys_tokens(front);
        assert forall|i: int| 0 <= i < keys.len() implies keys_tokens(keys)[i] == key_tokens(
            #[trigger] keys[i],
        ) by {
            if i < front.len() {
                assert(front[i] == keys[i]);
            }
        }
    }
}

/// A token that can open a value: a scalar or an opening delimiter.
pub open spec fn opens_value(t: TokenView) -> bool {
    t.scalar_kind() is Some || t == TokenView::OpenBracket || t == TokenView::OpenParen || t
        == TokenView::OpenBrace
}

/// The tokens of a value are not empty and start with a token that opens
/// a value.
pub proof fn lemma_value_tokens_front(v: ValueView)
    ensures
        value_tokens(v).len() > 0,
        opens_value(value_tokens(v)[0]),
{
}

/// The rest of groups that are joined by separators: what stands behind
/// the first group.
pub proof fn lemma_joined_step(groups: Seq<Seq<TokenView>>, i: int, tail: Seq<TokenView>)
    requires
        0 <= i < groups.len(),
    ensures
        joined(groups.skip(i)) + tail == groups[i] + (if i + 1 < groups.len() {
            seq![TokenView::Separator] + (joined(groups.skip(i + 1)) + tail)
        } else {
            tail
        }),
{
    let here = groups.skip(i);
    assert(here[0] == groups[i]);
    assert(here.drop_first() =~= groups.skip(i + 1));
    if i + 1 < groups.len() {
        assert(joined(here) + tail =~= groups[i] + (seq![TokenView::Separator] + (joined(
            groups.skip(i + 1),
        ) + tail)));
    }
}

/// The elements of an array, written with separators and closed by a
/// bracket, are read as those elements.
pub proof fn lemma_array_parse(
    kind: ScalarKind,
    elements: Seq<TokenView>,
    i: int,
    rest: Seq<TokenView>,
)
    requires
        0 <= i < elements.len(),
        forall|j: int|
            0 <= j < elements.len() ==> (#[trigger] elements[j]).scalar_kind() == Some(kind),
    ensures
        array_items(
            kind,
            joined(elements.map_values(|t: TokenView| seq![t]).skip(i)) + (seq![
                TokenView::CloseBracket,
            ] + rest),
            elements.take(i),
            true,
        ) == done(elements, rest),
    decreases elements.len() - i,
{
    let groups = elements.map_values(|t: TokenView| seq![t]);
    let close = seq![TokenView::CloseBracket] + rest;
    let s = joined(groups.skip(i)) + close;
    let e = elements[i];
    lemma_joined_step(groups, i, close);
    let after = if i + 1 < groups.len() {
        seq![TokenView::Separator] + (joined(groups.skip(i + 1)) + close)
    } else {
        close
    };
    assert(s == seq![e] + after);
    assert(s[0] == e);
    assert(s.skip(1) =~= after);
    let seen = elements.take(i).push(e);
    assert(seen =~= elements.take(i + 1));
    assert(array_items(kind, s, elements.take(i), true) == array_items(kind, after, seen, false));
    if i + 1 < groups.len() {
        let next = joined(groups.skip(i + 1)) + close;
        assert(after[0] == TokenView::Separator);
        assert(after.skip(1) =~= next);
        assert(array_items(kind, after, seen, false) == array_items(kind, next, seen, true));
        lemma_array_parse(kind, elements, i + 1, rest);
    } else {
        assert(after[0] == TokenView::CloseBracket);
        assert(after.skip(1) =~= rest);
        assert(seen =~= elements);
    }
}

/// An array that is written is read as that array.
pub proof fn lemma_array_value_parse(
    kind: ScalarKind,
    elements: Seq<TokenView>,
    rest: Seq<TokenView>,
)
    requires
        elements.len() > 0,
        forall|j: int|
            0 <= j < elements.len() ==> (#[trigger] elements[j]).scalar_kind() == Some(kind),
    ensures
        parse_value(array_tokens(elements) + rest) == done(array_of(kind, elements), rest),
{
    let groups = elements.map_values(|t: TokenView| seq![t]);
    let s = array_tokens(elements) + rest;
    let inner = joined(groups) + (seq![TokenView::CloseBracket] + rest);
    assert(s[0] == TokenView::OpenBracket);
    assert(s.skip(1) =~= inner);
    assert(groups.skip(0) =~= groups);
    lemma_joined_step(groups, 0, seq![TokenView::CloseBracket] + rest);
    assert(inner[0] == elements[0]);
    assert(elements.take(0) =~= Seq::<TokenView>::empty());
    lemma_array_parse(kind, elements, 0, rest);
}

/// A value that is written is read as that value, and what stands behind
/// it is left: `parse_value(value_tokens(v) + rest) == (v, rest)`.
pub proof fn lemma_value_parse(v: ValueView, rest: Seq<TokenView>)
    requires
        writable(v),
    ensures
        parse_value(value_tokens(v) + rest) == done(v, rest),
    decreases v, 0nat,
{
    let s = value_tokens(v) + rest;
    match v {
        ValueView::String(x) => {
            assert(s[0] == TokenView::String(x));
            assert(s.skip(1) =~= rest);
        },
        ValueView::Integer(x) => {
            assert(s[0] == TokenView::Integer(x));
            assert(s.skip(1) =~= rest);
        },
        ValueView::Unsigned(x) => {
            assert(s[0] == TokenView::Unsigned(x));
            assert(s.skip(1) =~= rest);
        },
        ValueView::Float(x) => {
            assert(s[0] == TokenView::Float(x));
            assert(s.skip(1) =~= rest);
        },
        ValueView::StringArray(a) => {
            let elements = a.map_values(|x: Seq<char>| TokenView::String(x));
            if a.len() == 0 {
                assert(elements.map_values(|t: TokenView| seq![t]) =~= Seq::<
                    Seq<TokenView>,
                >::empty());
                assert(s =~= seq![TokenView::OpenBracket, TokenView::CloseBracket] + rest);
                assert(s[0] == TokenView::OpenBracket);
                assert(s.skip(1)[0] == TokenView::CloseBracket);
                assert(s.skip(1).skip(1) =~= rest);
                assert(a =~= Seq::<Seq<char>>::empty());
            } else {
                lemma_array_value_parse(ScalarKind::String, elements, rest);
                assert(elements.map_values(|t: TokenView| text_of(t)) =~= a);
            }
        },
        ValueView::IntegerArray(a) => {
            let elements = a.map_values(|x: i64| TokenView::Integer(x));
            lemma_array_value_parse(ScalarKind::Integer, elements, rest);
            assert(elements.map_values(|t: TokenView| integer_of(t)) =~= a);
        },
        ValueView::UnsignedArray(a) => {
            let elements = a.map_values(|x: u64| TokenView::Unsigned(x));
            lemma_array_value_parse(ScalarKind::Unsigned, elements, rest);
            assert(elements.map_values(|t: TokenView| unsigned_of(t)) =~= a);
        },
        ValueView::FloatArray(a) => {
            let elements = a.map_values(|x: Seq<char>| TokenView::Float(x));
            lemma_array_value_parse(ScalarKind::Float, elements, rest);
            assert(elements.map_values(|t: TokenView| text_of(t)) =~= a);
        },
        ValueView::Tuple(items) => {
            let close = seq![TokenView::CloseParen] + rest;
            let inner = joined(values_tokens(items)) + close;
            assert(s[0] == TokenView::OpenParen);
            assert(s.skip(1) =~= inner);
            lemma_values_tokens(items);
            if items.len() == 0 {
                assert(inner =~= close);
                assert(inner[0] == TokenView::CloseParen);
                assert(inner.skip(1) =~= rest);
                assert(items =~= Seq::<ValueView>::empty());
            } else {
                assert(values_tokens(items).skip(0) =~= values_tokens(items));
                assert(items.take(0) =~= Seq::<ValueView>::empty());
                lemma_tuple_parse(items, 0, rest);
            }
        },
        ValueView::Table(keys) => {
            let close = seq![TokenView::CloseBrace] + rest;
            let inner = joined(keys_tokens(keys)) + close;
            assert(s[0] == TokenView::OpenBrace);
            assert(s.skip(1) =~= inner);
            lemma_keys_tokens(keys);
            if keys.len() == 0 {
                assert(inner =~= close);
                assert(inner[0] == TokenView::CloseBrace);
                assert(inner.skip(1) =~= rest);
                assert(keys =~= Seq::<KeyView>::empty());
            } else {
                assert(keys_tokens(keys).skip(0) =~= keys_tokens(keys));
                assert(keys.take(0) =~= Seq::<KeyView>::empty());
                lemma_table_parse(keys, 0, rest);
            }
        },
    }
}

/// The values of a tuple, written with separators and closed by a
/// parenthesis, are read as those values.
pub proof fn lemma_tuple_parse(items: Seq<ValueView>, i: int, rest: Seq<TokenView>)
    requires
        0 <= i < items.len(),
        forall|j: int| 0 <= j < items.len() ==> writable(#[trigger] items[j]),
    ensures
        tuple_items(
            joined(values_tokens(items).skip(i)) + (seq![TokenView::CloseParen] + rest),
            items.take(i),
            true,
        ) == done(items, rest),
    decreases items, items.len() - i,
{
    let groups = values_tokens(items);
    lemma_values_tokens(items);
    let close = seq![TokenView::CloseParen] + rest;
    let s = joined(groups.skip(i)) + close;
    let v = items[i];
    lemma_joined_step(groups, i, close);
    let after = if i + 1 < groups.len() {
        seq![TokenView::Separator] + (joined(groups.skip(i + 1)) + close)
    } else {
        close
    };
    assert(s == value_tokens(v) + after);
    lemma_value_tokens_front(v);
    assert(s[0] == value_tokens(v)[0]);
    lemma_value_parse(v, after);
    let seen = items.take(i).push(v);
    assert(seen =~= items.take(i + 1));
    assert(after.len() < s.len());
    assert(tuple_items(s, items.take(i), true) == tuple_items(after, seen, false));
    if i + 1 < groups.len() {
        let next = joined(groups.skip(i + 1)) + close;
        assert(after[0] == TokenView::Separator);
        assert(after.skip(1) =~= next);
        assert(tuple_items(after, seen, false) == tuple_items(next, seen, true));
        lemma_tuple_parse(items, i + 1, rest);
    } else {
        assert(after[0] == TokenView::CloseParen);
        assert(after.skip(1) =~= rest);
        assert(seen =~= items);
    }
}

/// A key that is written is read as that key.
pub proof fn lemma_key_parse(k: KeyView, rest: Seq<TokenView>)
    requires
        valid_name(k.name),
        writable(k.value),
    ensures
        parse_key(key_tokens(k) + rest) == done(k, rest),
    decreases k, 0nat,
{
    let s = key_tokens(k) + rest;
    lemma_value_tokens_front(k.value);
    assert(s[0] == TokenView::Identifier(k.name));
    assert(s[1] == TokenView::Equals);
    assert(s.skip(2) =~= value_tokens(k.value) + rest);
    lemma_value_parse(k.value, rest);
    lemma_valid_name_unchanged(k.name, '_');
}

/// A key that is written behind keys with other names is read as that
/// key.
pub proof fn lemma_member_parse(keys: Seq<KeyView>, i: int, rest: Seq<TokenView>)
    requires
        0 <= i < keys.len(),
        writable_keys(keys),
    ensures
        parse_member(key_tokens(keys[i]) + rest, keys.take(i)) == done(keys[i], rest),
    decreases keys, 0nat,
{
    lemma_key_parse(keys[i], rest);
    let names = key_names(keys);
    let seen = key_names(keys.take(i));
    assert forall|j: int| 0 <= j < seen.len() implies !eq_ignore_case(
        #[trigger] seen[j],
        keys[i].name,
    ) by {
        assert(seen[j] == names[j]);
        assert(names[i] == keys[i].name);
    }
}

/// The keys of a table, written with separators and closed by a brace,
/// are read as those keys.
pub proof fn lemma_table_parse(keys: Seq<KeyView>, i: int, rest: Seq<TokenView>)
    requires
        0 <= i < keys.len(),
        writable_keys(keys),
    ensures
        table_items(
            joined(keys_tokens(keys).skip(i)) + (seq![TokenView::CloseBrace] + rest),
            keys.take(i),
            true,
        ) == done(keys, rest),
    decreases keys, keys.len() - i,
{
    let groups = keys_tokens(keys);
    lemma_keys_tokens(keys);
    let close = seq![TokenView::CloseBrace] + rest;
    let s = joined(groups.skip(i)) + close;
    let k = keys[i];
    lemma_joined_step(groups, i, close);
    let after = if i + 1 < groups.len() {
        seq![TokenView::Separator] + (joined(groups.skip(i + 1)) + close)
    } else {
        close
    };
    assert(s == key_tokens(k) + after);
    assert(s[0] == TokenView::Identifier(k.name));
    lemma_member_parse(keys, i, after);
    let seen = keys.take(i).push(k);
    assert(seen =~= keys.take(i + 1));
    assert(after.len() < s.len());
    assert(table_items(s, keys.take(i), true) == table_items(after, seen, false));
    if i + 1 < groups.len() {
        let next = joined(groups.skip(i + 1)) + close;
        assert(after[0] == TokenView::Separator);
        assert(after.skip(1) =~= next);
        assert(table_items(after, seen, false) == table_items(next, seen, true));
        lemma_table_parse(keys, i + 1, rest);
    } else {
        assert(after[0] == TokenView::CloseBrace);
        assert(after.skip(1) =~= rest);
        assert(seen =~= keys);
    }
}

/// What stands behind the first of groups that are chained.
pub proof fn lemma_chained_step(groups: Seq<Seq<TokenView>>, i: int, tail: Seq<TokenView>)
    requires
        0 <= i < groups.len(),
    ensures
        chained(groups.skip(i)) + tail == groups[i] + (chained(groups.skip(i + 1)) + tail),
{
    let here = groups.skip(i);
    assert(here[0] == groups[i]);
    assert(here.drop_first() =~= groups.skip(i + 1));
    assert(chained(here) + tail =~= groups[i] + (chained(groups.skip(i + 1)) + tail));
}

/// The keys of a section, written one after the other, are read as those
/// keys, up to the next section or the end.
pub proof fn lemma_section_keys_parse(keys: Seq<KeyView>, i: int, rest: Seq<TokenView>)
    requires
        0 <= i <= keys.len(),
        writable_keys(keys),
        rest.len() == 0 || starts_section(rest),
    ensures
        section_keys(chained(keys_tokens(keys).skip(i)) + rest, keys.take(i)) == done(keys, rest),
    decreases keys.len() - i,
{
    let groups = keys_tokens(keys);
    lemma_keys_tokens(keys);
    let s = chained(groups.skip(i)) + rest;
    if i == keys.len() {
        assert(groups.skip(i) =~= Seq::<Seq<TokenView>>::empty());
        assert(s =~= rest);
        assert(keys.take(i) =~= keys);
    } else {
        let k = keys[i];
        let after = chained(groups.skip(i + 1)) + rest;
        lemma_chained_step(groups, i, rest);
        assert(s == key_tokens(k) + after);
        assert(s[0] == TokenView::Identifier(k.name));
        lemma_member_parse(keys, i, after);
        assert(keys.take(i).push(k) =~= keys.take(i + 1));
        assert(after.len() < s.len());
        lemma_section_keys_parse(keys, i + 1, rest);
    }
}

/// A section that is written is read as that section, up to the next
/// section or the end.
pub proof fn lemma_section_parse(section: SectionView, rest: Seq<TokenView>)
    requires
        writable_section(section),
        rest.len() == 0 || starts_section(rest),
    ensures
        parse_section(section_tokens(section) + rest) == done(section, rest),
{
    let groups = keys_tokens(section.keys);
    let s = section_tokens(section) + rest;
    assert(s[0] == TokenView::OpenBracket);
    assert(s[1] == TokenView::Identifier(section.name));
    assert(s[2] == TokenView::CloseBracket);
    assert(groups.skip(0) =~= groups);
    assert(s.skip(3) =~= chained(groups.skip(0)) + rest);
    assert(section.keys.take(0) =~= Seq::<KeyView>::empty());
    lemma_section_keys_parse(section.keys, 0, rest);
    lemma_valid_name_unchanged(section.name, '_');
}

/// The sections of a document, written one after the other, are read as
/// those sections.
pub proof fn lemma_sections_parse(sections: Seq<SectionView>, i: int)
    requires
        0 <= i <= sections.len(),
        writable_document(sections),
    ensures
        document_sections(
            chained(Seq::new(sections.len(), |j: int| section_tokens(sections[j])).skip(i)),
            sections.take(i),
        ) == done(sections, Seq::<TokenView>::empty()),
    decreases sections.len() - i,
{
    let groups = Seq::new(sections.len(), |j: int| section_tokens(sections[j]));
    let s = chained(groups.skip(i));
    if i == sections.len() {
        assert(groups.skip(i) =~= Seq::<Seq<TokenView>>::empty());
        assert(sections.take(i) =~= sections);
    } else {
        let sec = sections[i];
        let after = chained(groups.skip(i + 1));
        lemma_chained_step(groups, i, Seq::empty());
        assert(s + Seq::<TokenView>::empty() =~= s);
        assert(after + Seq::<TokenView>::empty() =~= after);
        assert(s == section_tokens(sec) + after);
        if i + 1 < sections.len() {
            lemma_chained_step(groups, i + 1, Seq::empty());
            let next = section_tokens(sections[i + 1]);
            let beyond = chained(groups.skip(i + 2));
            assert(beyond + Seq::<TokenView>::empty() =~= beyond);
            assert(after == next + beyond);
            assert(after[0] == next[0]);
            assert(after[1] == next[1]);
            assert(after[2] == next[2]);
        } else {
            assert(groups.skip(i + 1) =~= Seq::<Seq<TokenView>>::empty());
        }
        lemma_section_parse(sec, after);
        let names = section_names(sections);
        let seen = section_names(sections.take(i));
        assert forall|j: int| 0 <= j < seen.len() implies !eq_ignore_case(
            #[trigger] seen[j],
            sec.name,
        ) by {
            assert(seen[j] == names[j]);
            assert(names[i] == sec.name);
        }
        assert(sections.take(i).push(sec) =~= sections.take(i + 1));
        assert(s.len() > 0);
        assert(after.len() < s.len());
        lemma_sections_parse(sections, i + 1);
    }
}

/// The tokens that a document is written with are read as that document.
pub proof fn lemma_document_parse(sections: Seq<SectionView>)
    requires
        writable_document(sections),
    ensures
        parse_document(document_tokens(sections)) == done(sections, Seq::<TokenView>::empty()),
{
    let groups = Seq::new(sections.len(), |j: int| section_tokens(sections[j]));
    assert(groups.skip(0) =~= groups);
    assert(sections.take(0) =~= Seq::<SectionView>::empty());
    lemma_sections_parse(sections, 0);
    lemma_chained_step(groups, 0, Seq::empty());
    assert(document_tokens(sections).len() > 0) by {
        let first = section_tokens(sections[0]);
        assert(first.len() >= 3);
        assert(chained(groups) + Seq::<TokenView>::empty() =~= chained(groups));
    }
}

/// The decimal digits of a number are digits, and denote the number.
pub proof fn lemma_decimal_text(n: nat)
    ensures
        decimal_text(n).len() > 0,
        all_digits(decimal_text(n)),
        digits_value(decimal_text(n)) == n,
    decreases n,
{
    let text = decimal_text(n);
    if n < 10 {
        assert(text.drop_last() =~= Seq::<char>::empty());
        assert(digits_value(text.drop_last()) == 0);
        assert(text.last() == digit_char(n));
    } else {
        lemma_decimal_text(n / 10);
        let lead = decimal_text(n / 10);
        assert(text.drop_last() =~= lead);
        assert(text.last() == digit_char(n % 10));
        assert forall|i: int| 0 <= i < text.len() implies is_digit(#[trigger] text[i]) by {
            if i < lead.len() {
                assert(text[i] == lead[i]);
            }
        }
    }
}

/// What can stand behind a token that is written: nothing, the end of the
/// line, a comma, a blank or a closing bracket.
pub open spec fn boundary(rest: Seq<char>) -> bool {
    rest.len() == 0 || rest[0] == '\n' || rest[0] == ',' || rest[0] == ' ' || rest[0] == ']'
}

/// Tokens that do not end in a string, to which a string could be joined.
pub open spec fn clean(acc: Seq<TokenView>) -> bool {
    acc.len() == 0 || !(acc.last() is String)
}

/// A character that stands for a token by itself gives that token,
/// whatever stands behind it.
pub proof fn lemma_punctuation_front(c: char, rest: Seq<char>, acc: Seq<TokenView>)
    requires
        punctuation(c) is Some,
    ensures
        lex(seq![c] + rest, acc) == lex(rest, acc.push(punctuation(c)->0)),
{
    let s = seq![c] + rest;
    assert(s[0] == c);
    assert(s.skip(1) =~= rest);
    assert(next_step(s) == Step::Emit(punctuation(c)->0, 1));
}

/// A number at the front of a text: digits, then a point and further
/// digits or neither, then a suffix letter or none, and behind it nothing
/// that could belong to the number.
pub proof fn lemma_number_front(
    whole: Seq<char>,
    dotted: bool,
    fraction: Seq<char>,
    suffix: Option<char>,
    rest: Seq<char>,
)
    requires
        whole.len() > 0,
        all_digits(whole),
        all_digits(fraction),
        !dotted ==> fraction.len() == 0,
        suffix matches Some(c) ==> suffix_kind(c) is Some,
        suffix is None ==> boundary(rest),
    ensures
        ({
            let text = literal_text(whole, dotted, fraction);
            let written = match suffix {
                Some(c) => text.push(c),
                None => text,
            };
            let kind = match suffix {
                Some(c) => suffix_kind(c)->0,
                None => if dotted {
                    ScalarKind::Float
                } else {
                    ScalarKind::Integer
                },
            };
            &&& next_step(written + rest) == number_of(
                kind,
                digits_value(whole),
                dotted,
                text,
                written.len() as int,
            )
            &&& (written + rest).skip(written.len() as int) == rest
        }),
{
    let p = |c: char| is_digit(c);
    let text = literal_text(whole, dotted, fraction);
    let written = match suffix {
        Some(c) => text.push(c),
        None => text,
    };
    let s = written + rest;
    let a = whole.len() as int;
    assert forall|j: int| 0 <= j < a implies p(#[trigger] s[j]) by {
        assert(s[j] == whole[j]);
    }
    assert(s[0] == whole[0]);
    if a < s.len() {
        if dotted {
            assert(s[a] == '.');
        } else if suffix is Some {
            assert(s[a] == suffix->0);
        } else {
            assert(s[a] == rest[0]);
        }
        assert(!is_digit(s[a]));
    }
    lemma_span_is(s, p, a);
    assert(s.take(a) =~= whole);
    let n = text.len() as int;
    if dotted {
        let tail = s.skip(a + 1);
        let b = fraction.len() as int;
        assert forall|j: int| 0 <= j < b implies p(#[trigger] tail[j]) by {
            assert(tail[j] == fraction[j]);
        }
        if b < tail.len() {
            if suffix is Some {
                assert(tail[b] == suffix->0);
            } else {
                assert(tail[b] == rest[0]);
            }
        }
        lemma_span_is(tail, p, b);
        assert(s.subrange(a + 1, a + 1 + b) =~= fraction);
    }
    if n < s.len() {
        if suffix is Some {
            assert(s[n] == suffix->0);
        } else {
            assert(s[n] == rest[0]);
        }
    }
    assert(s.skip(written.len() as int) =~= rest);
}

/// A valid name at the front of a text, with no name character behind it,
/// is one identifier.
pub proof fn lemma_identifier_front(name: Seq<char>, rest: Seq<char>, acc: Seq<TokenView>)
    requires
        valid_name(name),
        rest.len() == 0 || !is_name_char(rest[0]),
    ensures
        lex(name + rest, acc) == lex(rest, acc.push(TokenView::Identifier(name))),
{
    let p = |c: char| is_name_char(c);
    let s = name + rest;
    let tail = s.skip(1);
    let n = name.len() as int;
    assert(s[0] == name[0]);
    assert forall|j: int| 0 <= j < n - 1 implies p(#[trigger] tail[j]) by {
        assert(tail[j] == name[j + 1]);
    }
    if n - 1 < tail.len() {
        assert(tail[n - 1] == rest[0]);
    }
    lemma_span_is(tail, p, n - 1);
    assert(s.take(n) =~= name);
    assert(s.skip(n) =~= rest);
    assert(identifier_step(s) == Step::Emit(TokenView::Identifier(name), n));
    assert(next_step(s) == identifier_step(s));
}

/// A decimal literal is whole digits, and a point and further digits or
/// neither.
pub proof fn lemma_decimal_parts(text: Seq<char>)
    requires
        is_decimal(text),
    ensures
        ({
            let whole = whole_digits(text);
            let dotted = whole.len() < text.len();
            let fraction = if dotted {
                text.skip(whole.len() as int + 1)
            } else {
                Seq::empty()
            };
            &&& whole.len() > 0
            &&& all_digits(whole)
            &&& all_digits(fraction)
            &&& text == literal_text(whole, dotted, fraction)
            &&& dotted == text.contains('.')
        }),
{
    let p = |c: char| is_digit(c);
    let a = span(text, p) as int;
    lemma_span_props(text, p);
    let whole = whole_digits(text);
    let dotted = whole.len() < text.len();
    assert forall|i: int| 0 <= i < whole.len() implies is_digit(#[trigger] whole[i]) by {
        assert(whole[i] == text[i]);
    }
    if dotted {
        let fraction = text.skip(a + 1);
        lemma_span_props(fraction, p);
        assert(text =~= whole + seq!['.'] + fraction);
        assert(text[a] == '.');
    } else {
        assert(text =~= whole);
        if text.contains('.') {
            let i = choose|i: int| 0 <= i < text.len() && text[i] == '.';
            assert(p(text[i]));
        }
    }
}

/// A text stands for tokens where, in front of anything that can stand
/// behind a token, it adds those tokens to tokens that do not end in a
/// string.
pub open spec fn renders(text: Seq<char>, tokens: Seq<TokenView>) -> bool {
    forall|rest: Seq<char>, acc: Seq<TokenView>|
        boundary(rest) && clean(acc) ==> #[trigger] lex(text + rest, acc) == lex(
            rest,
            acc + tokens,
        )
}

/// A string between quotes stands for the string.
pub proof fn lemma_string_renders(text: Seq<char>)
    requires
        plain(text),
    ensures
        renders(quoted(text), seq![TokenView::String(text)]),
{
    assert forall|rest: Seq<char>, acc: Seq<TokenView>|
        boundary(rest) && clean(acc) implies #[trigger] lex(
        quoted(text) + rest,
        acc,
    ) == lex(rest, acc + seq![TokenView::String(text)]) by {
        lemma_string_literal(text, rest);
        assert(emit(acc, TokenView::String(text)) =~= acc + seq![TokenView::String(text)]);
    }
}

/// The digits of a signed integer that is not negative stand for the
/// integer.
pub proof fn lemma_integer_renders(i: i64)
    requires
        i >= 0,
    ensures
        renders(integer_text(i as int), seq![TokenView::Integer(i)]),
{
    let text = integer_text(i as int);
    lemma_decimal_text(i as nat);
    assert forall|rest: Seq<char>, acc: Seq<TokenView>|
        boundary(rest) && clean(acc) implies #[trigger] lex(
        text + rest,
        acc,
    ) == lex(rest, acc + seq![TokenView::Integer(i)]) by {
        lemma_number_front(text, false, Seq::empty(), None, rest);
        let s = text + rest;
        assert(s[0] == text[0]);
        assert(emit(acc, TokenView::Integer(i)) =~= acc + seq![TokenView::Integer(i)]);
    }
}

/// The digits of an unsigned integer with their suffix stand for the
/// integer.
pub proof fn lemma_unsigned_renders(u: u64)
    ensures
        renders(unsigned_text(u), seq![TokenView::Unsigned(u)]),
{
    let digits = decimal_text(u as nat);
    let text = unsigned_text(u);
    lemma_decimal_text(u as nat);
    assert forall|rest: Seq<char>, acc: Seq<TokenView>|
        boundary(rest) && clean(acc) implies #[trigger] lex(
        text + rest,
        acc,
    ) == lex(rest, acc + seq![TokenView::Unsigned(u)]) by {
        lemma_number_front(digits, false, Seq::empty(), Some('u'), rest);
        let s = text + rest;
        assert(s[0] == digits[0]);
        assert(emit(acc, TokenView::Unsigned(u)) =~= acc + seq![TokenView::Unsigned(u)]);
    }
}

/// A decimal literal, with the suffix of a float where it has no point,
/// stands for the float.
pub proof fn lemma_float_renders(literal: Seq<char>)
    requires
        is_decimal(literal),
    ensures
        renders(float_text(literal), seq![TokenView::Float(literal)]),
{
    let text = float_text(literal);
    lemma_decimal_parts(literal);
    let whole = whole_digits(literal);
    let dotted = whole.len() < literal.len();
    let fraction = if dotted {
        literal.skip(whole.len() as int + 1)
    } else {
        Seq::empty()
    };
    assert forall|rest: Seq<char>, acc: Seq<TokenView>|
        boundary(rest) && clean(acc) implies #[trigger] lex(
        text + rest,
        acc,
    ) == lex(rest, acc + seq![TokenView::Float(literal)]) by {
        if dotted {
            lemma_number_front(whole, true, fraction, None, rest);
        } else {
            lemma_number_front(whole, false, fraction, Some('f'), rest);
        }
        let s = text + rest;
        assert(s[0] == whole[0]);
        assert(emit(acc, TokenView::Float(literal)) =~= acc + seq![TokenView::Float(literal)]);
    }
}

/// Tabs are white space.
pub proof fn lemma_tabs_skipped(depth: nat, rest: Seq<char>, acc: Seq<TokenView>)
    ensures
        lex(tabs(depth) + rest, acc) == lex(rest, acc),
{
    lemma_whitespace_skipped(tabs(depth), rest, acc);
}

/// A line feed is white space.
pub proof fn lemma_line_feed_skipped(rest: Seq<char>, acc: Seq<TokenView>)
    ensures
        lex(seq!['\n'] + rest, acc) == lex(rest, acc),
{
    lemma_whitespace_skipped(seq!['\n'], rest, acc);
}

/// A blank is white space.
pub proof fn lemma_blank_skipped(rest: Seq<char>, acc: Seq<TokenView>)
    ensures
        lex(seq![' '] + rest, acc) == lex(rest, acc),
{
    lemma_whitespace_skipped(seq![' '], rest, acc);
}

/// Texts that are written one to a line, with commas between them, stand
/// for their tokens with separators between them.
pub proof fn lemma_lines_lex(
    texts: Seq<Seq<char>>,
    groups: Seq<Seq<TokenView>>,
    depth: nat,
    rest: Seq<char>,
    acc: Seq<TokenView>,
)
    requires
        texts.len() == groups.len(),
        forall|j: int| 0 <= j < texts.len() ==> renders(#[trigger] texts[j], groups[j]),
        clean(acc),
    ensures
        lex(lines(texts, depth) + rest, acc) == lex(rest, acc + joined(groups)),
    decreases texts.len(),
{
    if texts.len() == 0 {
        assert(lines(texts, depth) + rest =~= rest);
        assert(acc + joined(groups) =~= acc);
    } else {
        let text = texts[0];
        let group = groups[0];
        assert(renders(text, group));
        let seen = acc + group;
        if texts.len() == 1 {
            let tail = seq!['\n'] + rest;
            assert(lines(texts, depth) + rest =~= tabs(depth) + (text + tail));
            lemma_tabs_skipped(depth, text + tail, acc);
            assert(lex(text + tail, acc) == lex(tail, seen));
            lemma_line_feed_skipped(rest, seen);
        } else {
            let more = texts.drop_first();
            let others = groups.drop_first();
            let below = lines(more, depth) + rest;
            let tail = seq![','] + (seq!['\n'] + below);
            assert(lines(texts, depth) + rest =~= tabs(depth) + (text + tail));
            lemma_tabs_skipped(depth, text + tail, acc);
            assert(lex(text + tail, acc) == lex(tail, seen));
            lemma_punctuation_front(',', seq!['\n'] + below, seen);
            let next = seen.push(TokenView::Separator);
            lemma_line_feed_skipped(below, next);
            assert forall|j: int| 0 <= j < more.len() implies renders(
                #[trigger] more[j],
                others[j],
            ) by {
                assert(more[j] == texts[j + 1]);
                assert(others[j] == groups[j + 1]);
            }
            lemma_lines_lex(more, others, depth, rest, next);
            assert(next + joined(others) =~= acc + joined(groups));
        }
    }
}

/// Texts that are written between two delimiters stand for their tokens
/// between the tokens of the delimiters.
pub proof fn lemma_enclosed_lex(
    open: char,
    texts: Seq<Seq<char>>,
    groups: Seq<Seq<TokenView>>,
    close: char,
    depth: nat,
    rest: Seq<char>,
    acc: Seq<TokenView>,
)
    requires
        punctuation(open) is Some,
        punctuation(close) is Some,
        texts.len() == groups.len(),
        forall|j: int| 0 <= j < texts.len() ==> renders(#[trigger] texts[j], groups[j]),
    ensures
        lex(enclosed(open, texts, close, depth) + rest, acc) == lex(
            rest,
            acc + (seq![punctuation(open)->0] + joined(groups) + seq![punctuation(close)->0]),
        ),
{
    let first = punctuation(open)->0;
    let last = punctuation(close)->0;
    let end = seq![close] + rest;
    let foot = tabs(depth) + end;
    let body = lines(texts, depth + 1) + foot;
    assert(enclosed(open, texts, close, depth) + rest =~= seq![open] + (seq!['\n'] + body));
    lemma_punctuation_front(open, seq!['\n'] + body, acc);
    let inside = acc.push(first);
    lemma_line_feed_skipped(body, inside);
    lemma_lines_lex(texts, groups, depth + 1, foot, inside);
    let filled = inside + joined(groups);
    lemma_tabs_skipped(depth, end, filled);
    lemma_punctuation_front(close, rest, filled);
    assert(filled.push(last) =~= acc + (seq![first] + joined(groups) + seq![last]));
}

/// The text of a value that can be written stands for the tokens of the
/// value.
pub proof fn lemma_value_renders(v: ValueView, depth: nat)
    requires
        writable(v),
    ensures
        renders(value_text_at(v, depth), value_tokens(v)),
    decreases v, 1nat,
{
    match v {
        ValueView::String(x) => {
            lemma_string_renders(x);
        },
        ValueView::Integer(x) => {
            lemma_integer_renders(x);
        },
        ValueView::Unsigned(x) => {
            lemma_unsigned_renders(x);
        },
        ValueView::Float(x) => {
            lemma_float_renders(x);
        },
        ValueView::StringArray(a) => {
            let texts = a.map_values(|x: Seq<char>| quoted(x));
            let groups = a.map_values(|x: Seq<char>| TokenView::String(x)).map_values(
                |t: TokenView| seq![t],
            );
            assert forall|j: int| 0 <= j < texts.len() implies renders(
                #[trigger] texts[j],
                groups[j],
            ) by {
                lemma_string_renders(a[j]);
            }
            lemma_container_renders('[', texts, groups, ']', depth);
        },
        ValueView::IntegerArray(a) => {
            let texts = a.map_values(|x: i64| integer_text(x as int));
            let groups = a.map_values(|x: i64| TokenView::Integer(x)).map_values(
                |t: TokenView| seq![t],
            );
            assert forall|j: int| 0 <= j < texts.len() implies renders(
                #[trigger] texts[j],
                groups[j],
            ) by {
                lemma_integer_renders(a[j]);
            }
            lemma_container_renders('[', texts, groups, ']', depth);
        },
        ValueView::UnsignedArray(a) => {
            let texts = a.map_values(|x: u64| unsigned_text(x));
            let groups = a.map_values(|x: u64| TokenView::Unsigned(x)).map_values(
                |t: TokenView| seq![t],
            );
            assert forall|j: int| 0 <= j < texts.len() implies renders(
                #[trigger] texts[j],
                groups[j],
            ) by {
                lemma_unsigned_renders(a[j]);
            }
            lemma_container_renders('[', texts, groups, ']', depth);
        },
        ValueView::FloatArray(a) => {
            let texts = a.map_values(|x: Seq<char>| float_text(x));
            let groups = a.map_values(|x: Seq<char>| TokenView::Float(x)).map_values(
                |t: TokenView| seq![t],
            );
            assert forall|j: int| 0 <= j < texts.len() implies renders(
                #[trigger] texts[j],
                groups[j],
            ) by {
                lemma_float_renders(a[j]);
            }
            lemma_container_renders('[', texts, groups, ']', depth);
        },
        ValueView::Tuple(items) => {
            let texts = value_texts(items, depth + 1);
            let groups = values_tokens(items);
            lemma_value_texts(items, depth + 1);
            lemma_values_tokens(items);
            assert forall|j: int| 0 <= j < texts.len() implies renders(
                #[trigger] texts[j],
                groups[j],
            ) by {
                lemma_value_renders(items[j], depth + 1);
            }
            lemma_container_renders('(', texts, groups, ')', depth);
        },
        ValueView::Table(keys) => {
            let texts = key_texts(keys, depth + 1);
            let groups = keys_tokens(keys);
            lemma_key_texts(keys, depth + 1);
            lemma_keys_tokens(keys);
            assert forall|j: int| 0 <= j < texts.len() implies renders(
                #[trigger] texts[j],
                groups[j],
            ) by {
                assert(writable_keys(keys));
                assert(valid_name(keys[j].name) && writable(keys[j].value));
                lemma_key_renders(keys[j], depth + 1);
            }
            lemma_container_renders('{', texts, groups, '}', depth);
        },
    }
}

/// Texts between two delimiters stand for their tokens between the tokens
/// of the delimiters, in front of anything.
pub proof fn lemma_container_renders(
    open: char,
    texts: Seq<Seq<char>>,
    groups: Seq<Seq<TokenView>>,
    close: char,
    depth: nat,
)
    requires
        punctuation(open) is Some,
        punctuation(close) is Some,
        texts.len() == groups.len(),
        forall|j: int| 0 <= j < texts.len() ==> renders(#[trigger] texts[j], groups[j]),
    ensures
        renders(
            enclosed(open, texts, close, depth),
            seq![punctuation(open)->0] + joined(groups) + seq![punctuation(close)->0],
        ),
{
    let text = enclosed(open, texts, close, depth);
    let tokens = seq![punctuation(open)->0] + joined(groups) + seq![punctuation(close)->0];
    assert forall|rest: Seq<char>, acc: Seq<TokenView>|
        boundary(rest) && clean(acc) implies #[trigger] lex(
        text + rest,
        acc,
    ) == lex(rest, acc + tokens) by {
        lemma_enclosed_lex(open, texts, groups, close, depth, rest, acc);
    }
}

/// The text of a key stands for the tokens of the key, whatever tokens
/// came before.
pub proof fn lemma_key_lex(k: KeyView, depth: nat, rest: Seq<char>, acc: Seq<TokenView>)
    requires
        valid_name(k.name),
        writable(k.value),
        boundary(rest),
    ensures
        lex(key_text_at(k, depth) + rest, acc) == lex(rest, acc + key_tokens(k)),
    decreases k, 0nat,
{
    let value = value_text_at(k.value, depth);
    let last = value + rest;
    let third = seq![' '] + last;
    let second = seq!['='] + third;
    let first = seq![' '] + second;
    assert(key_text_at(k, depth) + rest =~= k.name + first);
    lemma_identifier_front(k.name, first, acc);
    let named = acc.push(TokenView::Identifier(k.name));
    lemma_blank_skipped(second, named);
    lemma_punctuation_front('=', third, named);
    let assigned = named.push(TokenView::Equals);
    lemma_blank_skipped(last, assigned);
    lemma_value_renders(k.value, depth);
    assert(lex(value + rest, assigned) == lex(rest, assigned + value_tokens(k.value)));
    assert(assigned + value_tokens(k.value) =~= acc + key_tokens(k));
}

/// The text of a key that can be written stands for the tokens of the
/// key.
pub proof fn lemma_key_renders(k: KeyView, depth: nat)
    requires
        valid_name(k.name),
        writable(k.value),
    ensures
        renders(key_text_at(k, depth), key_tokens(k)),
    decreases k, 1nat,
{
    let text = key_text_at(k, depth);
    assert forall|rest: Seq<char>, acc: Seq<TokenView>|
        boundary(rest) && clean(acc) implies #[trigger] lex(
        text + rest,
        acc,
    ) == lex(rest, acc + key_tokens(k)) by {
        lemma_key_lex(k, depth, rest, acc);
    }
}

/// Chained groups with one more group behind them.
pub proof fn lemma_chained_push(groups: Seq<Seq<TokenView>>, last: Seq<TokenView>)
    ensures
        chained(groups.push(last)) == chained(groups) + last,
    decreases groups.len(),
{
    let all = groups.push(last);
    if groups.len() == 0 {
        assert(all.drop_first() =~= Seq::<Seq<TokenView>>::empty());
        assert(chained(all.drop_first()) =~= Seq::<TokenView>::empty());
        assert(all[0] == last);
        assert(chained(all) =~= last);
        assert(chained(groups) + last =~= last);
    } else {
        assert(all[0] == groups[0]);
        assert(all.drop_first() =~= groups.drop_first().push(last));
        lemma_chained_push(groups.drop_first(), last);
        assert(chained(all) =~= chained(groups) + last);
    }
}

/// The lines of the keys of a section stand for the tokens of the keys.
pub proof fn lemma_key_lines_lex(keys: Seq<KeyView>, rest: Seq<char>, acc: Seq<TokenView>)
    requires
        forall|i: int|
            0 <= i < keys.len() ==> valid_name((#[trigger] keys[i]).name) && writable(
                keys[i].value,
            ),
        boundary(rest),
    ensures
        lex(key_lines(keys) + rest, acc) == lex(rest, acc + chained(keys_tokens(keys))),
    decreases keys.len(),
{
    if keys.len() == 0 {
        assert(key_lines(keys) + rest =~= rest);
        assert(acc + chained(keys_tokens(keys)) =~= acc);
    } else {
        let front = keys.drop_last();
        let k = keys.last();
        let line = key_text_at(k, 0) + rest;
        let tail = seq!['\n'] + line;
        assert(key_lines(keys) + rest =~= key_lines(front) + tail);
        assert forall|i: int| 0 <= i < front.len() implies valid_name((#[trigger] front[i]).name)
            && writable(front[i].value) by {
            assert(front[i] == keys[i]);
        }
        lemma_key_lines_lex(front, tail, acc);
        let seen = acc + chained(keys_tokens(front));
        lemma_line_feed_skipped(line, seen);
        lemma_key_lex(k, 0, rest, seen);
        lemma_chained_push(keys_tokens(front), key_tokens(k));
        assert(seen + key_tokens(k) =~= acc + chained(keys_tokens(keys)));
    }
}

/// The text of a section stands for the tokens of the section.
pub proof fn lemma_section_lex(section: SectionView, rest: Seq<char>, acc: Seq<TokenView>)
    requires
        writable_section(section),
        boundary(rest),
    ensures
        lex(section_text(section) + rest, acc) == lex(rest, acc + section_tokens(section)),
{
    let body = key_lines(section.keys) + rest;
    let closing = seq![']'] + body;
    let named = section.name + closing;
    assert(section_text(section) + rest =~= seq!['['] + named);
    lemma_punctuation_front('[', named, acc);
    let opened = acc.push(TokenView::OpenBracket);
    lemma_identifier_front(section.name, closing, opened);
    let titled = opened.push(TokenView::Identifier(section.name));
    lemma_punctuation_front(']', body, titled);
    let headed = titled.push(TokenView::CloseBracket);
    lemma_key_lines_lex(section.keys, rest, headed);
    assert(headed + chained(keys_tokens(section.keys)) =~= acc + section_tokens(section));
}

/// The text of sections stands for the tokens of the sections.
pub proof fn lemma_document_lex(sections: Seq<SectionView>, rest: Seq<char>, acc: Seq<TokenView>)
    requires
        forall|i: int| 0 <= i < sections.len() ==> writable_section(#[trigger] sections[i]),
    ensures
        lex(document_text(sections) + rest, acc) == lex(rest, acc + document_tokens(sections)),
    decreases sections.len(),
{
    if sections.len() == 0 {
        assert(document_text(sections) + rest =~= rest);
        assert(Seq::new(sections.len(), |i: int| section_tokens(sections[i])) =~= Seq::<
            Seq<TokenView>,
        >::empty());
        assert(acc + document_tokens(sections) =~= acc);
    } else {
        let front = sections.drop_last();
        let section = sections.last();
        let gap = seq!['\n', '\n'] + rest;
        let tail = section_text(section) + gap;
        assert(document_text(sections) + rest =~= document_text(front) + tail);
        assert forall|i: int|
            0 <= i < front.len() implies writable_section(#[trigger] front[i]) by {
            assert(front[i] == sections[i]);
        }
        lemma_document_lex(front, tail, acc);
        let seen = acc + document_tokens(front);
        lemma_section_lex(section, gap, seen);
        let more = seen + section_tokens(section);
        lemma_whitespace_skipped(seq!['\n', '\n'], rest, more);
        let groups = Seq::new(front.len(), |i: int| section_tokens(front[i]));
        assert(Seq::new(sections.len(), |i: int| section_tokens(sections[i])) =~= groups.push(
            section_tokens(section),
        ));
        lemma_chained_push(groups, section_tokens(section));
        assert(more =~= acc + document_tokens(sections));
    }
}

/// Tells whether every character of `s` is an ASCII character.
pub open spec fn ascii(s: Seq<char>) -> bool {
    vstd::utf8::is_ascii_chars(s)
}

/// Two ASCII texts one after the other are an ASCII text.
pub proof fn lemma_ascii_add(a: Seq<char>, b: Seq<char>)
    requires
        ascii(a),
        ascii(b),
    ensures
        ascii(a + b),
{
    assert forall|i: int| 0 <= i < (a + b).len() implies '\0' <= #[trigger] (a + b)[i]
        <= '\u{7f}' by {
        if i < a.len() {
            assert((a + b)[i] == a[i]);
        } else {
            assert((a + b)[i] == b[i - a.len()]);
        }
    }
}

/// Lines of ASCII texts are an ASCII text.
pub proof fn lemma_lines_ascii(texts: Seq<Seq<char>>, depth: nat)
    requires
        forall|j: int| 0 <= j < texts.len() ==> ascii(#[trigger] texts[j]),
    ensures
        ascii(lines(texts, depth)),
    decreases texts.len(),
{
    if texts.len() == 0 {
    } else if texts.len() == 1 {
        lemma_ascii_add(tabs(depth), texts[0]);
        lemma_ascii_add(tabs(depth) + texts[0], seq!['\n']);
    } else {
        let more = texts.drop_first();
        assert forall|j: int| 0 <= j < more.len() implies ascii(#[trigger] more[j]) by {
            assert(more[j] == texts[j + 1]);
        }
        lemma_lines_ascii(more, depth);
        lemma_ascii_add(tabs(depth), texts[0]);
        lemma_ascii_add(tabs(depth) + texts[0], seq![',', '\n']);
        lemma_ascii_add(tabs(depth) + texts[0] + seq![',', '\n'], lines(more, depth));
    }
}

/// ASCII texts between two ASCII delimiters are an ASCII text.
pub proof fn lemma_enclosed_ascii(open: char, texts: Seq<Seq<char>>, close: char, depth: nat)
    requires
        '\0' <= open <= '\u{7f}',
        '\0' <= close <= '\u{7f}',
        forall|j: int| 0 <= j < texts.len() ==> ascii(#[trigger] texts[j]),
    ensures
        ascii(enclosed(open, texts, close, depth)),
{
    lemma_lines_ascii(texts, depth + 1);
    lemma_ascii_add(seq![open, '\n'], lines(texts, depth + 1));
    lemma_ascii_add(seq![open, '\n'] + lines(texts, depth + 1), tabs(depth));
    lemma_ascii_add(seq![open, '\n'] + lines(texts, depth + 1) + tabs(depth), seq![close]);
}

/// A string between quotes is an ASCII text where the string is one.
pub proof fn lemma_quoted_ascii(text: Seq<char>)
    requires
        ascii(text),
    ensures
        ascii(quoted(text)),
{
    lemma_ascii_add(seq!['"'], text);
    lemma_ascii_add(seq!['"'] + text, seq!['"']);
}

/// Digits are an ASCII text.
pub proof fn lemma_digits_ascii(digits: Seq<char>)
    requires
        all_digits(digits),
    ensures
        ascii(digits),
{
}

/// The text of a float is an ASCII text.
pub proof fn lemma_float_ascii(literal: Seq<char>)
    requires
        is_decimal(literal),
    ensures
        ascii(float_text(literal)),
{
    lemma_decimal_parts(literal);
    let whole = whole_digits(literal);
    let dotted = whole.len() < literal.len();
    lemma_digits_ascii(whole);
    if dotted {
        let fraction = literal.skip(whole.len() as int + 1);
        lemma_digits_ascii(fraction);
        lemma_ascii_add(whole, seq!['.']);
        lemma_ascii_add(whole + seq!['.'], fraction);
    } else {
        lemma_ascii_add(literal, seq!['f']);
        assert(literal.push('f') =~= literal + seq!['f']);
    }
}

/// A valid name is an ASCII text.
pub proof fn lemma_name_ascii(name: Seq<char>)
    requires
        valid_name(name),
    ensures
        ascii(name),
{
    assert forall|i: int| 0 <= i < name.len() implies '\0' <= #[trigger] name[i] <= '\u{7f}' by {
        if i > 0 {
            assert(is_name_char(name[i]));
        }
    }
}

/// The text of a value that can be written is an ASCII text.
pub proof fn lemma_value_ascii(v: ValueView, depth: nat)
    requires
        writable(v),
    ensures
        ascii(value_text_at(v, depth)),
    decreases v, 0nat,
{
    match v {
        ValueView::String(x) => {
            lemma_quoted_ascii(x);
        },
        ValueView::Integer(x) => {
            lemma_decimal_text(x as nat);
        },
        ValueView::Unsigned(x) => {
            lemma_decimal_text(x as nat);
            lemma_ascii_add(decimal_text(x as nat), seq!['u']);
            assert(unsigned_text(x) =~= decimal_text(x as nat) + seq!['u']);
        },
        ValueView::Float(x) => {
            lemma_float_ascii(x);
        },
        ValueView::StringArray(a) => {
            let texts = a.map_values(|x: Seq<char>| quoted(x));
            assert forall|j: int| 0 <= j < texts.len() implies ascii(#[trigger] texts[j]) by {
                lemma_quoted_ascii(a[j]);
            }
            lemma_enclosed_ascii('[', texts, ']', depth);
        },
        ValueView::IntegerArray(a) => {
            let texts = a.map_values(|x: i64| integer_text(x as int));
            assert forall|j: int| 0 <= j < texts.len() implies ascii(#[trigger] texts[j]) by {
                lemma_decimal_text(a[j] as nat);
            }
            lemma_enclosed_ascii('[', texts, ']', depth);
        },
        ValueView::UnsignedArray(a) => {
            let texts = a.map_values(|x: u64| unsigned_text(x));
            assert forall|j: int| 0 <= j < texts.len() implies ascii(#[trigger] texts[j]) by {
                lemma_decimal_text(a[j] as nat);
                lemma_ascii_add(decimal_text(a[j] as nat), seq!['u']);
                assert(unsigned_text(a[j]) =~= decimal_text(a[j] as nat) + seq!['u']);
            }
            lemma_enclosed_ascii('[', texts, ']', depth);
        },
        ValueView::FloatArray(a) => {
            let texts = a.map_values(|x: Seq<char>| float_text(x));
            assert forall|j: int| 0 <= j < texts.len() implies ascii(#[trigger] texts[j]) by {
                lemma_float_ascii(a[j]);
            }
            lemma_enclosed_ascii('[', texts, ']', depth);
        },
        ValueView::Tuple(items) => {
            let texts = value_texts(items, depth + 1);
            lemma_value_texts(items, depth + 1);
            assert forall|j: int| 0 <= j < texts.len() implies ascii(#[trigger] texts[j]) by {
                lemma_value_ascii(items[j], depth + 1);
            }
            lemma_enclosed_ascii('(', texts, ')', depth);
        },
        ValueView::Table(keys) => {
            let texts = key_texts(keys, depth + 1);
            lemma_key_texts(keys, depth + 1);
            assert forall|j: int| 0 <= j < texts.len() implies ascii(#[trigger] texts[j]) by {
                assert(writable_keys(keys));
                assert(valid_name(keys[j].name) && writable(keys[j].value));
                lemma_key_ascii(keys[j], depth + 1);
            }
            lemma_enclosed_ascii('{', texts, '}', depth);
        },
    }
}

/// The text of a key that can be written is an ASCII text.
pub proof fn lemma_key_ascii(k: KeyView, depth: nat)
    requires
        valid_name(k.name),
        writable(k.value),
    ensures
        ascii(key_text_at(k, depth)),
    decreases k, 0nat,
{
    lemma_name_ascii(k.name);
    lemma_value_ascii(k.value, depth);
    lemma_ascii_add(k.name, seq![' ', '=', ' ']);
    lemma_ascii_add(k.name + seq![' ', '=', ' '], value_text_at(k.value, depth));
}

/// The lines of keys that can be written are an ASCII text.
pub proof fn lemma_key_lines_ascii(keys: Seq<KeyView>)
    requires
        forall|i: int|
            0 <= i < keys.len() ==> valid_name((#[trigger] keys[i]).name) && writable(
                keys[i].value,
            ),
    ensures
        ascii(key_lines(keys)),
    decreases keys.len(),
{
    if keys.len() > 0 {
        let front = keys.drop_last();
        assert forall|i: int| 0 <= i < front.len() implies valid_name((#[trigger] front[i]).name)
            && writable(front[i].value) by {
            assert(front[i] == keys[i]);
        }
        lemma_key_lines_ascii(front);
        lemma_key_ascii(keys.last(), 0);
        lemma_ascii_add(key_lines(front), seq!['\n']);
        lemma_ascii_add(key_lines(front) + seq!['\n'], key_text_at(keys.last(), 0));
    }
}

/// The text of a section that can be written is an ASCII text.
pub proof fn lemma_section_ascii(section: SectionView)
    requires
        writable_section(section),
    ensures
        ascii(section_text(section)),
{
    lemma_name_ascii(section.name);
    lemma_key_lines_ascii(section.keys);
    lemma_ascii_add(seq!['['], section.name);
    lemma_ascii_add(seq!['['] + section.name, seq![']']);
    lemma_ascii_add(seq!['['] + section.name + seq![']'], key_lines(section.keys));
}

/// The text of sections that can be written is an ASCII text.
pub proof fn lemma_document_ascii(sections: Seq<SectionView>)
    requires
        forall|i: int| 0 <= i < sections.len() ==> writable_section(#[trigger] sections[i]),
    ensures
        ascii(document_text(sections)),
    decreases sections.len(),
{
    if sections.len() > 0 {
        let front = sections.drop_last();
        assert forall|i: int|
            0 <= i < front.len() implies writable_section(#[trigger] front[i]) by {
            assert(front[i] == sections[i]);
        }
        lemma_document_ascii(front);
        lemma_section_ascii(sections.last());
        lemma_ascii_add(document_text(front), section_text(sections.last()));
        lemma_ascii_add(document_text(front) + section_text(sections.last()), seq!['\n', '\n']);
    }
}

/// Reading back what was written gives the same value: for every value
/// that the text form can carry, the text of the value stands for the
/// tokens of the value, and these are read as the value.
pub proof fn lemma_value_round_trip(v: ValueView)
    requires
        writable(v),
    ensures
        tokenized(value_text(v)) == Ok::<Seq<TokenView>, LexErrorView>(
            value_tokens(v),
        ),
        parse_value(value_tokens(v)) == done(v, Seq::<TokenView>::empty()),
        value_of(value_text(v)) == Ok::<ValueView, ParseErrorView>(v),
{
    let text = value_text(v);
    let none = Seq::<char>::empty();
    let start = Seq::<TokenView>::empty();
    lemma_value_ascii(v, 0);
    lemma_value_renders(v, 0);
    assert(text + none =~= text);
    assert(lex(text + none, start) == lex(none, start + value_tokens(v)));
    assert(start + value_tokens(v) =~= value_tokens(v));
    lemma_value_parse(v, Seq::empty());
    assert(value_tokens(v) + Seq::<TokenView>::empty() =~= value_tokens(v));
}

/// Reading back what was written gives the same document: for every
/// document that the text form can carry, `document_of(document_text(d))`
/// is `d`.
pub proof fn lemma_document_round_trip(sections: Seq<SectionView>)
    requires
        writable_document(sections),
    ensures
        tokenized(document_text(sections)) == Ok::<Seq<TokenView>, LexErrorView>(
            document_tokens(sections),
        ),
        document_of(document_text(sections)) == Ok::<
            Seq<SectionView>,
            ParseErrorView,
        >(sections),
{
    let text = document_text(sections);
    let none = Seq::<char>::empty();
    let start = Seq::<TokenView>::empty();
    lemma_document_ascii(sections);
    lemma_document_lex(sections, none, start);
    assert(text + none =~= text);
    assert(start + document_tokens(sections) =~= document_tokens(sections));
    lemma_document_parse(sections);
}

/// A token as the tokenizer gives it: a string is plain, a signed
/// integer is not negative, and a float is a decimal literal.
pub open spec fn written_token(t: TokenView) -> bool {
    match t {
        TokenView::String(s) => plain(s),
        TokenView::Integer(i) => i >= 0,
        TokenView::Float(s) => is_decimal(s),
        _ => true,
    }
}

/// Tokens as the tokenizer gives them.
pub open spec fn written(tokens: Seq<TokenView>) -> bool {
    forall|i: int| 0 <= i < tokens.len() ==> written_token(#[trigger] tokens[i])
}

/// What stands at the front of an ASCII text is a token as the tokenizer
/// gives it, and takes no more characters than the text has.
pub proof fn lemma_step_written(s: Seq<char>)
    requires
        s.len() > 0,
        ascii(s),
    ensures
        next_step(s) matches Step::Emit(t, n) ==> written_token(t),
{
    let c = s[0];
    if is_whitespace(c) || c == '#' {
    } else if starts_number(s) {
        let p = |c: char| is_digit(c);
        let a = span(s, p) as int;
        lemma_span_props(s, p);
        let dotted = a < s.len() && s[a] == '.';
        let whole = if a == 0 {
            seq!['0']
        } else {
            s.take(a)
        };
        assert forall|i: int| 0 <= i < whole.len() implies is_digit(#[trigger] whole[i]) by {
            if a > 0 {
                assert(whole[i] == s[i]);
            }
        }
        if dotted {
            let tail = s.skip(a + 1);
            lemma_span_props(tail, p);
            let b = span(tail, p) as int;
            let fraction = s.subrange(a + 1, a + 1 + b);
            assert forall|i: int| 0 <= i < fraction.len() implies is_digit(
                #[trigger] fraction[i],
            ) by {
                assert(fraction[i] == tail[i]);
            }
            lemma_literal_is_decimal(whole, true, fraction);
        } else {
            lemma_literal_is_decimal(whole, false, Seq::empty());
        }
    } else if is_name_start(c) {
    } else if c == '"' {
        let p = |c: char| c != '"';
        let tail = s.skip(1);
        lemma_span_props(tail, p);
        let n = span(tail, p) as int;
        if 1 + n < s.len() {
            let text = s.subrange(1, 1 + n);
            assert forall|i: int| 0 <= i < text.len() implies #[trigger] text[i] != '"' && '\0'
                <= text[i] <= '\u{7f}' by {
                assert(text[i] == tail[i]);
                assert(text[i] == s[i + 1]);
            }
        }
    } else {
    }
}

/// Adding a token as the tokenizer gives it to such tokens gives such
/// tokens.
pub proof fn lemma_emit_written(acc: Seq<TokenView>, t: TokenView)
    requires
        written(acc),
        written_token(t),
    ensures
        written(emit(acc, t)),
{
    let out = emit(acc, t);
    if acc.len() > 0 && acc.last() is String && t is String {
        let head = acc.last()->String_0;
        let tail = t->String_0;
        let both = head + tail;
        assert(written_token(acc.last()));
        assert forall|i: int| 0 <= i < both.len() implies #[trigger] both[i] != '"' && '\0'
            <= both[i] <= '\u{7f}' by {
            if i < head.len() {
                assert(both[i] == head[i]);
            } else {
                assert(both[i] == tail[i - head.len()]);
            }
        }
        assert forall|i: int| 0 <= i < out.len() implies written_token(#[trigger] out[i]) by {
            if i < acc.len() - 1 {
                assert(out[i] == acc[i]);
            }
        }
    } else {
        assert forall|i: int| 0 <= i < out.len() implies written_token(#[trigger] out[i]) by {
            if i < acc.len() {
                assert(out[i] == acc[i]);
            }
        }
    }
}

/// The tokens of an ASCII text are tokens as the tokenizer gives them.
pub proof fn lemma_lex_written(s: Seq<char>, acc: Seq<TokenView>)
    requires
        ascii(s),
        written(acc),
    ensures
        lex(s, acc) matches Ok(tokens) ==> written(tokens),
    decreases s.len(),
{
    if s.len() > 0 {
        lemma_step_written(s);
        match next_step(s) {
            Step::Skip(n) => {
                if 0 < n <= s.len() {
                    lemma_lex_written(s.skip(n), acc);
                }
            },
            Step::Emit(t, n) => {
                if 0 < n <= s.len() {
                    lemma_emit_written(acc, t);
                    lemma_lex_written(s.skip(n), emit(acc, t));
                }
            },
            Step::Fail(e) => {},
        }
    }
}

/// A rest of tokens as the tokenizer gives them is made of such tokens.
pub proof fn lemma_rest_written(rest: Seq<TokenView>, s: Seq<TokenView>)
    requires
        written(s),
        is_rest_of(rest, s),
    ensures
        written(rest),
{
    assert forall|i: int| 0 <= i < rest.len() implies written_token(#[trigger] rest[i]) by {
        assert(rest[i] == s[i + s.len() - rest.len()]);
    }
}

/// The elements that are read for an array are tokens of the kind of the
/// array, as the tokenizer gives them, and at least one.
pub proof fn lemma_array_items_written(
    kind: ScalarKind,
    s: Seq<TokenView>,
    items: Seq<TokenView>,
    ready: bool,
)
    requires
        written(s),
        written(items),
        forall|j: int| 0 <= j < items.len() ==> (#[trigger] items[j]).scalar_kind() == Some(kind),
        !ready ==> items.len() > 0,
    ensures
        array_items(kind, s, items, ready).result matches Ok(r) ==> {
            &&& r.len() > 0
            &&& written(r)
            &&& forall|j: int| 0 <= j < r.len() ==> (#[trigger] r[j]).scalar_kind() == Some(kind)
        },
    decreases s.len(),
{
    if s.len() > 0 {
        let t = s[0];
        let rest = s.skip(1);
        lemma_rest_written(rest, s);
        if t.scalar_kind() == Some(kind) && ready {
            let more = items.push(t);
            assert forall|j: int| 0 <= j < more.len() implies written_token(#[trigger] more[j])
                && more[j].scalar_kind() == Some(kind) by {
                if j < items.len() {
                    assert(more[j] == items[j]);
                }
            }
            lemma_array_items_written(kind, rest, more, false);
        } else if t == TokenView::Separator && !ready {
            lemma_array_items_written(kind, rest, items, true);
        }
    }
}

/// The array of elements as the tokenizer gives them can be written.
pub proof fn lemma_array_writable(kind: ScalarKind, items: Seq<TokenView>)
    requires
        items.len() > 0,
        written(items),
        forall|j: int| 0 <= j < items.len() ==> (#[trigger] items[j]).scalar_kind() == Some(kind),
    ensures
        writable(array_of(kind, items)),
{
    match kind {
        ScalarKind::String => {
            let a = items.map_values(|t: TokenView| text_of(t));
            assert forall|i: int| 0 <= i < a.len() implies plain(#[trigger] a[i]) by {
                assert(written_token(items[i]));
                assert(items[i].scalar_kind() == Some(kind));
            }
        },
        ScalarKind::Integer => {
            let a = items.map_values(|t: TokenView| integer_of(t));
            assert forall|i: int| 0 <= i < a.len() implies #[trigger] a[i] >= 0 by {
                assert(written_token(items[i]));
                assert(items[i].scalar_kind() == Some(kind));
            }
        },
        ScalarKind::Unsigned => {},
        ScalarKind::Float => {
            let a = items.map_values(|t: TokenView| text_of(t));
            assert forall|i: int| 0 <= i < a.len() implies is_decimal(#[trigger] a[i]) by {
                assert(written_token(items[i]));
                assert(items[i].scalar_kind() == Some(kind));
            }
        },
    }
}

/// A value that is read from tokens as the tokenizer gives them can be
/// written.
pub proof fn lemma_value_writable(s: Seq<TokenView>)
    requires
        written(s),
    ensures
        parse_value(s).result matches Ok(v) ==> writable(v),
    decreases s.len(), 0nat,
{
    if s.len() > 0 {
        let rest = s.skip(1);
        lemma_rest_written(rest, s);
        assert(written_token(s[0]));
        match s[0] {
            TokenView::OpenBracket => {
                if rest.len() > 0 && rest[0] != TokenView::CloseBracket {
                    if rest[0].scalar_kind() is Some {
                        let kind = rest[0].scalar_kind()->0;
                        lemma_array_items_written(kind, rest, Seq::empty(), true);
                        let p = array_items(kind, rest, Seq::empty(), true);
                        if p.result is Ok {
                            lemma_array_writable(kind, p.result->Ok_0);
                        }
                    }
                }
            },
            TokenView::OpenParen => {
                lemma_tuple_writable(rest, Seq::empty(), true);
            },
            TokenView::OpenBrace => {
                assert(key_names(Seq::<KeyView>::empty()) =~= Seq::<Seq<char>>::empty());
                lemma_table_writable(rest, Seq::empty(), true);
            },
            _ => {},
        }
    }
}

/// The values of a tuple that are read from tokens as the tokenizer
/// gives them can be written.
pub proof fn lemma_tuple_writable(s: Seq<TokenView>, items: Seq<ValueView>, ready: bool)
    requires
        written(s),
        forall|i: int| 0 <= i < items.len() ==> writable(#[trigger] items[i]),
    ensures
        tuple_items(s, items, ready).result matches Ok(r) ==> forall|i: int|
            0 <= i < r.len() ==> writable(#[trigger] r[i]),
    decreases s.len(), 3nat,
{
    if s.len() == 0 {
    } else if s[0] == TokenView::CloseParen && (!ready || items.len() == 0) {
    } else if !ready {
        if s[0] == TokenView::Separator {
            lemma_rest_written(s.skip(1), s);
            lemma_tuple_writable(s.skip(1), items, true);
        }
    } else {
        let p = parse_value(s);
        lemma_value_writable(s);
        lemma_value_rest(s);
        if p.result is Ok && p.rest.len() < s.len() {
            let v = p.result->Ok_0;
            let more = items.push(v);
            assert forall|i: int| 0 <= i < more.len() implies writable(#[trigger] more[i]) by {
                if i < items.len() {
                    assert(more[i] == items[i]);
                }
            }
            lemma_rest_written(p.rest, s);
            lemma_tuple_writable(p.rest, more, false);
        }
    }
}

/// A key that is read from tokens as the tokenizer gives them has a valid
/// name and a value that can be written.
pub proof fn lemma_key_writable(s: Seq<TokenView>)
    requires
        written(s),
    ensures
        parse_key(s).result matches Ok(k) ==> valid_name(k.name) && writable(k.value),
    decreases s.len(), 1nat,
{
    if s.len() >= 3 {
        match s[0] {
            TokenView::Identifier(id) => {
                lemma_sanitized_is_valid(id, '_');
                lemma_rest_written(s.skip(2), s);
                lemma_value_writable(s.skip(2));
            },
            _ => {},
        }
    }
}

/// Keys that can be written, with one more that can be written and has a
/// new name, can be written.
pub proof fn lemma_push_writable_key(keys: Seq<KeyView>, k: KeyView)
    requires
        writable_keys(keys),
        valid_name(k.name),
        writable(k.value),
        !has_name(key_names(keys), k.name),
    ensures
        writable_keys(keys.push(k)),
{
    let all = keys.push(k);
    let names = key_names(all);
    assert forall|i: int, j: int| 0 <= i < j < names.len() implies !eq_ignore_case(
        #[trigger] names[i],
        #[trigger] names[j],
    ) by {
        assert(names[i] == key_names(keys)[i]);
        if j < keys.len() {
            assert(names[j] == key_names(keys)[j]);
        }
    }
    assert forall|i: int| 0 <= i < all.len() implies valid_name((#[trigger] all[i]).name)
        && writable(all[i].value) by {
        if i < keys.len() {
            assert(all[i] == keys[i]);
        }
    }
}

/// The keys of a table that are read from tokens as the tokenizer gives
/// them can be written.
pub proof fn lemma_table_writable(s: Seq<TokenView>, keys: Seq<KeyView>, ready: bool)
    requires
        written(s),
        writable_keys(keys),
    ensures
        table_items(s, keys, ready).result matches Ok(r) ==> writable_keys(r),
    decreases s.len(), 3nat,
{
    if s.len() == 0 {
    } else if s[0] == TokenView::CloseBrace && (!ready || keys.len() == 0) {
    } else if !ready {
        if s[0] == TokenView::Separator {
            lemma_rest_written(s.skip(1), s);
            lemma_table_writable(s.skip(1), keys, true);
        }
    } else {
        let p = parse_member(s, keys);
        lemma_key_writable(s);
        lemma_member_rest(s, keys);
        if p.result is Ok && p.rest.len() < s.len() {
            let k = p.result->Ok_0;
            lemma_push_writable_key(keys, k);
            lemma_rest_written(p.rest, s);
            lemma_table_writable(p.rest, keys.push(k), false);
        }
    }
}

/// The keys of a section that are read from tokens as the tokenizer gives
/// them can be written.
pub proof fn lemma_section_keys_writable(s: Seq<TokenView>, keys: Seq<KeyView>)
    requires
        written(s),
        writable_keys(keys),
    ensures
        section_keys(s, keys).result matches Ok(r) ==> writable_keys(r),
    decreases s.len(),
{
    if s.len() == 0 || starts_section(s) {
    } else {
        let p = parse_member(s, keys);
        lemma_key_writable(s);
        lemma_member_rest(s, keys);
        if p.result is Ok && p.rest.len() < s.len() {
            let k = p.result->Ok_0;
            lemma_push_writable_key(keys, k);
            lemma_rest_written(p.rest, s);
            lemma_section_keys_writable(p.rest, keys.push(k));
        }
    }
}

/// Reading the keys of a section takes tokens from the front only.
pub proof fn lemma_section_keys_rest(s: Seq<TokenView>, keys: Seq<KeyView>)
    ensures
        is_rest_of(section_keys(s, keys).rest, s),
    decreases s.len(),
{
    if s.len() == 0 || starts_section(s) {
        assert(s =~= s.skip(0));
    } else {
        let p = parse_member(s, keys);
        lemma_member_rest(s, keys);
        if p.result is Ok && p.rest.len() < s.len() {
            lemma_section_keys_rest(p.rest, keys.push(p.result->Ok_0));
            lemma_rest_of_rest(
                section_keys(p.rest, keys.push(p.result->Ok_0)).rest,
                p.rest,
                s,
            );
        }
    }
}

/// A section that is read from tokens as the tokenizer gives them can be
/// written, and what is left are such tokens.
pub proof fn lemma_section_writable(s: Seq<TokenView>)
    requires
        written(s),
    ensures
        parse_section(s).result matches Ok(section) ==> writable_section(section),
        written(parse_section(s).rest),
{
    if starts_section(s) {
        let rest = s.skip(3);
        lemma_rest_written(rest, s);
        assert(key_names(Seq::<KeyView>::empty()) =~= Seq::<Seq<char>>::empty());
        lemma_section_keys_writable(rest, Seq::empty());
        lemma_section_keys_rest(rest, Seq::empty());
        lemma_rest_written(section_keys(rest, Seq::empty()).rest, rest);
        lemma_sanitized_is_valid(text_of_name(s[1]), '_');
    }
}

/// The sections that are read from tokens as the tokenizer gives them can
/// be written; there is one more than before where there were tokens.
pub proof fn lemma_sections_writable(s: Seq<TokenView>, sections: Seq<SectionView>)
    requires
        written(s),
        distinct_names(section_names(sections)),
        forall|i: int| 0 <= i < sections.len() ==> writable_section(#[trigger] sections[i]),
    ensures
        document_sections(s, sections).result matches Ok(r) ==> {
            &&& distinct_names(section_names(r))
            &&& forall|i: int| 0 <= i < r.len() ==> writable_section(#[trigger] r[i])
            &&& r.len() >= sections.len()
            &&& s.len() > 0 ==> r.len() > sections.len()
        },
    decreases s.len(),
{
    if s.len() > 0 {
        let p = parse_section(s);
        lemma_section_writable(s);
        if p.result is Ok {
            let sec = p.result->Ok_0;
            if valid_name(sec.name) && !has_name(section_names(sections), sec.name) && p.rest.len()
                < s.len() {
                let all = sections.push(sec);
                let names = section_names(all);
                assert forall|i: int, j: int|
                    0 <= i < j < names.len() implies !eq_ignore_case(
                    #[trigger] names[i],
                    #[trigger] names[j],
                ) by {
                    assert(names[i] == section_names(sections)[i]);
                    if j < sections.len() {
                        assert(names[j] == section_names(sections)[j]);
                    }
                }
                assert forall|i: int| 0 <= i < all.len() implies writable_section(
                    #[trigger] all[i],
                ) by {
                    if i < sections.len() {
                        assert(all[i] == sections[i]);
                    }
                }
                lemma_sections_writable(p.rest, all);
            }
        }
    }
}

/// Every document that is read from a text can be written, and is read
/// again from what is written: where `document_of(src)` is a document `d`,
/// `document_of(document_text(d))` is `d` too.
pub proof fn lemma_read_write_read(src: Seq<char>)
    ensures
        document_of(src) matches Ok(d) ==> writable_document(d)
            && document_of(document_text(d)) == Ok::<
            Seq<SectionView>,
            ParseErrorView,
        >(d),
{
    if document_of(src) is Ok {
        let tokens = tokenized(src)->Ok_0;
        lemma_lex_written(src, Seq::empty());
        assert(section_names(Seq::<SectionView>::empty()) =~= Seq::<Seq<char>>::empty());
        lemma_sections_writable(tokens, Seq::empty());
        let d = parse_document(tokens).result->Ok_0;
        lemma_document_round_trip(d);
    }
}

/// Every value that is read from a text can be written, and is read again
/// from what is written.
pub proof fn lemma_value_read_write_read(src: Seq<char>)
    ensures
        value_of(src) matches Ok(v) ==> writable(v) && value_of(
            value_text(v),
        ) == Ok::<ValueView, ParseErrorView>(v),
{
    if value_of(src) is Ok {
        let tokens = tokenized(src)->Ok_0;
        lemma_lex_written(src, Seq::empty());
        lemma_value_writable(tokens);
        let v = parse_value(tokens).result->Ok_0;
        lemma_value_round_trip(v);
    }
}

} // verus!
