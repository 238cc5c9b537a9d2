//! The text form of tokens, values, keys, sections and documents.
//!
//! The text is written so that it can be read back: an unsigned number
//! carries its suffix, a float without a point carries its suffix, and the
//! elements of arrays, tuples and tables are separated by commas, with none
//! behind the last.
use crate::decimal::Decimal;
use crate::document::sections_view;
use crate::grammar::SectionView;
use crate::key::{Key, KeyView};
use crate::key_value::{
    keys_view, lemma_table_view, lemma_tuple_view, values_view, KeyValue, ValueView,
};
use crate::section::Section;
use crate::text::chars_of;
use crate::token::{Token, TokenView};
use crate::utility::tabs;
use vstd::prelude::*;
use vstd::string::StringExecFns;

verus! {

/// The character for a digit.
pub open spec fn digit_char(d: nat) -> char {
    ((48 + d) as u8) as char
}

/// A number in decimal digits, without leading zeros.
pub open spec fn decimal_text(n: nat) -> Seq<char>
    decreases n,
{
    if n < 10 {
        seq![digit_char(n)]
    } else {
        decimal_text(n / 10).push(digit_char(n % 10))
    }
}

/// A signed number in decimal digits, with a minus sign where it is
/// negative.
pub open spec fn integer_text(i: int) -> Seq<char> {
    if i < 0 {
        seq!['-'] + decimal_text((-i) as nat)
    } else {
        decimal_text(i as nat)
    }
}

/// A string between quotes.
pub open spec fn quoted(s: Seq<char>) -> Seq<char> {
    seq!['"'] + s + seq!['"']
}

/// A decimal literal, with the suffix of a float where it has no point.
pub open spec fn float_text(s: Seq<char>) -> Seq<char> {
    if s.contains('.') {
        s
    } else {
        s.push('f')
    }
}

/// An unsigned number with its suffix.
pub open spec fn unsigned_text(u: u64) -> Seq<char> {
    decimal_text(u as nat).push('u')
}

/// The text of a token.
pub open spec fn token_text(t: TokenView) -> Seq<char> {
    match t {
        TokenView::Identifier(s) => s,
        TokenView::String(s) => quoted(s),
        TokenView::Integer(i) => integer_text(i as int),
        TokenView::Unsigned(u) => unsigned_text(u),
        TokenView::Float(s) => float_text(s),
        TokenView::Equals => seq!['='],
        TokenView::Separator => seq![','],
        TokenView::Add => seq!['+'],
        TokenView::Subtract => seq!['-'],
        TokenView::Multiply => seq!['*'],
        TokenView::Divide => seq!['/'],
        TokenView::Modulo => seq!['%'],
        TokenView::OpenBracket => seq!['['],
        TokenView::CloseBracket => seq![']'],
        TokenView::OpenBrace => seq!['{'],
        TokenView::CloseBrace => seq!['}'],
        TokenView::OpenParen => seq!['('],
        TokenView::CloseParen => seq![')'],
    }
}

/// The texts `items`, each on a line of its own behind `depth` tabs, with
/// a comma behind each but the last.
pub open spec fn lines(items: Seq<Seq<char>>, depth: nat) -> Seq<char>
    decreases items.len(),
{
    if items.len() == 0 {
        Seq::empty()
    } else if items.len() == 1 {
        tabs(depth) + items[0] + seq!['\n']
    } else {
        tabs(depth) + items[0] + seq![',', '\n'] + lines(items.drop_first(), depth)
    }
}

/// The texts `items` between the two delimiters, one to a line and one tab
/// deeper than the delimiters, which stand at `depth` tabs.
pub open spec fn enclosed(open: char, items: Seq<Seq<char>>, close: char, depth: nat) -> Seq<char> {
    seq![open, '\n'] + lines(items, depth + 1) + tabs(depth) + seq![close]
}

/// The text of a value that stands at `depth` tabs.
pub open spec fn value_text_at(v: ValueView, depth: nat) -> Seq<char>
    decreases v,
{
    match v {
        ValueView::String(s) => quoted(s),
        ValueView::Integer(i) => integer_text(i as int),
        ValueView::Unsigned(u) => unsigned_text(u),
        ValueView::Float(s) => float_text(s),
        ValueView::StringArray(a) => enclosed(
            '[',
            a.map_values(|s: Seq<char>| quoted(s)),
            ']',
            depth,
        ),
        ValueView::IntegerArray(a) => enclosed(
            '[',
            a.map_values(|i: i64| integer_text(i as int)),
            ']',
            depth,
        ),
        ValueView::UnsignedArray(a) => enclosed(
            '[',
            a.map_values(|u: u64| unsigned_text(u)),
            ']',
            depth,
        ),
        ValueView::FloatArray(a) => enclosed(
            '[',
            a.map_values(|s: Seq<char>| float_text(s)),
            ']',
            depth,
        ),
        ValueView::Tuple(items) => enclosed('(', value_texts(items, depth + 1), ')', depth),
        ValueView::Table(keys) => enclosed('{', key_texts(keys, depth + 1), '}', depth),
    }
}

/// The texts of a list of values that stand at `depth` tabs.
pub open spec fn value_texts(items: Seq<ValueView>, depth: nat) -> Seq<Seq<char>>
    decreases items,
{
    if items.len() == 0 {
        Seq::empty()
    } else {
        value_texts(items.drop_last(), depth).push(value_text_at(items.last(), depth))
    }
}

/// The text of a key that stands at `depth` tabs: its name, the equals
/// sign and its value.
pub open spec fn key_text_at(k: KeyView, depth: nat) -> Seq<char>
    decreases k,
{
    k.name + seq![' ', '=', ' '] + value_text_at(k.value, depth)
}

/// The texts of a list of keys that stand at `depth` tabs.
pub open spec fn key_texts(keys: Seq<KeyView>, depth: nat) -> Seq<Seq<char>>
    decreases keys,
{
    if keys.len() == 0 {
        Seq::empty()
    } else {
        key_texts(keys.drop_last(), depth).push(key_text_at(keys.last(), depth))
    }
}

/// The text of a value.
pub open spec fn value_text(v: ValueView) -> Seq<char> {
    value_text_at(v, 0)
}

/// The text of a key: its name, the equals sign and its value.
pub open spec fn key_text(k: KeyView) -> Seq<char> {
    key_text_at(k, 0)
}

/// The keys of a section, each on a line of its own behind a line feed.
pub open spec fn key_lines(keys: Seq<KeyView>) -> Seq<char>
    decreases keys.len(),
{
    if keys.len() == 0 {
        Seq::empty()
    } else {
        key_lines(keys.drop_last()) + seq!['\n'] + key_text(keys.last())
    }
}

/// The text of a section: its header, then its keys, one to a line.
pub open spec fn section_text(s: SectionView) -> Seq<char> {
    seq!['['] + s.name + seq![']'] + key_lines(s.keys)
}

/// The text of a document: its sections, with an empty line behind each.
pub open spec fn document_text(sections: Seq<SectionView>) -> Seq<char>
    decreases sections.len(),
{
    if sections.len() == 0 {
        Seq::empty()
    } else {
        document_text(sections.drop_last()) + section_text(sections.last()) + seq!['\n', '\n']
    }
}

/// The texts of a list stand at the places of the values.
pub proof fn lemma_value_texts(items: Seq<ValueView>, depth: nat)
    ensures
        value_texts(items, depth).len() == items.len(),
        forall|i: int|
            0 <= i < items.len() ==> value_texts(items, depth)[i] == value_text_at(
                #[trigger] items[i],
                depth,
            ),
    decreases items.len(),
{
    if items.len() > 0 {
        let front = items.drop_last();
        lemma_value_texts(front, depth);
        assert forall|i: int| 0 <= i < items.len() implies value_texts(items, depth)[i]
            == value_text_at(#[trigger] items[i], depth) by {
            if i < front.len() {
                assert(front[i] == items[i]);
            }
        }
    }
}

/// The texts of a list stand at the places of the keys.
pub proof fn lemma_key_texts(keys: Seq<KeyView>, depth: nat)
    ensures
        key_texts(keys, depth).len() == keys.len(),
        forall|i: int|
            0 <= i < keys.len() ==> key_texts(keys, depth)[i] == key_text_at(
                #[trigger] keys[i],
                depth,
            ),
    decreases keys.len(),
{
    if keys.len() > 0 {
        let front = keys.drop_last();
        lemma_key_texts(front, depth);
        assert forall|i: int| 0 <= i < keys.len() implies key_texts(keys, depth)[i] == key_text_at(
            #[trigger] keys[i],
            depth,
        ) by {
            if i < front.len() {
                assert(front[i] == keys[i]);
            }
        }
    }
}

/// Writes a number in decimal digits.
pub(crate) fn unsigned_to_string(n: u64) -> (r: String)
    ensures
        r@ == decimal_text(n as nat),
{
    let mut digits: Vec<char> = Vec::new();
    let mut rest = n;
    assert(decimal_text(n as nat) + digits@.reverse() =~= decimal_text(n as nat));
    while rest >= 10
        invariant
            decimal_text(n as nat) == decimal_text(rest as nat) + digits@.reverse(),
        decreases rest,
    {
        let c = (48u8 + ((rest % 10) as u8)) as char;
        let ghost before = digits@;
        digits.push(c);
        proof {
            let lead = decimal_text((rest / 10) as nat);
            assert(c == digit_char((rest % 10) as nat));
            assert(decimal_text(rest as nat) == lead.push(c));
            assert(digits@.reverse() =~= seq![c] + before.reverse());
            assert(lead.push(c) + before.reverse() =~= lead + digits@.reverse());
        }
        rest = rest / 10;
    }
    let ghost rev = digits@.reverse();
    let mut out = String::new();
    out.push((48u8 + (rest as u8)) as char);
    assert(out@ =~= decimal_text(rest as nat) + rev.take(0));
    let mut i: usize = digits.len();
    while i > 0
        invariant
            i <= digits.len(),
            rev == digits@.reverse(),
            out@ == decimal_text(rest as nat) + rev.take(digits.len() - i),
        decreases i,
    {
        let ghost k = digits.len() - i;
        i -= 1;
        out.push(digits[i]);
        proof {
            assert(rev[k] == digits@[i as int]);
            assert(rev.take(k + 1) =~= rev.take(k).push(rev[k]));
            assert(out@ =~= decimal_text(rest as nat) + rev.take(k + 1));
        }
    }
    assert(rev.take(digits.len() as int) =~= rev);
    out
}

/// Writes a signed number in decimal digits.
pub(crate) fn integer_to_string(i: i64) -> (r: String)
    ensures
        r@ == integer_text(i as int),
{
    if i < 0 {
        let magnitude: u64 = if i == i64::MIN {
            0x8000_0000_0000_0000u64
        } else {
            (-i) as u64
        };
        let mut out = String::new();
        out.push('-');
        let digits = unsigned_to_string(magnitude);
        out.append(digits.as_str());
        assert(out@ =~= seq!['-'] + digits@);
        out
    } else {
        unsigned_to_string(i as u64)
    }
}

/// Writes a string between quotes.
pub(crate) fn quote(s: &str) -> (r: String)
    ensures
        r@ == quoted(s@),
{
    let mut out = String::new();
    out.push('"');
    out.append(s);
    out.push('"');
    assert(out@ =~= quoted(s@));
    out
}

/// Writes an unsigned number with its suffix.
pub(crate) fn unsigned_with_suffix(u: u64) -> (r: String)
    ensures
        r@ == unsigned_text(u),
{
    let mut out = unsigned_to_string(u);
    out.push('u');
    out
}

/// Writes a decimal literal, with the suffix of a float where it has no
/// point.
pub(crate) fn float_to_string(text: &str) -> (r: String)
    ensures
        r@ == float_text(text@),
{
    let chars = chars_of(text);
    let mut dotted = false;
    let mut i: usize = 0;
    while i < chars.len()
        invariant
            i <= chars.len(),
            dotted == chars@.take(i as int).contains('.'),
        decreases chars.len() - i,
    {
        proof {
            let next = chars@.take(i + 1);
            let seen = chars@.take(i as int);
            assert(next =~= seen.push(chars@[i as int]));
            if seen.contains('.') {
                let j = choose|j: int| 0 <= j < seen.len() && seen[j] == '.';
                assert(next[j] == '.');
            }
            if chars@[i as int] == '.' {
                assert(next[i as int] == '.');
            }
        }
        if chars[i] == '.' {
            dotted = true;
        }
        i += 1;
    }
    assert(chars@.take(chars.len() as int) =~= chars@);
    let mut out = text.to_owned();
    if !dotted {
        out.push('f');
    }
    out
}

/// Writes a token.
pub(crate) fn token_to_string(t: &Token) -> (r: String)
    ensures
        r@ == token_text(t@),
{
    match t {
        Token::Identifier(s) => s.clone(),
        Token::String(s) => quote(s.as_str()),
        Token::Integer(i) => integer_to_string(*i),
        Token::Unsigned(u) => unsigned_with_suffix(*u),
        Token::Float(d) => float_to_string(d.as_str()),
        Token::Equals => one_char('='),
        Token::Separator => one_char(','),
        Token::Add => one_char('+'),
        Token::Subtract => one_char('-'),
        Token::Multiply => one_char('*'),
        Token::Divide => one_char('/'),
        Token::Modulo => one_char('%'),
        Token::OpenBracket => one_char('['),
        Token::CloseBracket => one_char(']'),
        Token::OpenBrace => one_char('{'),
        Token::CloseBrace => one_char('}'),
        Token::OpenParen => one_char('('),
        Token::CloseParen => one_char(')'),
    }
}

/// The string of one character.
pub(crate) fn one_char(c: char) -> (r: String)
    ensures
        r@ == seq![c],
{
    let mut out = String::new();
    out.push(c);
    assert(out@ =~= seq![c]);
    out
}

/// Writes texts one to a line between two delimiters. `pad` is the white
/// space in front of the delimiters; the texts stand one tab deeper.
pub(crate) fn enclose(open: char, items: &Vec<String>, close: char, pad: &str) -> (r: String)
    requires
        pad@ == tabs(pad@.len()),
    ensures
        r@ == enclosed(open, items@.map_values(|s: String| s@), close, pad@.len()),
{
    let ghost texts = items@.map_values(|s: String| s@);
    let ghost depth = pad@.len() + 1;
    let n = items.len();
    let mut out = String::new();
    out.push(open);
    out.push('\n');
    let ghost head = out@;
    assert(head =~= seq![open, '\n']);
    let mut i: usize = 0;
    assert(texts.skip(0) =~= texts);
    while i < n
        invariant
            i <= n,
            n == items.len(),
            pad@ == tabs(pad@.len()),
            depth == pad@.len() + 1,
            texts == items@.map_values(|s: String| s@),
            out@ + lines(texts.skip(i as int), depth) == head + lines(texts, depth),
        decreases n - i,
    {
        let ghost before = out@;
        let ghost rest = texts.skip(i as int);
        out.append(pad);
        out.push('\t');
        out.append(items[i].as_str());
        if i + 1 < n {
            out.push(',');
        }
        out.push('\n');
        proof {
            assert(pad@.push('\t') =~= tabs(depth));
            assert(rest[0] == items[i as int]@);
            assert(rest.drop_first() =~= texts.skip(i + 1));
            if i + 1 < n {
                assert(out@ =~= before + (tabs(depth) + rest[0] + seq![',', '\n']));
                assert(lines(rest, depth) == tabs(depth) + rest[0] + seq![',', '\n'] + lines(
                    rest.drop_first(),
                    depth,
                ));
                assert(out@ + lines(texts.skip(i + 1), depth) =~= before + lines(rest, depth));
            } else {
                assert(out@ =~= before + (tabs(depth) + rest[0] + seq!['\n']));
                assert(lines(texts.skip(i + 1), depth) =~= Seq::<char>::empty());
                assert(out@ + lines(texts.skip(i + 1), depth) =~= before + lines(rest, depth));
            }
        }
        i += 1;
    }
    assert(lines(texts.skip(n as int), depth) =~= Seq::<char>::empty());
    assert(out@ =~= head + lines(texts, depth));
    out.append(pad);
    out.push(close);
    assert(out@ =~= enclosed(open, texts, close, pad@.len()));
    out
}

/// The white space one tab deeper than `pad`.
fn deeper(pad: &str) -> (r: String)
    requires
        pad@ == tabs(pad@.len()),
    ensures
        r@ == tabs(pad@.len() + 1),
{
    let mut out = pad.to_owned();
    out.push('\t');
    assert(out@ =~= tabs(pad@.len() + 1));
    out
}

/// Writes a value whose first line stands behind the white space `pad`.
pub(crate) fn value_to_string_at(v: &KeyValue, pad: &str) -> (r: String)
    requires
        pad@ == tabs(pad@.len()),
    ensures
        r@ == value_text_at(v@, pad@.len()),
    decreases v,
{
    match v {
        KeyValue::String(s) => quote(s.as_str()),
        KeyValue::Integer(i) => integer_to_string(*i),
        KeyValue::Unsigned(u) => unsigned_with_suffix(*u),
        KeyValue::Float(d) => float_to_string(d.as_str()),
        KeyValue::StringArray(a) => {
            let mut texts: Vec<String> = Vec::new();
            let mut i: usize = 0;
            while i < a.len()
                invariant
                    i <= a.len(),
                    texts.len() == i,
                    forall|j: int| 0 <= j < i ==> (#[trigger] texts[j])@ == quoted(a[j]@),
                decreases a.len() - i,
            {
                texts.push(quote(a[i].as_str()));
                i += 1;
            }
            assert(texts@.map_values(|s: String| s@) =~= a@.map_values(|s: String| s@).map_values(
                |s: Seq<char>| quoted(s),
            ));
            enclose('[', &texts, ']', pad)
        },
        KeyValue::IntegerArray(a) => {
            let mut texts: Vec<String> = Vec::new();
            let mut i: usize = 0;
            while i < a.len()
                invariant
                    i <= a.len(),
                    texts.len() == i,
                    forall|j: int|
                        0 <= j < i ==> (#[trigger] texts[j])@ == integer_text(a[j] as int),
                decreases a.len() - i,
            {
                texts.push(integer_to_string(a[i]));
                i += 1;
            }
            assert(texts@.map_values(|s: String| s@) =~= a@.map_values(
                |i: i64| integer_text(i as int),
            ));
            enclose('[', &texts, ']', pad)
        },
        KeyValue::UnsignedArray(a) => {
            let mut texts: Vec<String> = Vec::new();
            let mut i: usize = 0;
            while i < a.len()
                invariant
                    i <= a.len(),
                    texts.len() == i,
                    forall|j: int| 0 <= j < i ==> (#[trigger] texts[j])@ == unsigned_text(a[j]),
                decreases a.len() - i,
            {
                texts.push(unsigned_with_suffix(a[i]));
                i += 1;
            }
            assert(texts@.map_values(|s: String| s@) =~= a@.map_values(|u: u64| unsigned_text(u)));
            enclose('[', &texts, ']', pad)
        },
        KeyValue::FloatArray(a) => {
            let mut texts: Vec<String> = Vec::new();
            let mut i: usize = 0;
            while i < a.len()
                invariant
                    i <= a.len(),
                    texts.len() == i,
                    forall|j: int| 0 <= j < i ==> (#[trigger] texts[j])@ == float_text(a[j]@),
                decreases a.len() - i,
            {
                texts.push(float_to_string(a[i].as_str()));
                i += 1;
            }
            assert(texts@.map_values(|s: String| s@) =~= a@.map_values(
                |d: Decimal| d@,
            ).map_values(|s: Seq<char>| float_text(s)));
            enclose('[', &texts, ']', pad)
        },
        KeyValue::Tuple(t) => {
            let inner = deeper(pad);
            let texts = values_to_strings(t, inner.as_str());
            proof {
                lemma_tuple_view(*t);
            }
            enclose('(', &texts, ')', pad)
        },
        KeyValue::Table(t) => {
            let inner = deeper(pad);
            let texts = keys_to_strings(t, inner.as_str());
            proof {
                lemma_table_view(*t);
            }
            enclose('{', &texts, '}', pad)
        },
    }
}

/// Writes each of a list of values.
pub(crate) fn values_to_strings(values: &Vec<KeyValue>, pad: &str) -> (r: Vec<String>)
    requires
        pad@ == tabs(pad@.len()),
    ensures
        r@.map_values(|s: String| s@) == value_texts(values_view(values@), pad@.len()),
    decreases values,
{
    let mut texts: Vec<String> = Vec::new();
    let mut i: usize = 0;
    while i < values.len()
        invariant
            i <= values.len(),
            texts.len() == i,
            pad@ == tabs(pad@.len()),
            forall|j: int|
                0 <= j < i ==> (#[trigger] texts[j])@ == value_text_at(values[j]@, pad@.len()),
        decreases values.len() - i,
    {
        texts.push(value_to_string_at(&values[i], pad));
        i += 1;
    }
    proof {
        let views = values_view(values@);
        lemma_value_texts(views, pad@.len());
        assert forall|j: int| 0 <= j < values.len() implies value_texts(views, pad@.len())[j]
            == texts[j]@ by {
            assert(views[j] == values[j]@);
        }
        assert(texts@.map_values(|s: String| s@) =~= value_texts(views, pad@.len()));
    }
    texts
}

/// Writes a key whose line stands behind the white space `pad`.
pub(crate) fn key_to_string_at(k: &Key, pad: &str) -> (r: String)
    requires
        pad@ == tabs(pad@.len()),
    ensures
        r@ == key_text_at(k@, pad@.len()),
    decreases k,
{
    let mut out = k.m_name.clone();
    out.push(' ');
    out.push('=');
    out.push(' ');
    let value = value_to_string_at(&k.value, pad);
    out.append(value.as_str());
    assert(out@ =~= key_text_at(k@, pad@.len()));
    out
}

/// Writes each of a list of keys.
pub(crate) fn keys_to_strings(keys: &Vec<Key>, pad: &str) -> (r: Vec<String>)
    requires
        pad@ == tabs(pad@.len()),
    ensures
        r@.map_values(|s: String| s@) == key_texts(keys_view(keys@), pad@.len()),
    decreases keys,
{
    let mut texts: Vec<String> = Vec::new();
    let mut i: usize = 0;
    while i < keys.len()
        invariant
            i <= keys.len(),
            texts.len() == i,
            pad@ == tabs(pad@.len()),
            forall|j: int|
                0 <= j < i ==> (#[trigger] texts[j])@ == key_text_at(keys[j]@, pad@.len()),
        decreases keys.len() - i,
    {
        texts.push(key_to_string_at(&keys[i], pad));
        i += 1;
    }
    proof {
        let views = keys_view(keys@);
        lemma_key_texts(views, pad@.len());
        assert forall|j: int| 0 <= j < keys.len() implies key_texts(views, pad@.len())[j]
            == texts[j]@ by {
            assert(views[j] == keys[j]@);
        }
        assert(texts@.map_values(|s: String| s@) =~= key_texts(views, pad@.len()));
    }
    texts
}

/// Writes a value.
pub(crate) fn value_to_string(v: &KeyValue) -> (r: String)
    ensures
        r@ == value_text(v@),
{
    let pad = String::new();
    assert(pad@ =~= tabs(0));
    value_to_string_at(v, pad.as_str())
}

/// Writes a key: its name, the equals sign and its value.
pub(crate) fn key_to_string(k: &Key) -> (r: String)
    ensures
        r@ == key_text(k@),
{
    let pad = String::new();
    assert(pad@ =~= tabs(0));
    key_to_string_at(k, pad.as_str())
}

/// Writes a section: its header, then its keys, one to a line.
pub(crate) fn section_to_string(section: &Section) -> (r: String)
    ensures
        r@ == section_text(section@),
{
    let mut out = String::new();
    out.push('[');
    out.append(section.m_name.as_str());
    out.push(']');
    let ghost head = out@;
    let ghost keys = keys_view(section.m_keys@);
    assert(head =~= seq!['['] + section@.name + seq![']']);
    assert(out@ =~= head + key_lines(keys.take(0)));
    let mut i: usize = 0;
    while i < section.m_keys.len()
        invariant
            i <= section.m_keys.len(),
            keys == keys_view(section.m_keys@),
            out@ == head + key_lines(keys.take(i as int)),
        decreases section.m_keys.len() - i,
    {
        let ghost before = out@;
        out.push('\n');
        let text = key_to_string(&section.m_keys[i]);
        out.append(text.as_str());
        proof {
            let next = keys.take(i + 1);
            assert(next.drop_last() =~= keys.take(i as int));
            assert(next.last() == section.m_keys[i as int]@);
            assert(out@ =~= head + key_lines(next));
        }
        i += 1;
    }
    assert(keys.take(section.m_keys.len() as int) =~= keys);
    out
}

/// Writes a list of sections, with an empty line behind each.
pub(crate) fn sections_to_string(sections: &Vec<Section>) -> (r: String)
    ensures
        r@ == document_text(sections_view(sections@)),
{
    let ghost views = sections_view(sections@);
    let mut out = String::new();
    assert(out@ =~= document_text(views.take(0)));
    let mut i: usize = 0;
    while i < sections.len()
        invariant
            i <= sections.len(),
            views == sections_view(sections@),
            out@ == document_text(views.take(i as int)),
        decreases sections.len() - i,
    {
        let text = section_to_string(&sections[i]);
        out.append(text.as_str());
        out.push('\n');
        out.push('\n');
        proof {
            let next = views.take(i + 1);
            assert(next.drop_last() =~= views.take(i as int));
            assert(next.last() == sections[i as int]@);
            assert(out@ =~= document_text(next));
        }
        i += 1;
    }
    assert(views.take(sections.len() as int) =~= views);
    out
}

} // verus!
