//! What holds of the tokenizer and of the grammar for every input.
use crate::decimal::literal_text;
use crate::error::{LexErrorView, ParseErrorView};
use crate::grammar::{
    array_items, document_sections, done, key_names, parse_array, parse_document, parse_key,
    parse_member, parse_section, parse_value, scalar_of, section_keys, section_names,
    starts_section, table_items, text_of_name, tuple_items, well_formed, well_formed_document,
    well_formed_keys, well_formed_section, Parsed, SectionView,
};
use crate::key::KeyView;
use crate::key_value::ValueView;
use crate::name::{distinct_names, has_name, lemma_sanitized_is_valid, valid_name};
use crate::render::quoted;
use crate::text::{
    digits_value, eq_ignore_case, is_digit, is_name_char, is_whitespace, lemma_span_bound,
    lemma_span_is, span,
};
use crate::token::{ScalarKind, TokenView};
use crate::tokenizer::{
    comment_len, emit, lex, next_step, number_of, number_step, starts_number, string_step,
    suffix_kind, tokenized, Step,
};
use vstd::prelude::*;

verus! {

/// Tells whether `rest` is what is left of `s` when tokens are taken from
/// its front.
pub open spec fn is_rest_of(rest: Seq<TokenView>, s: Seq<TokenView>) -> bool {
    rest.len() <= s.len() && rest == s.skip(s.len() - rest.len())
}

/// What is left of what is left is left.
pub proof fn lemma_rest_of_rest(a: Seq<TokenView>, b: Seq<TokenView>, c: Seq<TokenView>)
    requires
        is_rest_of(a, b),
        is_rest_of(b, c),
    ensures
        is_rest_of(a, c),
{
    assert(a =~= c.skip(c.len() - a.len()));
}

/// A sequence without its first token is a rest of the sequence.
pub proof fn lemma_skip_is_rest(s: Seq<TokenView>, n: int)
    requires
        0 <= n <= s.len(),
    ensures
        is_rest_of(s.skip(n), s),
{
}

/// Reading the elements of an array takes tokens from the front only, and
/// at least one.
pub proof fn lemma_array_items_rest(
    kind: ScalarKind,
    s: Seq<TokenView>,
    items: Seq<TokenView>,
    ready: bool,
)
    ensures
        is_rest_of(array_items(kind, s, items, ready).rest, s),
        array_items(kind, s, items, ready).result is Ok ==> array_items(
            kind,
            s,
            items,
            ready,
        ).rest.len() < s.len(),
    decreases s.len(),
{
    if s.len() > 0 {
        let rest = s.skip(1);
        lemma_skip_is_rest(s, 1);
        lemma_array_items_rest(kind, rest, items.push(s[0]), false);
        lemma_array_items_rest(kind, rest, items, true);
        lemma_rest_of_rest(array_items(kind, rest, items.push(s[0]), false).rest, rest, s);
        lemma_rest_of_rest(array_items(kind, rest, items, true).rest, rest, s);
    } else {
        assert(s =~= s.skip(0));
    }
}

/// Reading a value takes tokens from the front only: what is left is the
/// sequence without some of its first tokens. Where a value is read, at
/// least one token is taken.
pub proof fn lemma_value_rest(s: Seq<TokenView>)
    ensures
        is_rest_of(parse_value(s).rest, s),
        parse_value(s).result is Ok ==> parse_value(s).rest.len() < s.len(),
    decreases s.len(), 0nat,
{
    if s.len() == 0 {
        assert(s =~= s.skip(0));
    } else {
        let rest = s.skip(1);
        lemma_skip_is_rest(s, 1);
        match s[0] {
            TokenView::OpenBracket => {
                if rest.len() == 0 {
                    assert(rest =~= rest.skip(0));
                } else {
                    lemma_skip_is_rest(rest, 1);
                    if s[1].scalar_kind() is Some {
                        lemma_array_items_rest(s[1].scalar_kind()->0, rest, Seq::empty(), true);
                    }
                }
                lemma_rest_of_rest(parse_array(rest).rest, rest, s);
            },
            TokenView::OpenParen => {
                lemma_tuple_rest(rest, Seq::empty(), true);
                lemma_rest_of_rest(tuple_items(rest, Seq::empty(), true).rest, rest, s);
            },
            TokenView::OpenBrace => {
                lemma_table_rest(rest, Seq::empty(), true);
                lemma_rest_of_rest(table_items(rest, Seq::empty(), true).rest, rest, s);
            },
            _ => {},
        }
    }
}

/// Reading the values of a tuple takes tokens from the front only.
pub proof fn lemma_tuple_rest(s: Seq<TokenView>, items: Seq<ValueView>, ready: bool)
    ensures
        is_rest_of(tuple_items(s, items, ready).rest, s),
        tuple_items(s, items, ready).result is Ok ==> tuple_items(s, items, ready).rest.len()
            < s.len(),
    decreases s.len(), 3nat,
{
    if s.len() == 0 {
        assert(s =~= s.skip(0));
    } else if s[0] == TokenView::CloseParen && (!ready || items.len() == 0) {
        lemma_skip_is_rest(s, 1);
    } else if !ready {
        lemma_skip_is_rest(s, 1);
        if s[0] == TokenView::Separator {
            lemma_tuple_rest(s.skip(1), items, true);
            lemma_rest_of_rest(tuple_items(s.skip(1), items, true).rest, s.skip(1), s);
        }
    } else {
        let p = parse_value(s);
        lemma_value_rest(s);
        if p.result is Ok && p.rest.len() < s.len() {
            let v = p.result->Ok_0;
            lemma_tuple_rest(p.rest, items.push(v), false);
            lemma_rest_of_rest(tuple_items(p.rest, items.push(v), false).rest, p.rest, s);
        }
    }
}

/// Reading a key takes tokens from the front only, and at least three
/// where a key is read.
pub proof fn lemma_key_rest(s: Seq<TokenView>)
    ensures
        is_rest_of(parse_key(s).rest, s),
        parse_key(s).result is Ok ==> parse_key(s).rest.len() + 3 <= s.len(),
    decreases s.len(), 1nat,
{
    if s.len() < 3 {
        assert(s =~= s.skip(0));
    } else {
        lemma_skip_is_rest(s, 1);
        lemma_skip_is_rest(s, 2);
        if s[0] is Identifier && s[1] == TokenView::Equals {
            lemma_value_rest(s.skip(2));
            lemma_rest_of_rest(parse_value(s.skip(2)).rest, s.skip(2), s);
        }
    }
}

/// Reading a key of a table or section takes tokens from the front only.
pub proof fn lemma_member_rest(s: Seq<TokenView>, keys: Seq<KeyView>)
    ensures
        is_rest_of(parse_member(s, keys).rest, s),
        parse_member(s, keys).result is Ok ==> parse_member(s, keys).rest.len() + 3 <= s.len(),
    decreases s.len(), 2nat,
{
    lemma_key_rest(s);
}

/// Reading the keys of a table takes tokens from the front only.
pub proof fn lemma_table_rest(s: Seq<TokenView>, keys: Seq<KeyView>, ready: bool)
    ensures
        is_rest_of(table_items(s, keys, ready).rest, s),
        table_items(s, keys, ready).result is Ok ==> table_items(s, keys, ready).rest.len()
            < s.len(),
    decreases s.len(), 3nat,
{
    if s.len() == 0 {
        assert(s =~= s.skip(0));
    } else if s[0] == TokenView::CloseBrace && (!ready || keys.len() == 0) {
        lemma_skip_is_rest(s, 1);
    } else if !ready {
        lemma_skip_is_rest(s, 1);
        if s[0] == TokenView::Separator {
            lemma_table_rest(s.skip(1), keys, true);
            lemma_rest_of_rest(table_items(s.skip(1), keys, true).rest, s.skip(1), s);
        }
    } else {
        let p = parse_member(s, keys);
        lemma_member_rest(s, keys);
        if p.result is Ok && p.rest.len() < s.len() {
            let k = p.result->Ok_0;
            lemma_table_rest(p.rest, keys.push(k), false);
            lemma_rest_of_rest(table_items(p.rest, keys.push(k), false).rest, p.rest, s);
        }
    }
}

/// The tokens that were taken from the front of `s` to leave `rest`.
pub open spec fn taken(s: Seq<TokenView>, rest: Seq<TokenView>) -> Seq<TokenView> {
    s.take(s.len() - rest.len())
}

/// What is taken first and what is taken next are what is taken in all.
pub proof fn lemma_taken_twice(
    s: Seq<TokenView>,
    mid: Seq<TokenView>,
    rest: Seq<TokenView>,
    tail: Seq<TokenView>,
)
    requires
        is_rest_of(mid, s),
        is_rest_of(rest, mid),
    ensures
        taken(s, rest) + tail == taken(s, mid) + (taken(mid, rest) + tail),
{
    assert(taken(s, rest) + tail =~= taken(s, mid) + (taken(mid, rest) + tail));
}

/// The elements of an array are read from the tokens that are taken, and
/// from these alone: with anything else behind them, the same elements are
/// read and that is left.
pub proof fn lemma_array_items_taken(
    kind: ScalarKind,
    s: Seq<TokenView>,
    items: Seq<TokenView>,
    ready: bool,
    tail: Seq<TokenView>,
)
    ensures
        array_items(kind, s, items, ready).result matches Ok(r) ==> array_items(
            kind,
            taken(s, array_items(kind, s, items, ready).rest) + tail,
            items,
            ready,
        ) == done(r, tail),
    decreases s.len(),
{
    let p = array_items(kind, s, items, ready);
    if p.result is Ok {
        lemma_array_items_rest(kind, s, items, ready);
        let front = taken(s, p.rest) + tail;
        let next = s.skip(1);
        assert(front[0] == s[0]);
        assert(is_rest_of(next, s));
        let t = s[0];
        if t.scalar_kind() == Some(kind) {
            lemma_array_items_rest(kind, next, items.push(t), false);
            lemma_array_items_taken(kind, next, items.push(t), false, tail);
            assert(front.skip(1) =~= taken(next, p.rest) + tail);
        } else if t == TokenView::Separator {
            lemma_array_items_rest(kind, next, items, true);
            lemma_array_items_taken(kind, next, items, true, tail);
            assert(front.skip(1) =~= taken(next, p.rest) + tail);
        } else {
            assert(front.skip(1) =~= tail);
        }
    }
}

/// A value is read from the tokens that are taken for it, and from these
/// alone: with anything else behind them, the same value is read and that
/// is left.
pub proof fn lemma_value_taken(s: Seq<TokenView>, tail: Seq<TokenView>)
    ensures
        parse_value(s).result matches Ok(v) ==> parse_value(taken(s, parse_value(s).rest) + tail)
            == done(v, tail),
    decreases s.len(), 0nat,
{
    let p = parse_value(s);
    if p.result is Ok {
        lemma_value_rest(s);
        let front = taken(s, p.rest) + tail;
        let next = s.skip(1);
        assert(front[0] == s[0]);
        assert(is_rest_of(next, s));
        match s[0] {
            TokenView::OpenBracket => {
                if next.len() > 0 && next[0].scalar_kind() is Some {
                    lemma_array_items_rest(next[0].scalar_kind()->0, next, Seq::empty(), true);
                }
                let inner = taken(next, p.rest) + tail;
                assert(front.skip(1) =~= inner);
                assert(inner[0] == next[0]);
                if next[0] == TokenView::CloseBracket {
                    assert(inner.skip(1) =~= tail);
                } else {
                    let kind = next[0].scalar_kind()->0;
                    lemma_array_items_taken(kind, next, Seq::empty(), true, tail);
                }
            },
            TokenView::OpenParen => {
                assert(front.skip(1) =~= taken(next, p.rest) + tail);
                lemma_tuple_taken(next, Seq::empty(), true, tail);
            },
            TokenView::OpenBrace => {
                assert(front.skip(1) =~= taken(next, p.rest) + tail);
                lemma_table_taken(next, Seq::empty(), true, tail);
            },
            _ => {
                assert(front.skip(1) =~= tail);
            },
        }
    }
}

/// The values of a tuple are read from the tokens that are taken, and
/// from these alone.
pub proof fn lemma_tuple_taken(
    s: Seq<TokenView>,
    items: Seq<ValueView>,
    ready: bool,
    tail: Seq<TokenView>,
)
    ensures
        tuple_items(s, items, ready).result matches Ok(r) ==> tuple_items(
            taken(s, tuple_items(s, items, ready).rest) + tail,
            items,
            ready,
        ) == done(r, tail),
    decreases s.len(), 3nat,
{
    let p = tuple_items(s, items, ready);
    if p.result is Ok {
        lemma_tuple_rest(s, items, ready);
        let front = taken(s, p.rest) + tail;
        assert(front[0] == s[0]);
        if s[0] == TokenView::CloseParen && (!ready || items.len() == 0) {
            assert(front.skip(1) =~= tail);
        } else if !ready {
            let next = s.skip(1);
            lemma_tuple_rest(next, items, true);
            lemma_tuple_taken(next, items, true, tail);
            assert(front.skip(1) =~= taken(next, p.rest) + tail);
        } else {
            let q = parse_value(s);
            lemma_value_rest(s);
            let v = q.result->Ok_0;
            lemma_tuple_rest(q.rest, items.push(v), false);
            let then = taken(q.rest, p.rest) + tail;
            lemma_value_taken(s, then);
            lemma_taken_twice(s, q.rest, p.rest, tail);
            lemma_tuple_taken(q.rest, items.push(v), false, tail);
        }
    }
}

/// A key is read from the tokens that are taken for it, and from these
/// alone.
pub proof fn lemma_key_taken(s: Seq<TokenView>, tail: Seq<TokenView>)
    ensures
        parse_key(s).result matches Ok(k) ==> parse_key(taken(s, parse_key(s).rest) + tail)
            == done(k, tail),
    decreases s.len(), 1nat,
{
    let p = parse_key(s);
    if p.result is Ok {
        lemma_key_rest(s);
        let front = taken(s, p.rest) + tail;
        let next = s.skip(2);
        assert(front[0] == s[0]);
        assert(front[1] == s[1]);
        lemma_value_rest(next);
        lemma_value_taken(next, tail);
        assert(front.skip(2) =~= taken(next, p.rest) + tail);
    }
}

/// A key of a table or section is read from the tokens that are taken
/// for it, and from these alone.
pub proof fn lemma_member_taken(s: Seq<TokenView>, keys: Seq<KeyView>, tail: Seq<TokenView>)
    ensures
        parse_member(s, keys).result matches Ok(k) ==> parse_member(
            taken(s, parse_member(s, keys).rest) + tail,
            keys,
        ) == done(k, tail),
    decreases s.len(), 2nat,
{
    lemma_key_taken(s, tail);
}

/// The keys of a table are read from the tokens that are taken, and from
/// these alone.
pub proof fn lemma_table_taken(
    s: Seq<TokenView>,
    keys: Seq<KeyView>,
    ready: bool,
    tail: Seq<TokenView>,
)
    ensures
        table_items(s, keys, ready).result matches Ok(r) ==> table_items(
            taken(s, table_items(s, keys, ready).rest) + tail,
            keys,
            ready,
        ) == done(r, tail),
    decreases s.len(), 3nat,
{
    let p = table_items(s, keys, ready);
    if p.result is Ok {
        lemma_table_rest(s, keys, ready);
        let front = taken(s, p.rest) + tail;
        assert(front[0] == s[0]);
        if s[0] == TokenView::CloseBrace && (!ready || keys.len() == 0) {
            assert(front.skip(1) =~= tail);
        } else if !ready {
            let next = s.skip(1);
            lemma_table_rest(next, keys, true);
            lemma_table_taken(next, keys, true, tail);
            assert(front.skip(1) =~= taken(next, p.rest) + tail);
        } else {
            let q = parse_member(s, keys);
            lemma_member_rest(s, keys);
            let k = q.result->Ok_0;
            lemma_table_rest(q.rest, keys.push(k), false);
            let then = taken(q.rest, p.rest) + tail;
            lemma_member_taken(s, keys, then);
            lemma_taken_twice(s, q.rest, p.rest, tail);
            lemma_table_taken(q.rest, keys.push(k), false, tail);
        }
    }
}

/// Well-formed keys with one more that is well formed and new are well
/// formed.
pub proof fn lemma_push_key(keys: Seq<KeyView>, k: KeyView)
    requires
        well_formed_keys(keys),
        valid_name(k.name),
        well_formed(k.value),
        !has_name(key_names(keys), k.name),
    ensures
        well_formed_keys(keys.push(k)),
{
    let all = keys.push(k);
    let names = key_names(all);
    assert forall|i: int, j: int| 0 <= i < j < names.len() implies !eq_ignore_case(
        #[trigger] names[i],
        #[trigger] names[j],
    ) by {
        assert(names[i] == key_names(keys)[i]);
        if j < keys.len() {
            assert(names[j] == key_names(keys)[j]);
        }
    }
    assert forall|i: int| 0 <= i < all.len() implies valid_name((#[trigger] all[i]).name)
        && well_formed(all[i].value) by {
        if i < keys.len() {
            assert(all[i] == keys[i]);
        }
    }
}

/// Every value that the grammar reads is well formed.
pub proof fn lemma_value_well_formed(s: Seq<TokenView>)
    ensures
        parse_value(s).result matches Ok(v) ==> well_formed(v),
    decreases s.len(), 0nat,
{
    if s.len() > 0 {
        let rest = s.skip(1);
        match s[0] {
            TokenView::OpenParen => {
                lemma_tuple_well_formed(rest, Seq::empty(), true);
            },
            TokenView::OpenBrace => {
                assert(key_names(Seq::<KeyView>::empty()) =~= Seq::<Seq<char>>::empty());
                lemma_table_well_formed(rest, Seq::empty(), true);
            },
            _ => {},
        }
    }
}

/// The values of a tuple that the grammar reads are well formed.
pub proof fn lemma_tuple_well_formed(s: Seq<TokenView>, items: Seq<ValueView>, ready: bool)
    requires
        forall|i: int| 0 <= i < items.len() ==> well_formed(#[trigger] items[i]),
    ensures
        tuple_items(s, items, ready).result matches Ok(r) ==> forall|i: int|
            0 <= i < r.len() ==> well_formed(#[trigger] r[i]),
    decreases s.len(), 3nat,
{
    if s.len() == 0 {
    } else if s[0] == TokenView::CloseParen && (!ready || items.len() == 0) {
    } else if !ready {
        if s[0] == TokenView::Separator {
            lemma_tuple_well_formed(s.skip(1), items, true);
        }
    } else {
        let p = parse_value(s);
        lemma_value_well_formed(s);
        if p.result is Ok && p.rest.len() < s.len() {
            let v = p.result->Ok_0;
            let more = items.push(v);
            assert forall|i: int| 0 <= i < more.len() implies well_formed(#[trigger] more[i]) by {
                if i < items.len() {
                    assert(more[i] == items[i]);
                }
            }
            lemma_tuple_well_formed(p.rest, more, false);
        }
    }
}

/// Every key that the grammar reads has a valid name and a well-formed
/// value.
pub proof fn lemma_key_well_formed(s: Seq<TokenView>)
    ensures
        parse_key(s).result matches Ok(k) ==> valid_name(k.name) && well_formed(k.value),
    decreases s.len(), 1nat,
{
    if s.len() >= 3 {
        match s[0] {
            TokenView::Identifier(id) => {
                lemma_sanitized_is_valid(id, '_');
                lemma_value_well_formed(s.skip(2));
            },
            _ => {},
        }
    }
}

/// The keys of a table that the grammar reads are well formed.
pub proof fn lemma_table_well_formed(s: Seq<TokenView>, keys: Seq<KeyView>, ready: bool)
    requires
        well_formed_keys(keys),
    ensures
        table_items(s, keys, ready).result matches Ok(r) ==> well_formed_keys(r),
    decreases s.len(), 3nat,
{
    if s.len() == 0 {
    } else if s[0] == TokenView::CloseBrace && (!ready || keys.len() == 0) {
    } else if !ready {
        if s[0] == TokenView::Separator {
            lemma_table_well_formed(s.skip(1), keys, true);
        }
    } else {
        let p = parse_member(s, keys);
        lemma_key_well_formed(s);
        if p.result is Ok && p.rest.len() < s.len() {
            let k = p.result->Ok_0;
            lemma_push_key(keys, k);
            lemma_table_well_formed(p.rest, keys.push(k), false);
        }
    }
}

/// The keys of a section that the grammar reads are well formed.
pub proof fn lemma_section_keys_well_formed(s: Seq<TokenView>, keys: Seq<KeyView>)
    requires
        well_formed_keys(keys),
    ensures
        section_keys(s, keys).result matches Ok(r) ==> well_formed_keys(r),
    decreases s.len(),
{
    if s.len() == 0 || starts_section(s) {
    } else {
        let p = parse_member(s, keys);
        lemma_key_well_formed(s);
        if p.result is Ok && p.rest.len() < s.len() {
            let k = p.result->Ok_0;
            lemma_push_key(keys, k);
            lemma_section_keys_well_formed(p.rest, keys.push(k));
        }
    }
}

/// Every section that the grammar reads has a valid name and keys with
/// valid names of which no two are the same.
pub proof fn lemma_section_well_formed(s: Seq<TokenView>)
    ensures
        parse_section(s).result matches Ok(section) ==> well_formed_section(section),
{
    if starts_section(s) {
        assert(key_names(Seq::<KeyView>::empty()) =~= Seq::<Seq<char>>::empty());
        lemma_section_keys_well_formed(s.skip(3), Seq::empty());
        lemma_sanitized_is_valid(text_of_name(s[1]), '_');
    }
}

/// The sections that the grammar reads are well formed.
pub proof fn lemma_sections_well_formed(s: Seq<TokenView>, sections: Seq<SectionView>)
    requires
        well_formed_document(sections),
    ensures
        document_sections(s, sections).result matches Ok(r) ==> well_formed_document(r),
    decreases s.len(),
{
    if s.len() > 0 {
        let p = parse_section(s);
        lemma_section_well_formed(s);
        if p.result is Ok {
            let sec = p.result->Ok_0;
            if valid_name(sec.name) && !has_name(section_names(sections), sec.name) && p.rest.len()
                < s.len() {
                let all = sections.push(sec);
                let names = section_names(all);
                assert forall|i: int, j: int|
                    0 <= i < j < names.len() implies !eq_ignore_case(
                    #[trigger] names[i],
                    #[trigger] names[j],
                ) by {
                    assert(names[i] == section_names(sections)[i]);
                    if j < sections.len() {
                        assert(names[j] == section_names(sections)[j]);
                    }
                }
                assert forall|i: int| 0 <= i < all.len() implies well_formed_section(
                    #[trigger] all[i],
                ) by {
                    if i < sections.len() {
                        assert(all[i] == sections[i]);
                    }
                }
                lemma_sections_well_formed(p.rest, all);
            }
        }
    }
}

/// Every document that the grammar reads is well formed: its sections have
/// valid names of which no two are the same, whatever the case of the
/// letters, and so have the keys of each section and of each table.
pub proof fn lemma_document_well_formed(s: Seq<TokenView>)
    ensures
        parse_document(s).result matches Ok(sections) ==> well_formed_document(sections),
{
    if s.len() > 0 {
        assert(section_names(Seq::<SectionView>::empty()) =~= Seq::<Seq<char>>::empty());
        lemma_sections_well_formed(s, Seq::empty());
    }
}

/// Tells whether reading failed for a name that is not valid.
pub open spec fn failed_for_name<T>(p: Parsed<T>) -> bool {
    p.result is Err && p.result->Err_0 is InvalidName
}

/// Reading the elements of an array never fails for a name.
pub proof fn lemma_array_names(
    kind: ScalarKind,
    s: Seq<TokenView>,
    items: Seq<TokenView>,
    ready: bool,
)
    ensures
        !failed_for_name(array_items(kind, s, items, ready)),
    decreases s.len(),
{
    if s.len() > 0 {
        lemma_array_names(kind, s.skip(1), items.push(s[0]), false);
        lemma_array_names(kind, s.skip(1), items, true);
    }
}

/// Reading a value never fails for a name that is not valid: the names of
/// keys are made valid before they are held against the rule.
pub proof fn lemma_value_names(s: Seq<TokenView>)
    ensures
        !failed_for_name(parse_value(s)),
    decreases s.len(), 0nat,
{
    if s.len() > 0 {
        let rest = s.skip(1);
        match s[0] {
            TokenView::OpenBracket => {
                if rest.len() > 0 && rest[0].scalar_kind() is Some {
                    lemma_array_names(rest[0].scalar_kind()->0, rest, Seq::empty(), true);
                }
            },
            TokenView::OpenParen => {
                lemma_tuple_names(rest, Seq::empty(), true);
            },
            TokenView::OpenBrace => {
                lemma_table_names(rest, Seq::empty(), true);
            },
            _ => {},
        }
    }
}

/// Reading the values of a tuple never fails for a name.
pub proof fn lemma_tuple_names(s: Seq<TokenView>, items: Seq<ValueView>, ready: bool)
    ensures
        !failed_for_name(tuple_items(s, items, ready)),
    decreases s.len(), 3nat,
{
    if s.len() == 0 {
    } else if s[0] == TokenView::CloseParen && (!ready || items.len() == 0) {
    } else if !ready {
        if s[0] == TokenView::Separator {
            lemma_tuple_names(s.skip(1), items, true);
        }
    } else {
        let p = parse_value(s);
        lemma_value_names(s);
        if p.result is Ok && p.rest.len() < s.len() {
            lemma_tuple_names(p.rest, items.push(p.result->Ok_0), false);
        }
    }
}

/// Reading a key never fails for a name, and the key that is read has a
/// valid name.
pub proof fn lemma_member_names(s: Seq<TokenView>, keys: Seq<KeyView>)
    ensures
        !failed_for_name(parse_key(s)),
        !failed_for_name(parse_member(s, keys)),
    decreases s.len(), 2nat,
{
    lemma_key_well_formed(s);
    if s.len() >= 3 && s[0] is Identifier && s[1] == TokenView::Equals {
        lemma_value_names(s.skip(2));
    }
}

/// Reading the keys of a table never fails for a name.
pub proof fn lemma_table_names(s: Seq<TokenView>, keys: Seq<KeyView>, ready: bool)
    ensures
        !failed_for_name(table_items(s, keys, ready)),
    decreases s.len(), 3nat,
{
    if s.len() == 0 {
    } else if s[0] == TokenView::CloseBrace && (!ready || keys.len() == 0) {
    } else if !ready {
        if s[0] == TokenView::Separator {
            lemma_table_names(s.skip(1), keys, true);
        }
    } else {
        let p = parse_member(s, keys);
        lemma_member_names(s, keys);
        if p.result is Ok && p.rest.len() < s.len() {
            lemma_table_names(p.rest, keys.push(p.result->Ok_0), false);
        }
    }
}

/// Reading the keys of a section never fails for a name.
pub proof fn lemma_section_keys_names(s: Seq<TokenView>, keys: Seq<KeyView>)
    ensures
        !failed_for_name(section_keys(s, keys)),
    decreases s.len(),
{
    if s.len() == 0 || starts_section(s) {
    } else {
        let p = parse_member(s, keys);
        lemma_member_names(s, keys);
        if p.result is Ok && p.rest.len() < s.len() {
            lemma_section_keys_names(p.rest, keys.push(p.result->Ok_0));
        }
    }
}

/// Reading sections never fails for a name.
pub proof fn lemma_sections_names(s: Seq<TokenView>, sections: Seq<SectionView>)
    ensures
        !failed_for_name(document_sections(s, sections)),
    decreases s.len(),
{
    if s.len() > 0 {
        let p = parse_section(s);
        lemma_section_well_formed(s);
        if starts_section(s) {
            lemma_section_keys_names(s.skip(3), Seq::empty());
        }
        if p.result is Ok {
            let sec = p.result->Ok_0;
            if !has_name(section_names(sections), sec.name) && p.rest.len() < s.len() {
                lemma_sections_names(p.rest, sections.push(sec));
            }
        }
    }
}

/// Reading a document never fails for a name that is not valid: every
/// name is made valid when it is read, so the rule that names be valid
/// turns no document away.
pub proof fn lemma_document_names(s: Seq<TokenView>)
    ensures
        !failed_for_name(parse_document(s)),
{
    if s.len() > 0 {
        lemma_sections_names(s, Seq::empty());
    }
}

/// What stands at the front of a text takes at least one character and
/// no more than the text has.
pub proof fn lemma_step_within(s: Seq<char>)
    requires
        s.len() > 0,
    ensures
        match next_step(s) {
            Step::Skip(n) => 0 < n <= s.len(),
            Step::Emit(_, n) => 0 < n <= s.len(),
            Step::Fail(_) => true,
        },
{
    let c = s[0];
    let tail = s.skip(1);
    lemma_span_bound(tail, |c: char| c != '\n');
    lemma_span_bound(tail, |c: char| is_name_char(c));
    lemma_span_bound(tail, |c: char| c != '"');
    if !is_whitespace(c) && c != '#' && starts_number(s) {
        let p = |c: char| is_digit(c);
        let a = span(s, p) as int;
        lemma_span_bound(s, p);
        if a < s.len() {
            lemma_span_bound(s.skip(a + 1), p);
        }
        if a == 0 {
            assert(s.skip(1)[0] == s[1]);
        }
    }
}

/// White space in front of a text stands for nothing: the text gives the
/// same tokens without it.
pub proof fn lemma_whitespace_skipped(gap: Seq<char>, rest: Seq<char>, acc: Seq<TokenView>)
    requires
        forall|i: int| 0 <= i < gap.len() ==> is_whitespace(#[trigger] gap[i]),
    ensures
        lex(gap + rest, acc) == lex(rest, acc),
    decreases gap.len(),
{
    if gap.len() == 0 {
        assert(gap + rest =~= rest);
    } else {
        let s = gap + rest;
        assert(s[0] == gap[0]);
        assert(s.skip(1) =~= gap.skip(1) + rest);
        assert forall|i: int| 0 <= i < gap.skip(1).len() implies is_whitespace(
            #[trigger] gap.skip(1)[i],
        ) by {
            assert(gap.skip(1)[i] == gap[i + 1]);
        }
        lemma_whitespace_skipped(gap.skip(1), rest, acc);
    }
}

/// A comment stands for nothing: a text that starts with a comment gives
/// the same tokens as what follows the end of the comment's line.
pub proof fn lemma_comment_skipped(comment: Seq<char>, rest: Seq<char>, acc: Seq<TokenView>)
    requires
        forall|i: int| 0 <= i < comment.len() ==> #[trigger] comment[i] != '\n',
    ensures
        lex(seq!['#'] + comment + seq!['\n'] + rest, acc) == lex(rest, acc),
        lex(seq!['#'] + comment, acc) == Ok::<Seq<TokenView>, LexErrorView>(acc),
{
    let p = |c: char| c != '\n';
    let s = seq!['#'] + comment + seq!['\n'] + rest;
    let body = s.skip(1);
    assert forall|j: int| 0 <= j < comment.len() implies p(#[trigger] body[j]) by {
        assert(body[j] == comment[j]);
    }
    assert(body[comment.len() as int] == '\n');
    lemma_span_is(body, p, comment.len() as int);
    assert(comment_len(s) == comment.len() + 2);
    assert(s.skip(comment.len() as int + 2) =~= rest);
    assert(s[0] == '#');
    let t = seq!['#'] + comment;
    let tail = t.skip(1);
    assert(tail =~= comment);
    lemma_span_is(tail, p, comment.len() as int);
    assert(comment_len(t) == comment.len() + 1);
    assert(t[0] == '#');
    let end = t.skip(comment.len() as int + 1);
    assert(end.len() == 0);
    assert(lex(end, acc) == Ok::<Seq<TokenView>, LexErrorView>(acc));
    assert(next_step(t) == Step::Skip(comment.len() as int + 1));
    assert(lex(t, acc) == lex(end, acc));
}

/// A string literal at the front of a text is one string token, and the
/// text goes on behind its closing quote.
pub proof fn lemma_string_literal(text: Seq<char>, rest: Seq<char>)
    requires
        forall|i: int| 0 <= i < text.len() ==> #[trigger] text[i] != '"',
    ensures
        next_step(quoted(text) + rest) == Step::Emit(
            TokenView::String(text),
            text.len() as int + 2,
        ),
        (quoted(text) + rest).skip(text.len() as int + 2) == rest,
{
    let p = |c: char| c != '"';
    let s = quoted(text) + rest;
    let body = s.skip(1);
    assert(s[0] == '"');
    assert forall|j: int| 0 <= j < text.len() implies p(#[trigger] body[j]) by {
        assert(body[j] == text[j]);
    }
    assert(body[text.len() as int] == '"');
    lemma_span_is(body, p, text.len() as int);
    assert(s.subrange(1, 1 + text.len() as int) =~= text);
    assert(s.skip(text.len() as int + 2) =~= rest);
    assert(string_step(s) == Step::Emit(TokenView::String(text), text.len() as int + 2));
}

/// Adjacent string literals merge: two string literals with nothing but
/// white space between them give the same tokens as one literal with the
/// two texts joined.
pub proof fn lemma_adjacent_strings_merge(
    first: Seq<char>,
    gap: Seq<char>,
    second: Seq<char>,
    rest: Seq<char>,
    acc: Seq<TokenView>,
)
    requires
        forall|i: int| 0 <= i < first.len() ==> #[trigger] first[i] != '"',
        forall|i: int| 0 <= i < second.len() ==> #[trigger] second[i] != '"',
        forall|i: int| 0 <= i < gap.len() ==> is_whitespace(#[trigger] gap[i]),
    ensures
        lex(quoted(first) + gap + quoted(second) + rest, acc) == lex(
            quoted(first + second) + rest,
            acc,
        ),
{
    let tail = gap + (quoted(second) + rest);
    let whole = quoted(first) + gap + quoted(second) + rest;
    assert(whole =~= quoted(first) + tail);
    lemma_string_literal(first, tail);
    let one = emit(acc, TokenView::String(first));
    assert(lex(whole, acc) == lex(tail, one));
    lemma_whitespace_skipped(gap, quoted(second) + rest, one);
    lemma_string_literal(second, rest);
    let two = emit(one, TokenView::String(second));
    assert(lex(quoted(second) + rest, one) == lex(rest, two));
    let joined = first + second;
    assert forall|i: int| 0 <= i < joined.len() implies #[trigger] joined[i] != '"' by {
        if i < first.len() {
            assert(joined[i] == first[i]);
        } else {
            assert(joined[i] == second[i - first.len()]);
        }
    }
    lemma_string_literal(joined, rest);
    assert(two =~= emit(acc, TokenView::String(joined))) by {
        if acc.len() > 0 && acc.last() is String {
            let head = acc.last()->String_0;
            assert((head + first) + second =~= head + (first + second));
        } else {
            assert(one.last() == TokenView::String(first));
            assert(one.drop_last() =~= acc);
        }
    }
}

/// A number that starts with its point is read as if a zero stood before
/// the point: the text gives the same tokens with the zero and without it.
pub proof fn lemma_leading_dot(s: Seq<char>, acc: Seq<TokenView>)
    requires
        s.len() >= 2,
        s[0] == '.',
        is_digit(s[1]),
    ensures
        lex(s, acc) == lex(seq!['0'] + s, acc),
{
    let p = |c: char| is_digit(c);
    let z = seq!['0'] + s;
    lemma_span_is(s, p, 0);
    assert(z[0] == '0');
    assert(z[1] == '.');
    lemma_span_is(z, p, 1);
    assert(z.skip(2) =~= s.skip(1));
    assert(z.take(1) =~= seq!['0']);
    let b = span(s.skip(1), p) as int;
    lemma_span_bound(s.skip(1), p);
    assert(z.subrange(2, 2 + b) =~= s.subrange(1, 1 + b));
    if 1 + b < s.len() {
        assert(z[2 + b] == s[1 + b]);
    }
    assert(z[2] == s[1]);
    match number_step(s) {
        Step::Emit(t, n) => {
            assert(number_step(z) == Step::Emit(t, n + 1));
            assert(0 < n <= s.len());
            assert(z.skip(n + 1) =~= s.skip(n));
        },
        Step::Fail(e) => {
            assert(number_step(z) == Step::Fail(e));
        },
        Step::Skip(n) => {},
    }
}

/// Tells whether every character of `d` is a digit.
pub open spec fn all_digits(d: Seq<char>) -> bool {
    forall|i: int| 0 <= i < d.len() ==> is_digit(#[trigger] d[i])
}

/// The value that a text stands for: its tokens, read as one value.
pub open spec fn value_of(src: Seq<char>) -> Result<ValueView, ParseErrorView> {
    match tokenized(src) {
        Ok(tokens) => parse_value(tokens).result,
        Err(e) => Err(ParseErrorView::Lex(e)),
    }
}

/// A text that is one token from its first character to its last gives
/// that token and no other.
pub proof fn lemma_single_token(s: Seq<char>, t: TokenView)
    requires
        s.len() > 0,
        next_step(s) == Step::Emit(t, s.len() as int),
    ensures
        lex(s, Seq::empty()) == Ok::<Seq<TokenView>, LexErrorView>(seq![t]),
{
    let end = s.skip(s.len() as int);
    assert(end.len() == 0);
    assert(emit(Seq::empty(), t) =~= seq![t]);
    assert(lex(end, seq![t]) == Ok::<Seq<TokenView>, LexErrorView>(seq![t]));
}

/// A scalar token alone is read as its scalar value, and nothing is left.
pub proof fn lemma_scalar_token(t: TokenView)
    requires
        t.scalar_kind() is Some,
    ensures
        parse_value(seq![t]).result == Ok::<ValueView, ParseErrorView>(scalar_of(t)),
        parse_value(seq![t]).rest.len() == 0,
{
    assert(seq![t][0] == t);
}

/// What stands at the front of a text that is a number and nothing else:
/// digits, then a point and further digits or neither, then a suffix
/// letter or none.
pub proof fn lemma_number_literal(
    whole: Seq<char>,
    dotted: bool,
    fraction: Seq<char>,
    suffix: Option<char>,
)
    requires
        whole.len() > 0,
        all_digits(whole),
        all_digits(fraction),
        !dotted ==> fraction.len() == 0,
        suffix matches Some(c) ==> suffix_kind(c) is Some,
    ensures
        ({
            let text = literal_text(whole, dotted, fraction);
            let s = match suffix {
                Some(c) => text.push(c),
                None => text,
            };
            let kind = match suffix {
                Some(c) => suffix_kind(c)->0,
                None => if dotted {
                    ScalarKind::Float
                } else {
                    ScalarKind::Integer
                },
            };
            &&& next_step(s) == number_of(
                kind,
                digits_value(whole),
                dotted,
                text,
                s.len() as int,
            )
            &&& vstd::utf8::is_ascii_chars(s)
        }),
{
    let p = |c: char| is_digit(c);
    let text = literal_text(whole, dotted, fraction);
    let s = match suffix {
        Some(c) => text.push(c),
        None => text,
    };
    let a = whole.len() as int;
    assert forall|j: int| 0 <= j < a implies p(#[trigger] s[j]) by {
        assert(s[j] == whole[j]);
    }
    assert(s[0] == whole[0]);
    if a < s.len() {
        assert(!is_digit(s[a]));
    }
    lemma_span_is(s, p, a);
    assert(s.take(a) =~= whole);
    if dotted {
        let tail = s.skip(a + 1);
        let b = fraction.len() as int;
        assert forall|j: int| 0 <= j < b implies p(#[trigger] tail[j]) by {
            assert(tail[j] == fraction[j]);
        }
        if b < tail.len() {
            assert(tail[b] == suffix->0);
        }
        lemma_span_is(tail, p, b);
        assert(s.subrange(a + 1, a + 1 + b) =~= fraction);
    }
    assert forall|i: int| 0 <= i < s.len() implies '\0' <= #[trigger] s[i] <= '\u{7f}' by {
        if i < a {
            assert(s[i] == whole[i]);
        } else if dotted && a < i <= a + fraction.len() {
            assert(s[i] == fraction[i - a - 1]);
        }
    }
}

/// A signed integer literal, with its suffix or without, is read as the
/// integer that its digits denote: `500` and `400i` give `Integer(500)`
/// and `Integer(400)`.
pub proof fn lemma_integer_literal(digits: Seq<char>)
    requires
        digits.len() > 0,
        all_digits(digits),
        digits_value(digits) <= i64::MAX,
    ensures
        value_of(digits) == Ok::<ValueView, ParseErrorView>(
            ValueView::Integer(digits_value(digits) as i64),
        ),
        value_of(digits.push('i')) == value_of(digits),
        value_of(digits.push('I')) == value_of(digits),
{
    let t = TokenView::Integer(digits_value(digits) as i64);
    lemma_number_literal(digits, false, Seq::empty(), None);
    lemma_single_token(digits, t);
    lemma_number_literal(digits, false, Seq::empty(), Some('i'));
    lemma_single_token(digits.push('i'), t);
    lemma_number_literal(digits, false, Seq::empty(), Some('I'));
    lemma_single_token(digits.push('I'), t);
    lemma_scalar_token(t);
}

/// An unsigned integer literal is read as the number that its digits
/// denote: `300u` gives `Unsigned(300)`.
pub proof fn lemma_unsigned_literal(digits: Seq<char>)
    requires
        digits.len() > 0,
        all_digits(digits),
        digits_value(digits) <= u64::MAX,
    ensures
        value_of(digits.push('u')) == Ok::<ValueView, ParseErrorView>(
            ValueView::Unsigned(digits_value(digits) as u64),
        ),
        value_of(digits.push('U')) == value_of(digits.push('u')),
{
    let t = TokenView::Unsigned(digits_value(digits) as u64);
    lemma_number_literal(digits, false, Seq::empty(), Some('u'));
    lemma_single_token(digits.push('u'), t);
    lemma_number_literal(digits, false, Seq::empty(), Some('U'));
    lemma_single_token(digits.push('U'), t);
    lemma_scalar_token(t);
}

/// A float literal is read as a float that keeps its digits: `0.67` gives
/// the float written `0.67`, and `200f` the float written `200`.
pub proof fn lemma_float_literal(whole: Seq<char>, fraction: Seq<char>)
    requires
        whole.len() > 0,
        all_digits(whole),
        all_digits(fraction),
    ensures
        value_of(whole + seq!['.'] + fraction) == Ok::<ValueView, ParseErrorView>(
            ValueView::Float(whole + seq!['.'] + fraction),
        ),
        value_of(whole.push('f')) == Ok::<ValueView, ParseErrorView>(
            ValueView::Float(whole),
        ),
        value_of((whole + seq!['.'] + fraction).push('f')) == value_of(
            whole + seq!['.'] + fraction,
        ),
{
    let text = whole + seq!['.'] + fraction;
    lemma_number_literal(whole, true, fraction, None);
    lemma_single_token(text, TokenView::Float(text));
    lemma_scalar_token(TokenView::Float(text));
    lemma_number_literal(whole, true, fraction, Some('f'));
    lemma_single_token(text.push('f'), TokenView::Float(text));
    lemma_number_literal(whole, false, Seq::empty(), Some('f'));
    lemma_single_token(whole.push('f'), TokenView::Float(whole));
    lemma_scalar_token(TokenView::Float(whole));
}

/// A string literal is read as the string between its quotes.
pub proof fn lemma_string_value(text: Seq<char>)
    requires
        vstd::utf8::is_ascii_chars(text),
        forall|i: int| 0 <= i < text.len() ==> #[trigger] text[i] != '"',
    ensures
        value_of(quoted(text)) == Ok::<ValueView, ParseErrorView>(
            ValueView::String(text),
        ),
{
    let s = quoted(text);
    lemma_string_literal(text, Seq::empty());
    assert(s + Seq::<char>::empty() =~= s);
    lemma_single_token(s, TokenView::String(text));
    lemma_scalar_token(TokenView::String(text));
    assert forall|i: int| 0 <= i < s.len() implies '\0' <= #[trigger] s[i] <= '\u{7f}' by {
        if 0 < i <= text.len() {
            assert(s[i] == text[i - 1]);
        }
    }
}

} // verus!
