//! The values that a key can hold, and the part of the grammar that reads
//! them from a token stream.
use crate::decimal::Decimal;
use crate::error::{outcome, ParseError};
use crate::grammar;
use crate::key::{key_view, Key, KeyView};
use crate::lexer::{FromLexer, Lexer};
use crate::parser::parse_value;
use crate::render::{value_text, value_to_string};
use vstd::prelude::*;

verus! {

/// Possible values a [`Key`] can contain.
#[derive(Debug, PartialEq)]
pub enum KeyValue {
    String(String),
    Integer(i64),
    Unsigned(u64),
    Float(Decimal),
    StringArray(Vec<String>),
    IntegerArray(Vec<i64>),
    UnsignedArray(Vec<u64>),
    FloatArray(Vec<Decimal>),
    Tuple(Vec<KeyValue>),
    Table(Vec<Key>),
}

/// A value as a mathematical tree: texts and lists are sequences.
pub ghost enum ValueView {
    String(Seq<char>),
    Integer(i64),
    Unsigned(u64),
    Float(Seq<char>),
    StringArray(Seq<Seq<char>>),
    IntegerArray(Seq<i64>),
    UnsignedArray(Seq<u64>),
    FloatArray(Seq<Seq<char>>),
    Tuple(Seq<ValueView>),
    Table(Seq<KeyView>),
}

/// The mathematical tree that a value stands for.
pub open spec fn value_view(v: KeyValue) -> ValueView
    decreases v,
{
    match v {
        KeyValue::String(s) => ValueView::String(s@),
        KeyValue::Integer(i) => ValueView::Integer(i),
        KeyValue::Unsigned(u) => ValueView::Unsigned(u),
        KeyValue::Float(d) => ValueView::Float(d@),
        KeyValue::StringArray(a) => ValueView::StringArray(a@.map_values(|s: String| s@)),
        KeyValue::IntegerArray(a) => ValueView::IntegerArray(a@),
        KeyValue::UnsignedArray(a) => ValueView::UnsignedArray(a@),
        KeyValue::FloatArray(a) => ValueView::FloatArray(a@.map_values(|d: Decimal| d@)),
        KeyValue::Tuple(t) => ValueView::Tuple(
            Seq::new(
                t@.len(),
                |i: int|
                    if 0 <= i < t@.len() {
                        value_view(t[i])
                    } else {
                        arbitrary()
                    },
            ),
        ),
        KeyValue::Table(t) => ValueView::Table(
            Seq::new(
                t@.len(),
                |i: int|
                    if 0 <= i < t@.len() {
                        key_view(t[i])
                    } else {
                        arbitrary()
                    },
            ),
        ),
    }
}

impl View for KeyValue {
    type V = ValueView;

    open spec fn view(&self) -> ValueView {
        value_view(*self)
    }
}

/// The views of a list of values, in order.
pub open spec fn values_view(v: Seq<KeyValue>) -> Seq<ValueView> {
    Seq::new(v.len(), |i: int| v[i]@)
}

/// The views of a list of keys, in order.
pub open spec fn keys_view(v: Seq<Key>) -> Seq<KeyView> {
    Seq::new(v.len(), |i: int| v[i]@)
}

/// The view of a tuple is the tuple of the views.
pub proof fn lemma_tuple_view(t: Vec<KeyValue>)
    ensures
        KeyValue::Tuple(t)@ == ValueView::Tuple(values_view(t@)),
{
    assert(KeyValue::Tuple(t)@->Tuple_0 =~= values_view(t@));
}

/// The view of a table is the table of the views.
pub proof fn lemma_table_view(t: Vec<Key>)
    ensures
        KeyValue::Table(t)@ == ValueView::Table(keys_view(t@)),
{
    assert(KeyValue::Table(t)@->Table_0 =~= keys_view(t@));
}

/// Copies a value.
pub(crate) fn clone_value(v: &KeyValue) -> (r: KeyValue)
    ensures
        r@ == v@,
    decreases v,
{
    match v {
        KeyValue::String(s) => KeyValue::String(s.clone()),
        KeyValue::Integer(i) => KeyValue::Integer(*i),
        KeyValue::Unsigned(u) => KeyValue::Unsigned(*u),
        KeyValue::Float(d) => KeyValue::Float(d.clone()),
        KeyValue::StringArray(a) => {
            let mut out: Vec<String> = Vec::new();
            let mut i: usize = 0;
            while i < a.len()
                invariant
                    i <= a.len(),
                    out.len() == i,
                    forall|j: int| 0 <= j < i ==> (#[trigger] out[j])@ == a[j]@,
                decreases a.len() - i,
            {
                out.push(a[i].clone());
                i += 1;
            }
            assert(out@.map_values(|s: String| s@) =~= a@.map_values(|s: String| s@));
            KeyValue::StringArray(out)
        },
        KeyValue::IntegerArray(a) => {
            let mut out: Vec<i64> = Vec::new();
            let mut i: usize = 0;
            while i < a.len()
                invariant
                    i <= a.len(),
                    out@ == a@.take(i as int),
                decreases a.len() - i,
            {
                out.push(a[i]);
                assert(a@.take(i + 1) =~= a@.take(i as int).push(a[i as int]));
                i += 1;
            }
            assert(a@.take(a.len() as int) =~= a@);
            KeyValue::IntegerArray(out)
        },
        KeyValue::UnsignedArray(a) => {
            let mut out: Vec<u64> = Vec::new();
            let mut i: usize = 0;
            while i < a.len()
                invariant
                    i <= a.len(),
                    out@ == a@.take(i as int),
                decreases a.len() - i,
            {
                out.push(a[i]);
                assert(a@.take(i + 1) =~= a@.take(i as int).push(a[i as int]));
                i += 1;
            }
            assert(a@.take(a.len() as int) =~= a@);
            KeyValue::UnsignedArray(out)
        },
        KeyValue::FloatArray(a) => {
            let mut out: Vec<Decimal> = Vec::new();
            let mut i: usize = 0;
            while i < a.len()
                invariant
                    i <= a.len(),
                    out.len() == i,
                    forall|j: int| 0 <= j < i ==> (#[trigger] out[j])@ == a[j]@,
                decreases a.len() - i,
            {
                out.push(a[i].clone());
                i += 1;
            }
            assert(out@.map_values(|d: Decimal| d@) =~= a@.map_values(|d: Decimal| d@));
            KeyValue::FloatArray(out)
        },
        KeyValue::Tuple(t) => {
            let out = clone_values(t);
            proof {
                lemma_tuple_view(out);
                lemma_tuple_view(*t);
            }
            KeyValue::Tuple(out)
        },
        KeyValue::Table(t) => {
            let out = clone_keys(t);
            proof {
                lemma_table_view(out);
                lemma_table_view(*t);
            }
            KeyValue::Table(out)
        },
    }
}

/// Copies a list of values.
pub(crate) fn clone_values(values: &Vec<KeyValue>) -> (r: Vec<KeyValue>)
    ensures
        values_view(r@) == values_view(values@),
    decreases values,
{
    let mut out: Vec<KeyValue> = Vec::new();
    let mut i: usize = 0;
    while i < values.len()
        invariant
            i <= values.len(),
            out.len() == i,
            forall|j: int| 0 <= j < i ==> (#[trigger] out[j])@ == values[j]@,
        decreases values.len() - i,
    {
        out.push(clone_value(&values[i]));
        i += 1;
    }
    assert(values_view(out@) =~= values_view(values@));
    out
}

/// Copies a key.
pub(crate) fn clone_key(k: &Key) -> (r: Key)
    ensures
        r@ == k@,
    decreases k,
{
    Key { m_name: k.m_name.clone(), value: clone_value(&k.value) }
}

/// Copies a list of keys.
pub(crate) fn clone_keys(keys: &Vec<Key>) -> (r: Vec<Key>)
    ensures
        keys_view(r@) == keys_view(keys@),
    decreases keys,
{
    let mut out: Vec<Key> = Vec::new();
    let mut i: usize = 0;
    while i < keys.len()
        invariant
            i <= keys.len(),
            out.len() == i,
            forall|j: int| 0 <= j < i ==> (#[trigger] out[j])@ == keys[j]@,
        decreases keys.len() - i,
    {
        out.push(clone_key(&keys[i]));
        i += 1;
    }
    assert(keys_view(out@) =~= keys_view(keys@));
    out
}

impl Clone for KeyValue {
    fn clone(&self) -> (r: Self)
        ensures
            r@ == self@,
    {
        clone_value(self)
    }
}

impl FromLexer for KeyValue {
    /// Reads one value from the front of the stream.
    fn from_lexer(lexer: &mut Lexer) -> (r: Result<Self, ParseError>)
        ensures
            outcome(r) == grammar::parse_value(old(lexer)@).result,
            final(lexer)@ == grammar::parse_value(old(lexer)@).rest,
    {
        parse_value(lexer)
    }
}

impl KeyValue {
    /// The value as it is written in a text.
    pub fn to_string(&self) -> (r: String)
        ensures
            r@ == value_text(self@),
    {
        value_to_string(self)
    }
}

impl Default for KeyValue {
    fn default() -> (v: Self)
        ensures
            v@ == ValueView::String(Seq::<char>::empty()),
    {
        Self::String(String::new())
    }
}

} // verus!
