//! A key: a name and the value that goes by it.
use crate::error::{outcome, ParseError};
use crate::grammar;
use crate::grammar::key_names;
use crate::key_value::{clone_key, keys_view, value_view, KeyValue, ValueView};
use crate::lexer::{FromLexer, Lexer};
use crate::name::{
    as_valid_name, is_valid_name, lemma_position_is, lemma_sanitized_is_valid, lemma_trimmed_blank, position_of, sanitized,
    valid_name,
};
use crate::parser::parse_key;
use crate::render::{key_text, key_to_string};
use crate::text::{eq_ignore_case, same_ignore_case};
use vstd::prelude::*;

verus! {

/// A key-value pair containing a string name and a [`KeyValue`]
#[derive(Debug, PartialEq)]
pub struct Key {
    pub(crate) m_name: String,
    /// The value of the key.
    pub value: KeyValue,
}

/// A key as a mathematical value.
pub ghost struct KeyView {
    pub name: Seq<char>,
    pub value: ValueView,
}

/// The mathematical value that a key stands for.
pub open(crate) spec fn key_view(k: Key) -> KeyView
    decreases k,
{
    KeyView { name: k.m_name@, value: value_view(k.value) }
}

impl View for Key {
    type V = KeyView;

    open(crate) spec fn view(&self) -> KeyView {
        key_view(*self)
    }
}

impl Clone for Key {
    fn clone(&self) -> (r: Self)
        ensures
            r@ == self@,
    {
        clone_key(self)
    }
}

impl FromLexer for Key {
    /// Reads one key from the front of the stream: a name, the equals sign
    /// and a value.
    fn from_lexer(lexer: &mut Lexer) -> (r: Result<Self, ParseError>)
        ensures
            outcome(r) == grammar::parse_key(old(lexer)@).result,
            final(lexer)@ == grammar::parse_key(old(lexer)@).rest,
    {
        parse_key(lexer)
    }
}

impl Default for Key {
    fn default() -> (k: Self)
        ensures
            k@.name == seq!['_'],
            k@.value == ValueView::String(Seq::<char>::empty()),
    {
        let k = Self { m_name: as_valid_name("", '_'), value: KeyValue::String(String::new()) };
        proof {
            reveal_strlit("");
            lemma_trimmed_blank(""@);
        }
        k
    }
}

impl Key {
    /// Creates a new key with the given name and value. The name is made
    /// valid first.
    pub fn new(name: &str, value: KeyValue) -> (k: Self)
        ensures
            k@.name == sanitized(name@, '_'),
            k@.value == value@,
            valid_name(k@.name),
    {
        proof {
            lemma_sanitized_is_valid(name@, '_');
        }
        Self { m_name: as_valid_name(name, '_'), value }
    }

    /// Returns the name of the key.
    pub fn name(&self) -> (n: &String)
        ensures
            n@ == self@.name,
    {
        &self.m_name
    }

    /// Renames the key. The given name may be modified to be valid.
    pub fn rename(&mut self, name: &str)
        ensures
            final(self)@.name == sanitized(name@, '_'),
            final(self)@.value == old(self)@.value,
            valid_name(final(self)@.name),
    {
        proof {
            lemma_sanitized_is_valid(name@, '_');
        }
        self.m_name = as_valid_name(name, '_');
    }

    /// The key as it is written in a text: its name, the equals sign and
    /// its value.
    pub fn to_string(&self) -> (r: String)
        ensures
            r@ == key_text(self@),
    {
        key_to_string(self)
    }

    /// If the key is valid.
    pub fn is_valid(&self) -> (r: bool)
        ensures
            r == valid_name(self@.name),
    {
        is_valid_name(self.m_name.as_str())
    }
}

/// Finds the first key that goes by `name`, whatever the case of the
/// letters.
pub(crate) fn index_of_key(keys: &Vec<Key>, name: &str) -> (r: Option<usize>)
    ensures
        match r {
            Some(i) => i < keys.len() && i == position_of(key_names(keys_view(keys@)), name@),
            None => position_of(key_names(keys_view(keys@)), name@) == keys.len(),
        },
{
    let ghost names = key_names(keys_view(keys@));
    let mut i: usize = 0;
    while i < keys.len()
        invariant
            i <= keys.len(),
            names == key_names(keys_view(keys@)),
            forall|k: int| 0 <= k < i ==> !eq_ignore_case(#[trigger] names[k], name@),
        decreases keys.len() - i,
    {
        if same_ignore_case(keys[i].name().as_str(), name) {
            proof {
                lemma_position_is(names, name@, i as int);
            }
            return Some(i);
        }
        i += 1;
    }
    proof {
        lemma_position_is(names, name@, keys.len() as int);
    }
    None
}

} // verus!
