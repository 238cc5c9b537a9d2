//! A section: a name and the keys that stand under it.
use crate::error::{outcome, ParseError};
use crate::grammar;
use crate::grammar::{key_names, SectionView};
use crate::key::{index_of_key, Key, KeyView};
use crate::key_value::{clone_key, clone_keys, keys_view};
use crate::lexer::{FromLexer, Lexer};
use crate::name::{
    as_valid_name, distinct_names, is_valid_name, lemma_insert_distinct, lemma_position_of,
    lemma_remove_distinct, lemma_sanitized_is_valid, lemma_trimmed_blank, position_of, sanitized,
    valid_name,
};
use crate::parser::parse_section;
use crate::render::{section_text, section_to_string};
use vstd::prelude::*;

verus! {

/// A named list of keys.
#[derive(Debug, PartialEq)]
pub struct Section {
    pub(crate) m_name: String,
    pub(crate) m_keys: Vec<Key>,
}

impl View for Section {
    type V = SectionView;

    open(crate) spec fn view(&self) -> SectionView {
        SectionView { name: self.m_name@, keys: keys_view(self.m_keys@) }
    }
}

impl Default for Section {
    fn default() -> (s: Self)
        ensures
            s@.name == seq!['_'],
            s@.keys == Seq::<KeyView>::empty(),
    {
        let s = Self { m_name: as_valid_name("", '_'), m_keys: Vec::new() };
        proof {
            reveal_strlit("");
            lemma_trimmed_blank(""@);
            assert(s@.keys =~= Seq::<KeyView>::empty());
        }
        s
    }
}

impl Clone for Section {
    fn clone(&self) -> (s: Self)
        ensures
            s@ == self@,
    {
        Self { m_name: self.m_name.clone(), m_keys: clone_keys(&self.m_keys) }
    }
}

impl FromLexer for Section {
    /// Reads one section from the front of the stream: its header, then
    /// keys up to the next header or the end of the stream.
    fn from_lexer(lexer: &mut Lexer) -> (r: Result<Self, ParseError>)
        ensures
            outcome(r) == grammar::parse_section(old(lexer)@).result,
            final(lexer)@ == grammar::parse_section(old(lexer)@).rest,
    {
        parse_section(lexer)
    }
}

impl Section {
    /// Returns a new Section with the given name and keys. The name is made
    /// valid; the keys are taken as they are.
    pub fn new(name: &str, keys: &[Key]) -> (s: Self)
        ensures
            s@.name == sanitized(name@, '_'),
            s@.keys == keys_view(keys@),
            valid_name(s@.name),
    {
        proof {
            lemma_sanitized_is_valid(name@, '_');
        }
        let mut copy: Vec<Key> = Vec::new();
        let mut i: usize = 0;
        while i < keys.len()
            invariant
                i <= keys.len(),
                copy.len() == i,
                forall|j: int| 0 <= j < i ==> (#[trigger] copy[j])@ == keys[j]@,
            decreases keys.len() - i,
        {
            copy.push(clone_key(&keys[i]));
            i += 1;
        }
        assert(keys_view(copy@) =~= keys_view(keys@));
        Self { m_name: as_valid_name(name, '_'), m_keys: copy }
    }

    /// Returns a reference to the sections' name.
    pub fn name(&self) -> (n: &String)
        ensures
            n@ == self@.name,
    {
        &self.m_name
    }

    /// Renames the section. The name is made valid first.
    pub fn rename(&mut self, name: &str)
        ensures
            final(self)@.name == sanitized(name@, '_'),
            final(self)@.keys == old(self)@.keys,
            valid_name(final(self)@.name),
    {
        proof {
            lemma_sanitized_is_valid(name@, '_');
        }
        self.m_name = as_valid_name(name, '_');
    }

    /// The section as it is written in a text: its header, then its keys,
    /// one to a line.
    pub fn to_string(&self) -> (r: String)
        ensures
            r@ == section_text(self@),
    {
        section_to_string(self)
    }

    /// Returns an iterator over the contained keys, in order.
    pub fn iter(&self) -> (it: std::slice::Iter<'_, Key>)
        ensures
            keys_view(vstd::std_specs::slice::into_iter_elts(it)) == self@.keys,
            vstd::std_specs::iter::IteratorSpec::decrease(&it) is Some,
            vstd::std_specs::iter::IteratorSpec::initial_value_relation(&it, &it),
    {
        let it = self.m_keys.iter();
        proof {
            broadcast use vstd::std_specs::slice::axiom_spec_slice_iter;

            assert(vstd::std_specs::slice::into_iter_elts(it) =~= self.m_keys@);
        }
        it
    }

    /// If the section is empty, containing no keys.
    pub fn is_empty(&self) -> (r: bool)
        ensures
            r == (self@.keys.len() == 0),
    {
        self.m_keys.len() == 0
    }

    /// The amount of keys the section contains.
    pub fn len(&self) -> (n: usize)
        ensures
            n == self@.keys.len(),
    {
        self.m_keys.len()
    }

    /// If the section is valid: if its name is a valid name.
    pub fn is_valid(&self) -> (r: bool)
        ensures
            r == valid_name(self@.name),
    {
        is_valid_name(self.m_name.as_str())
    }

    /// Returns the index of the first key with the given name, whatever the
    /// case of its letters, if there is one.
    pub fn index_of(&self, key: &str) -> (r: Option<usize>)
        ensures
            match r {
                Some(i) => i < self@.keys.len() && i == position_of(key_names(self@.keys), key@),
                None => position_of(key_names(self@.keys), key@) == self@.keys.len(),
            },
    {
        index_of_key(&self.m_keys, key)
    }

    /// Returns true if the section contains a key with the given name,
    /// otherwise false.
    pub fn contains(&self, key: &str) -> (r: bool)
        ensures
            r == grammar::has_key(self@.keys, key@),
    {
        let r = self.index_of(key);
        proof {
            lemma_position_of(key_names(self@.keys), key@);
        }
        r.is_some()
    }

    /// Returns the first key with the given name, whatever the case of its
    /// letters, if there is one.
    pub fn get(&self, key: &str) -> (r: Option<&Key>)
        ensures
            match r {
                Some(k) => position_of(key_names(self@.keys), key@) < self@.keys.len() && k@
                    == self@.keys[position_of(key_names(self@.keys), key@)],
                None => position_of(key_names(self@.keys), key@) == self@.keys.len(),
            },
    {
        match self.index_of(key) {
            Some(i) => Some(&self.m_keys[i]),
            None => None,
        }
    }

    /// Returns the key at the given index, or `None` if the index is out of
    /// range.
    pub fn get_at(&self, index: usize) -> (r: Option<&Key>)
        ensures
            match r {
                Some(k) => index < self@.keys.len() && k@ == self@.keys[index as int],
                None => index >= self@.keys.len(),
            },
    {
        if index >= self.m_keys.len() {
            None
        } else {
            Some(&self.m_keys[index])
        }
    }

    /// Returns the key at the given index for changing, or `None` if the
    /// index is out of range. What the caller makes of the key takes its
    /// place in the section.
    pub fn get_at_mut(&mut self, index: usize) -> (r: Option<&mut Key>)
        ensures
            match r {
                Some(k) => {
                    &&& index < old(self)@.keys.len()
                    &&& k@ == old(self)@.keys[index as int]
                    &&& final(self)@.name == old(self)@.name
                    &&& final(self)@.keys == old(self)@.keys.update(index as int, final(k)@)
                },
                None => index >= old(self)@.keys.len() && final(self)@ == old(self)@,
            },
    {
        if index >= self.m_keys.len() {
            None
        } else {
            let k = &mut self.m_keys[index];
            proof {
                assert(keys_view(old(self).m_keys@.update(index as int, *final(k)))
                    =~= old(self)@.keys.update(index as int, final(k)@));
            }
            Some(k)
        }
    }

    /// Returns the first key with the given name for changing, if there is
    /// one. What the caller makes of the key takes its place in the section.
    pub fn get_mut(&mut self, key: &str) -> (r: Option<&mut Key>)
        ensures
            match r {
                Some(k) => {
                    let at = position_of(key_names(old(self)@.keys), key@);
                    &&& at < old(self)@.keys.len()
                    &&& k@ == old(self)@.keys[at]
                    &&& final(self)@.name == old(self)@.name
                    &&& final(self)@.keys == old(self)@.keys.update(at, final(k)@)
                },
                None => position_of(key_names(old(self)@.keys), key@) == old(self)@.keys.len()
                    && final(self)@ == old(self)@,
            },
    {
        match self.index_of(key) {
            Some(i) => self.get_at_mut(i),
            None => None,
        }
    }

    /// Adds a new key to the end of the section. Returns true on success or
    /// false if the key is not valid or the section already contains a key
    /// with the same name; the section is then left as it was.
    pub fn push(&mut self, key: Key) -> (r: bool)
        ensures
            r == (valid_name(key@.name) && !grammar::has_key(old(self)@.keys, key@.name)),
            final(self)@.name == old(self)@.name,
            final(self)@.keys == if r {
                old(self)@.keys.push(key@)
            } else {
                old(self)@.keys
            },
            distinct_names(key_names(old(self)@.keys)) ==> distinct_names(
                key_names(final(self)@.keys),
            ),
    {
        if !key.is_valid() || self.contains(key.name().as_str()) {
            return false;
        }
        self.m_keys.push(key);
        proof {
            let before = key_names(old(self)@.keys);
            assert(self@.keys =~= old(self)@.keys.push(key@));
            assert(key_names(self@.keys) =~= before.insert(before.len() as int, key@.name));
            if distinct_names(before) {
                lemma_insert_distinct(before, before.len() as int, key@.name);
            }
        }
        true
    }

    /// Inserts a new key at the given index. Returns true on success or
    /// false if the index is not that of a key, the key is not valid or the
    /// section already contains a key with the same name; the section is
    /// then left as it was.
    pub fn insert(&mut self, index: usize, key: Key) -> (r: bool)
        ensures
            r == (index < old(self)@.keys.len() && valid_name(key@.name) && !grammar::has_key(
                old(self)@.keys,
                key@.name,
            )),
            final(self)@.name == old(self)@.name,
            final(self)@.keys == if r {
                old(self)@.keys.insert(index as int, key@)
            } else {
                old(self)@.keys
            },
            distinct_names(key_names(old(self)@.keys)) ==> distinct_names(
                key_names(final(self)@.keys),
            ),
    {
        if index >= self.m_keys.len() || !key.is_valid() || self.contains(key.name().as_str()) {
            return false;
        }
        self.m_keys.insert(index, key);
        proof {
            let before = key_names(old(self)@.keys);
            assert(self@.keys =~= old(self)@.keys.insert(index as int, key@));
            assert(key_names(self@.keys) =~= before.insert(index as int, key@.name));
            if distinct_names(before) {
                lemma_insert_distinct(before, index as int, key@.name);
            }
        }
        true
    }

    /// Removes the first key with the given name and returns true; returns
    /// false, and changes nothing, if there is no such key.
    pub fn remove(&mut self, key: &str) -> (r: bool)
        ensures
            r == grammar::has_key(old(self)@.keys, key@),
            final(self)@.name == old(self)@.name,
            final(self)@.keys == if r {
                old(self)@.keys.remove(position_of(key_names(old(self)@.keys), key@))
            } else {
                old(self)@.keys
            },
            distinct_names(key_names(old(self)@.keys)) ==> distinct_names(
                key_names(final(self)@.keys),
            ),
    {
        proof {
            lemma_position_of(key_names(self@.keys), key@);
        }
        match self.index_of(key) {
            Some(index) => {
                self.remove_at(index);
                true
            },
            None => false,
        }
    }

    /// Removes the key at the given index from the section. Changes nothing
    /// if the index is out of range.
    pub fn remove_at(&mut self, index: usize)
        ensures
            final(self)@.name == old(self)@.name,
            final(self)@.keys == if index < old(self)@.keys.len() {
                old(self)@.keys.remove(index as int)
            } else {
                old(self)@.keys
            },
            distinct_names(key_names(old(self)@.keys)) ==> distinct_names(
                key_names(final(self)@.keys),
            ),
    {
        if index >= self.m_keys.len() {
            return;
        }
        self.m_keys.remove(index);
        proof {
            let before = key_names(old(self)@.keys);
            assert(self@.keys =~= old(self)@.keys.remove(index as int));
            assert(key_names(self@.keys) =~= before.remove(index as int));
            if distinct_names(before) {
                lemma_remove_distinct(before, index as int);
            }
        }
    }

    /// Clears the section, removing all keys.
    pub fn clear(&mut self)
        ensures
            final(self)@.name == old(self)@.name,
            final(self)@.keys == Seq::<KeyView>::empty(),
    {
        self.m_keys.clear();
        assert(self@.keys =~= Seq::<KeyView>::empty());
    }
}

} // verus!
