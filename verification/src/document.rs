//! A document: sections, in the order in which they were written.
use crate::error::{outcome, ParseError, ParseErrorView};
use crate::grammar;
use crate::grammar::{section_names, well_formed_document, SectionView};
use crate::lexer::{tokenize, FromLexer, Lexer};
use crate::name::{
    distinct_names, lemma_insert_distinct, lemma_position_is, lemma_position_of,
    lemma_remove_distinct, position_of, valid_name,
};
use crate::parser::parse_document;
use crate::render::{document_text, sections_to_string};
use crate::section::Section;
use crate::text::{eq_ignore_case, same_ignore_case};
use crate::tokenizer::tokenized;
use vstd::prelude::*;

verus! {

/// A list of sections.
#[derive(Debug, PartialEq)]
pub struct Document {
    pub(crate) m_sections: Vec<Section>,
}

/// The views of a list of sections, in order.
pub open spec fn sections_view(v: Seq<Section>) -> Seq<SectionView> {
    Seq::new(v.len(), |i: int| v[i]@)
}

impl View for Document {
    type V = Seq<SectionView>;

    open(crate) spec fn view(&self) -> Seq<SectionView> {
        sections_view(self.m_sections@)
    }
}

/// The document that a text stands for: its tokens, read as sections.
pub open spec fn document_of(src: Seq<char>) -> Result<Seq<SectionView>, ParseErrorView> {
    match tokenized(src) {
        Ok(tokens) => grammar::parse_document(tokens).result,
        Err(e) => Err(ParseErrorView::Lex(e)),
    }
}

/// Copies a list of sections.
pub(crate) fn clone_sections(sections: &[Section]) -> (r: Vec<Section>)
    ensures
        sections_view(r@) == sections_view(sections@),
{
    let mut out: Vec<Section> = Vec::new();
    let mut i: usize = 0;
    while i < sections.len()
        invariant
            i <= sections.len(),
            out.len() == i,
            forall|j: int| 0 <= j < i ==> (#[trigger] out[j])@ == sections[j]@,
        decreases sections.len() - i,
    {
        out.push(sections[i].clone());
        i += 1;
    }
    assert(sections_view(out@) =~= sections_view(sections@));
    out
}

/// Finds the first section that goes by `name`, whatever the case of the
/// letters.
pub(crate) fn index_of_section(sections: &Vec<Section>, name: &str) -> (r: Option<usize>)
    ensures
        match r {
            Some(i) => i < sections.len() && i == position_of(
                section_names(sections_view(sections@)),
                name@,
            ),
            None => position_of(section_names(sections_view(sections@)), name@) == sections.len(),
        },
{
    let ghost names = section_names(sections_view(sections@));
    let mut i: usize = 0;
    while i < sections.len()
        invariant
            i <= sections.len(),
            names == section_names(sections_view(sections@)),
            forall|k: int| 0 <= k < i ==> !eq_ignore_case(#[trigger] names[k], name@),
        decreases sections.len() - i,
    {
        if same_ignore_case(sections[i].name().as_str(), name) {
            proof {
                lemma_position_is(names, name@, i as int);
            }
            return Some(i);
        }
        i += 1;
    }
    proof {
        lemma_position_is(names, name@, sections.len() as int);
    }
    None
}

impl Default for Document {
    fn default() -> (d: Self)
        ensures
            d@ == Seq::<SectionView>::empty(),
    {
        let d = Self { m_sections: Vec::new() };
        assert(d@ =~= Seq::<SectionView>::empty());
        d
    }
}

impl Clone for Document {
    fn clone(&self) -> (d: Self)
        ensures
            d@ == self@,
    {
        Self { m_sections: clone_sections(self.m_sections.as_slice()) }
    }
}

impl FromLexer for Document {
    /// Reads sections until the stream is empty. Fails on an empty stream.
    fn from_lexer(lexer: &mut Lexer) -> (r: Result<Self, ParseError>)
        ensures
            outcome(r) == grammar::parse_document(old(lexer)@).result,
            final(lexer)@ == grammar::parse_document(old(lexer)@).rest,
    {
        parse_document(lexer)
    }
}

impl std::str::FromStr for Document {
    type Err = ParseError;

    /// Reads a document from a text.
    fn from_str(s: &str) -> (r: Result<Self, ParseError>)
        ensures
            outcome(r) == document_of(s@),
    {
        Document::read(s)
    }
}

impl Document {
    /// Creates and returns a new Document with the given sections, taken as
    /// they are.
    pub fn new(sections: &[Section]) -> (d: Self)
        ensures
            d@ == sections_view(sections@),
    {
        Self { m_sections: clone_sections(sections) }
    }

    /// Reads a document from a text: the text is turned into tokens, and
    /// the tokens into sections.
    pub fn from_str(s: &str) -> (r: Result<Self, ParseError>)
        ensures
            outcome(r) == document_of(s@),
            r matches Ok(document) ==> well_formed_document(document@),
    {
        Document::read(s)
    }

    /// Turns the text into tokens and the tokens into sections.
    fn read(s: &str) -> (r: Result<Self, ParseError>)
        ensures
            outcome(r) == document_of(s@),
            r matches Ok(document) ==> well_formed_document(document@),
    {
        match tokenize(s) {
            Ok(mut lexer) => parse_document(&mut lexer),
            Err(e) => Err(ParseError::Lex(e)),
        }
    }

    /// The document as it is written in a text: its sections, with an
    /// empty line behind each.
    pub fn to_string(&self) -> (r: String)
        ensures
            r@ == document_text(self@),
    {
        sections_to_string(&self.m_sections)
    }

    /// Returns an iterator over the contained sections, in order.
    pub fn iter(&self) -> (it: std::slice::Iter<'_, Section>)
        ensures
            sections_view(vstd::std_specs::slice::into_iter_elts(it)) == self@,
            vstd::std_specs::iter::IteratorSpec::decrease(&it) is Some,
            vstd::std_specs::iter::IteratorSpec::initial_value_relation(&it, &it),
    {
        let it = self.m_sections.iter();
        proof {
            broadcast use vstd::std_specs::slice::axiom_spec_slice_iter;

            assert(vstd::std_specs::slice::into_iter_elts(it) =~= self.m_sections@);
        }
        it
    }

    /// If the document is empty, containing no sections.
    pub fn is_empty(&self) -> (r: bool)
        ensures
            r == (self@.len() == 0),
    {
        self.m_sections.len() == 0
    }

    /// The amount of sections the document contains.
    pub fn len(&self) -> (n: usize)
        ensures
            n == self@.len(),
    {
        self.m_sections.len()
    }

    /// Returns the index of the first section with the given name, whatever
    /// the case of its letters, if there is one.
    pub fn index_of(&self, section: &str) -> (r: Option<usize>)
        ensures
            match r {
                Some(i) => i < self@.len() && i == position_of(section_names(self@), section@),
                None => position_of(section_names(self@), section@) == self@.len(),
            },
    {
        index_of_section(&self.m_sections, section)
    }

    /// Returns true if the document contains a section with the given name,
    /// otherwise false.
    pub fn contains(&self, section: &str) -> (r: bool)
        ensures
            r == grammar::has_section(self@, section@),
    {
        let r = self.index_of(section);
        proof {
            lemma_position_of(section_names(self@), section@);
        }
        r.is_some()
    }

    /// Returns the first section with the given name, whatever the case of
    /// its letters, if there is one.
    pub fn get(&self, section: &str) -> (r: Option<&Section>)
        ensures
            match r {
                Some(s) => position_of(section_names(self@), section@) < self@.len() && s@
                    == self@[position_of(section_names(self@), section@)],
                None => position_of(section_names(self@), section@) == self@.len(),
            },
    {
        match self.index_of(section) {
            Some(i) => Some(&self.m_sections[i]),
            None => None,
        }
    }

    /// Returns the section at the given index, or `None` if the index is
    /// out of range.
    pub fn get_at(&self, index: usize) -> (r: Option<&Section>)
        ensures
            match r {
                Some(s) => index < self@.len() && s@ == self@[index as int],
                None => index >= self@.len(),
            },
    {
        if index >= self.m_sections.len() {
            None
        } else {
            Some(&self.m_sections[index])
        }
    }

    /// Returns the section at the given index for changing, or `None` if
    /// the index is out of range. What the caller makes of the section takes
    /// its place in the document.
    pub fn get_at_mut(&mut self, index: usize) -> (r: Option<&mut Section>)
        ensures
            match r {
                Some(s) => {
                    &&& index < old(self)@.len()
                    &&& s@ == old(self)@[index as int]
                    &&& final(self)@ == old(self)@.update(index as int, final(s)@)
                },
                None => index >= old(self)@.len() && final(self)@ == old(self)@,
            },
    {
        if index >= self.m_sections.len() {
            None
        } else {
            let s = &mut self.m_sections[index];
            proof {
                assert(sections_view(old(self).m_sections@.update(index as int, *final(s)))
                    =~= old(self)@.update(index as int, final(s)@));
            }
            Some(s)
        }
    }

    /// Returns the first section with the given name for changing, if there
    /// is one. What the caller makes of the section takes its place in the
    /// document.
    pub fn get_mut(&mut self, section: &str) -> (r: Option<&mut Section>)
        ensures
            match r {
                Some(s) => {
                    let at = position_of(section_names(old(self)@), section@);
                    &&& at < old(self)@.len()
                    &&& s@ == old(self)@[at]
                    &&& final(self)@ == old(self)@.update(at, final(s)@)
                },
                None => position_of(section_names(old(self)@), section@) == old(self)@.len()
                    && final(self)@ == old(self)@,
            },
    {
        match self.index_of(section) {
            Some(i) => self.get_at_mut(i),
            None => None,
        }
    }

    /// Adds a new section to the end of the document. Returns true on
    /// success or false if the section is not valid or the document already
    /// contains a section with the same name; the document is then left as
    /// it was.
    pub fn push(&mut self, section: Section) -> (r: bool)
        ensures
            r == (valid_name(section@.name) && !grammar::has_section(old(self)@, section@.name)),
            final(self)@ == if r {
                old(self)@.push(section@)
            } else {
                old(self)@
            },
            distinct_names(section_names(old(self)@)) ==> distinct_names(
                section_names(final(self)@),
            ),
    {
        if !section.is_valid() || self.contains(section.name().as_str()) {
            return false;
        }
        self.m_sections.push(section);
        proof {
            let before = section_names(old(self)@);
            assert(self@ =~= old(self)@.push(section@));
            assert(section_names(self@) =~= before.insert(before.len() as int, section@.name));
            if distinct_names(before) {
                lemma_insert_distinct(before, before.len() as int, section@.name);
            }
        }
        true
    }

    /// Inserts a new section at the given index, which may be the number of
    /// sections. Returns true on success or false if the index is larger,
    /// the section is not valid or the document already contains a section
    /// with the same name; the document is then left as it was.
    pub fn insert(&mut self, index: usize, section: Section) -> (r: bool)
        ensures
            r == (index <= old(self)@.len() && valid_name(section@.name) && !grammar::has_section(
                old(self)@,
                section@.name,
            )),
            final(self)@ == if r {
                old(self)@.insert(index as int, section@)
            } else {
                old(self)@
            },
            distinct_names(section_names(old(self)@)) ==> distinct_names(
                section_names(final(self)@),
            ),
    {
        if index > self.m_sections.len() || !section.is_valid() || self.contains(
            section.name().as_str(),
        ) {
            return false;
        }
        self.m_sections.insert(index, section);
        proof {
            let before = section_names(old(self)@);
            assert(self@ =~= old(self)@.insert(index as int, section@));
            assert(section_names(self@) =~= before.insert(index as int, section@.name));
            if distinct_names(before) {
                lemma_insert_distinct(before, index as int, section@.name);
            }
        }
        true
    }

    /// Removes the first section with the given name and returns true;
    /// returns false, and changes nothing, if there is no such section.
    pub fn remove(&mut self, section: &str) -> (r: bool)
        ensures
            r == grammar::has_section(old(self)@, section@),
            final(self)@ == if r {
                old(self)@.remove(position_of(section_names(old(self)@), section@))
            } else {
                old(self)@
            },
            distinct_names(section_names(old(self)@)) ==> distinct_names(
                section_names(final(self)@),
            ),
    {
        proof {
            lemma_position_of(section_names(self@), section@);
        }
        match self.index_of(section) {
            Some(index) => {
                self.remove_at(index);
                true
            },
            None => false,
        }
    }

    /// Removes the section at the given index from the document. Changes
    /// nothing if the index is out of range.
    pub fn remove_at(&mut self, index: usize)
        ensures
            final(self)@ == if index < old(self)@.len() {
                old(self)@.remove(index as int)
            } else {
                old(self)@
            },
            distinct_names(section_names(old(self)@)) ==> distinct_names(
                section_names(final(self)@),
            ),
    {
        if index >= self.m_sections.len() {
            return;
        }
        self.m_sections.remove(index);
        proof {
            let before = section_names(old(self)@);
            assert(self@ =~= old(self)@.remove(index as int));
            assert(section_names(self@) =~= before.remove(index as int));
            if distinct_names(before) {
                lemma_remove_distinct(before, index as int);
            }
        }
    }

    /// Clears the document, removing all sections.
    pub fn clear(&mut self)
        ensures
            final(self)@ == Seq::<SectionView>::empty(),
    {
        self.m_sections.clear();
        assert(self@ =~= Seq::<SectionView>::empty());
    }
}

} // verus!
