//! Word records and analysed segments.

use vstd::prelude::*;

use crate::rules::{contains_string, strings_model};
use crate::status::WordStatus;

verus! {

/// A dictionary entry, stored or built from morphology. `status == None`
/// means the status is inherited from the parents, which are surface texts.
#[derive(Debug)]
pub struct Word {
    pub id: Option<i64>,
    pub text: String,
    pub status: Option<WordStatus>,
    pub pronunciation: Option<String>,
    pub translation: String,
    pub tags: Vec<String>,
    pub parents: Vec<String>,
    pub image_file: Option<String>,
    pub resolved_status: Option<(WordStatus, WordStatus)>,
    pub inherit: bool,
    pub debug: Option<String>,
}

pub open spec fn opt_string_eq(a: Option<String>, b: Option<String>) -> bool {
    match (a, b) {
        (Some(x), Some(y)) => x@ == y@,
        (None, None) => true,
        _ => false,
    }
}

pub open spec fn strings_eq(a: Seq<String>, b: Seq<String>) -> bool {
    a.len() == b.len() && forall|i: int| 0 <= i < a.len() ==> (#[trigger] a[i])@ == b[i]@
}

/// Two words with the same contents.
pub open spec fn same_word(a: Word, b: Word) -> bool {
    &&& a.id == b.id
    &&& a.text@ == b.text@
    &&& a.status == b.status
    &&& opt_string_eq(a.pronunciation, b.pronunciation)
    &&& a.translation@ == b.translation@
    &&& strings_eq(a.tags@, b.tags@)
    &&& strings_eq(a.parents@, b.parents@)
    &&& opt_string_eq(a.image_file, b.image_file)
    &&& a.resolved_status == b.resolved_status
    &&& a.inherit == b.inherit
    &&& opt_string_eq(a.debug, b.debug)
}

pub fn copy_opt_string(o: &Option<String>) -> (r: Option<String>)
    ensures
        opt_string_eq(*o, r),
{
    match o {
        Some(s) => Some(s.clone()),
        None => None,
    }
}

pub fn copy_strings(v: &Vec<String>) -> (r: Vec<String>)
    ensures
        strings_eq(v@, r@),
{
    let mut r: Vec<String> = Vec::new();
    let mut i: usize = 0;
    while i < v.len()
        invariant
            i <= v.len(),
            r.len() == i,
            forall|j: int| 0 <= j < i ==> (#[trigger] r@[j])@ == v@[j]@,
        decreases v.len() - i,
    {
        r.push(v[i].clone());
        i += 1;
    }
    r
}

impl Word {
    /// A word with the given text and nothing else.
    pub fn empty(text: String) -> (r: Word)
        ensures
            r.text == text,
            r.id is None,
            r.status is None,
            r.pronunciation is None,
            r.translation@.len() == 0,
            r.tags@.len() == 0,
            r.parents@.len() == 0,
            r.image_file is None,
            r.resolved_status is None,
            !r.inherit,
            r.debug is None,
    {
        Word {
            id: None,
            text,
            status: None,
            pronunciation: None,
            translation: String::new(),
            tags: Vec::new(),
            parents: Vec::new(),
            image_file: None,
            resolved_status: None,
            inherit: false,
            debug: None,
        }
    }

    /// A copy of the word.
    pub fn duplicate(&self) -> (r: Word)
        ensures
            same_word(*self, r),
    {
        Word {
            id: self.id,
            text: self.text.clone(),
            status: self.status,
            pronunciation: copy_opt_string(&self.pronunciation),
            translation: self.translation.clone(),
            tags: copy_strings(&self.tags),
            parents: copy_strings(&self.parents),
            image_file: copy_opt_string(&self.image_file),
            resolved_status: self.resolved_status,
            inherit: self.inherit,
            debug: copy_opt_string(&self.debug),
        }
    }
}

/// One analysable unit of text: its byte range, its text, and the candidate
/// dictionary entries for it.
#[derive(Debug)]
pub struct Segment {
    pub range: std::ops::Range<usize>,
    pub text: String,
    pub words: Vec<Word>,
}

impl Segment {
    /// The same segment with its range moved `delta` bytes on.
    pub fn with_offset(self, delta: usize) -> (r: Segment)
        requires
            self.range.start + delta <= usize::MAX,
            self.range.end + delta <= usize::MAX,
        ensures
            r.range.start == self.range.start + delta,
            r.range.end == self.range.end + delta,
            r.text == self.text,
            r.words == self.words,
    {
        let range = (self.range.start + delta)..(self.range.end + delta);
        Segment { range, text: self.text, words: self.words }
    }
}

/// Whether `word` carries tag `tag`.
pub fn has_tag(word: &Word, tag: &String) -> (r: bool)
    ensures
        r == strings_model(word.tags@).contains(tag@),
{
    contains_string(&word.tags, tag)
}

/// Whether `word` carries any of `tags`.
pub fn has_any_tags(word: &Word, tags: &Vec<String>) -> (r: bool)
    ensures
        r == exists|i: int| 0 <= i < tags.len() && strings_model(word.tags@).contains(#[trigger] tags@[i]@),
{
    let mut i: usize = 0;
    while i < tags.len()
        invariant
            i <= tags.len(),
            forall|j: int| 0 <= j < i ==> !strings_model(word.tags@).contains(#[trigger] tags@[j]@),
        decreases tags.len() - i,
    {
        if contains_string(&word.tags, &tags[i]) {
            return true;
        }
        i += 1;
    }
    false
}

} // verus!
