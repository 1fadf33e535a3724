//! Rows of the word and book tables, as the table views list them.

use vstd::prelude::*;

use crate::status::WordStatus;

verus! {

/// A completion offered for a typed prefix.
#[derive(Clone, Debug)]
pub struct WordSuggestion {
    pub value: String,
    pub translation: String,
}

/// A row of the word table view.
#[derive(Clone, Debug)]
pub struct WordRow {
    pub id: i64,
    pub text: Option<String>,
    pub parents: Option<String>,
    pub translation: Option<String>,
    pub tags: Option<String>,
    pub status: Option<WordStatus>,
    pub added: Option<String>,
}

/// A row of the book table view.
#[derive(Clone, Debug)]
pub struct BookRow {
    pub id: i64,
    pub title: Option<String>,
    pub tags: Option<String>,
    pub added: Option<String>,
    pub published: Option<String>,
    pub last_read: Option<String>,
}

} // verus!
