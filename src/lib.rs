//! Morphological analysis and word-status resolution for a Korean reading tool.

pub mod status;
pub mod text;
pub mod pattern;
pub mod token;
pub mod segment;
pub mod root;
pub mod rules;
pub mod trie;
pub mod word;
pub mod analyze;
pub mod cache;
pub mod resolve;
pub mod parser;
pub mod dt;
pub mod rows;
pub mod doc;
pub mod vtt;

use vstd::prelude::*;

verus! {

/// Errors surfaced by the library.
#[derive(Debug)]
pub enum Error {
    /// A status range with `Ignored` on one side only.
    InvalidStatusRange(status::WordStatus, status::WordStatus),
    /// Malformed pattern, element, feature or override notation.
    Parse(String),
    /// The tokenizer failed or handed back tokens that do not fit the text.
    Tokenize(String),
    /// A word was built from an empty token sequence.
    NoTokens,
    /// Reduction went on for more steps than a rule table can reasonably need.
    ReductionLimit,
    /// A parent chain leads back to a text that is already being resolved.
    CycleDetected(String),
    /// A parent text is absent from the words handed to the resolver.
    MissingWords(String),
    /// A request-level failure, with its HTTP-style code and message.
    Status(u16, String),
}

/// Fails with a bad-request status carrying `msg` unless `ok` holds.
pub fn check(ok: bool, msg: &str) -> (r: Result<(), Error>)
    ensures
        ok ==> r is Ok,
        !ok ==> (r matches Err(Error::Status(code, m)) && code == 400 && m@ == msg@),
{
    if !ok {
        return Err(Error::Status(400, msg.to_owned()));
    }
    Ok(())
}

/// Unwraps `opt`, failing with a not-found status when it is empty.
pub fn must<T>(opt: Option<T>) -> (r: Result<T, Error>)
    ensures
        opt matches Some(x) ==> r == Ok::<T, Error>(x),
        opt is None ==> (r matches Err(Error::Status(code, m)) && code == 404 && m@ == "404 Not Found"@),
{
    match opt {
        Some(x) => Ok(x),
        None => Err(Error::Status(404, "404 Not Found".to_owned())),
    }
}

} // verus!
