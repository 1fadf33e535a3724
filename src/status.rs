//! Word statuses and the folds that combine status ranges.

use vstd::prelude::*;

use crate::Error;

verus! {

/// A learner's rating of a word. `Ignored` and `WellKnown` lie outside the
/// linear scale of levels.
#[derive(Clone, Copy, Debug, PartialEq, Eq, Hash, PartialOrd, Ord, Structural)]
pub enum WordStatus {
    Unknown,
    New,
    Level2,
    Level3,
    Level4,
    Level5,
    Ignored,
    WellKnown,
}

/// A (pessimistic, optimistic) pair of statuses.
pub type StatusRange = (WordStatus, WordStatus);

/// The numeric code of a status.
pub open spec fn level(s: WordStatus) -> int {
    match s {
        WordStatus::Unknown => 0,
        WordStatus::New => 1,
        WordStatus::Level2 => 2,
        WordStatus::Level3 => 3,
        WordStatus::Level4 => 4,
        WordStatus::Level5 => 5,
        WordStatus::Ignored => 98,
        WordStatus::WellKnown => 99,
    }
}

pub open spec fn status_min(a: WordStatus, b: WordStatus) -> WordStatus {
    if level(a) <= level(b) { a } else { b }
}

pub open spec fn status_max(a: WordStatus, b: WordStatus) -> WordStatus {
    if level(a) >= level(b) { a } else { b }
}

pub open spec fn is_ignored(s: WordStatus) -> bool {
    s == WordStatus::Ignored
}

/// A range that is `Ignored` on one side only.
pub open spec fn half_ignored(r: StatusRange) -> bool {
    (is_ignored(r.0) || is_ignored(r.1)) && r != (WordStatus::Ignored, WordStatus::Ignored)
}

/// Combining two alternative senses of a word.
pub open spec fn fold_possibilities_spec(x: StatusRange, y: StatusRange) -> Result<StatusRange, Error> {
    if x == (WordStatus::Unknown, WordStatus::Unknown) {
        Ok(y)
    } else if y == (WordStatus::Unknown, WordStatus::Unknown) {
        Ok(x)
    } else if x == (WordStatus::Ignored, WordStatus::Ignored) {
        Ok(y)
    } else if y == (WordStatus::Ignored, WordStatus::Ignored) {
        Ok(x)
    } else if half_ignored(x) {
        Err(Error::InvalidStatusRange(x.0, x.1))
    } else if half_ignored(y) {
        Err(Error::InvalidStatusRange(y.0, y.1))
    } else {
        Ok((status_min(x.0, y.0), status_max(x.1, y.1)))
    }
}

/// Combining a word's range so far with the range of one of its parents.
pub open spec fn fold_parents_spec(x: StatusRange, y: StatusRange) -> Result<StatusRange, Error> {
    if x == (WordStatus::Ignored, WordStatus::Ignored) || y == (WordStatus::Ignored, WordStatus::Ignored) {
        Ok((WordStatus::Ignored, WordStatus::Ignored))
    } else if half_ignored(x) {
        Err(Error::InvalidStatusRange(x.0, x.1))
    } else if half_ignored(y) {
        Err(Error::InvalidStatusRange(y.0, y.1))
    } else {
        Ok((status_min(x.0, y.0), status_min(x.1, y.1)))
    }
}

impl WordStatus {
    /// The numeric code of the status.
    pub fn code(&self) -> (r: u8)
        ensures
            r as int == level(*self),
    {
        match self {
            WordStatus::Unknown => 0,
            WordStatus::New => 1,
            WordStatus::Level2 => 2,
            WordStatus::Level3 => 3,
            WordStatus::Level4 => 4,
            WordStatus::Level5 => 5,
            WordStatus::Ignored => 98,
            WordStatus::WellKnown => 99,
        }
    }

    /// The status with the given numeric code, if there is one.
    pub fn from_code(c: u8) -> (r: Option<WordStatus>)
        ensures
            r matches Some(s) ==> level(s) == c as int,
            r is None <==> !(c <= 5 || c == 98 || c == 99),
    {
        match c {
            0 => Some(WordStatus::Unknown),
            1 => Some(WordStatus::New),
            2 => Some(WordStatus::Level2),
            3 => Some(WordStatus::Level3),
            4 => Some(WordStatus::Level4),
            5 => Some(WordStatus::Level5),
            98 => Some(WordStatus::Ignored),
            99 => Some(WordStatus::WellKnown),
            _ => None,
        }
    }
}

impl Default for WordStatus {
    fn default() -> (r: WordStatus)
        ensures
            r == WordStatus::Unknown,
    {
        WordStatus::Unknown
    }
}

pub fn min_status(a: WordStatus, b: WordStatus) -> (r: WordStatus)
    ensures
        r == status_min(a, b),
{
    if a.code() <= b.code() { a } else { b }
}

pub fn max_status(a: WordStatus, b: WordStatus) -> (r: WordStatus)
    ensures
        r == status_max(a, b),
{
    if a.code() >= b.code() { a } else { b }
}

fn is_half_ignored(r: StatusRange) -> (b: bool)
    ensures
        b == half_ignored(r),
{
    (r.0 == WordStatus::Ignored || r.1 == WordStatus::Ignored)
        && !(r.0 == WordStatus::Ignored && r.1 == WordStatus::Ignored)
}

/// Folds two alternative senses: `Unknown` and `Ignored` ranges give way to
/// the other operand; otherwise the worst low and the best high are kept.
pub fn fold_status_range_possibilities(x: StatusRange, y: StatusRange) -> (r: Result<StatusRange, Error>)
    ensures
        r == fold_possibilities_spec(x, y),
{
    if x.0 == WordStatus::Unknown && x.1 == WordStatus::Unknown {
        Ok(y)
    } else if y.0 == WordStatus::Unknown && y.1 == WordStatus::Unknown {
        Ok(x)
    } else if x.0 == WordStatus::Ignored && x.1 == WordStatus::Ignored {
        Ok(y)
    } else if y.0 == WordStatus::Ignored && y.1 == WordStatus::Ignored {
        Ok(x)
    } else if is_half_ignored(x) {
        Err(Error::InvalidStatusRange(x.0, x.1))
    } else if is_half_ignored(y) {
        Err(Error::InvalidStatusRange(y.0, y.1))
    } else {
        Ok((min_status(x.0, y.0), max_status(x.1, y.1)))
    }
}

/// Folds a parent's range into a word's range: `Ignored` absorbs everything;
/// otherwise both bounds take the lower of the two.
pub fn fold_status_range_parents(x: StatusRange, y: StatusRange) -> (r: Result<StatusRange, Error>)
    ensures
        r == fold_parents_spec(x, y),
{
    if (x.0 == WordStatus::Ignored && x.1 == WordStatus::Ignored) || (y.0 == WordStatus::Ignored
        && y.1 == WordStatus::Ignored) {
        Ok((WordStatus::Ignored, WordStatus::Ignored))
    } else if is_half_ignored(x) {
        Err(Error::InvalidStatusRange(x.0, x.1))
    } else if is_half_ignored(y) {
        Err(Error::InvalidStatusRange(y.0, y.1))
    } else {
        Ok((min_status(x.0, y.0), min_status(x.1, y.1)))
    }
}

/// `status` is one step below `min_status` on the learning scale.
pub open spec fn status_close_spec(status: WordStatus, min_status: WordStatus) -> bool {
    (status == WordStatus::Level5 && min_status == WordStatus::WellKnown) || (status == WordStatus::Level4
        && min_status == WordStatus::Level5) || (status == WordStatus::Level3 && min_status
        == WordStatus::Level4) || (status == WordStatus::Level2 && min_status == WordStatus::Level3)
        || (status == WordStatus::New && min_status == WordStatus::Level2)
}

/// Whether `status` is one step below `min_status`.
pub fn is_status_close(status: WordStatus, min_status: WordStatus) -> (r: bool)
    ensures
        r == status_close_spec(status, min_status),
{
    match (status, min_status) {
        (WordStatus::Level5, WordStatus::WellKnown) => true,
        (WordStatus::Level4, WordStatus::Level5) => true,
        (WordStatus::Level3, WordStatus::Level4) => true,
        (WordStatus::Level2, WordStatus::Level3) => true,
        (WordStatus::New, WordStatus::Level2) => true,
        _ => false,
    }
}

/// An `Ignored` sense is skipped when senses are combined: whichever side it
/// stands on, the other side comes through unchanged (the `Unknown`
/// placeholder gives way to it instead).
pub proof fn lemma_ignored_sense_skipped(x: StatusRange)
    requires
        x != (WordStatus::Unknown, WordStatus::Unknown),
    ensures
        fold_possibilities_spec(x, (WordStatus::Ignored, WordStatus::Ignored)) == Ok::<StatusRange, Error>(x),
        fold_possibilities_spec((WordStatus::Ignored, WordStatus::Ignored), x) == Ok::<StatusRange, Error>(x),
{
}

} // verus!
