//! Resolving a word's effective status range through its parents.

use vstd::prelude::*;

use crate::status::{
    StatusRange, WordStatus, fold_parents_spec, fold_possibilities_spec, fold_status_range_parents,
    fold_status_range_possibilities,
};
use crate::word::{Word, copy_strings, strings_eq};
use crate::status::{is_ignored, level, max_status, min_status, status_max, status_min};
use crate::Error;

verus! {

/// Words grouped by surface text: for each text, every word with that text.
/// It is closed when every parent text of every word it holds has an entry.
pub struct WordTree {
    pub entries: Vec<(String, Vec<Word>)>,
}

/// The words filed under `t`: those of its first entry.
pub open spec fn lookup(es: Seq<(String, Vec<Word>)>, t: Seq<char>) -> Option<Seq<Word>>
    decreases es.len(),
{
    if es.len() == 0 {
        None
    } else if es[0].0@ == t {
        Some(es[0].1@)
    } else {
        lookup(es.drop_first(), t)
    }
}

pub open spec fn own_status(w: Word) -> Option<WordStatus> {
    w.status
}

/// The status range of `w`: its own status where `ev` gives one; otherwise
/// the fold of its parents' ranges from `(WellKnown, WellKnown)`. `path`
/// holds the texts being resolved above it; reaching one of them again, or
/// going deeper than the tree has entries, is a cycle.
pub open spec fn status_spec(
    es: Seq<(String, Vec<Word>)>,
    w: Word,
    ev: spec_fn(Word) -> Option<WordStatus>,
    path: Seq<Seq<char>>,
) -> Result<StatusRange, Error>
    decreases es.len() - path.len(), 1int, 0int,
{
    match ev(w) {
        Some(s) => Ok((s, s)),
        None => parents_spec(es, w.parents@, w.parents@.len() as int, ev, path),
    }
}

/// The fold over the first `n` parents.
pub open spec fn parents_spec(
    es: Seq<(String, Vec<Word>)>,
    parents: Seq<String>,
    n: int,
    ev: spec_fn(Word) -> Option<WordStatus>,
    path: Seq<Seq<char>>,
) -> Result<StatusRange, Error>
    decreases es.len() - path.len(), 0int, n,
{
    if n <= 0 || n > parents.len() {
        Ok((WordStatus::WellKnown, WordStatus::WellKnown))
    } else {
        match parents_spec(es, parents, n - 1, ev, path) {
            Err(e) => Err(e),
            Ok(acc) => {
                let p = parents[n - 1]@;
                if path.contains(p) {
                    Err(Error::CycleDetected(parents[n - 1]))
                } else {
                    match lookup(es, p) {
                        None => Err(Error::MissingWords(parents[n - 1])),
                        Some(ws) => if path.len() >= es.len() {
                            Err(Error::CycleDetected(parents[n - 1]))
                        } else {
                            match stati_spec(es, ws, ws.len() as int, ev, path.push(p)) {
                                Err(e) => Err(e),
                                Ok(r) => fold_parents_spec(acc, r),
                            }
                        },
                    }
                }
            },
        }
    }
}

/// The fold of the first `n` alternative words from `(Unknown, Unknown)`.
pub open spec fn stati_spec(
    es: Seq<(String, Vec<Word>)>,
    ws: Seq<Word>,
    n: int,
    ev: spec_fn(Word) -> Option<WordStatus>,
    path: Seq<Seq<char>>,
) -> Result<StatusRange, Error>
    decreases es.len() - path.len(), 2int, n,
{
    if n <= 0 || n > ws.len() {
        Ok((WordStatus::Unknown, WordStatus::Unknown))
    } else {
        match stati_spec(es, ws, n - 1, ev, path) {
            Err(e) => Err(e),
            Ok(acc) => match status_spec(es, ws[n - 1], ev, path) {
                Err(e) => Err(e),
                Ok(r) => fold_possibilities_spec(acc, r),
            },
        }
    }
}

/// The status a caller-supplied evaluation gives a word.
pub open spec fn eval_of<F: Fn(&Word) -> Option<WordStatus>>(f: F) -> spec_fn(Word) -> Option<WordStatus> {
    |w: Word| choose|r: Option<WordStatus>| f.ensures((&w,), r)
}

/// An evaluation that accepts every word and gives each one status.
pub open spec fn deterministic<F: Fn(&Word) -> Option<WordStatus>>(f: F) -> bool {
    &&& forall|w: &Word| #[trigger] f.requires((w,))
    &&& forall|w: &Word, a: Option<WordStatus>, b: Option<WordStatus>|
        #[trigger] f.ensures((w,), a) && #[trigger] f.ensures((w,), b) ==> a == b
}

pub open spec fn texts_model(v: Seq<String>) -> Seq<Seq<char>> {
    v.map_values(|s: String| s@)
}

/// A text that some filed word names as a parent and that has no entry.
pub open spec fn missing_parent(es: Seq<(String, Vec<Word>)>, t: Seq<char>) -> bool {
    &&& lookup(es, t) is None
    &&& exists|i: int, j: int, k: int|
        0 <= i < es.len() && 0 <= j < es[i].1@.len() && 0 <= k < es[i].1@[j].parents@.len()
            && (#[trigger] es[i].1@[j].parents@[k])@ == t
}

impl WordTree {
    /// An empty tree.
    pub fn new() -> (r: WordTree)
        ensures
            r.entries@.len() == 0,
    {
        WordTree { entries: Vec::new() }
    }

    /// Files `words` under `text`, after the entries already there.
    pub fn file(&mut self, text: String, words: Vec<Word>)
        ensures
            final(self).entries@ == old(self).entries@.push((text, words)),
    {
        self.entries.push((text, words));
    }

    /// The parent texts that filed words name but that have no entry yet,
    /// each once: what must be fetched before the tree is closed.
    pub fn missing_parents(&self) -> (r: Vec<String>)
        ensures
            forall|t: Seq<char>| missing_parent(self.entries@, t) <==> #[trigger] texts_model(r@).contains(t),
    {
        let mut out: Vec<String> = Vec::new();
        let mut i: usize = 0;
        while i < self.entries.len()
            invariant
                i <= self.entries.len(),
                forall|t: Seq<char>| #[trigger] texts_model(out@).contains(t) ==> missing_parent(self.entries@, t),
                forall|ii: int, j: int, k: int|
                    0 <= ii < i && 0 <= j < self.entries@[ii].1@.len() && 0 <= k < self.entries@[ii].1@[j].parents@.len()
                        && lookup(self.entries@, (#[trigger] self.entries@[ii].1@[j].parents@[k])@) is None
                        ==> texts_model(out@).contains(self.entries@[ii].1@[j].parents@[k]@),
            decreases self.entries.len() - i,
        {
            let ws = &self.entries[i].1;
            let mut j: usize = 0;
            while j < ws.len()
                invariant
                    i < self.entries.len(),
                    ws == &self.entries@[i as int].1,
                    j <= ws.len(),
                    forall|t: Seq<char>| #[trigger] texts_model(out@).contains(t) ==> missing_parent(self.entries@, t),
                    forall|ii: int, jj: int, k: int|
                        0 <= ii <= i && 0 <= jj < self.entries@[ii].1@.len() && 0 <= k < self.entries@[ii].1@[jj].parents@.len()
                            && (ii < i || jj < j)
                            && lookup(self.entries@, (#[trigger] self.entries@[ii].1@[jj].parents@[k])@) is None
                            ==> texts_model(out@).contains(self.entries@[ii].1@[jj].parents@[k]@),
                decreases ws.len() - j,
            {
                let ps = &ws[j].parents;
                let mut k: usize = 0;
                while k < ps.len()
                    invariant
                        i < self.entries.len(),
                        ws == &self.entries@[i as int].1,
                        j < ws.len(),
                        ps == &ws@[j as int].parents,
                        k <= ps.len(),
                        forall|t: Seq<char>| #[trigger] texts_model(out@).contains(t) ==> missing_parent(self.entries@, t),
                        forall|ii: int, jj: int, kk: int|
                            0 <= ii <= i && 0 <= jj < self.entries@[ii].1@.len() && 0 <= kk < self.entries@[ii].1@[jj].parents@.len()
                                && (ii < i || jj < j || (jj == j && kk < k))
                                && lookup(self.entries@, (#[trigger] self.entries@[ii].1@[jj].parents@[kk])@) is None
                                ==> texts_model(out@).contains(self.entries@[ii].1@[jj].parents@[kk]@),
                    decreases ps.len() - k,
                {
                    let p = &ps[k];
                    let filed = self.find(p).is_some();
                    if !filed && !contains_text(&out, p) {
                        let ghost before = out@;
                        out.push(p.clone());
                        proof {
                            assert(texts_model(out@) =~= texts_model(before).push(p@));
                            assert(self.entries@[i as int].1@[j as int].parents@[k as int] == *p);
                            assert(missing_parent(self.entries@, p@));
                            assert forall|t: Seq<char>| #[trigger] texts_model(out@).contains(t) implies texts_model(before).contains(t) || t == p@ by {
                                let x = choose|x: int| 0 <= x < texts_model(out@).len() && texts_model(out@)[x] == t;
                                if x < before.len() {
                                    assert(texts_model(before)[x] == t);
                                }
                            }
                            assert forall|t: Seq<char>| texts_model(before).contains(t) implies #[trigger] texts_model(out@).contains(t) by {
                                let x = choose|x: int| 0 <= x < texts_model(before).len() && texts_model(before)[x] == t;
                                assert(texts_model(out@)[x] == t);
                            }
                            assert(texts_model(out@)[before.len() as int] == p@);
                        }
                    }
                    k += 1;
                }
                j += 1;
            }
            i += 1;
        }
        proof {
            assert forall|t: Seq<char>| missing_parent(self.entries@, t) implies #[trigger] texts_model(out@).contains(t) by {
                let (ii, jj, kk) = choose|ii: int, jj: int, kk: int|
                    0 <= ii < self.entries@.len() && 0 <= jj < self.entries@[ii].1@.len() && 0 <= kk < self.entries@[ii].1@[jj].parents@.len()
                        && (#[trigger] self.entries@[ii].1@[jj].parents@[kk])@ == t;
            }
        }
        out
    }

    /// The words filed under `t`.
    pub fn find(&self, t: &String) -> (r: Option<&Vec<Word>>)
        ensures
            match r {
                Some(ws) => lookup(self.entries@, t@) == Some(ws@),
                None => lookup(self.entries@, t@) is None,
            },
    {
        let mut i: usize = 0;
        assert(self.entries@.skip(0) =~= self.entries@);
        while i < self.entries.len()
            invariant
                i <= self.entries.len(),
                lookup(self.entries@, t@) == lookup(self.entries@.skip(i as int), t@),
            decreases self.entries.len() - i,
        {
            assert(self.entries@.skip(i as int).drop_first() =~= self.entries@.skip(i + 1));
            if self.entries[i].0 == *t {
                return Some(&self.entries[i].1);
            }
            i += 1;
        }
        None
    }
}

/// `eval` accepts every word and gives what `ev` says.
pub open spec fn implements<F: Fn(&Word) -> Option<WordStatus>>(f: F, ev: spec_fn(Word) -> Option<WordStatus>) -> bool {
    &&& forall|w: &Word| #[trigger] f.requires((w,))
    &&& forall|w: &Word, r: Option<WordStatus>| #[trigger] f.ensures((w,), r) ==> r == ev(*w)
}

proof fn lemma_deterministic_implements<F: Fn(&Word) -> Option<WordStatus>>(f: F)
    requires
        deterministic(f),
    ensures
        implements(f, eval_of(f)),
{
    assert forall|w: &Word, r: Option<WordStatus>| #[trigger] f.ensures((w,), r) implies r == (eval_of(f))(*w) by {
        let c = choose|c: Option<WordStatus>| f.ensures((w,), c);
        assert(f.ensures((w,), c));
    }
}

proof fn lemma_parents_err(
    es: Seq<(String, Vec<Word>)>,
    parents: Seq<String>,
    i: int,
    n: int,
    ev: spec_fn(Word) -> Option<WordStatus>,
    path: Seq<Seq<char>>,
    e: Error,
)
    requires
        0 <= i <= n <= parents.len(),
        parents_spec(es, parents, i, ev, path) == Err::<StatusRange, Error>(e),
    ensures
        parents_spec(es, parents, n, ev, path) == Err::<StatusRange, Error>(e),
    decreases n - i,
{
    if n > i {
        lemma_parents_err(es, parents, i, n - 1, ev, path, e);
    }
}

proof fn lemma_stati_err(
    es: Seq<(String, Vec<Word>)>,
    ws: Seq<Word>,
    i: int,
    n: int,
    ev: spec_fn(Word) -> Option<WordStatus>,
    path: Seq<Seq<char>>,
    e: Error,
)
    requires
        0 <= i <= n <= ws.len(),
        stati_spec(es, ws, i, ev, path) == Err::<StatusRange, Error>(e),
    ensures
        stati_spec(es, ws, n, ev, path) == Err::<StatusRange, Error>(e),
    decreases n - i,
{
    if n > i {
        lemma_stati_err(es, ws, i, n - 1, ev, path, e);
    }
}

fn resolve_status_in<F: Fn(&Word) -> Option<WordStatus>>(
    tree: &WordTree,
    w: &Word,
    eval: &F,
    Ghost(ev): Ghost<spec_fn(Word) -> Option<WordStatus>>,
    path: &Vec<String>,
) -> (r: Result<StatusRange, Error>)
    requires
        implements(*eval, ev),
    ensures
        r == status_spec(tree.entries@, *w, ev, texts_model(path@)),
    decreases tree.entries@.len() - path@.len(), 1int, 0int,
{
    let own = eval(w);
    match own {
        Some(s) => Ok((s, s)),
        None => {
            let ghost es = tree.entries@;
            let ghost pm = texts_model(path@);
            let mut acc: StatusRange = (WordStatus::WellKnown, WordStatus::WellKnown);
            let mut i: usize = 0;
            while i < w.parents.len()
                invariant
                    i <= w.parents.len(),
                    implements(*eval, ev),
                    ev(*w) is None,
                    es == tree.entries@,
                    pm == texts_model(path@),
                    parents_spec(es, w.parents@, i as int, ev, pm) == Ok::<StatusRange, Error>(acc),
                decreases w.parents.len() - i,
            {
                let p = &w.parents[i];
                let ghost pv = p@;
                let on_path = contains_text(path, p);
                if on_path {
                    let e = Error::CycleDetected(p.clone());
                    proof {
                        lemma_parents_err(es, w.parents@, i + 1, w.parents@.len() as int, ev, pm, e);
                    }
                    return Err(e);
                }
                let ws = match tree.find(p) {
                    Some(ws) => ws,
                    None => {
                        let e = Error::MissingWords(p.clone());
                        proof {
                            lemma_parents_err(es, w.parents@, i + 1, w.parents@.len() as int, ev, pm, e);
                        }
                        return Err(e);
                    },
                };
                if path.len() >= tree.entries.len() {
                    let e = Error::CycleDetected(p.clone());
                    proof {
                        lemma_parents_err(es, w.parents@, i + 1, w.parents@.len() as int, ev, pm, e);
                    }
                    return Err(e);
                }
                let mut deeper = copy_strings(path);
                deeper.push(p.clone());
                assert(texts_model(deeper@) =~= pm.push(pv)) by {
                    assert forall|j: int| 0 <= j < path@.len() implies deeper@[j]@ == path@[j]@ by {}
                }
                let r = resolve_stati_in(tree, ws, eval, Ghost(ev), &deeper);
                match r {
                    Err(e) => {
                        proof {
                            lemma_parents_err(es, w.parents@, i + 1, w.parents@.len() as int, ev, pm, e);
                        }
                        return Err(e);
                    },
                    Ok(r) => {
                        match fold_status_range_parents(acc, r) {
                            Err(e) => {
                                proof {
                                    lemma_parents_err(es, w.parents@, i + 1, w.parents@.len() as int, ev, pm, e);
                                }
                                return Err(e);
                            },
                            Ok(x) => {
                                acc = x;
                            },
                        }
                    },
                }
                i += 1;
            }
            Ok(acc)
        },
    }
}

fn resolve_stati_in<F: Fn(&Word) -> Option<WordStatus>>(
    tree: &WordTree,
    ws: &Vec<Word>,
    eval: &F,
    Ghost(ev): Ghost<spec_fn(Word) -> Option<WordStatus>>,
    path: &Vec<String>,
) -> (r: Result<StatusRange, Error>)
    requires
        implements(*eval, ev),
    ensures
        r == stati_spec(tree.entries@, ws@, ws@.len() as int, ev, texts_model(path@)),
    decreases tree.entries@.len() - path@.len(), 2int, 0int,
{
    let ghost es = tree.entries@;
    let ghost pm = texts_model(path@);
    let mut acc: StatusRange = (WordStatus::Unknown, WordStatus::Unknown);
    let mut i: usize = 0;
    while i < ws.len()
        invariant
            i <= ws.len(),
            implements(*eval, ev),
            es == tree.entries@,
            pm == texts_model(path@),
            stati_spec(es, ws@, i as int, ev, pm) == Ok::<StatusRange, Error>(acc),
        decreases ws.len() - i,
    {
        match resolve_status_in(tree, &ws[i], eval, Ghost(ev), path) {
            Err(e) => {
                proof {
                    lemma_stati_err(es, ws@, i + 1, ws@.len() as int, ev, pm, e);
                }
                return Err(e);
            },
            Ok(r) => {
                match fold_status_range_possibilities(acc, r) {
                    Err(e) => {
                        proof {
                            lemma_stati_err(es, ws@, i + 1, ws@.len() as int, ev, pm, e);
                        }
                        return Err(e);
                    },
                    Ok(x) => {
                        acc = x;
                    },
                }
            },
        }
        i += 1;
    }
    Ok(acc)
}

/// Whether `v` holds a string equal to `s`.
fn contains_text(v: &Vec<String>, s: &String) -> (r: bool)
    ensures
        r == texts_model(v@).contains(s@),
{
    let mut i: usize = 0;
    while i < v.len()
        invariant
            i <= v.len(),
            forall|j: int| 0 <= j < i ==> v@[j]@ != s@,
        decreases v.len() - i,
    {
        if v[i] == *s {
            assert(texts_model(v@)[i as int] == s@);
            return true;
        }
        i += 1;
    }
    assert(forall|j: int| 0 <= j < v.len() ==> texts_model(v@)[j] != s@);
    false
}

/// The status range of `word` under the evaluation `eval`, resolved through
/// the parents that `tree` files.
pub fn resolve_status_with_eval<F: Fn(&Word) -> Option<WordStatus>>(
    tree: &WordTree,
    word: &Word,
    eval: &F,
) -> (r: Result<StatusRange, Error>)
    requires
        deterministic(*eval),
    ensures
        r == status_spec(tree.entries@, *word, eval_of(*eval), Seq::<Seq<char>>::empty()),
{
    let path: Vec<String> = Vec::new();
    assert(texts_model(path@) =~= Seq::<Seq<char>>::empty());
    proof {
        lemma_deterministic_implements(*eval);
    }
    resolve_status_in(tree, word, eval, Ghost(eval_of(*eval)), &path)
}

/// The combined status range of alternative words under `eval`.
pub fn resolve_stati_with_eval<F: Fn(&Word) -> Option<WordStatus>>(
    tree: &WordTree,
    words: &Vec<Word>,
    eval: &F,
) -> (r: Result<StatusRange, Error>)
    requires
        deterministic(*eval),
    ensures
        r == stati_spec(tree.entries@, words@, words@.len() as int, eval_of(*eval), Seq::<Seq<char>>::empty()),
{
    let path: Vec<String> = Vec::new();
    assert(texts_model(path@) =~= Seq::<Seq<char>>::empty());
    proof {
        lemma_deterministic_implements(*eval);
    }
    resolve_stati_in(tree, words, eval, Ghost(eval_of(*eval)), &path)
}

fn stored_status(w: &Word) -> (r: Option<WordStatus>)
    ensures
        r == w.status,
{
    w.status
}

/// The status range of `word` from stored statuses.
pub fn resolve_status(tree: &WordTree, word: &Word) -> (r: Result<StatusRange, Error>)
    ensures
        r == status_spec(tree.entries@, *word, |w: Word| own_status(w), Seq::<Seq<char>>::empty()),
{
    let path: Vec<String> = Vec::new();
    assert(texts_model(path@) =~= Seq::<Seq<char>>::empty());
    resolve_status_in(tree, word, &stored_status, Ghost(|w: Word| own_status(w)), &path)
}

/// The combined status range of alternative words from stored statuses.
pub fn resolve_stati(tree: &WordTree, words: &Vec<Word>) -> (r: Result<StatusRange, Error>)
    ensures
        r == stati_spec(tree.entries@, words@, words@.len() as int, |w: Word| own_status(w), Seq::<Seq<char>>::empty()),
{
    let path: Vec<String> = Vec::new();
    assert(texts_model(path@) =~= Seq::<Seq<char>>::empty());
    resolve_stati_in(tree, words, &stored_status, Ghost(|w: Word| own_status(w)), &path)
}

/// Folding a parent's range in never raises either bound, unless one side is
/// an `Ignored` range, which makes the whole `Ignored`.
pub proof fn lemma_fold_parents_never_raises(x: StatusRange, y: StatusRange)
    requires
        x != (WordStatus::Ignored, WordStatus::Ignored),
        y != (WordStatus::Ignored, WordStatus::Ignored),
    ensures
        fold_parents_spec(x, y) matches Ok(z) ==> level(z.0) <= level(x.0) && level(z.1) <= level(x.1)
            && level(z.0) <= level(y.0) && level(z.1) <= level(y.1),
{
}


/// The range of a segment from its words' resolved ranges: the lowest low
/// and the highest high, where an `Unknown` bound so far gives way to the
/// next word's.
pub open spec fn segment_range_upto(ws: Seq<Word>, n: int) -> StatusRange
    decreases n,
{
    if n <= 0 {
        (WordStatus::Unknown, WordStatus::Unknown)
    } else {
        let acc = segment_range_upto(ws, n - 1);
        match ws[n - 1].resolved_status {
            None => acc,
            Some((a, b)) => (
                if acc.0 == WordStatus::Unknown { a } else { status_min(acc.0, a) },
                if acc.1 == WordStatus::Unknown { b } else { status_max(acc.1, b) },
            ),
        }
    }
}

/// The status range of a segment from the resolved ranges of its words.
pub fn segment_status_range(words: &Vec<Word>) -> (r: StatusRange)
    ensures
        r == segment_range_upto(words@, words@.len() as int),
{
    let mut lo = WordStatus::Unknown;
    let mut hi = WordStatus::Unknown;
    let mut i: usize = 0;
    while i < words.len()
        invariant
            i <= words.len(),
            (lo, hi) == segment_range_upto(words@, i as int),
        decreases words.len() - i,
    {
        match words[i].resolved_status {
            Some((a, b)) => {
                lo = if lo == WordStatus::Unknown { a } else { min_status(lo, a) };
                hi = if hi == WordStatus::Unknown { b } else { max_status(hi, b) };
            },
            None => {},
        }
        i += 1;
    }
    (lo, hi)
}

/// The resolved range of the `k`-th parent, as the fold over parents takes it.
pub open spec fn parent_range(
    es: Seq<(String, Vec<Word>)>,
    parents: Seq<String>,
    k: int,
    ev: spec_fn(Word) -> Option<WordStatus>,
    path: Seq<Seq<char>>,
) -> Result<StatusRange, Error> {
    let p = parents[k]@;
    if path.contains(p) {
        Err(Error::CycleDetected(parents[k]))
    } else {
        match lookup(es, p) {
            None => Err(Error::MissingWords(parents[k])),
            Some(ws) => if path.len() >= es.len() {
                Err(Error::CycleDetected(parents[k]))
            } else {
                stati_spec(es, ws, ws.len() as int, ev, path.push(p))
            },
        }
    }
}

pub open spec fn not_ignored(r: StatusRange) -> bool {
    !is_ignored(r.0) && !is_ignored(r.1)
}

/// Parents never raise a word's status: where no parent resolves to a range
/// touching `Ignored`, the fold over the first `n` parents is at or below
/// each parent's own range on both bounds, and at or below
/// `(WellKnown, WellKnown)`.
pub proof fn lemma_parents_fold_below_each(
    es: Seq<(String, Vec<Word>)>,
    parents: Seq<String>,
    n: int,
    ev: spec_fn(Word) -> Option<WordStatus>,
    path: Seq<Seq<char>>,
)
    requires
        0 <= n <= parents.len(),
        forall|k: int| 0 <= k < n ==> (#[trigger] parent_range(es, parents, k, ev, path) matches Ok(x) ==> not_ignored(x)),
    ensures
        parents_spec(es, parents, n, ev, path) matches Ok(r) ==> {
            &&& not_ignored(r)
            &&& level(r.0) <= level(WordStatus::WellKnown) && level(r.1) <= level(WordStatus::WellKnown)
            &&& forall|k: int| 0 <= k < n ==> (#[trigger] parent_range(es, parents, k, ev, path) matches Ok(x)
                ==> level(r.0) <= level(x.0) && level(r.1) <= level(x.1))
        },
    decreases n,
{
    if n > 0 {
        lemma_parents_fold_below_each(es, parents, n - 1, ev, path);
        if let Ok(r) = parents_spec(es, parents, n, ev, path) {
            let acc = parents_spec(es, parents, n - 1, ev, path)->Ok_0;
            let x = parent_range(es, parents, n - 1, ev, path)->Ok_0;
            assert(parents_spec(es, parents, n - 1, ev, path) is Ok);
            assert(parent_range(es, parents, n - 1, ev, path) is Ok);
            assert(fold_parents_spec(acc, x) == Ok::<StatusRange, Error>(r));
            assert forall|k: int| 0 <= k < n implies (#[trigger] parent_range(es, parents, k, ev, path) matches Ok(y)
                ==> level(r.0) <= level(y.0) && level(r.1) <= level(y.1)) by {
                if k < n - 1 {
                }
            }
        }
    } else {
        assert(parents_spec(es, parents, 0, ev, path) == Ok::<StatusRange, Error>((WordStatus::WellKnown, WordStatus::WellKnown)));
    }
}

} // verus!
