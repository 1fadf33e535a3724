//! An in-process index over words, by id and by surface text, that knows
//! when a text surely has words, surely has none, or must be looked up.

use std::collections::HashMap;

use vstd::prelude::*;

use crate::word::{Word, same_word};

verus! {

broadcast use vstd::std_specs::hash::group_hash_axioms;

/// What the cache knows of one surface text.
#[derive(Debug)]
pub struct WordIndex {
    pub surely_exists: bool,
    pub complete: bool,
    pub word_ids: Vec<i64>,
}

/// The model of an index entry: (surely exists, complete, ids).
pub type IndexModel = (bool, bool, Seq<i64>);

impl View for WordIndex {
    type V = IndexModel;

    open spec fn view(&self) -> IndexModel {
        (self.surely_exists, self.complete, self.word_ids@)
    }
}

/// The position of `t` among `texts`, if it is there.
pub open spec fn text_pos(texts: Seq<String>, t: Seq<char>) -> Option<int> {
    if exists|k: int| 0 <= k < texts.len() && (#[trigger] texts[k])@ == t {
        Some(choose|k: int| 0 <= k < texts.len() && (#[trigger] texts[k])@ == t)
    } else {
        None
    }
}

pub open spec fn no_dup_ids(ids: Seq<i64>) -> bool {
    forall|i: int, j: int| 0 <= i < j < ids.len() ==> ids[i] != ids[j]
}

/// The word cache.
pub struct Cache {
    words: HashMap<i64, Word>,
    texts: Vec<String>,
    entries: Vec<WordIndex>,
    text_index_has_all_words: bool,
}

proof fn lemma_text_pos_at(texts: Seq<String>, t: Seq<char>, k: int)
    requires
        0 <= k < texts.len(),
        texts[k]@ == t,
        forall|i: int, j: int| 0 <= i < j < texts.len() ==> texts[i]@ != texts[j]@,
    ensures
        text_pos(texts, t) == Some(k),
{
    let c = choose|c: int| 0 <= c < texts.len() && (#[trigger] texts[c])@ == t;
    if c < k {
        assert(texts[c]@ != texts[k]@);
    } else if c > k {
        assert(texts[k]@ != texts[c]@);
    }
}


proof fn lemma_text_pos_push(texts: Seq<String>, x: String, t: Seq<char>)
    requires
        forall|i: int, j: int| 0 <= i < j < texts.len() ==> texts[i]@ != texts[j]@,
        forall|i: int| 0 <= i < texts.len() ==> (#[trigger] texts[i])@ != x@,
        x@ != t,
    ensures
        text_pos(texts.push(x), t) == text_pos(texts, t),
{
    let p = texts.push(x);
    assert forall|i: int, j: int| 0 <= i < j < p.len() implies p[i]@ != p[j]@ by {
        if j < texts.len() {
            assert(p[i] == texts[i] && p[j] == texts[j]);
        } else {
            assert(p[i] == texts[i]);
        }
    }
    if exists|k: int| 0 <= k < texts.len() && (#[trigger] texts[k])@ == t {
        let k = choose|k: int| 0 <= k < texts.len() && (#[trigger] texts[k])@ == t;
        lemma_text_pos_at(texts, t, k);
        assert(p[k] == texts[k]);
        lemma_text_pos_at(p, t, k);
    } else {
        assert forall|k: int| 0 <= k < p.len() implies (#[trigger] p[k])@ != t by {
            if k < texts.len() {
                assert(p[k] == texts[k]);
            }
        }
    }
}

proof fn lemma_text_pos_some(texts: Seq<String>, t: Seq<char>)
    requires
        text_pos(texts, t) is Some,
    ensures
        ({
            let k = text_pos(texts, t)->0;
            0 <= k < texts.len() && texts[k]@ == t
        }),
{
}

impl Cache {
    pub closed spec fn words_view(&self) -> Map<i64, Word> {
        self.words@
    }

    pub closed spec fn has_all_words(&self) -> bool {
        self.text_index_has_all_words
    }

    /// What the cache knows of text `t`, if it has an entry for it.
    pub closed spec fn entry(&self, t: Seq<char>) -> Option<IndexModel> {
        match text_pos(self.texts@, t) {
            Some(k) => Some(self.entries@[k]@),
            None => None,
        }
    }

    /// Every cached word is listed under its text, every listed id is a
    /// cached word with that text, and no text or id is listed twice.
    pub closed spec fn well_formed(&self) -> bool {
        &&& self.texts.len() == self.entries.len()
        &&& forall|i: int, j: int| 0 <= i < j < self.texts.len() ==> (#[trigger] self.texts@[i])@ != (#[trigger] self.texts@[j])@
        &&& forall|id: i64| #[trigger] self.words@.contains_key(id) ==> (self.entry(self.words@[id].text@) matches Some(e) && e.2.contains(id))
        &&& forall|k: int, j: int| 0 <= k < self.entries.len() && 0 <= j < self.entries@[k].word_ids.len() ==> {
            let id = #[trigger] self.entries@[k].word_ids@[j];
            self.words@.contains_key(id) && self.words@[id].text@ == self.texts@[k]@
        }
        &&& forall|k: int| 0 <= k < self.entries.len() ==> no_dup_ids(#[trigger] self.entries@[k].word_ids@)
    }

    /// What the cache can say of whether text `t` has words.
    pub open spec fn exists_spec(&self, t: Seq<char>) -> Option<bool> {
        match self.entry(t) {
            None => if self.has_all_words() {
                Some(false)
            } else {
                None
            },
            Some(e) => if e.0 || e.2.len() > 0 {
                Some(true)
            } else if e.1 {
                Some(false)
            } else {
                None
            },
        }
    }

    /// The ids of all words with text `t`, where the cache knows them all.
    pub open spec fn all_ids_spec(&self, t: Seq<char>) -> Option<Seq<i64>> {
        match self.entry(t) {
            None => if self.has_all_words() {
                Some(Seq::<i64>::empty())
            } else {
                None
            },
            Some(e) => if e.1 {
                Some(e.2)
            } else {
                None
            },
        }
    }

    pub fn new() -> (r: Cache)
        ensures
            r.well_formed(),
            r.words_view() == Map::<i64, Word>::empty(),
            forall|t: Seq<char>| r.entry(t) is None,
            !r.has_all_words(),
    {
        let r = Cache {
            words: HashMap::new(),
            texts: Vec::new(),
            entries: Vec::new(),
            text_index_has_all_words: false,
        };
        assert(r.words@ =~= Map::<i64, Word>::empty());
        r
    }

    fn find_text(&self, t: &str) -> (r: Option<usize>)
        requires
            self.well_formed(),
        ensures
            match r {
                Some(k) => k < self.texts.len() && self.texts@[k as int]@ == t@ && text_pos(self.texts@, t@) == Some(k as int),
                None => text_pos(self.texts@, t@) is None,
            },
    {
        let ts = t.to_owned();
        let mut k: usize = 0;
        while k < self.texts.len()
            invariant
                k <= self.texts.len(),
                self.well_formed(),
                ts@ == t@,
                forall|i: int| 0 <= i < k ==> (#[trigger] self.texts@[i])@ != t@,
            decreases self.texts.len() - k,
        {
            if self.texts[k] == ts {
                proof {
                    lemma_text_pos_at(self.texts@, t@, k as int);
                }
                return Some(k);
            }
            k += 1;
        }
        None
    }

    /// The position of the entry for `t`, made empty if there was none.
    fn entry_index(&mut self, t: &str) -> (k: usize)
        requires
            old(self).well_formed(),
        ensures
            final(self).well_formed(),
            k < final(self).texts.len(),
            final(self).texts@[k as int]@ == t@,
            text_pos(final(self).texts@, t@) == Some(k as int),
            final(self).words == old(self).words,
            final(self).text_index_has_all_words == old(self).text_index_has_all_words,
            final(self).entry(t@) == Some(match old(self).entry(t@) {
                Some(e) => e,
                None => (false, false, Seq::<i64>::empty()),
            }),
            forall|u: Seq<char>| u != t@ ==> #[trigger] final(self).entry(u) == old(self).entry(u),
            old(self).entry(t@) is Some ==> final(self).texts == old(self).texts && final(self).entries == old(self).entries,
            old(self).entry(t@) is None ==> final(self).texts@ == old(self).texts@.push(final(self).texts@[k as int])
                && final(self).entries@.len() == old(self).entries@.len() + 1
                && final(self).entries@.drop_last() == old(self).entries@
                && final(self).entries@[k as int]@ == (false, false, Seq::<i64>::empty()),
    {
        match self.find_text(t) {
            Some(k) => k,
            None => {
                let ghost old_texts = self.texts@;
                let ghost old_entries = self.entries@;
                assert(forall|i: int| 0 <= i < old_texts.len() ==> (#[trigger] old_texts[i])@ != t@);
                let k = self.texts.len();
                let ts = t.to_owned();
                self.texts.push(ts);
                self.entries.push(WordIndex { surely_exists: false, complete: false, word_ids: Vec::new() });
                proof {
                    assert(self.texts@ == old_texts.push(ts));
                    assert(forall|i: int| 0 <= i < old_texts.len() ==> self.texts@[i] == old_texts[i]);
                    assert(forall|i: int| 0 <= i < old_entries.len() ==> self.entries@[i] == old_entries[i]);
                    assert forall|i: int, j: int| 0 <= i < j < self.texts.len() implies (#[trigger] self.texts@[i])@ != (#[trigger] self.texts@[j])@ by {
                        if j == k {
                            assert(old_texts[i]@ != t@);
                        }
                    }
                    lemma_text_pos_at(self.texts@, t@, k as int);
                    assert forall|u: Seq<char>| u != t@ implies #[trigger] self.entry(u) == old(self).entry(u) by {
                        lemma_text_pos_push(old_texts, ts, u);
                        if text_pos(old_texts, u) is Some {
                            lemma_text_pos_some(old_texts, u);
                        }
                    }
                    assert forall|id: i64| #[trigger] self.words@.contains_key(id) implies (self.entry(self.words@[id].text@) matches Some(e) && e.2.contains(id)) by {
                        let wt = self.words@[id].text@;
                        assert(old(self).entry(wt) matches Some(e) && e.2.contains(id));
                        assert(wt != t@);
                    }
                    assert forall|kk: int, j: int| 0 <= kk < self.entries.len() && 0 <= j < self.entries@[kk].word_ids.len() implies {
                        let id = #[trigger] self.entries@[kk].word_ids@[j];
                        self.words@.contains_key(id) && self.words@[id].text@ == self.texts@[kk]@
                    } by {
                        assert(kk < old_entries.len());
                        assert(self.entries@[kk] == old_entries[kk]);
                    }
                    assert forall|kk: int| 0 <= kk < self.entries.len() implies no_dup_ids(#[trigger] self.entries@[kk].word_ids@) by {
                        if kk < old_entries.len() {
                            assert(self.entries@[kk] == old_entries[kk]);
                        }
                    }
                    assert(self.entries@.drop_last() =~= old_entries);
                }
                k
            },
        }
    }

    /// Records that every word with text `text` is indexed.
    pub fn set_text_index_complete(&mut self, text: &str)
        requires
            old(self).well_formed(),
        ensures
            final(self).well_formed(),
            final(self).words_view() == old(self).words_view(),
            final(self).has_all_words() == old(self).has_all_words(),
            final(self).entry(text@) == Some(match old(self).entry(text@) {
                Some(e) => (e.0, true, e.2),
                None => (false, true, Seq::<i64>::empty()),
            }),
            forall|u: Seq<char>| u != text@ ==> #[trigger] final(self).entry(u) == old(self).entry(u),
    {
        let k = self.entry_index(text);
        let ghost mid = *self;
        let old_e = &self.entries[k];
        let e = WordIndex {
            surely_exists: old_e.surely_exists,
            complete: true,
            word_ids: copy_ids(&old_e.word_ids),
        };
        self.entries.set(k, e);
        proof {
            lemma_entry_set(mid, *self, k as int);
        }
    }

    /// Records that every word of the store is indexed.
    pub fn set_text_index_has_all_words(&mut self)
        requires
            old(self).well_formed(),
        ensures
            final(self).well_formed(),
            final(self).words_view() == old(self).words_view(),
            final(self).has_all_words(),
            forall|u: Seq<char>| #[trigger] final(self).entry(u) == old(self).entry(u),
    {
        self.text_index_has_all_words = true;
    }

    /// Drops the "complete" mark of `text`.
    pub fn invalidate_text_index_complete(&mut self, text: &str)
        requires
            old(self).well_formed(),
        ensures
            final(self).well_formed(),
            final(self).words_view() == old(self).words_view(),
            final(self).has_all_words() == old(self).has_all_words(),
            final(self).entry(text@) == match old(self).entry(text@) {
                Some(e) => Some((e.0, false, e.2)),
                None => None,
            },
            forall|u: Seq<char>| u != text@ ==> #[trigger] final(self).entry(u) == old(self).entry(u),
    {
        match self.find_text(text) {
            None => {},
            Some(k) => {
                let ghost mid = *self;
                let old_e = &self.entries[k];
                let e = WordIndex {
                    surely_exists: old_e.surely_exists,
                    complete: false,
                    word_ids: copy_ids(&old_e.word_ids),
                };
                self.entries.set(k, e);
                proof {
                    lemma_entry_set(mid, *self, k as int);
                }
            },
        }
    }

    /// Drops both marks of `text`.
    pub fn invalidate_text_index_flags(&mut self, text: &str)
        requires
            old(self).well_formed(),
        ensures
            final(self).well_formed(),
            final(self).words_view() == old(self).words_view(),
            final(self).has_all_words() == old(self).has_all_words(),
            final(self).entry(text@) == match old(self).entry(text@) {
                Some(e) => Some((false, false, e.2)),
                None => None,
            },
            forall|u: Seq<char>| u != text@ ==> #[trigger] final(self).entry(u) == old(self).entry(u),
    {
        match self.find_text(text) {
            None => {},
            Some(k) => {
                let ghost mid = *self;
                let old_e = &self.entries[k];
                let e = WordIndex {
                    surely_exists: false,
                    complete: false,
                    word_ids: copy_ids(&old_e.word_ids),
                };
                self.entries.set(k, e);
                proof {
                    lemma_entry_set(mid, *self, k as int);
                }
            },
        }
    }

    /// Records whether text `text` has words. When it has none, its cached
    /// words are dropped and the entry is marked complete and empty.
    pub fn set_word_exists(&mut self, text: &str, exists: bool)
        requires
            old(self).well_formed(),
        ensures
            final(self).well_formed(),
            final(self).has_all_words() == old(self).has_all_words(),
            forall|u: Seq<char>| u != text@ ==> #[trigger] final(self).entry(u) == old(self).entry(u),
            exists ==> final(self).words_view() == old(self).words_view(),
            exists ==> final(self).entry(text@) == Some(match old(self).entry(text@) {
                Some(e) => (true, e.1, e.2),
                None => (true, false, Seq::<i64>::empty()),
            }),
            !exists ==> final(self).entry(text@) == Some((false, true, Seq::<i64>::empty())),
            !exists ==> forall|id: i64| #[trigger] final(self).words_view().contains_key(id) <==> (
                old(self).words_view().contains_key(id) && old(self).words_view()[id].text@ != text@),
            !exists ==> forall|id: i64| #[trigger] final(self).words_view().contains_key(id) ==> final(self).words_view()[id]
                == old(self).words_view()[id],
            !exists ==> forall|id: i64| #[trigger] ids_of(old(self).entry(text@)).contains(id)
                ==> !final(self).words_view().contains_key(id),
    {
        let k = self.entry_index(text);
        if exists {
            let ghost mid = *self;
            let old_e = &self.entries[k];
            let e = WordIndex {
                surely_exists: true,
                complete: old_e.complete,
                word_ids: copy_ids(&old_e.word_ids),
            };
            self.entries.set(k, e);
            proof {
                lemma_entry_set(mid, *self, k as int);
            }
        } else {
            let ghost mid = *self;
            let ids = copy_ids(&self.entries[k].word_ids);
            let mut i: usize = 0;
            while i < ids.len()
                invariant
                    mid.well_formed(),
                    k < mid.entries.len(),
                    mid.texts@[k as int]@ == text@,
                    ids@ == mid.entries@[k as int].word_ids@,
                    i <= ids.len(),
                    self.texts == mid.texts,
                    self.entries == mid.entries,
                    self.text_index_has_all_words == mid.text_index_has_all_words,
                    forall|id: i64| #[trigger] self.words@.contains_key(id) <==> (mid.words@.contains_key(id)
                        && !ids@.take(i as int).contains(id)),
                    forall|id: i64| #[trigger] self.words@.contains_key(id) ==> self.words@[id] == mid.words@[id],
                decreases ids.len() - i,
            {
                let id = ids[i];
                self.words.remove(&id);
                proof {
                    assert(ids@.take(i + 1) =~= ids@.take(i as int).push(id));
                    lemma_push_contains(ids@.take(i as int), id);
                }
                i += 1;
            }
            assert(ids@.take(i as int) =~= ids@);
            let e = WordIndex { surely_exists: false, complete: true, word_ids: Vec::new() };
            self.entries.set(k, e);
            proof {
                lemma_text_pos_at(mid.texts@, text@, k as int);
                assert(mid.entry(text@) == Some(mid.entries@[k as int]@));
                assert(ids_of(old(self).entry(text@)) == ids@ || ids_of(old(self).entry(text@)).len() == 0);
                assert forall|id: i64| mid.words@.contains_key(id) implies (ids@.contains(id) <==> mid.words@[id].text@ == text@) by {
                    let wt = mid.words@[id].text@;
                    assert(mid.entry(wt) matches Some(e) && e.2.contains(id));
                    if ids@.contains(id) {
                        let j = choose|j: int| 0 <= j < ids@.len() && ids@[j] == id;
                        assert(mid.entries@[k as int].word_ids@[j] == id);
                    }
                    if wt == text@ {
                        assert(mid.entry(wt) == Some(mid.entries@[k as int]@));
                    }
                }
                assert forall|u: Seq<char>| u != text@ implies #[trigger] self.entry(u) == mid.entry(u) by {
                    if text_pos(mid.texts@, u) is Some {
                        lemma_text_pos_some(mid.texts@, u);
                    }
                }
                assert forall|id: i64| #[trigger] self.words@.contains_key(id) implies (self.entry(self.words@[id].text@) matches Some(e) && e.2.contains(id)) by {
                    let wt = mid.words@[id].text@;
                    assert(mid.entry(wt) matches Some(e) && e.2.contains(id));
                    assert(wt != text@);
                }
                assert forall|kk: int, j: int| 0 <= kk < self.entries.len() && 0 <= j < self.entries@[kk].word_ids.len() implies {
                    let id = #[trigger] self.entries@[kk].word_ids@[j];
                    self.words@.contains_key(id) && self.words@[id].text@ == self.texts@[kk]@
                } by {
                    assert(self.entries@[k as int].word_ids@.len() == 0);
                    assert(kk != k);
                    assert(self.entries@[kk] == mid.entries@[kk]);
                    let id = mid.entries@[kk].word_ids@[j];
                    assert(mid.words@.contains_key(id) && mid.words@[id].text@ == mid.texts@[kk]@);
                    assert(mid.texts@[kk]@ != mid.texts@[k as int]@);
                    assert(!ids@.contains(id));
                    assert(self.words@.contains_key(id));
                }
                assert forall|kk: int| 0 <= kk < self.entries.len() implies no_dup_ids(#[trigger] self.entries@[kk].word_ids@) by {
                    if kk != k {
                        assert(self.entries@[kk] == mid.entries@[kk]);
                    }
                }
                lemma_text_pos_at(self.texts@, text@, k as int);
            }
        }
    }

    /// Drops the word with id `word_id`, and the marks of its text.
    pub fn invalidate_by_id(&mut self, word_id: i64)
        requires
            old(self).well_formed(),
        ensures
            final(self).well_formed(),
            final(self).has_all_words() == old(self).has_all_words(),
            final(self).words_view() == old(self).words_view().remove(word_id),
            !old(self).words_view().contains_key(word_id) ==> forall|u: Seq<char>| #[trigger] final(self).entry(u) == old(self).entry(u),
            old(self).words_view().contains_key(word_id) ==> ({
                let t = old(self).words_view()[word_id].text@;
                &&& final(self).entry(t) == Some((false, false, without(ids_of(old(self).entry(t)), word_id)))
                &&& forall|u: Seq<char>| u != t ==> #[trigger] final(self).entry(u) == old(self).entry(u)
            }),
    {
        let ghost mid = *self;
        let text = match self.words.get(&word_id) {
            None => {
                assert(self.words@ =~= mid.words@.remove(word_id));
                return;
            },
            Some(word) => word.text.clone(),
        };
        let ghost t = text@;
        proof {
            assert(mid.entry(t) matches Some(e) && e.2.contains(word_id));
        }
        match self.find_text(text.as_str()) {
            None => {
                assert(false);
            },
            Some(k) => {
                self.words.remove(&word_id);
                let ids = remove_id(&self.entries[k].word_ids, word_id);
                let e = WordIndex { surely_exists: false, complete: false, word_ids: ids };
                self.entries.set(k, e);
                proof {
                    assert(self.words@ =~= mid.words@.remove(word_id));
                    lemma_text_pos_at(mid.texts@, t, k as int);
                    lemma_without(mid.entries@[k as int].word_ids@, word_id);
                    assert forall|u: Seq<char>| u != t implies #[trigger] self.entry(u) == mid.entry(u) by {
                        if text_pos(mid.texts@, u) is Some {
                            lemma_text_pos_some(mid.texts@, u);
                        }
                    }
                    assert forall|id: i64| #[trigger] self.words@.contains_key(id) implies (self.entry(self.words@[id].text@) matches Some(e) && e.2.contains(id)) by {
                        let wt = mid.words@[id].text@;
                        assert(mid.entry(wt) matches Some(e) && e.2.contains(id));
                    }
                    assert forall|kk: int, j: int| 0 <= kk < self.entries.len() && 0 <= j < self.entries@[kk].word_ids.len() implies {
                        let id = #[trigger] self.entries@[kk].word_ids@[j];
                        self.words@.contains_key(id) && self.words@[id].text@ == self.texts@[kk]@
                    } by {
                        if kk == k {
                            let id = self.entries@[kk].word_ids@[j];
                            assert(self.entries@[kk].word_ids@.contains(id));
                            assert(without(mid.entries@[k as int].word_ids@, word_id).contains(id));
                            let jj = choose|jj: int| 0 <= jj < mid.entries@[k as int].word_ids@.len() && mid.entries@[k as int].word_ids@[jj] == id;
                            assert(mid.entries@[k as int].word_ids@[jj] == id);
                        } else {
                            assert(self.entries@[kk] == mid.entries@[kk]);
                            let id = mid.entries@[kk].word_ids@[j];
                            assert(mid.words@.contains_key(id) && mid.words@[id].text@ == mid.texts@[kk]@);
                            assert(mid.texts@[kk]@ != mid.texts@[k as int]@);
                        }
                    }
                    assert forall|kk: int| 0 <= kk < self.entries.len() implies no_dup_ids(#[trigger] self.entries@[kk].word_ids@) by {
                        if kk != k {
                            assert(self.entries@[kk] == mid.entries@[kk]);
                        }
                    }
                    lemma_text_pos_at(self.texts@, t, k as int);
                }
            },
        }
    }

    /// What the entry for the text of a word newly filed under `id` becomes.
    pub open spec fn filed_entry(e: Option<IndexModel>, id: i64) -> Option<IndexModel> {
        Some(match e {
            Some(e) => (true, e.1, e.2.push(id)),
            None => (true, false, seq![id]),
        })
    }

    /// Caches `word` under its id, if it has one. A word that held the id
    /// under another text is dropped first; a new id is listed under the
    /// word's text, which is then known to have words.
    pub fn insert_word(&mut self, word: &Word)
        requires
            old(self).well_formed(),
        ensures
            final(self).well_formed(),
            final(self).has_all_words() == old(self).has_all_words(),
            word.id is None ==> final(self).words_view() == old(self).words_view() && forall|u: Seq<char>|
                #[trigger] final(self).entry(u) == old(self).entry(u),
            word.id matches Some(id) ==> final(self).words_view().contains_key(id) && same_word(
                *word,
                final(self).words_view()[id],
            ) && final(self).words_view().remove(id) == old(self).words_view().remove(id),
            word.id matches Some(id) ==> (old(self).words_view().contains_key(id)
                && old(self).words_view()[id].text@ == word.text@) ==> forall|u: Seq<char>|
                #[trigger] final(self).entry(u) == old(self).entry(u),
            word.id matches Some(id) ==> !old(self).words_view().contains_key(id) ==> final(self).entry(word.text@)
                == Self::filed_entry(old(self).entry(word.text@), id) && forall|u: Seq<char>|
                u != word.text@ ==> #[trigger] final(self).entry(u) == old(self).entry(u),
            word.id matches Some(id) ==> (old(self).words_view().contains_key(id)
                && old(self).words_view()[id].text@ != word.text@) ==> ({
                let t0 = old(self).words_view()[id].text@;
                &&& final(self).entry(word.text@) == Self::filed_entry(old(self).entry(word.text@), id)
                &&& final(self).entry(t0) == Some((false, false, without(ids_of(old(self).entry(t0)), id)))
                &&& forall|u: Seq<char>| u != word.text@ && u != t0 ==> #[trigger] final(self).entry(u) == old(self).entry(u)
            }),
            word.id matches Some(id) ==> !old(self).words_view().contains_key(id) ==> (entry_complete(old(self).entry(word.text@))
                ==> final(self).all_ids_spec(word.text@) == Some(ids_of(old(self).entry(word.text@)).push(id))),
    {
        let id = match word.id {
            Some(id) => id,
            None => {
                return;
            },
        };
        let ghost start = *self;
        let same = match self.words.get(&id) {
            Some(existing) => Some(existing.text == word.text),
            None => None,
        };
        match same {
            Some(true) => {
                let ghost mid = *self;
                self.words.insert(id, word.duplicate());
                proof {
                    assert(self.words@.remove(id) =~= mid.words@.remove(id));
                    assert forall|i: i64| #[trigger] self.words@.contains_key(i) implies (self.entry(self.words@[i].text@) matches Some(e) && e.2.contains(i)) by {
                        assert(mid.words@.contains_key(i));
                        assert(mid.entry(mid.words@[i].text@) matches Some(e) && e.2.contains(i));
                    }
                    assert forall|kk: int, j: int| 0 <= kk < self.entries.len() && 0 <= j < self.entries@[kk].word_ids.len() implies {
                        let i = #[trigger] self.entries@[kk].word_ids@[j];
                        self.words@.contains_key(i) && self.words@[i].text@ == self.texts@[kk]@
                    } by {
                        let i = self.entries@[kk].word_ids@[j];
                        assert(mid.words@.contains_key(i) && mid.words@[i].text@ == mid.texts@[kk]@);
                    }
                }
                return;
            },
            Some(false) => {
                self.invalidate_by_id(id);
            },
            None => {},
        }
        let ghost after_inv = *self;
        assert(!self.words@.contains_key(id));
        let k = self.entry_index(word.text.as_str());
        let ghost mid = *self;
        self.words.insert(id, word.duplicate());
        let old_e = &self.entries[k];
        let found = contains_id(&old_e.word_ids, id);
        if found {
            proof {
                let j = choose|j: int| 0 <= j < mid.entries@[k as int].word_ids@.len() && mid.entries@[k as int].word_ids@[j] == id;
                assert(mid.words@.contains_key(mid.entries@[k as int].word_ids@[j]));
            }
            return;
        }
        let mut ids = copy_ids(&old_e.word_ids);
        ids.push(id);
        let e = WordIndex { surely_exists: true, complete: old_e.complete, word_ids: ids };
        self.entries.set(k, e);
        proof {
            let t = word.text@;
            lemma_text_pos_at(self.texts@, t, k as int);
            lemma_push_contains(mid.entries@[k as int].word_ids@, id);
            assert(self.words@.remove(id) =~= after_inv.words@.remove(id));
            assert forall|u: Seq<char>| u != t implies #[trigger] self.entry(u) == mid.entry(u) by {
                if text_pos(mid.texts@, u) is Some {
                    lemma_text_pos_some(mid.texts@, u);
                }
            }
            assert forall|i: i64| #[trigger] self.words@.contains_key(i) implies (self.entry(self.words@[i].text@) matches Some(e) && e.2.contains(i)) by {
                if i != id {
                    assert(mid.words@.contains_key(i));
                    assert(mid.entry(mid.words@[i].text@) matches Some(e) && e.2.contains(i));
                }
            }
            assert forall|kk: int, j: int| 0 <= kk < self.entries.len() && 0 <= j < self.entries@[kk].word_ids.len() implies {
                let i = #[trigger] self.entries@[kk].word_ids@[j];
                self.words@.contains_key(i) && self.words@[i].text@ == self.texts@[kk]@
            } by {
                let i = self.entries@[kk].word_ids@[j];
                if kk == k {
                    if j < mid.entries@[k as int].word_ids@.len() {
                        assert(mid.entries@[k as int].word_ids@[j] == i);
                        assert(mid.words@.contains_key(i));
                    }
                } else {
                    assert(self.entries@[kk] == mid.entries@[kk]);
                    assert(mid.entries@[kk].word_ids@[j] == i);
                    assert(mid.words@.contains_key(i) && mid.words@[i].text@ == mid.texts@[kk]@);
                }
            }
            assert forall|kk: int| 0 <= kk < self.entries.len() implies no_dup_ids(#[trigger] self.entries@[kk].word_ids@) by {
                if kk != k {
                    assert(self.entries@[kk] == mid.entries@[kk]);
                } else {
                    let w = self.entries@[kk].word_ids@;
                    assert forall|a: int, b: int| 0 <= a < b < w.len() implies w[a] != w[b] by {
                        if b == w.len() - 1 {
                            assert(w[a] == mid.entries@[k as int].word_ids@[a]);
                            assert(mid.entries@[k as int].word_ids@.contains(w[a]));
                        } else {
                            assert(w[a] == mid.entries@[k as int].word_ids@[a]);
                            assert(w[b] == mid.entries@[k as int].word_ids@[b]);
                        }
                    }
                }
            }
        }
    }

    /// Files the words a store returned for text `text`, all of them, and
    /// marks the text complete.
    pub fn record_text_words(&mut self, text: &str, words: &Vec<Word>)
        requires
            old(self).well_formed(),
        ensures
            final(self).well_formed(),
            final(self).has_all_words() == old(self).has_all_words(),
            entry_complete(final(self).entry(text@)),
            forall|i: int| 0 <= i < words.len() ==> ((#[trigger] words@[i]).id matches Some(id)
                ==> final(self).words_view().contains_key(id)),
            fresh_ids(words@, old(self).words_view()) && distinct_ids(words@) ==> ids_of(final(self).entry(text@))
                == ids_of(old(self).entry(text@)) + ids_with_text(words@, text@),
            fresh_ids(words@, old(self).words_view()) && distinct_ids(words@) ==> forall|u: Seq<char>|
                u != text@ && no_word_with_text(words@, u) ==> #[trigger] final(self).entry(u) == old(self).entry(u),
    {
        self.insert_all(words);
        self.set_text_index_complete(text);
    }

    /// Files every word of the store, marks each of their texts complete,
    /// and records that the cache holds every word.
    pub fn record_all_words(&mut self, words: &Vec<Word>)
        requires
            old(self).well_formed(),
        ensures
            final(self).well_formed(),
            final(self).has_all_words(),
            forall|i: int| 0 <= i < words.len() ==> ((#[trigger] words@[i]).id matches Some(id)
                ==> final(self).words_view().contains_key(id)),
            forall|i: int| 0 <= i < words.len() ==> entry_complete(final(self).entry((#[trigger] words@[i]).text@)),
            fresh_ids(words@, old(self).words_view()) && distinct_ids(words@) ==> forall|u: Seq<char>|
                ids_of(#[trigger] final(self).entry(u)) == ids_of(old(self).entry(u)) + ids_with_text(words@, u),
            fresh_ids(words@, old(self).words_view()) && distinct_ids(words@) ==> forall|u: Seq<char>|
                no_word_with_text(words@, u) ==> #[trigger] final(self).entry(u) == old(self).entry(u),
    {
        self.insert_all(words);
        let ghost mid = *self;
        let mut i: usize = 0;
        while i < words.len()
            invariant
                i <= words.len(),
                self.well_formed(),
                forall|j: int| 0 <= j < words.len() ==> ((#[trigger] words@[j]).id matches Some(id)
                    ==> self.words_view().contains_key(id)),
                forall|j: int| 0 <= j < i ==> entry_complete(self.entry((#[trigger] words@[j]).text@)),
                forall|u: Seq<char>| ids_of(#[trigger] self.entry(u)) == ids_of(mid.entry(u)),
                forall|u: Seq<char>| no_word_with_text(words@, u) ==> #[trigger] self.entry(u) == mid.entry(u),
            decreases words.len() - i,
        {
            let ghost before = *self;
            self.set_text_index_complete(words[i].text.as_str());
            proof {
                assert forall|j: int| 0 <= j <= i implies entry_complete(self.entry((#[trigger] words@[j]).text@)) by {
                    if words@[j].text@ != words@[i as int].text@ {
                        assert(self.entry(words@[j].text@) == before.entry(words@[j].text@));
                    }
                }
                assert forall|u: Seq<char>| ids_of(#[trigger] self.entry(u)) == ids_of(mid.entry(u)) by {
                    if u != words@[i as int].text@ {
                        assert(self.entry(u) == before.entry(u));
                    }
                }
                assert forall|u: Seq<char>| no_word_with_text(words@, u) implies #[trigger] self.entry(u) == mid.entry(u) by {
                    assert(words@[i as int].text@ != u);
                }
            }
            i += 1;
        }
        self.set_text_index_has_all_words();
    }

    fn insert_all(&mut self, words: &Vec<Word>)
        requires
            old(self).well_formed(),
        ensures
            final(self).well_formed(),
            final(self).has_all_words() == old(self).has_all_words(),
            forall|i: int| 0 <= i < words.len() ==> ((#[trigger] words@[i]).id matches Some(id)
                ==> final(self).words_view().contains_key(id)),
            fresh_ids(words@, old(self).words_view()) && distinct_ids(words@) ==> forall|u: Seq<char>|
                ids_of(#[trigger] final(self).entry(u)) == ids_of(old(self).entry(u)) + ids_with_text(words@, u),
            fresh_ids(words@, old(self).words_view()) && distinct_ids(words@) ==> forall|u: Seq<char>|
                no_word_with_text(words@, u) ==> #[trigger] final(self).entry(u) == old(self).entry(u),
    {
        let ghost f = fresh_ids(words@, old(self).words_view()) && distinct_ids(words@);
        let mut i: usize = 0;
        assert forall|u: Seq<char>| ids_of(#[trigger] self.entry(u)) == ids_of(old(self).entry(u)) + ids_with_text(words@.take(0), u) by {
            assert(words@.take(0) =~= Seq::<Word>::empty());
            assert(ids_of(self.entry(u)) + Seq::<i64>::empty() =~= ids_of(self.entry(u)));
        }
        while i < words.len()
            invariant
                i <= words.len(),
                self.well_formed(),
                self.has_all_words() == old(self).has_all_words(),
                f == (fresh_ids(words@, old(self).words_view()) && distinct_ids(words@)),
                forall|j: int| 0 <= j < i ==> ((#[trigger] words@[j]).id matches Some(id)
                    ==> self.words_view().contains_key(id)),
                f ==> forall|j: int| i <= j < words.len() ==> ((#[trigger] words@[j]).id matches Some(id)
                    ==> !self.words_view().contains_key(id)),
                f ==> forall|u: Seq<char>| ids_of(#[trigger] self.entry(u)) == ids_of(old(self).entry(u)) + ids_with_text(words@.take(i as int), u),
                f ==> forall|u: Seq<char>| no_word_with_text(words@.take(i as int), u) ==> #[trigger] self.entry(u) == old(self).entry(u),
            decreases words.len() - i,
        {
            let ghost before = *self;
            let ghost w = words@[i as int];
            self.insert_word(&words[i]);
            proof {
                assert(words@.take(i + 1).drop_last() =~= words@.take(i as int));
                assert(words@.take(i + 1).last() == w);
                assert forall|j: int| 0 <= j <= i implies ((#[trigger] words@[j]).id matches Some(id)
                    ==> self.words_view().contains_key(id)) by {
                    if let Some(id) = words@[j].id {
                        if j < i {
                            match words@[i as int].id {
                                Some(id2) => {
                                    if id != id2 {
                                        assert(before.words_view().remove(id2).contains_key(id));
                                        assert(self.words_view().remove(id2).contains_key(id));
                                    }
                                },
                                None => {
                                    assert(self.words_view() == before.words_view());
                                },
                            }
                        }
                    }
                }
                if f {
                    assert forall|j: int| i + 1 <= j < words.len() implies ((#[trigger] words@[j]).id matches Some(id)
                        ==> !self.words_view().contains_key(id)) by {
                        if let Some(id) = words@[j].id {
                            assert(!before.words_view().contains_key(id));
                            match w.id {
                                Some(id2) => {
                                    assert(id != id2);
                                    assert(!before.words_view().remove(id2).contains_key(id));
                                    assert(!self.words_view().remove(id2).contains_key(id));
                                },
                                None => {},
                            }
                        }
                    }
                    assert forall|u: Seq<char>| ids_of(#[trigger] self.entry(u)) == ids_of(old(self).entry(u)) + ids_with_text(words@.take(i + 1), u) by {
                        match w.id {
                            Some(id) => {
                                assert(!before.words_view().contains_key(id));
                                if u == w.text@ {
                                    assert(ids_of(Self::filed_entry(before.entry(u), id)) =~= ids_of(before.entry(u)).push(id));
                                    assert(ids_of(old(self).entry(u)) + ids_with_text(words@.take(i + 1), u) =~= (ids_of(old(self).entry(u)) + ids_with_text(words@.take(i as int), u)).push(id));
                                }
                            },
                            None => {},
                        }
                    }
                    assert forall|u: Seq<char>| no_word_with_text(words@.take(i + 1), u) implies #[trigger] self.entry(u) == old(self).entry(u) by {
                        assert(words@.take(i + 1)[i as int] == w);
                        assert(no_word_with_text(words@.take(i as int), u)) by {
                            assert forall|j: int| 0 <= j < i implies (#[trigger] words@.take(i as int)[j]).text@ != u by {
                                assert(words@.take(i + 1)[j] == words@.take(i as int)[j]);
                            }
                        }
                    }
                }
            }
            i += 1;
        }
        assert(words@.take(i as int) =~= words@);
    }

    /// Whether text `text` has words: `Some(true)`, `Some(false)`, or `None`
    /// when only the store can tell.
    pub fn exists_by_text(&self, text: &str) -> (r: Option<bool>)
        requires
            self.well_formed(),
        ensures
            r == self.exists_spec(text@),
    {
        match self.find_text(text) {
            None => {
                if self.text_index_has_all_words {
                    Some(false)
                } else {
                    None
                }
            },
            Some(k) => {
                let e = &self.entries[k];
                if e.surely_exists || e.word_ids.len() > 0 {
                    Some(true)
                } else if e.complete {
                    Some(false)
                } else {
                    None
                }
            },
        }
    }

    /// The cached word with id `id`; `None` when the store must be asked.
    pub fn find_word_by_id(&self, id: i64) -> (r: Option<Word>)
        ensures
            match r {
                Some(w) => self.words_view().contains_key(id) && same_word(self.words_view()[id], w),
                None => !self.words_view().contains_key(id),
            },
    {
        match self.words.get(&id) {
            Some(w) => Some(w.duplicate()),
            None => None,
        }
    }

    /// All words with text `text`, in index order; `None` when the cache
    /// does not know that it holds them all.
    pub fn find_all_words_by_text(&self, text: &str) -> (r: Option<Vec<Word>>)
        requires
            self.well_formed(),
        ensures
            match self.all_ids_spec(text@) {
                None => r is None,
                Some(ids) => r matches Some(ws) && ws.len() == ids.len() && forall|i: int|
                    0 <= i < ids.len() ==> self.words_view().contains_key(ids[i]) && same_word(
                        self.words_view()[ids[i]],
                        #[trigger] ws@[i],
                    ),
            },
    {
        match self.find_text(text) {
            None => {
                if self.text_index_has_all_words {
                    Some(Vec::new())
                } else {
                    None
                }
            },
            Some(k) => {
                let e = &self.entries[k];
                if !e.complete {
                    return None;
                }
                let mut out: Vec<Word> = Vec::new();
                let mut i: usize = 0;
                while i < e.word_ids.len()
                    invariant
                        self.well_formed(),
                        k < self.entries.len(),
                        e == &self.entries@[k as int],
                        i <= e.word_ids.len(),
                        out.len() == i,
                        forall|j: int| 0 <= j < i ==> self.words@.contains_key(e.word_ids@[j]) && same_word(
                            self.words@[e.word_ids@[j]],
                            #[trigger] out@[j],
                        ),
                    decreases e.word_ids.len() - i,
                {
                    let id = e.word_ids[i];
                    assert(self.entries@[k as int].word_ids@[i as int] == id);
                    match self.words.get(&id) {
                        Some(w) => {
                            out.push(w.duplicate());
                        },
                        None => {
                            return None;
                        },
                    }
                    i += 1;
                }
                Some(out)
            },
        }
    }
}

/// Replacing one entry by one with the same ids changes what is known of
/// that entry's text only.
proof fn lemma_entry_set(a: Cache, b: Cache, k: int)
    requires
        a.well_formed(),
        0 <= k < a.entries.len(),
        b.words == a.words,
        b.texts == a.texts,
        b.text_index_has_all_words == a.text_index_has_all_words,
        b.entries@ == a.entries@.update(k, b.entries@[k]),
        b.entries@[k].word_ids@ == a.entries@[k].word_ids@,
    ensures
        b.well_formed(),
        b.entry(a.texts@[k]@) == Some(b.entries@[k]@),
        forall|u: Seq<char>| u != a.texts@[k]@ ==> #[trigger] b.entry(u) == a.entry(u),
{
    lemma_text_pos_at(a.texts@, a.texts@[k]@, k);
    assert forall|u: Seq<char>| u != a.texts@[k]@ implies #[trigger] b.entry(u) == a.entry(u) by {
        if text_pos(a.texts@, u) is Some {
            lemma_text_pos_some(a.texts@, u);
        }
    }
    assert forall|id: i64| #[trigger] b.words@.contains_key(id) implies (b.entry(b.words@[id].text@) matches Some(e) && e.2.contains(id)) by {
        assert(a.entry(a.words@[id].text@) matches Some(e) && e.2.contains(id));
        let wt = a.words@[id].text@;
        if wt == a.texts@[k]@ {
        } else {
        }
    }
    assert forall|kk: int, j: int| 0 <= kk < b.entries.len() && 0 <= j < b.entries@[kk].word_ids.len() implies {
        let id = #[trigger] b.entries@[kk].word_ids@[j];
        b.words@.contains_key(id) && b.words@[id].text@ == b.texts@[kk]@
    } by {
        assert(b.entries@[kk].word_ids@ == a.entries@[kk].word_ids@);
        assert(a.entries@[kk].word_ids@[j] == b.entries@[kk].word_ids@[j]);
    }
    assert forall|kk: int| 0 <= kk < b.entries.len() implies no_dup_ids(#[trigger] b.entries@[kk].word_ids@) by {
        assert(b.entries@[kk].word_ids@ == a.entries@[kk].word_ids@);
    }
}

/// A copy of a list of ids.
pub fn copy_ids(v: &Vec<i64>) -> (r: Vec<i64>)
    ensures
        r@ == v@,
{
    let mut r: Vec<i64> = Vec::new();
    let mut i: usize = 0;
    while i < v.len()
        invariant
            i <= v.len(),
            r@ == v@.take(i as int),
        decreases v.len() - i,
    {
        r.push(v[i]);
        i += 1;
        assert(r@ =~= v@.take(i as int));
    }
    assert(v@.take(i as int) =~= v@);
    r
}

/// An entry that exists and is marked complete.
pub open spec fn entry_complete(e: Option<IndexModel>) -> bool {
    match e {
        Some(e) => e.1,
        None => false,
    }
}

/// The ids of an entry; none for a missing one.
pub open spec fn ids_of(e: Option<IndexModel>) -> Seq<i64> {
    match e {
        Some(e) => e.2,
        None => Seq::<i64>::empty(),
    }
}

/// `ids` without `id`.
pub open spec fn without(ids: Seq<i64>, id: i64) -> Seq<i64>
    decreases ids.len(),
{
    if ids.len() == 0 {
        ids
    } else {
        let r = without(ids.drop_last(), id);
        if ids.last() == id {
            r
        } else {
            r.push(ids.last())
        }
    }
}

proof fn lemma_push_contains(s: Seq<i64>, a: i64)
    ensures
        forall|x: i64| #[trigger] s.push(a).contains(x) <==> (s.contains(x) || x == a),
{
    assert forall|x: i64| #[trigger] s.push(a).contains(x) <==> (s.contains(x) || x == a) by {
        if s.push(a).contains(x) {
            let j = choose|j: int| 0 <= j < s.len() + 1 && s.push(a)[j] == x;
            if j < s.len() {
                assert(s[j] == x);
            }
        }
        if s.contains(x) {
            let j = choose|j: int| 0 <= j < s.len() && s[j] == x;
            assert(s.push(a)[j] == x);
        }
        if x == a {
            assert(s.push(a)[s.len() as int] == x);
        }
    }
}

proof fn lemma_without(ids: Seq<i64>, id: i64)
    ensures
        forall|x: i64| #[trigger] without(ids, id).contains(x) <==> (ids.contains(x) && x != id),
        no_dup_ids(ids) ==> no_dup_ids(without(ids, id)),
    decreases ids.len(),
{
    if ids.len() > 0 {
        let d = ids.drop_last();
        lemma_without(d, id);
        assert(ids =~= d.push(ids.last()));
        lemma_push_contains(d, ids.last());
        if ids.last() != id {
            lemma_push_contains(without(d, id), ids.last());
        }
        if no_dup_ids(ids) {
            assert(no_dup_ids(d));
            if ids.last() != id {
                assert(!d.contains(ids.last()));
                assert(!without(d, id).contains(ids.last()));
                let w = without(d, id).push(ids.last());
                assert forall|a: int, b: int| 0 <= a < b < w.len() implies w[a] != w[b] by {
                    if b == w.len() - 1 {
                        assert(w[a] == without(d, id)[a]);
                        assert(without(d, id).contains(w[a]));
                    }
                }
            }
        }
    } else {
        assert forall|x: i64| #[trigger] without(ids, id).contains(x) <==> (ids.contains(x) && x != id) by {
        }
    }
}

/// `ids` without `id`.
pub fn remove_id(ids: &Vec<i64>, id: i64) -> (r: Vec<i64>)
    ensures
        r@ == without(ids@, id),
{
    let mut r: Vec<i64> = Vec::new();
    let mut i: usize = 0;
    while i < ids.len()
        invariant
            i <= ids.len(),
            r@ == without(ids@.take(i as int), id),
        decreases ids.len() - i,
    {
        assert(ids@.take(i + 1).drop_last() =~= ids@.take(i as int));
        if ids[i] != id {
            r.push(ids[i]);
        }
        i += 1;
    }
    assert(ids@.take(i as int) =~= ids@);
    r
}

/// Whether `ids` holds `id`.
pub fn contains_id(ids: &Vec<i64>, id: i64) -> (r: bool)
    ensures
        r == ids@.contains(id),
{
    let mut i: usize = 0;
    while i < ids.len()
        invariant
            i <= ids.len(),
            forall|j: int| 0 <= j < i ==> ids@[j] != id,
        decreases ids.len() - i,
    {
        if ids[i] == id {
            return true;
        }
        i += 1;
    }
    false
}

/// No word of `ws` has an id the cache holds already.
pub open spec fn fresh_ids(ws: Seq<Word>, words: Map<i64, Word>) -> bool {
    forall|i: int| 0 <= i < ws.len() ==> ((#[trigger] ws[i]).id matches Some(id) ==> !words.contains_key(id))
}

/// No two words of `ws` share an id.
pub open spec fn distinct_ids(ws: Seq<Word>) -> bool {
    forall|i: int, j: int| 0 <= i < j < ws.len() && (#[trigger] ws[i]).id is Some && (#[trigger] ws[j]).id is Some
        ==> ws[i].id != ws[j].id
}

/// The ids of the words of `ws` with text `u`, in order.
pub open spec fn ids_with_text(ws: Seq<Word>, u: Seq<char>) -> Seq<i64>
    decreases ws.len(),
{
    if ws.len() == 0 {
        Seq::<i64>::empty()
    } else {
        let r = ids_with_text(ws.drop_last(), u);
        match ws.last().id {
            Some(id) => if ws.last().text@ == u {
                r.push(id)
            } else {
                r
            },
            None => r,
        }
    }
}

/// No word of `ws` has text `u`.
pub open spec fn no_word_with_text(ws: Seq<Word>, u: Seq<char>) -> bool {
    forall|i: int| 0 <= i < ws.len() ==> (#[trigger] ws[i]).text@ != u
}

/// A cached word's id is listed, once, under its text, which is then known
/// to have words.
pub proof fn lemma_cached_word_listed(c: Cache, id: i64)
    requires
        c.well_formed(),
        c.words_view().contains_key(id),
    ensures
        c.entry(c.words_view()[id].text@) matches Some(e) && e.2.contains(id) && no_dup_ids(e.2),
        c.exists_spec(c.words_view()[id].text@) == Some(true),
{
    let t = c.words_view()[id].text@;
    assert(c.entry(t) matches Some(e) && e.2.contains(id));
    lemma_text_pos_some(c.texts@, t);
    let k = text_pos(c.texts@, t)->0;
    assert(no_dup_ids(c.entries@[k].word_ids@));
}

} // verus!
