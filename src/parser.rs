//! The Korean parser: tokenizer output, hand-made override parsings and the
//! rule table, put together.

use vstd::prelude::*;

use crate::pattern::{Pattern, PatternModel, parse_pattern_spec};
use crate::rules::{Rule, RuleTrie};
use crate::segment::{
    TokenGroup, group_tokens, group_well_formed, groups_model, groups_tile, lemma_group_ranges_tile,
    lemma_no_segments_iff_empty, lemma_segments_partition_text, segment_texts,
};
use crate::text::{chars_of, split_chars, split_spec, string_of_range, str_is};
use crate::token::{
    Token, all_nonempty, features_ok, filled, lexed_models, texts_faithful, tiles, tokens_from_lexer,
    tokens_model,
};
use vstd::string::StringSliceAdditionalSpecFns;
use vstd::utf8::encode_utf8;
use crate::Error;

verus! {

#[verifier::external_type_specification]
#[verifier::external_body]
pub struct ExDict(notmecab::Dict);

#[verifier::external_type_specification]
#[verifier::external_body]
pub struct ExLexerToken(notmecab::LexerToken);

#[verifier::external_type_specification]
#[verifier::external_body]
pub struct ExTokenizeError(notmecab::TokenizeError);

/// Relies on notmecab's `Dict::tokenize`: the lowest-cost token path through
/// the text, or an error when there is none.
#[verifier::external_body]
fn lex(dict: &notmecab::Dict, text: &str) -> (r: Result<Vec<notmecab::LexerToken>, notmecab::TokenizeError>) {
    dict.tokenize(text).map(|(tokens, _cost)| tokens)
}

/// Relies on notmecab's `LexerToken::get_feature`: the token's feature string
/// in the dictionary.
#[verifier::external_body]
fn feature_of(token: &notmecab::LexerToken, dict: &notmecab::Dict) -> (r: String) {
    token.get_feature(dict).to_string()
}

/// Relies on notmecab's `LexerToken::range` field: the token's byte range in
/// the tokenized text.
#[verifier::external_body]
fn range_of(token: &notmecab::LexerToken) -> (r: std::ops::Range<usize>) {
    token.range.clone()
}

/// The position of the first `c` in `s`.
pub open spec fn first_index(s: Seq<char>, c: char) -> Option<int>
    decreases s.len(),
{
    if s.len() == 0 {
        None
    } else {
        match first_index(s.drop_last(), c) {
            Some(i) => Some(i),
            None => if s.last() == c {
                Some(s.len() - 1)
            } else {
                None
            },
        }
    }
}

/// What `text(pattern)` notation describes.
pub open spec fn override_token_spec(s: Seq<char>) -> Option<(Seq<char>, PatternModel)> {
    match first_index(s, '(') {
        None => None,
        Some(k) => {
            let rest = s.skip(k + 1);
            if rest.len() > 0 && rest.last() == ')' {
                match parse_pattern_spec(rest.drop_last()) {
                    Some(p) => Some((s.take(k), p)),
                    None => None,
                }
            } else {
                None
            }
        },
    }
}

/// A hand-made parsing of a surface text: `;`-separated `text(pattern)` tokens.
#[derive(Debug)]
pub struct WordParsing {
    pub tokens: Vec<Token>,
}

fn find_char(v: &Vec<char>, c: char) -> (r: Option<usize>)
    ensures
        match r {
            Some(k) => k < v.len() && first_index(v@, c) == Some(k as int),
            None => first_index(v@, c) is None,
        },
{
    let mut i: usize = 0;
    while i < v.len()
        invariant
            i <= v.len(),
            first_index(v@.take(i as int), c) is None,
        decreases v.len() - i,
    {
        assert(v@.take(i + 1).drop_last() =~= v@.take(i as int));
        if v[i] == c {
            proof {
                lemma_first_index_prefix(v@, c, i + 1);
            }
            return Some(i);
        }
        i += 1;
    }
    assert(v@.take(i as int) =~= v@);
    None
}

proof fn lemma_first_index_prefix(s: Seq<char>, c: char, n: int)
    requires
        0 < n <= s.len(),
        first_index(s.take(n), c) is Some,
    ensures
        first_index(s, c) == first_index(s.take(n), c),
    decreases s.len(),
{
    if n < s.len() {
        assert(s.drop_last().take(n) =~= s.take(n));
        lemma_first_index_prefix(s.drop_last(), c, n);
    } else {
        assert(s.take(n) =~= s);
    }
}

/// Parses one `text(pattern)` token.
fn parse_override_token(s: &str) -> (r: Result<Token, Error>)
    ensures
        r is Ok <==> override_token_spec(s@) is Some,
        r matches Ok(t) ==> (override_token_spec(s@) matches Some(m) && t.range is None && t.text@ == m.0
            && t.pattern@ == m.1),
        r matches Err(e) ==> e is Parse,
{
    let v = chars_of(s);
    let k = match find_char(&v, '(') {
        Some(k) => k,
        None => {
            return Err(Error::Parse(s.to_owned()));
        },
    };
    let n = v.len();
    if n <= k + 1 || v[n - 1] != ')' {
        return Err(Error::Parse(s.to_owned()));
    }
    let text = string_of_range(&v, 0, k);
    let inner = string_of_range(&v, k + 1, n - 1);
    assert(v@.skip(k + 1).drop_last() =~= v@.subrange(k + 1, n - 1));
    assert(v@.take(k as int) =~= v@.subrange(0, k as int));
    match Pattern::parse(inner.as_str()) {
        Ok(pattern) => Ok(Token { range: None, text, pattern }),
        Err(e) => Err(e),
    }
}

pub open spec fn parsing_spec(s: Seq<char>) -> Option<Seq<(Seq<char>, PatternModel)>> {
    let parts = split_spec(s, ';');
    if forall|i: int| 0 <= i < parts.len() ==> (#[trigger] override_token_spec(parts[i])) is Some {
        Some(Seq::new(parts.len(), |i: int| override_token_spec(parts[i])->0))
    } else {
        None
    }
}

impl WordParsing {
    /// Parses `;`-separated `text(pattern)` tokens.
    pub fn parse(s: &str) -> (r: Result<WordParsing, Error>)
        ensures
            r is Ok <==> parsing_spec(s@) is Some,
            r matches Ok(wp) ==> (parsing_spec(s@) matches Some(m) && wp.tokens.len() == m.len()
                && forall|i: int| 0 <= i < m.len() ==> (#[trigger] wp.tokens@[i]).text@ == m[i].0
                    && wp.tokens@[i].pattern@ == m[i].1 && wp.tokens@[i].range is None),
            r matches Err(e) ==> e is Parse,
    {
        let parts = split_chars(s, ';');
        let ghost pm = parts@.map_values(|p: String| p@);
        let mut tokens: Vec<Token> = Vec::new();
        let mut i: usize = 0;
        while i < parts.len()
            invariant
                i <= parts.len(),
                pm == split_spec(s@, ';'),
                pm == parts@.map_values(|p: String| p@),
                tokens.len() == i,
                forall|j: int| 0 <= j < i ==> ((#[trigger] override_token_spec(pm[j])) matches Some(m)
                    && tokens@[j].text@ == m.0 && tokens@[j].pattern@ == m.1 && tokens@[j].range is None),
            decreases parts.len() - i,
        {
            assert(pm[i as int] == parts@[i as int]@);
            match parse_override_token(parts[i].as_str()) {
                Ok(t) => {
                    tokens.push(t);
                },
                Err(e) => {
                    return Err(e);
                },
            }
            i += 1;
        }
        Ok(WordParsing { tokens })
    }
}

/// Override parsings by surface text, each text listed once, its parsings
/// in the order they were added.
pub struct OverrideTable {
    pub entries: Vec<(String, Vec<WordParsing>)>,
}

impl OverrideTable {
    pub fn new() -> (r: OverrideTable)
        ensures
            r.entries@.len() == 0,
    {
        OverrideTable { entries: Vec::new() }
    }

    /// Adds an override parsing for `word`, after those it already has.
    pub fn add_override(&mut self, word: String, parsing: WordParsing)
        ensures
            match first_override(old(self).entries@, word@, 0) {
                Some(k) => {
                    &&& final(self).entries@.len() == old(self).entries@.len()
                    &&& final(self).entries@[k].0 == old(self).entries@[k].0
                    &&& final(self).entries@[k].1@ == old(self).entries@[k].1@.push(parsing)
                    &&& forall|j: int| 0 <= j < old(self).entries@.len() && j != k
                        ==> #[trigger] final(self).entries@[j] == old(self).entries@[j]
                },
                None => {
                    &&& final(self).entries@.drop_last() == old(self).entries@
                    &&& final(self).entries@.last().0 == word
                    &&& final(self).entries@.last().1@ == seq![parsing]
                },
            },
    {
        let ghost os = self.entries@;
        assert(os.len() == self.entries.len());
        let mut i: usize = 0;
        while i < self.entries.len()
            invariant
                i <= self.entries.len(),
                self.entries@ == os,
                os == old(self).entries@,
                first_override(os, word@, 0) == first_override(os, word@, i as int),
            decreases self.entries.len() - i,
        {
            if self.entries[i].0 == word {
                assert(first_override(os, word@, i as int) == Some(i as int));
                let (w, mut list) = self.entries.remove(i);
                list.push(parsing);
                self.entries.insert(i, (w, list));
                assert forall|j: int| 0 <= j < os.len() && j != i implies #[trigger] self.entries@[j] == os[j] by {
                    if j < i {
                    } else {
                    }
                }
                return;
            }
            i += 1;
        }
        assert(first_override(os, word@, i as int) is None);
        self.entries.push((word, vec![parsing]));
        assert(self.entries@.drop_last() =~= os);
    }

    /// The override parsings of `text`, if it has any.
    pub fn overrides_for(&self, text: &String) -> (r: Option<&Vec<WordParsing>>)
        ensures
            match first_override(self.entries@, text@, 0) {
                Some(k) => r matches Some(l) && *l == self.entries@[k].1,
                None => r is None,
            },
    {
        let mut i: usize = 0;
        while i < self.entries.len()
            invariant
                i <= self.entries.len(),
                first_override(self.entries@, text@, 0) == first_override(self.entries@, text@, i as int),
            decreases self.entries.len() - i,
        {
            if self.entries[i].0 == *text {
                return Some(&self.entries[i].1);
            }
            i += 1;
        }
        None
    }

    /// The token runs to build words from for a group: each override parsing
    /// of its text, then its own tokens.
    pub fn token_runs(&self, group: &TokenGroup) -> (r: Vec<Vec<Token>>)
        ensures
            ({
                let ps = parsings_for(self.entries@, group.text@);
                &&& r.len() == ps.len() + 1
                &&& forall|i: int| 0 <= i < ps.len() ==> tokens_model((#[trigger] r@[i])@) == tokens_model(ps[i].tokens@)
                &&& tokens_model(r@[r.len() - 1]@) == tokens_model(group.tokens@)
            }),
    {
        let ghost ps = parsings_for(self.entries@, group.text@);
        let mut runs: Vec<Vec<Token>> = Vec::new();
        match self.overrides_for(&group.text) {
            Some(list) => {
                let mut i: usize = 0;
                while i < list.len()
                    invariant
                        i <= list.len(),
                        list@ == ps,
                        runs.len() == i,
                        forall|j: int| 0 <= j < i ==> tokens_model((#[trigger] runs@[j])@) == tokens_model(ps[j].tokens@),
                    decreases list.len() - i,
                {
                    runs.push(copy_tokens(&list[i].tokens));
                    i += 1;
                }
            },
            None => {},
        }
        runs.push(copy_tokens(&group.tokens));
        runs
    }
}

/// The parser: the tokenizer's dictionary, the rule table, and override
/// parsings by surface text.
pub struct KoreanParser {
    pub dict: notmecab::Dict,
    pub rules: RuleTrie,
    pub overrides: OverrideTable,
}

impl KoreanParser {
    /// A parser over a loaded dictionary, with no rules and no overrides.
    pub fn new(dict: notmecab::Dict) -> (r: KoreanParser)
        ensures
            r.rules.well_formed(),
            r.rules.view_rules().len() == 0,
            r.overrides.entries@.len() == 0,
    {
        KoreanParser { dict, rules: RuleTrie::new(), overrides: OverrideTable::new() }
    }

    /// Adds a rule; a rule with the same pattern is replaced, and `true`
    /// returned.
    pub fn add_rule(&mut self, rule: Rule) -> (replaced: bool)
        requires
            old(self).rules.well_formed(),
            old(self).rules.index_size() + rule.pattern@.len() < usize::MAX,
        ensures
            final(self).rules.well_formed(),
            replaced <==> exists|k: int| 0 <= k < old(self).rules.view_rules().len() && (#[trigger] old(self).rules.view_rules()[k]).pattern == rule.pattern@,
            replaced ==> exists|k: int| 0 <= k < old(self).rules.view_rules().len() && (#[trigger] old(self).rules.view_rules()[k]).pattern == rule.pattern@
                && final(self).rules.view_rules() == old(self).rules.view_rules().update(k, rule@),
            !replaced ==> final(self).rules.view_rules() == old(self).rules.view_rules().push(rule@),
    {
        self.rules.insert(rule)
    }

    /// Adds an override parsing for `word`, after those it already has.
    pub fn add_override(&mut self, word: String, parsing: WordParsing)
        ensures
            final(self).rules == old(self).rules,
            final(self).rules == old(self).rules,
            match first_override(old(self).overrides.entries@, word@, 0) {
                Some(k) => {
                    &&& final(self).overrides.entries@.len() == old(self).overrides.entries@.len()
                    &&& final(self).overrides.entries@[k].0 == old(self).overrides.entries@[k].0
                    &&& final(self).overrides.entries@[k].1@ == old(self).overrides.entries@[k].1@.push(parsing)
                    &&& forall|j: int| 0 <= j < old(self).overrides.entries@.len() && j != k
                        ==> #[trigger] final(self).overrides.entries@[j] == old(self).overrides.entries@[j]
                },
                None => {
                    &&& final(self).overrides.entries@.drop_last() == old(self).overrides.entries@
                    &&& final(self).overrides.entries@.last().0 == word
                    &&& final(self).overrides.entries@.last().1@ == seq![parsing]
                },
            },
    {
        self.overrides.add_override(word, parsing);
    }

    /// The token runs to build words from for a group: each override parsing
    /// of its text, then its own tokens.
    pub fn token_runs(&self, group: &TokenGroup) -> (r: Vec<Vec<Token>>)
        ensures
            ({
                let ps = parsings_for(self.overrides.entries@, group.text@);
                &&& r.len() == ps.len() + 1
                &&& forall|i: int| 0 <= i < ps.len() ==> tokens_model((#[trigger] r@[i])@) == tokens_model(ps[i].tokens@)
                &&& tokens_model(r@[r.len() - 1]@) == tokens_model(group.tokens@)
            }),
    {
        self.overrides.token_runs(group)
    }

    /// The tokens of `text`, with gap tokens for what the tokenizer left
    /// out, tiling the text's bytes; each token holds the text of its range.
    pub fn tokenize(&self, text: &str) -> (r: Result<Vec<Token>, Error>)
        ensures
            r matches Ok(q) ==> tiles(tokens_model(q@), text.spec_bytes().len() as int),
            r matches Ok(q) ==> texts_faithful(tokens_model(q@), text.spec_bytes()),
            r matches Ok(q) ==> all_nonempty(tokens_model(q@)),
            r matches Ok(q) ==> exists|l: Seq<(String, std::ops::Range<usize>)>|
                features_ok(l) && tokens_model(q@) == filled(
                    text.spec_bytes(),
                    text.spec_bytes().len() as int,
                    lexed_models(l),
                    0,
                ),
    {
        let lexed = match lex(&self.dict, text) {
            Ok(l) => l,
            Err(_) => {
                return Err(Error::Tokenize(text.to_owned()));
            },
        };
        let mut plain: Vec<(String, std::ops::Range<usize>)> = Vec::new();
        let mut i: usize = 0;
        while i < lexed.len()
            decreases lexed.len() - i,
        {
            plain.push((feature_of(&lexed[i], &self.dict), range_of(&lexed[i])));
            i += 1;
        }
        let r = tokens_from_lexer(text, &plain);
        proof {
            if r is Ok {
                assert(features_ok(plain@));
            }
        }
        r
    }

    /// The segments of `text`: runs of word tokens, and every other token
    /// alone. They partition the text: their ranges follow each other from 0
    /// to its end, each holds the text of its range, their texts in order
    /// are the text, and there are none only for an empty text.
    pub fn parse(&self, text: &str) -> (r: Result<Vec<TokenGroup>, Error>)
        ensures
            r matches Ok(gs) ==> forall|i: int| 0 <= i < gs.len() ==> group_well_formed(#[trigger] gs@[i]),
            r matches Ok(gs) ==> groups_tile(groups_model(gs@), text.spec_bytes().len() as int),
            r matches Ok(gs) ==> segment_texts(gs@) == text@,
            r matches Ok(gs) ==> forall|i: int| 0 <= i < gs.len() ==> encode_utf8((#[trigger] gs@[i]).text@)
                == text.spec_bytes().subrange(gs@[i].range.start as int, gs@[i].range.end as int),
            r matches Ok(gs) ==> (gs.len() == 0 <==> text@.len() == 0),
    {
        match self.tokenize(text) {
            Ok(tokens) => {
                let r = group_tokens(&tokens);
                proof {
                    let ts = tokens_model(tokens@);
                    lemma_group_ranges_tile(ts, text.spec_bytes().len() as int);
                    if let Ok(gs) = &r {
                        lemma_segments_partition_text(ts, gs@, text@);
                        lemma_no_segments_iff_empty(ts, text@);
                    }
                }
                r
            },
            Err(e) => Err(e),
        }
    }
}

/// A copy of a token list.
pub fn copy_tokens(v: &Vec<Token>) -> (r: Vec<Token>)
    ensures
        tokens_model(r@) == tokens_model(v@),
{
    let mut r: Vec<Token> = Vec::new();
    let mut i: usize = 0;
    while i < v.len()
        invariant
            i <= v.len(),
            tokens_model(r@) == tokens_model(v@.take(i as int)),
        decreases v.len() - i,
    {
        let ghost before = r@;
        r.push(v[i].duplicate());
        i += 1;
        assert(tokens_model(r@) =~= tokens_model(before).push(v@[i - 1]@));
        assert(tokens_model(r@) =~= tokens_model(v@.take(i as int)));
    }
    assert(v@.take(i as int) =~= v@);
    r
}

/// The first entry from `i` on that lists override parsings for `t`.
pub open spec fn first_override(os: Seq<(String, Vec<WordParsing>)>, t: Seq<char>, i: int) -> Option<int>
    decreases os.len() - i,
{
    if i < 0 || i >= os.len() {
        None
    } else if os[i].0@ == t {
        Some(i)
    } else {
        first_override(os, t, i + 1)
    }
}

/// The override parsings listed for `t`; none if it has no entry.
pub open spec fn parsings_for(os: Seq<(String, Vec<WordParsing>)>, t: Seq<char>) -> Seq<WordParsing> {
    match first_override(os, t, 0) {
        Some(k) => os[k].1@,
        None => Seq::<WordParsing>::empty(),
    }
}

} // verus!
