//! From a token run to a word: root choice, then reduction by the rules.

use vstd::prelude::*;

use crate::pattern::{Pattern, PatternModel, pattern_notation};
use crate::root::{RootModel, RootProposal, choose_spec, normalize, normalize_spec, roots_model};
use crate::rules::{
    Reduction, RuleModel, RuleTrie, first_applicable, merge_spec, splice_spec, strings_model,
};
use crate::status::WordStatus;
use crate::text::{append_str, push_char, str_is};
use crate::token::{Token, TokenModel, tokens_model};
use crate::word::{Word, same_word};
use crate::rules::contains_string;
use crate::Error;

verus! {

/// How many rewrite steps a reduction may take before it is abandoned.
pub const MAX_REDUCTION_STEPS: usize = 1000;

/// The tags a part-of-speech tag implies.
pub open spec fn pos_tags_spec(pos: Seq<char>) -> Seq<Seq<char>> {
    if pos == "NNG"@ {
        seq!["noun"@]
    } else if pos == "NNP"@ {
        seq!["noun"@, "proper noun"@]
    } else if pos == "NNB"@ {
        seq!["noun"@, "bound noun"@]
    } else if pos == "NR"@ {
        seq!["number"@]
    } else if pos == "NP"@ {
        seq!["pronoun"@]
    } else if pos == "VV"@ {
        seq!["verb"@]
    } else if pos == "VA"@ {
        seq!["adj"@]
    } else if pos == "MM"@ {
        seq!["det"@]
    } else if pos == "MAG"@ {
        seq!["adv"@]
    } else if pos == "MAJ"@ {
        seq!["conjunction"@]
    } else if pos == "IC"@ {
        seq!["interjection"@]
    } else if pos == "ETN"@ {
        seq!["noun"@]
    } else if pos == "ETM"@ {
        seq!["prenoun"@]
    } else if pos == "XSV"@ {
        seq!["verb"@]
    } else if pos == "XSA"@ {
        seq!["adj"@]
    } else {
        Seq::<Seq<char>>::empty()
    }
}

fn one(a: &str) -> (r: Vec<String>)
    ensures
        strings_model(r@) == seq![a@],
{
    let r = vec![a.to_owned()];
    assert(strings_model(r@) =~= seq![a@]);
    r
}

fn two(a: &str, b: &str) -> (r: Vec<String>)
    ensures
        strings_model(r@) == seq![a@, b@],
{
    let r = vec![a.to_owned(), b.to_owned()];
    assert(strings_model(r@) =~= seq![a@, b@]);
    r
}

/// The tags a part-of-speech tag implies.
pub fn pos_tags(pos: &str) -> (r: Vec<String>)
    ensures
        strings_model(r@) == pos_tags_spec(pos@),
{
    if str_is(pos, "NNG") {
        one("noun")
    } else if str_is(pos, "NNP") {
        two("noun", "proper noun")
    } else if str_is(pos, "NNB") {
        two("noun", "bound noun")
    } else if str_is(pos, "NR") {
        one("number")
    } else if str_is(pos, "NP") {
        one("pronoun")
    } else if str_is(pos, "VV") {
        one("verb")
    } else if str_is(pos, "VA") {
        one("adj")
    } else if str_is(pos, "MM") {
        one("det")
    } else if str_is(pos, "MAG") {
        one("adv")
    } else if str_is(pos, "MAJ") {
        one("conjunction")
    } else if str_is(pos, "IC") {
        one("interjection")
    } else if str_is(pos, "ETN") {
        one("noun")
    } else if str_is(pos, "ETM") {
        one("prenoun")
    } else if str_is(pos, "XSV") {
        one("verb")
    } else if str_is(pos, "XSA") {
        one("adj")
    } else {
        let r: Vec<String> = Vec::new();
        assert(strings_model(r@) =~= Seq::<Seq<char>>::empty());
        r
    }
}

/// Where a reduction ends.
pub enum Outcome {
    /// A terminal rule gave a translation; with the parents and tags then.
    Translated(Seq<char>, Seq<Seq<char>>, Seq<Seq<char>>),
    /// No rule applies to this pattern; with the parents and tags then.
    Irreducible(PatternModel, Seq<Seq<char>>, Seq<Seq<char>>),
    /// The step budget ran out.
    Exhausted,
}

/// Repeated reduction steps, at most `fuel` of them.
pub open spec fn reduce_spec(
    rs: Seq<RuleModel>,
    p: PatternModel,
    parents: Seq<Seq<char>>,
    tags: Seq<Seq<char>>,
    fuel: nat,
) -> Outcome
    decreases fuel,
{
    match first_applicable(rs, p, 0) {
        None => Outcome::Irreducible(p, parents, tags),
        Some((i, k)) => {
            let parents2 = merge_spec(parents, rs[k].parents);
            let tags2 = merge_spec(tags, rs[k].tags);
            match rs[k].translation {
                Some(t) => Outcome::Translated(t, parents2, tags2),
                None => if fuel == 0 {
                    Outcome::Exhausted
                } else {
                    reduce_spec(
                        rs,
                        splice_spec(p, i, rs[k].pattern.len() as int, rs[k].output),
                        parents2,
                        tags2,
                        (fuel - 1) as nat,
                    )
                },
            }
        },
    }
}

/// What `tokens_to_word` makes of a normalized run: the root word, the
/// reduced pattern, the tags of the last element's tag, and the rule table.
pub open spec fn word_matches(
    w: Word,
    text: Seq<char>,
    root: Seq<char>,
    pattern: PatternModel,
    rs: Seq<RuleModel>,
) -> bool {
    let tags0 = pos_tags_spec(pattern.last().1);
    if pattern.len() == 1 || root == text {
        &&& w.text@ == text
        &&& strings_model(w.tags@) == tags0
        &&& w.parents@.len() == 0
        &&& w.status == Some(WordStatus::Unknown)
        &&& w.translation@.len() == 0
        &&& !w.inherit
    } else {
        match reduce_spec(rs, pattern, seq![root], tags0, MAX_REDUCTION_STEPS as nat) {
            Outcome::Translated(t, parents, tags) => {
                &&& w.text@ == text
                &&& strings_model(w.parents@) == parents
                &&& strings_model(w.tags@) == tags
                &&& w.translation@ == t
                &&& w.status is None
                &&& w.inherit
            },
            Outcome::Irreducible(p, parents, tags) => {
                &&& w.text@ == text
                &&& strings_model(w.parents@) == parents
                &&& strings_model(w.tags@) == tags
                &&& w.translation@ == seq!['`'] + pattern_notation(p) + seq!['`']
                &&& w.status == Some(WordStatus::Unknown)
                &&& !w.inherit
            },
            Outcome::Exhausted => false,
        }
    }
}

pub open spec fn reduction_exhausted(root: Seq<char>, pattern: PatternModel, rs: Seq<RuleModel>) -> bool {
    reduce_spec(rs, pattern, seq![root], pos_tags_spec(pattern.last().1), MAX_REDUCTION_STEPS as nat)
        is Exhausted
}

/// What building a word from a token run of `text` with root candidates
/// `cs` gives: an empty run or one that does not normalize fails with
/// `NoTokens`, a reduction that runs out of steps fails with
/// `ReductionLimit`, and otherwise the word is the one the rules make.
pub open spec fn word_built(
    rs: Seq<RuleModel>,
    text: Seq<char>,
    ts: Seq<TokenModel>,
    cs: Seq<RootModel>,
    r: Result<Word, Error>,
) -> bool {
    &&& ts.len() == 0 ==> (r matches Err(Error::NoTokens))
    &&& ts.len() > 0 ==> ({
        let root = match choose_spec(cs) {
            Some(k) => Some(cs[k]),
            None => None,
        };
        match normalize_spec(ts, root) {
            None => (r matches Err(Error::NoTokens)),
            Some((w, p)) => if p.len() > 0 && !(p.len() == 1 || w == text) && reduction_exhausted(w, p, rs) {
                (r matches Err(Error::ReductionLimit))
            } else {
                (r matches Ok(word) && word_matches(word, text, w, p, rs))
            },
        }
    })
}

/// Builds the word for a token run of `text`, given its root candidates with
/// their dictionary flags set.
pub fn tokens_to_word(
    rules: &RuleTrie,
    text: &str,
    tokens: &Vec<Token>,
    cands: &Vec<RootProposal>,
) -> (r: Result<Word, Error>)
    requires
        rules.well_formed(),
    ensures
        word_built(rules.view_rules(), text@, tokens_model(tokens@), roots_model(cands@), r),
{
    if tokens.len() == 0 {
        return Err(Error::NoTokens);
    }
    let mut debug = "Initial pattern: ".to_owned();
    let mut i: usize = 0;
    while i < tokens.len()
        decreases tokens.len() - i,
    {
        if i > 0 {
            push_char(&mut debug, ';');
        }
        append_str(&mut debug, tokens[i].text.as_str());
        push_char(&mut debug, '(');
        let n = tokens[i].pattern.notation();
        append_str(&mut debug, n.as_str());
        push_char(&mut debug, ')');
        i += 1;
    }
    let (root, mut pattern) = match normalize(tokens, cands) {
        Ok(x) => x,
        Err(e) => {
            return Err(e);
        },
    };
    append_str(&mut debug, "\nAfter normalization: ");
    let n = pattern.notation();
    append_str(&mut debug, n.as_str());
    append_str(&mut debug, "\nRoot word: ");
    append_str(&mut debug, root.as_str());
    if pattern.0.len() == 0 {
        return Err(Error::NoTokens);
    }
    let last_pos = pattern.0[pattern.0.len() - 1].pos.clone();
    let mut tags = pos_tags(last_pos.as_str());
    let text_s = text.to_owned();
    if pattern.0.len() == 1 || root == text_s {
        append_str(&mut debug, "\nWord is a root word");
        let mut w = Word::empty(text_s);
        w.tags = tags;
        w.status = Some(WordStatus::Unknown);
        w.debug = Some(debug);
        return Ok(w);
    }
    let ghost rs = rules.view_rules();
    let ghost root_m = root@;
    let ghost p_init = pattern@;
    let ghost root_choice = match choose_spec(roots_model(cands@)) {
        Some(k) => Some(roots_model(cands@)[k]),
        None => None,
    };
    let mut parents: Vec<String> = vec![root];
    assert(strings_model(parents@) =~= seq![root@]);
    assert(p_init.last() == pattern.0@[pattern.0.len() - 1]@);
    assert(p_init.last().1 == last_pos@);
    let ghost start = reduce_spec(rs, pattern@, seq![root@], strings_model(tags@), MAX_REDUCTION_STEPS as nat);
    let mut fuel: usize = MAX_REDUCTION_STEPS;
    loop
        invariant
            rs == rules.view_rules(),
            rules.well_formed(),
            tokens.len() > 0,
            text_s@ == text@,
            root_m != text@,
            root_choice == match choose_spec(roots_model(cands@)) {
                Some(k) => Some(roots_model(cands@)[k]),
                None => None,
            },
            p_init.len() > 1,
            normalize_spec(tokens_model(tokens@), root_choice) == Some((root_m, p_init)),
            start == reduce_spec(rs, p_init, seq![root_m], pos_tags_spec(p_init.last().1), MAX_REDUCTION_STEPS as nat),
            fuel <= MAX_REDUCTION_STEPS,
            reduce_spec(rs, pattern@, strings_model(parents@), strings_model(tags@), fuel as nat) == start,
        decreases fuel,
    {
        let ghost p0 = pattern@;
        let ghost par0 = strings_model(parents@);
        let ghost tags0 = strings_model(tags@);
        let step = rules.reduce_pattern_once(&mut pattern, &mut parents, &mut tags, &mut debug);
        proof {
            match first_applicable(rs, p0, 0) {
                None => {
                    assert(reduce_spec(rs, p0, par0, tags0, fuel as nat) == Outcome::Irreducible(p0, par0, tags0));
                },
                Some((i, k)) => {
                    let parents2 = merge_spec(par0, rs[k].parents);
                    let tags2 = merge_spec(tags0, rs[k].tags);
                    match rs[k].translation {
                        Some(t) => {
                            assert(reduce_spec(rs, p0, par0, tags0, fuel as nat) == Outcome::Translated(t, parents2, tags2));
                        },
                        None => {
                            if fuel == 0 {
                                assert(reduce_spec(rs, p0, par0, tags0, fuel as nat) is Exhausted);
                            } else {
                                assert(reduce_spec(rs, p0, par0, tags0, fuel as nat) == reduce_spec(
                                    rs,
                                    pattern@,
                                    strings_model(parents@),
                                    strings_model(tags@),
                                    (fuel - 1) as nat,
                                ));
                            }
                        },
                    }
                },
            }
        }
        match step {
            None => {
                append_str(&mut debug, "\nPattern is irreducible");
                let mut w = Word::empty(text_s);
                let mut tr = String::new();
                push_char(&mut tr, '`');
                let n = pattern.notation();
                append_str(&mut tr, n.as_str());
                push_char(&mut tr, '`');
                assert(tr@ =~= seq!['`'] + pattern_notation(pattern@) + seq!['`']);
                w.translation = tr;
                w.parents = parents;
                w.tags = tags;
                w.status = Some(WordStatus::Unknown);
                w.debug = Some(debug);
                return Ok(w);
            },
            Some(Reduction::Terminal(translation)) => {
                append_str(&mut debug, "\nWord translated as '");
                append_str(&mut debug, translation.as_str());
                push_char(&mut debug, '\'');
                let mut w = Word::empty(text_s);
                w.translation = translation;
                w.parents = parents;
                w.tags = tags;
                w.inherit = true;
                w.debug = Some(debug);
                return Ok(w);
            },
            Some(Reduction::Step) => {
                append_str(&mut debug, "\n  ==> ");
                let n = pattern.notation();
                append_str(&mut debug, n.as_str());
                if fuel == 0 {
                    return Err(Error::ReductionLimit);
                }
                fuel -= 1;
            },
        }
    }
}

/// An analysed word worth offering beside the stored ones: it is not its own
/// parent, and it has a translation unless nothing is stored for the text.
pub open spec fn offered(w: Word, stored_empty: bool) -> bool {
    !strings_model(w.parents@).contains(w.text@) && (stored_empty || w.translation@.len() > 0)
}

/// The analysed words that are offered, in order.
pub open spec fn offered_words(ws: Seq<Word>, stored_empty: bool) -> Seq<Word>
    decreases ws.len(),
{
    if ws.len() == 0 {
        Seq::<Word>::empty()
    } else {
        let r = offered_words(ws.drop_last(), stored_empty);
        if offered(ws.last(), stored_empty) {
            r.push(ws.last())
        } else {
            r
        }
    }
}

/// The words of a segment: the stored words for its text, then the analysed
/// words that are offered beside them.
pub fn merge_segment_words(stored: Vec<Word>, analysed: &Vec<Word>) -> (r: Vec<Word>)
    ensures
        ({
            let extra = offered_words(analysed@, stored@.len() == 0);
            &&& r.len() == stored.len() + extra.len()
            &&& forall|i: int| 0 <= i < stored.len() ==> r@[i] == stored@[i]
            &&& forall|i: int| 0 <= i < extra.len() ==> same_word(extra[i], #[trigger] r@[stored.len() + i])
        }),
{
    let ghost st = stored@;
    let stored_empty = stored.len() == 0;
    let mut r = stored;
    let mut i: usize = 0;
    while i < analysed.len()
        invariant
            i <= analysed.len(),
            stored_empty == (st.len() == 0),
            r.len() == st.len() + offered_words(analysed@.take(i as int), stored_empty).len(),
            forall|j: int| 0 <= j < st.len() ==> r@[j] == st[j],
            forall|j: int| 0 <= j < offered_words(analysed@.take(i as int), stored_empty).len() ==> same_word(
                offered_words(analysed@.take(i as int), stored_empty)[j],
                #[trigger] r@[st.len() + j],
            ),
        decreases analysed.len() - i,
    {
        let w = &analysed[i];
        assert(analysed@.take(i + 1).drop_last() =~= analysed@.take(i as int));
        assert(analysed@.take(i + 1).last() == *w);
        let own_parent = contains_string(&w.parents, &w.text);
        if !own_parent && (stored_empty || !w.translation.as_str().is_empty()) {
            r.push(w.duplicate());
        }
        i += 1;
    }
    assert(analysed@.take(i as int) =~= analysed@);
    r
}

/// Analysing the same run twice gives the same word: text, parents, tags,
/// translation, status and inheritance all agree.
pub proof fn lemma_analysis_repeatable(
    w1: Word,
    w2: Word,
    text: Seq<char>,
    root: Seq<char>,
    pattern: PatternModel,
    rs: Seq<RuleModel>,
)
    requires
        word_matches(w1, text, root, pattern, rs),
        word_matches(w2, text, root, pattern, rs),
    ensures
        w1.text@ == w2.text@,
        strings_model(w1.parents@) == strings_model(w2.parents@),
        strings_model(w1.tags@) == strings_model(w2.tags@),
        w1.translation@ == w2.translation@,
        w1.status == w2.status,
        w1.inherit == w2.inherit,
{
    if !(pattern.len() == 1 || root == text) {
        assert(strings_model(w1.parents@) == strings_model(w2.parents@));
    } else {
        assert(strings_model(w1.parents@) =~= strings_model(w2.parents@));
        assert(w1.translation@ =~= w2.translation@);
    }
}

/// The words of a segment of `text`, one per token run with its root
/// candidates, in order; the first run that cannot be built ends it.
pub fn build_words(
    rules: &RuleTrie,
    text: &str,
    runs: &Vec<(Vec<Token>, Vec<RootProposal>)>,
) -> (r: Result<Vec<Word>, Error>)
    requires
        rules.well_formed(),
    ensures
        r matches Ok(ws) ==> ws.len() == runs.len() && forall|i: int| 0 <= i < runs.len()
            ==> word_built(rules.view_rules(), text@, tokens_model((#[trigger] runs@[i]).0@), roots_model(runs@[i].1@), Ok(ws@[i])),
        r matches Err(e) ==> exists|i: int| 0 <= i < runs.len()
            && word_built(rules.view_rules(), text@, tokens_model((#[trigger] runs@[i]).0@), roots_model(runs@[i].1@), Err(e)),
{
    let mut ws: Vec<Word> = Vec::new();
    let mut i: usize = 0;
    while i < runs.len()
        invariant
            i <= runs.len(),
            rules.well_formed(),
            ws.len() == i,
            forall|j: int| 0 <= j < i ==> word_built(rules.view_rules(), text@, tokens_model((#[trigger] runs@[j]).0@), roots_model(runs@[j].1@), Ok(ws@[j])),
        decreases runs.len() - i,
    {
        match tokens_to_word(rules, text, &runs[i].0, &runs[i].1) {
            Ok(w) => {
                ws.push(w);
            },
            Err(e) => {
                return Err(e);
            },
        }
        i += 1;
    }
    Ok(ws)
}

} // verus!
