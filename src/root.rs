//! Choosing the dictionary root of a run of tokens.

use vstd::prelude::*;

use crate::pattern::{Element, ElementModel, Pattern, PatternModel, elements_model};
use crate::segment::texts_of;
use crate::text::{append_str, push_char, starts_with_char, str_is};
use crate::token::{Token, TokenModel, tokens_model};
use crate::Error;

verus! {

pub open spec fn da() -> char {
    '\u{b2e4}'
}

pub open spec fn tag2(a: char, b: char) -> Seq<char> {
    seq![a, b]
}

pub open spec fn tag3(a: char, b: char, c: char) -> Seq<char> {
    seq![a, b, c]
}

/// Noun-like tags: those starting with `N`, and `XSN`, `ETN`.
pub open spec fn is_noun_pos_spec(pos: Seq<char>) -> bool {
    (pos.len() > 0 && pos[0] == 'N') || pos == tag3('X', 'S', 'N') || pos == tag3('E', 'T', 'N')
}

/// Verb-like tags: `VV`, `VA`, `VX`, `XSV`, `XSA`.
pub open spec fn is_verb_pos_spec(pos: Seq<char>) -> bool {
    pos == tag2('V', 'V') || pos == tag2('V', 'A') || pos == tag2('V', 'X') || pos == tag3(
        'X',
        'S',
        'V',
    ) || pos == tag3('X', 'S', 'A')
}

/// The tag a root takes in the reduced pattern.
pub open spec fn normalize_pos_spec(pos: Seq<char>) -> Seq<char> {
    if pos == tag2('V', 'X') || pos == tag3('X', 'S', 'V') {
        tag2('V', 'V')
    } else if pos == tag3('X', 'S', 'A') {
        tag2('V', 'A')
    } else if pos == tag3('X', 'S', 'N') || pos == tag3('E', 'T', 'N') {
        tag2('N', 'N')
    } else {
        pos
    }
}

pub fn is_noun_pos(pos: &str) -> (r: bool)
    ensures
        r == is_noun_pos_spec(pos@),
{
    proof {
        reveal_strlit("XSN");
        reveal_strlit("ETN");
        assert("XSN"@ =~= tag3('X', 'S', 'N'));
        assert("ETN"@ =~= tag3('E', 'T', 'N'));
    }
    starts_with_char(pos, 'N') || str_is(pos, "XSN") || str_is(pos, "ETN")
}

pub fn is_verb_pos(pos: &str) -> (r: bool)
    ensures
        r == is_verb_pos_spec(pos@),
{
    proof {
        reveal_strlit("VV");
        reveal_strlit("VA");
        reveal_strlit("VX");
        reveal_strlit("XSV");
        reveal_strlit("XSA");
        assert("VV"@ =~= tag2('V', 'V'));
        assert("VA"@ =~= tag2('V', 'A'));
        assert("VX"@ =~= tag2('V', 'X'));
        assert("XSV"@ =~= tag3('X', 'S', 'V'));
        assert("XSA"@ =~= tag3('X', 'S', 'A'));
    }
    str_is(pos, "VV") || str_is(pos, "VA") || str_is(pos, "VX") || str_is(pos, "XSV") || str_is(
        pos,
        "XSA",
    )
}

/// A candidate root: its dictionary form, its tag, how many whole tokens it
/// takes, whether it also takes the first element of the next token, and
/// whether the dictionary knows it.
#[derive(Debug)]
pub struct RootProposal {
    pub word: String,
    pub pos: String,
    pub tokens_consumed: usize,
    pub extra_element: bool,
    pub in_dict: bool,
}

pub struct RootModel {
    pub word: Seq<char>,
    pub pos: Seq<char>,
    pub tokens_consumed: int,
    pub extra_element: bool,
    pub in_dict: bool,
}

impl View for RootProposal {
    type V = RootModel;

    open spec fn view(&self) -> RootModel {
        RootModel {
            word: self.word@,
            pos: self.pos@,
            tokens_consumed: self.tokens_consumed as int,
            extra_element: self.extra_element,
            in_dict: self.in_dict,
        }
    }
}

pub open spec fn is_vx(pos: Seq<char>) -> bool {
    pos == tag2('V', 'X')
}

/// `a` takes more tokens than `b`, or as many and the extra element.
pub open spec fn longer_than_spec(a: RootModel, b: RootModel) -> bool {
    if a.tokens_consumed != b.tokens_consumed {
        a.tokens_consumed > b.tokens_consumed
    } else {
        a.extra_element
    }
}

/// The preference order between candidates: known to the dictionary first;
/// among known ones the longer; a non-`VX` over a `VX`; between two `VX` the
/// shorter; otherwise the longer.
pub open spec fn preferred_spec(a: RootModel, b: RootModel) -> bool {
    if a.in_dict != b.in_dict {
        a.in_dict
    } else if a.in_dict {
        longer_than_spec(a, b)
    } else if is_vx(a.pos) != is_vx(b.pos) {
        !is_vx(a.pos)
    } else if is_vx(a.pos) {
        longer_than_spec(b, a)
    } else {
        longer_than_spec(a, b)
    }
}

/// The candidate cut after `n` tokens, with `extra` as a trailing element.
/// `None` when the cut has no noun- or verb-like tag, or when it has no extra
/// element and its last token is a single element (the cut that takes that
/// element as the extra one stands for it).
pub open spec fn build_spec(ts: Seq<TokenModel>, n: int, extra: Option<ElementModel>) -> Option<RootModel> {
    if extra is None && n > 0 && ts[n - 1].2.len() == 1 {
        None
    } else if extra is None && (n == 0 || ts[n - 1].2.len() == 0) {
        None
    } else {
        let pos = match extra {
            Some(e) => e.1,
            None => ts[n - 1].2.last().1,
        };
        if !is_noun_pos_spec(pos) && !is_verb_pos_spec(pos) {
            None
        } else {
            let base = texts_of(ts.take(n)) + match extra {
                Some(e) => e.0,
                None => Seq::<char>::empty(),
            };
            let word = if is_verb_pos_spec(pos) {
                base.push(da())
            } else {
                base
            };
            Some(RootModel { word, pos, tokens_consumed: n, extra_element: extra is Some, in_dict: false })
        }
    }
}

impl RootProposal {
    pub fn longer_than(&self, other: &Self) -> (r: bool)
        ensures
            r == longer_than_spec(self@, other@),
    {
        if self.tokens_consumed != other.tokens_consumed {
            self.tokens_consumed > other.tokens_consumed
        } else {
            self.extra_element
        }
    }

    pub fn preferred_over(&self, other: &Self) -> (r: bool)
        ensures
            r == preferred_spec(self@, other@),
    {
        proof {
            reveal_strlit("VX");
            assert("VX"@ =~= tag2('V', 'X'));
        }
        let self_vx = str_is(self.pos.as_str(), "VX");
        let other_vx = str_is(other.pos.as_str(), "VX");
        if self.in_dict != other.in_dict {
            self.in_dict
        } else if self.in_dict {
            self.longer_than(other)
        } else if self_vx != other_vx {
            !self_vx
        } else if self_vx {
            other.longer_than(self)
        } else {
            self.longer_than(other)
        }
    }

    /// The tag the root takes in the reduced pattern.
    pub fn normalize_pos(&self) -> (r: String)
        ensures
            r@ == normalize_pos_spec(self.pos@),
    {
        proof {
            reveal_strlit("VX");
            reveal_strlit("XSV");
            reveal_strlit("XSA");
            reveal_strlit("XSN");
            reveal_strlit("ETN");
            reveal_strlit("VV");
            reveal_strlit("VA");
            reveal_strlit("NN");
            assert("VX"@ =~= tag2('V', 'X'));
            assert("XSV"@ =~= tag3('X', 'S', 'V'));
            assert("XSA"@ =~= tag3('X', 'S', 'A'));
            assert("XSN"@ =~= tag3('X', 'S', 'N'));
            assert("ETN"@ =~= tag3('E', 'T', 'N'));
            assert("VV"@ =~= tag2('V', 'V'));
            assert("VA"@ =~= tag2('V', 'A'));
            assert("NN"@ =~= tag2('N', 'N'));
        }
        let p = self.pos.as_str();
        if str_is(p, "VX") || str_is(p, "XSV") {
            "VV".to_owned()
        } else if str_is(p, "XSA") {
            "VA".to_owned()
        } else if str_is(p, "XSN") || str_is(p, "ETN") {
            "NN".to_owned()
        } else {
            self.pos.clone()
        }
    }

    /// The candidate cut after the first `n` tokens, with `extra` as a
    /// trailing element.
    pub fn build(tokens: &Vec<Token>, n: usize, extra: Option<&Element>) -> (r: Option<RootProposal>)
        requires
            n <= tokens.len(),
        ensures
            r matches Some(p) ==> build_spec(tokens_model(tokens@), n as int, match extra {
                Some(e) => Some(e@),
                None => None,
            }) == Some(p@),
            r is None ==> build_spec(tokens_model(tokens@), n as int, match extra {
                Some(e) => Some(e@),
                None => None,
            }) is None,
    {
        let ghost ts = tokens_model(tokens@);
        let ghost em: Option<ElementModel> = match extra {
            Some(e) => Some(e@),
            None => None,
        };
        if extra.is_none() && n > 0 && tokens[n - 1].pattern.0.len() == 1 {
            return None;
        }
        let pos: String = match extra {
            Some(e) => e.pos.clone(),
            None => {
                if n == 0 || tokens[n - 1].pattern.0.len() == 0 {
                    return None;
                }
                let p = &tokens[n - 1].pattern.0;
                assert(ts[n - 1].2.last() == p@[p.len() - 1]@);
                p[p.len() - 1].pos.clone()
            },
        };
        let is_verb = is_verb_pos(pos.as_str());
        let is_noun = is_noun_pos(pos.as_str());
        if !is_noun && !is_verb {
            return None;
        }
        let mut word = String::new();
        let mut i: usize = 0;
        while i < n
            invariant
                i <= n <= tokens.len(),
                ts == tokens_model(tokens@),
                word@ == texts_of(ts.take(i as int)),
            decreases n - i,
        {
            append_str(&mut word, tokens[i].text.as_str());
            i += 1;
            assert(ts.take(i as int).drop_last() =~= ts.take(i - 1));
            assert(word@ =~= texts_of(ts.take(i as int)));
        }
        match extra {
            Some(e) => append_str(&mut word, e.text.as_str()),
            None => {
                assert(word@ + Seq::<char>::empty() =~= word@);
            },
        }
        if is_verb {
            push_char(&mut word, '\u{b2e4}');
        }
        Some(RootProposal {
            word,
            pos,
            tokens_consumed: n,
            extra_element: extra.is_some(),
            in_dict: false,
        })
    }
}

/// The first element of a token's pattern, if any.
pub open spec fn first_element(t: TokenModel) -> Option<ElementModel> {
    if t.2.len() > 0 {
        Some(t.2[0])
    } else {
        None
    }
}

pub open spec fn opt_seq(o: Option<RootModel>) -> Seq<RootModel> {
    match o {
        Some(r) => seq![r],
        None => Seq::<RootModel>::empty(),
    }
}

/// The candidates for the first `i` boundaries, in the order they are tried:
/// for each token, the cut before it with its first element as extra, then
/// the cut after it.
pub open spec fn candidates_upto(ts: Seq<TokenModel>, i: int) -> Seq<RootModel>
    decreases i,
{
    if i <= 0 {
        Seq::<RootModel>::empty()
    } else {
        candidates_upto(ts, i - 1) + opt_seq(build_spec(ts, i - 1, first_element(ts[i - 1])))
            + opt_seq(build_spec(ts, i, None))
    }
}

pub open spec fn candidates_spec(ts: Seq<TokenModel>) -> Seq<RootModel> {
    candidates_upto(ts, ts.len() as int)
}

pub open spec fn roots_model(v: Seq<RootProposal>) -> Seq<RootModel> {
    v.map_values(|r: RootProposal| r@)
}

/// The winner among the first `n` candidates: each replaces the one before
/// it when preferred over it.
pub open spec fn choose_upto(cs: Seq<RootModel>, n: int) -> Option<int>
    decreases n,
{
    if n <= 0 {
        None
    } else {
        match choose_upto(cs, n - 1) {
            None => Some(n - 1),
            Some(b) => if preferred_spec(cs[n - 1], cs[b]) {
                Some(n - 1)
            } else {
                Some(b)
            },
        }
    }
}

pub open spec fn choose_spec(cs: Seq<RootModel>) -> Option<int> {
    choose_upto(cs, cs.len() as int)
}

fn push_some(v: &mut Vec<RootProposal>, o: Option<RootProposal>)
    ensures
        roots_model(final(v)@) == roots_model(old(v)@) + opt_seq(match o {
            Some(r) => Some(r@),
            None => None,
        }),
{
    match o {
        Some(r) => {
            let ghost before = v@;
            v.push(r);
            assert(roots_model(v@) =~= roots_model(before) + seq![r@]);
        },
        None => {
            assert(roots_model(v@) =~= roots_model(v@) + Seq::<RootModel>::empty());
        },
    }
}

/// Every candidate root of a token run, in the order they are tried, none yet
/// looked up in the dictionary.
pub fn root_candidates(tokens: &Vec<Token>) -> (r: Vec<RootProposal>)
    ensures
        roots_model(r@) == candidates_spec(tokens_model(tokens@)),
{
    let ghost ts = tokens_model(tokens@);
    let mut out: Vec<RootProposal> = Vec::new();
    let mut i: usize = 0;
    while i < tokens.len()
        invariant
            i <= tokens.len(),
            ts == tokens_model(tokens@),
            roots_model(out@) == candidates_upto(ts, i as int),
        decreases tokens.len() - i,
    {
        let first = if tokens[i].pattern.0.len() > 0 {
            Some(&tokens[i].pattern.0[0])
        } else {
            None
        };
        assert(first_element(ts[i as int]) == match first {
            Some(e) => Some(e@),
            None => None,
        });
        let a = RootProposal::build(tokens, i, first);
        push_some(&mut out, a);
        let b = RootProposal::build(tokens, i + 1, None);
        push_some(&mut out, b);
        i += 1;
    }
    out
}

/// The index of the preferred candidate, if there is any.
pub fn choose_root(cands: &Vec<RootProposal>) -> (r: Option<usize>)
    ensures
        match r {
            Some(k) => k < cands.len() && choose_spec(roots_model(cands@)) == Some(k as int),
            None => choose_spec(roots_model(cands@)) is None,
        },
{
    let ghost cs = roots_model(cands@);
    let mut best: Option<usize> = None;
    let mut k: usize = 0;
    while k < cands.len()
        invariant
            k <= cands.len(),
            cs == roots_model(cands@),
            match best {
                Some(b) => b < k && choose_upto(cs, k as int) == Some(b as int),
                None => k == 0,
            },
        decreases cands.len() - k,
    {
        let replace = match best {
            Some(b) => cands[k].preferred_over(&cands[b]),
            None => true,
        };
        if replace {
            best = Some(k);
        }
        k += 1;
    }
    best
}

/// A candidate the dictionary knows is preferred over one it does not know,
/// whatever their lengths and tags.
pub proof fn lemma_known_beats_unknown(a: RootModel, b: RootModel)
    requires
        a.in_dict,
        !b.in_dict,
    ensures
        preferred_spec(a, b),
        !preferred_spec(b, a),
{
}

/// Where any candidate is known to the dictionary, the chosen one is.
pub proof fn lemma_chosen_root_known(cs: Seq<RootModel>, n: int)
    requires
        0 <= n <= cs.len(),
        exists|k: int| 0 <= k < n && (#[trigger] cs[k]).in_dict,
    ensures
        choose_upto(cs, n) matches Some(w) && 0 <= w < n && cs[w].in_dict,
    decreases n,
{
    let k = choose|k: int| 0 <= k < n && (#[trigger] cs[k]).in_dict;
    if k == n - 1 {
        if n > 1 {
            lemma_choose_in_range(cs, n - 1);
        }
    } else {
        lemma_chosen_root_known(cs, n - 1);
    }
}

proof fn lemma_choose_in_range(cs: Seq<RootModel>, n: int)
    requires
        0 < n <= cs.len(),
    ensures
        choose_upto(cs, n) matches Some(w) && 0 <= w < n,
    decreases n,
{
    if n > 1 {
        lemma_choose_in_range(cs, n - 1);
    } else {
        assert(choose_upto(cs, 0) is None);
    }
}

/// The elements of all tokens, in order.
pub open spec fn flat_patterns(ts: Seq<TokenModel>) -> PatternModel
    decreases ts.len(),
{
    if ts.len() == 0 {
        Seq::<ElementModel>::empty()
    } else {
        flat_patterns(ts.drop_last()) + ts.last().2
    }
}

pub open spec fn tail_of(p: PatternModel) -> PatternModel {
    if p.len() > 0 {
        p.drop_first()
    } else {
        p
    }
}

pub open spec fn star() -> Seq<char> {
    seq!['*']
}

/// The root word and the reduced pattern of a token run, given the chosen
/// root: the root becomes one `*` element with its normalized tag, followed
/// by what it left of its extra token and by all later tokens. With no root
/// the first element's text is the root (in dictionary form for a verb tag)
/// and is replaced by `*`. `None` when there is nothing to reduce or the root
/// does not fit the tokens.
pub open spec fn normalize_spec(ts: Seq<TokenModel>, root: Option<RootModel>) -> Option<(Seq<char>, PatternModel)> {
    match root {
        None => {
            let all = flat_patterns(ts);
            if all.len() == 0 {
                None
            } else {
                let first = all[0];
                let word = if first.1.len() > 0 && first.1[0] == 'V' {
                    first.0.push(da())
                } else {
                    first.0
                };
                Some((word, all.update(0, (star(), first.1))))
            }
        },
        Some(r) => {
            if r.tokens_consumed > ts.len() || (r.extra_element && r.tokens_consumed >= ts.len()) {
                None
            } else {
                let head = seq![(star(), normalize_pos_spec(r.pos))];
                let rest = if r.extra_element {
                    tail_of(ts[r.tokens_consumed].2) + flat_patterns(ts.skip(r.tokens_consumed + 1))
                } else {
                    flat_patterns(ts.skip(r.tokens_consumed))
                };
                Some((r.word, head + rest))
            }
        },
    }
}

proof fn lemma_flat_patterns_step(ts: Seq<TokenModel>, i: int)
    requires
        0 <= i < ts.len(),
    ensures
        flat_patterns(ts.skip(i)) == ts[i].2 + flat_patterns(ts.skip(i + 1)),
    decreases ts.len() - i,
{
    let a = ts.skip(i);
    let b = ts.skip(i + 1);
    if i == ts.len() - 1 {
        assert(a.drop_last() =~= Seq::<TokenModel>::empty());
        assert(b =~= Seq::<TokenModel>::empty());
        assert(flat_patterns(a) =~= ts[i].2);
    } else {
        lemma_flat_patterns_step(ts.drop_last(), i);
        assert(a.drop_last() =~= ts.drop_last().skip(i));
        assert(b.drop_last() =~= ts.drop_last().skip(i + 1));
        assert(a.last() == b.last());
        assert(flat_patterns(a) =~= ts[i].2 + flat_patterns(b));
    }
}

/// Appends the elements of `p` from index `from` on to `out`.
fn append_elements(out: &mut Vec<Element>, p: &Pattern, from: usize)
    ensures
        elements_model(final(out)@) == elements_model(old(out)@) + (if from < p@.len() {
            p@.skip(from as int)
        } else {
            Seq::<ElementModel>::empty()
        }),
{
    let ghost start = elements_model(out@);
    let mut i = from;
    if i >= p.0.len() {
        assert(elements_model(out@) =~= start + Seq::<ElementModel>::empty());
        return;
    }
    while i < p.0.len()
        invariant
            from <= i <= p.0.len(),
            elements_model(out@) == start + p@.subrange(from as int, i as int),
        decreases p.0.len() - i,
    {
        let ghost before = out@;
        out.push(p.0[i].duplicate());
        i += 1;
        assert(elements_model(out@) =~= elements_model(before).push(p@[i - 1]));
        assert(elements_model(out@) =~= start + p@.subrange(from as int, i as int));
    }
    assert(p@.subrange(from as int, i as int) =~= p@.skip(from as int));
}

/// The root word and the reduced pattern of a token run, given its candidate
/// roots with their dictionary flags.
pub fn normalize(tokens: &Vec<Token>, cands: &Vec<RootProposal>) -> (r: Result<(String, Pattern), Error>)
    ensures
        ({
            let root = match choose_spec(roots_model(cands@)) {
                Some(k) => Some(roots_model(cands@)[k]),
                None => None,
            };
            match r {
                Ok((w, p)) => normalize_spec(tokens_model(tokens@), root) == Some((w@, p@)),
                Err(e) => normalize_spec(tokens_model(tokens@), root) is None && e is NoTokens,
            }
        }),
{
    let ghost ts = tokens_model(tokens@);
    let chosen = choose_root(cands);
    let mut elements: Vec<Element> = Vec::new();
    match chosen {
        None => {
            let mut i: usize = 0;
            while i < tokens.len()
                invariant
                    i <= tokens.len(),
                    ts == tokens_model(tokens@),
                    elements_model(elements@) == flat_patterns(ts.take(i as int)),
                decreases tokens.len() - i,
            {
                append_elements(&mut elements, &tokens[i].pattern, 0);
                i += 1;
                assert(ts.take(i as int).drop_last() =~= ts.take(i - 1));
                proof {
                    if ts[i - 1].2.len() > 0 {
                        assert(ts[i - 1].2.skip(0) =~= ts[i - 1].2);
                    }
                }
                assert(elements_model(elements@) =~= flat_patterns(ts.take(i as int)));
            }
            assert(ts.take(i as int) =~= ts);
            if elements.len() == 0 {
                return Err(Error::NoTokens);
            }
            let ghost all = elements_model(elements@);
            let first_pos = elements[0].pos.clone();
            let mut word = elements[0].text.clone();
            if starts_with_char(first_pos.as_str(), 'V') {
                push_char(&mut word, '\u{b2e4}');
            }
            let mut rest: Vec<Element> = Vec::new();
            rest.push(Element { text: "*".to_owned(), pos: first_pos });
            let mut j: usize = 1;
            proof {
                reveal_strlit("*");
                assert("*"@ =~= star());
            }
            while j < elements.len()
                invariant
                    1 <= j <= elements.len(),
                    all == elements_model(elements@),
                    all.len() > 0,
                    elements_model(rest@) == all.update(0, (star(), all[0].1)).take(j as int),
                decreases elements.len() - j,
            {
                let ghost before = rest@;
                rest.push(elements[j].duplicate());
                j += 1;
                assert(elements_model(rest@) =~= elements_model(before).push(all[j - 1]));
                assert(elements_model(rest@) =~= all.update(0, (star(), all[0].1)).take(j as int));
            }
            assert(all.update(0, (star(), all[0].1)).take(j as int) =~= all.update(0, (star(), all[0].1)));
            Ok((word, Pattern(rest)))
        },
        Some(k) => {
            let root = &cands[k];
            let tc = root.tokens_consumed;
            if tc > tokens.len() || (root.extra_element && tc >= tokens.len()) {
                return Err(Error::NoTokens);
            }
            proof {
                reveal_strlit("*");
                assert("*"@ =~= star());
            }
            elements.push(Element { text: "*".to_owned(), pos: root.normalize_pos() });
            let ghost head = elements_model(elements@);
            let mut i = tc;
            if root.extra_element {
                append_elements(&mut elements, &tokens[tc].pattern, 1);
                i = tc + 1;
                proof {
                    let p = ts[tc as int].2;
                    if p.len() == 0 {
                        assert(tail_of(p) =~= Seq::<ElementModel>::empty());
                    } else if p.len() == 1 {
                        assert(tail_of(p) =~= Seq::<ElementModel>::empty());
                    } else {
                        assert(tail_of(p) =~= p.skip(1));
                    }
                }
            }
            let ghost mid = elements_model(elements@);
            let ghost start = i;
            assert(ts.skip(start as int).take(0) =~= Seq::<TokenModel>::empty());
            assert(mid + flat_patterns(Seq::<TokenModel>::empty()) =~= mid);
            while i < tokens.len()
                invariant
                    start <= i <= tokens.len(),
                    ts == tokens_model(tokens@),
                    elements_model(elements@) == mid + flat_patterns(ts.subrange(start as int, i as int)),
                decreases tokens.len() - i,
            {
                append_elements(&mut elements, &tokens[i].pattern, 0);
                i += 1;
                proof {
                    assert(ts.subrange(start as int, i as int).drop_last() =~= ts.subrange(start as int, i - 1));
                    if ts[i - 1].2.len() > 0 {
                        assert(ts[i - 1].2.skip(0) =~= ts[i - 1].2);
                    }
                }
                assert(elements_model(elements@) =~= mid + flat_patterns(ts.subrange(start as int, i as int)));
            }
            assert(ts.subrange(start as int, i as int) =~= ts.skip(start as int));
            proof {
                if root.extra_element {
                    assert(elements_model(elements@) =~= head + (tail_of(ts[tc as int].2) + flat_patterns(ts.skip(tc + 1))));
                } else {
                    assert(elements_model(elements@) =~= head + flat_patterns(ts.skip(tc as int)));
                }
            }
            Ok((root.word.clone(), Pattern(elements)))
        },
    }
}

} // verus!
