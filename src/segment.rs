//! Grouping a token stream into segments: maximal runs of word-class tokens,
//! and every other token on its own.

use vstd::prelude::*;

use crate::pattern::pattern_is_word;
use crate::text::{append_str, lemma_encode_concat};
use vstd::utf8::{decode_utf8, encode_utf8, encode_utf8_decode_utf8};
use crate::token::{
    Token, TokenModel, all_nonempty, end_of, start_of, texts_faithful, tiles, tokens_model,
};
use crate::Error;

verus! {

/// A group of consecutive tokens, with the byte range and text they span.
#[derive(Debug)]
pub struct TokenGroup {
    pub range: std::ops::Range<usize>,
    pub text: String,
    pub tokens: Vec<Token>,
    pub is_word: bool,
}

/// The model of a group: whether it is a word run, and its tokens.
pub type GroupModel = (bool, Seq<TokenModel>);

impl View for TokenGroup {
    type V = GroupModel;

    open spec fn view(&self) -> GroupModel {
        (self.is_word, tokens_model(self.tokens@))
    }
}

pub open spec fn groups_model(v: Seq<TokenGroup>) -> Seq<GroupModel> {
    v.map_values(|g: TokenGroup| g@)
}

pub open spec fn token_is_word(t: TokenModel) -> bool {
    pattern_is_word(t.2)
}

/// How a token sequence falls into groups: a word-class token joins the run
/// before it, if any; any other token stands alone.
pub open spec fn group_spec(ts: Seq<TokenModel>) -> Seq<GroupModel>
    decreases ts.len(),
{
    if ts.len() == 0 {
        Seq::<GroupModel>::empty()
    } else {
        let g = group_spec(ts.drop_last());
        let t = ts.last();
        if !token_is_word(t) {
            g.push((false, seq![t]))
        } else if g.len() > 0 && g.last().0 {
            g.update(g.len() - 1, (true, g.last().1.push(t)))
        } else {
            g.push((true, seq![t]))
        }
    }
}

/// The tokens of all groups, in order.
pub open spec fn flatten(gs: Seq<GroupModel>) -> Seq<TokenModel>
    decreases gs.len(),
{
    if gs.len() == 0 {
        Seq::<TokenModel>::empty()
    } else {
        flatten(gs.drop_last()) + gs.last().1
    }
}

/// The concatenated texts of tokens.
pub open spec fn texts_of(ts: Seq<TokenModel>) -> Seq<char>
    decreases ts.len(),
{
    if ts.len() == 0 {
        Seq::<char>::empty()
    } else {
        texts_of(ts.drop_last()) + ts.last().1
    }
}

/// The concatenated texts of groups.
pub open spec fn group_texts(gs: Seq<GroupModel>) -> Seq<char>
    decreases gs.len(),
{
    if gs.len() == 0 {
        Seq::<char>::empty()
    } else {
        group_texts(gs.drop_last()) + texts_of(gs.last().1)
    }
}

/// Every group holds at least one token.
pub open spec fn groups_nonempty(gs: Seq<GroupModel>) -> bool {
    forall|i: int| 0 <= i < gs.len() ==> (#[trigger] gs[i]).1.len() > 0
}

pub open spec fn with_run(gs: Seq<GroupModel>, run: Seq<TokenModel>) -> Seq<GroupModel> {
    if run.len() > 0 {
        gs.push((true, run))
    } else {
        gs
    }
}

pub proof fn lemma_texts_concat(a: Seq<TokenModel>, b: Seq<TokenModel>)
    ensures
        texts_of(a + b) == texts_of(a) + texts_of(b),
    decreases b.len(),
{
    if b.len() == 0 {
        assert(a + b =~= a);
    } else {
        lemma_texts_concat(a, b.drop_last());
        assert((a + b).drop_last() =~= a + b.drop_last());
        assert(texts_of(b) == texts_of(b.drop_last()) + b.last().1);
    }
}

/// Grouping neither drops, repeats nor reorders tokens, and leaves no group empty.
pub proof fn lemma_group_partition(ts: Seq<TokenModel>)
    ensures
        flatten(group_spec(ts)) == ts,
        groups_nonempty(group_spec(ts)),
    decreases ts.len(),
{
    if ts.len() > 0 {
        let g = group_spec(ts.drop_last());
        lemma_group_partition(ts.drop_last());
        let t = ts.last();
        if !token_is_word(t) || !(g.len() > 0 && g.last().0) {
            let kind = token_is_word(t);
            let r = g.push((kind, seq![t]));
            assert(r.drop_last() =~= g);
            assert(flatten(r) =~= ts);
        } else {
            let r = g.update(g.len() - 1, (true, g.last().1.push(t)));
            assert(r.drop_last() =~= g.drop_last());
            assert(flatten(g) == flatten(g.drop_last()) + g.last().1);
            assert(r.last() == (true, g.last().1.push(t)));
            assert(flatten(r) == flatten(g.drop_last()) + g.last().1.push(t));
            assert(ts =~= ts.drop_last().push(t));
            assert(flatten(r) =~= ts);
        }
    }
}

/// The texts of the groups, in order, are the texts of the tokens, in order.
pub proof fn lemma_group_texts(gs: Seq<GroupModel>)
    ensures
        group_texts(gs) == texts_of(flatten(gs)),
    decreases gs.len(),
{
    if gs.len() > 0 {
        lemma_group_texts(gs.drop_last());
        lemma_texts_concat(flatten(gs.drop_last()), gs.last().1);
    }
}

/// Segmentation partitions the text: the segments' texts, in order, make up
/// the tokens' texts, in order, so where the tokens make up the input the
/// segments do too.
pub proof fn lemma_segments_reconstruct_input(ts: Seq<TokenModel>)
    ensures
        group_texts(group_spec(ts)) == texts_of(ts),
{
    lemma_group_partition(ts);
    lemma_group_texts(group_spec(ts));
}

/// A group whose text and range are those its tokens span.
pub open spec fn group_well_formed(g: TokenGroup) -> bool {
    let ts = tokens_model(g.tokens@);
    &&& ts.len() > 0
    &&& g.text@ == texts_of(ts)
    &&& g.range.start == start_of(ts[0])
    &&& g.range.end == end_of(ts.last())
}

pub open spec fn all_ranged(ts: Seq<TokenModel>) -> bool {
    forall|i: int| 0 <= i < ts.len() ==> (#[trigger] ts[i]).0 is Some
}

fn make_group(tokens: Vec<Token>, is_word: bool) -> (g: TokenGroup)
    requires
        tokens.len() > 0,
        all_ranged(tokens_model(tokens@)),
    ensures
        g@ == (is_word, tokens_model(tokens@)),
        group_well_formed(g),
{
    let ghost ts = tokens_model(tokens@);
    let mut text = String::new();
    let mut i: usize = 0;
    while i < tokens.len()
        invariant
            i <= tokens.len(),
            ts == tokens_model(tokens@),
            text@ == texts_of(ts.take(i as int)),
        decreases tokens.len() - i,
    {
        append_str(&mut text, tokens[i].text.as_str());
        i += 1;
        assert(ts.take(i as int).drop_last() =~= ts.take(i - 1));
        assert(text@ =~= texts_of(ts.take(i as int)));
    }
    assert(ts.take(i as int) =~= ts);
    assert(ts[0].0 is Some);
    assert(ts.last().0 is Some);
    let start = match &tokens[0].range {
        Some(r) => r.start,
        None => 0,
    };
    let end = match &tokens[tokens.len() - 1].range {
        Some(r) => r.end,
        None => 0,
    };
    TokenGroup { range: start..end, text, tokens, is_word }
}

/// Groups tokens into segments. Fails when a token has no source range.
pub fn group_tokens(tokens: &Vec<Token>) -> (r: Result<Vec<TokenGroup>, Error>)
    ensures
        r is Ok <==> all_ranged(tokens_model(tokens@)),
        r matches Ok(gs) ==> groups_model(gs@) == group_spec(tokens_model(tokens@)),
        r matches Ok(gs) ==> forall|i: int| 0 <= i < gs.len() ==> group_well_formed(#[trigger] gs@[i]),
        r matches Err(e) ==> e is Tokenize,
{
    let ghost ts = tokens_model(tokens@);
    let mut i: usize = 0;
    while i < tokens.len()
        invariant
            i <= tokens.len(),
            ts == tokens_model(tokens@),
            forall|j: int| 0 <= j < i ==> (#[trigger] ts[j]).0 is Some,
        decreases tokens.len() - i,
    {
        if tokens[i].range.is_none() {
            assert(ts[i as int].0 is None);
            return Err(Error::Tokenize("token is missing source range".to_owned()));
        }
        i += 1;
    }
    let mut groups: Vec<TokenGroup> = Vec::new();
    let mut run: Vec<Token> = Vec::new();
    let mut i: usize = 0;
    while i < tokens.len()
        invariant
            i <= tokens.len(),
            ts == tokens_model(tokens@),
            all_ranged(ts),
            all_ranged(tokens_model(run@)),
            with_run(groups_model(groups@), tokens_model(run@)) == group_spec(ts.take(i as int)),
            groups@.len() > 0 ==> !groups@.last().is_word,
            forall|j: int| 0 <= j < groups.len() ==> group_well_formed(#[trigger] groups@[j]),
        decreases tokens.len() - i,
    {
        let t = tokens[i].duplicate();
        let ghost gm = groups_model(groups@);
        let ghost rm = tokens_model(run@);
        proof {
            assert(ts.take(i + 1).drop_last() =~= ts.take(i as int));
            assert(ts.take(i + 1).last() == t@);
            assert(gm.len() > 0 ==> gm.last() == groups@.last()@);
        }
        if t.pattern.is_word() {
            run.push(t);
            proof {
                assert(tokens_model(run@) =~= rm.push(t@));
                if rm.len() > 0 {
                    assert(with_run(gm, rm).last() == (true, rm));
                    assert(gm.push((true, rm)).update(gm.len() as int, (true, rm.push(t@))) =~= gm.push((true, rm.push(t@))));
                } else {
                    assert(rm.push(t@) =~= seq![t@]);
                }
            }
        } else {
            if run.len() > 0 {
                let g = make_group(run, true);
                run = Vec::new();
                groups.push(g);
                assert(groups_model(groups@) =~= gm.push((true, rm)));
            }
            let ghost gm2 = groups_model(groups@);
            let single = make_group(vec![t], false);
            assert(tokens_model(single.tokens@) =~= seq![t@]);
            groups.push(single);
            assert(groups_model(groups@) =~= gm2.push((false, seq![t@])));
            assert(tokens_model(run@) =~= Seq::<TokenModel>::empty());
        }
        i += 1;
    }
    if run.len() > 0 {
        let ghost gm = groups_model(groups@);
        let ghost rm = tokens_model(run@);
        let g = make_group(run, true);
        groups.push(g);
        assert(groups_model(groups@) =~= gm.push((true, rm)));
    }
    assert(ts.take(tokens.len() as int) =~= ts);
    Ok(groups)
}

pub open spec fn group_start(g: GroupModel) -> int {
    start_of(g.1[0])
}

pub open spec fn group_end(g: GroupModel) -> int {
    end_of(g.1.last())
}

/// Groups whose spans tile `[0, n)` in order.
pub open spec fn groups_tile(gs: Seq<GroupModel>, n: int) -> bool {
    &&& gs.len() == 0 ==> n == 0
    &&& gs.len() > 0 ==> group_start(gs[0]) == 0 && group_end(gs.last()) == n
    &&& forall|i: int| 0 <= i < gs.len() - 1 ==> group_end(#[trigger] gs[i]) == group_start(gs[i + 1])
}

proof fn lemma_tiles_drop_last(ts: Seq<TokenModel>, n: int)
    requires
        ts.len() >= 1,
        tiles(ts, n),
    ensures
        tiles(ts.drop_last(), start_of(ts.last())),
{
    let d = ts.drop_last();
    assert(forall|i: int| 0 <= i < d.len() ==> d[i] == ts[i]);
    if d.len() > 0 {
        assert(end_of(ts[d.len() - 1]) == start_of(ts[d.len() as int]));
    }
}

/// Where the tokens tile the text, so do the segments: each starts where the
/// one before it ends, the first at 0 and the last at the end.
pub proof fn lemma_group_ranges_tile(ts: Seq<TokenModel>, n: int)
    requires
        tiles(ts, n),
    ensures
        groups_tile(group_spec(ts), n),
    decreases ts.len(),
{
    if ts.len() > 0 {
        let d = ts.drop_last();
        let t = ts.last();
        lemma_tiles_drop_last(ts, n);
        lemma_group_ranges_tile(d, start_of(t));
        lemma_group_partition(d);
        let g = group_spec(d);
        let r = group_spec(ts);
        assert(t == ts[ts.len() - 1]);
        assert(end_of(t) == n);
        if !token_is_word(t) || !(g.len() > 0 && g.last().0) {
            let kind = token_is_word(t);
            assert(r == g.push((kind, seq![t])));
            assert(seq![t][0] == t && seq![t].last() == t);
            assert forall|i: int| 0 <= i < r.len() - 1 implies group_end(#[trigger] r[i]) == group_start(r[i + 1]) by {
                if i < g.len() - 1 {
                    assert(r[i] == g[i] && r[i + 1] == g[i + 1]);
                } else {
                    assert(r[i] == g.last());
                }
            }
            if g.len() == 0 {
                assert(start_of(t) == 0);
            }
        } else {
            let last = (true, g.last().1.push(t));
            assert(r == g.update(g.len() - 1, last));
            assert(g.last().1.len() > 0);
            assert(last.1[0] == g.last().1[0]);
            assert(last.1.last() == t);
            assert forall|i: int| 0 <= i < r.len() - 1 implies group_end(#[trigger] r[i]) == group_start(r[i + 1]) by {
                assert(r[i] == g[i]);
                if i + 1 < r.len() - 1 {
                    assert(r[i + 1] == g[i + 1]);
                } else {
                    assert(group_start(r[i + 1]) == group_start(g[i + 1]));
                }
            }
            if g.len() == 1 {
                assert(r[0] == last);
            } else {
                assert(r[0] == g[0]);
            }
        }
    }
}

proof fn lemma_faithful_drop_last(ts: Seq<TokenModel>, bytes: Seq<u8>)
    requires
        ts.len() > 0,
        texts_faithful(ts, bytes),
    ensures
        texts_faithful(ts.drop_last(), bytes),
{
    let d = ts.drop_last();
    assert forall|i: int| 0 <= i < d.len() implies encode_utf8((#[trigger] d[i]).1) == bytes.subrange(start_of(d[i]), end_of(d[i])) by {
        assert(d[i] == ts[i]);
    }
}

/// Token ranges that follow each other from byte `a` to byte `n`.
pub open spec fn chained_from(ts: Seq<TokenModel>, a: int, n: int) -> bool
    decreases ts.len(),
{
    if ts.len() == 0 {
        n == a
    } else {
        let t = ts.last();
        &&& t.0 is Some
        &&& a <= start_of(t) <= end_of(t)
        &&& end_of(t) == n
        &&& chained_from(ts.drop_last(), a, start_of(t))
    }
}

proof fn lemma_chain_le(ts: Seq<TokenModel>, a: int, n: int)
    requires
        chained_from(ts, a, n),
    ensures
        a <= n,
{
}

proof fn lemma_tiles_chained(ts: Seq<TokenModel>, n: int)
    requires
        tiles(ts, n),
    ensures
        chained_from(ts, 0, n),
    decreases ts.len(),
{
    if ts.len() > 0 {
        let t = ts.last();
        assert(t == ts[ts.len() - 1]);
        lemma_tiles_drop_last(ts, n);
        lemma_tiles_chained(ts.drop_last(), start_of(t));
        lemma_chain_le(ts.drop_last(), 0, start_of(t));
    }
}

proof fn lemma_texts_bytes(ts: Seq<TokenModel>, bytes: Seq<u8>, a: int, n: int)
    requires
        chained_from(ts, a, n),
        0 <= a,
        n <= bytes.len(),
        texts_faithful(ts, bytes),
    ensures
        encode_utf8(texts_of(ts)) == bytes.subrange(a, n),
    decreases ts.len(),
{
    if ts.len() > 0 {
        let d = ts.drop_last();
        let t = ts.last();
        let m = start_of(t);
        lemma_faithful_drop_last(ts, bytes);
        lemma_texts_bytes(d, bytes, a, m);
        let x = texts_of(d);
        let y = t.1;
        assert(texts_of(ts) == x + y);
        lemma_encode_concat(x, y);
        assert(t == ts[ts.len() - 1]);
        assert(encode_utf8(y) == bytes.subrange(m, n));
        assert(bytes.subrange(a, n) =~= bytes.subrange(a, m) + bytes.subrange(m, n));
    } else {
        assert(bytes.subrange(a, a) =~= Seq::<u8>::empty());
        assert(encode_utf8(Seq::<char>::empty()) =~= Seq::<u8>::empty());
    }
}

/// Each group's tokens run on from the group's start to its end, and hold
/// the text of their ranges, where the tokens do.
pub open spec fn groups_chained(gs: Seq<GroupModel>, bytes: Seq<u8>, n: int) -> bool {
    forall|i: int| 0 <= i < gs.len() ==> chained_from((#[trigger] gs[i]).1, group_start(gs[i]), group_end(gs[i]))
        && texts_faithful(gs[i].1, bytes) && 0 <= group_start(gs[i]) && group_end(gs[i]) <= n
}

proof fn lemma_groups_chained(ts: Seq<TokenModel>, n: int, bytes: Seq<u8>)
    requires
        chained_from(ts, 0, n),
        texts_faithful(ts, bytes),
    ensures
        groups_chained(group_spec(ts), bytes, n),
    decreases ts.len(),
{
    if ts.len() > 0 {
        let d = ts.drop_last();
        let t = ts.last();
        assert(t == ts[ts.len() - 1]);
        lemma_faithful_drop_last(ts, bytes);
        lemma_groups_chained(d, start_of(t), bytes);
        lemma_group_partition(d);
        let g = group_spec(d);
        let r = group_spec(ts);
        let one = seq![t];
        lemma_chain_le(d, 0, start_of(t));
        assert(one.drop_last() =~= Seq::<TokenModel>::empty());
        assert(chained_from(Seq::<TokenModel>::empty(), start_of(t), start_of(t)));
        assert(one.last() == t);
        assert(chained_from(one, start_of(t), end_of(t)));
        assert(texts_faithful(one, bytes)) by {
            assert(one[0] == t);
        }
        if !token_is_word(t) || !(g.len() > 0 && g.last().0) {
            let kind = token_is_word(t);
            assert(r == g.push((kind, one)));
            assert(one[0] == t && one.last() == t);
            assert forall|i: int| 0 <= i < r.len() implies chained_from((#[trigger] r[i]).1, group_start(r[i]), group_end(r[i]))
                && texts_faithful(r[i].1, bytes) && 0 <= group_start(r[i]) && group_end(r[i]) <= n by {
                if i < g.len() {
                    assert(r[i] == g[i]);
                } else {
                    assert(r[i] == (kind, one));
                }
            }
        } else {
            let last = g.last();
            let nl = (true, last.1.push(t));
            assert(d.len() > 0);
            assert(chained_from(d, 0, start_of(t)));
            assert(d.last() == d[d.len() - 1]);
            assert(r == g.update(g.len() - 1, nl));
            assert(last.1.len() > 0);
            assert(flatten(g) == flatten(g.drop_last()) + last.1);
            assert(d.last() == last.1.last());
            assert(end_of(d.last()) == start_of(t));
            lemma_chain_le(last.1, group_start(last), group_end(last));
            assert(nl.1.drop_last() =~= last.1);
            assert(nl.1.last() == t);
            assert(nl.1[0] == last.1[0]);
            assert(texts_faithful(nl.1, bytes)) by {
                assert forall|k: int| 0 <= k < nl.1.len() implies encode_utf8((#[trigger] nl.1[k]).1) == bytes.subrange(start_of(nl.1[k]), end_of(nl.1[k])) by {
                    if k < last.1.len() {
                        assert(nl.1[k] == last.1[k]);
                    }
                }
            }
            assert(g.last() == g[g.len() - 1]);
            assert forall|i: int| 0 <= i < r.len() implies chained_from((#[trigger] r[i]).1, group_start(r[i]), group_end(r[i]))
                && texts_faithful(r[i].1, bytes) && 0 <= group_start(r[i]) && group_end(r[i]) <= n by {
                if i < g.len() - 1 {
                    assert(r[i] == g[i]);
                } else {
                    assert(r[i] == nl);
                }
            }
        }
    }
}

/// Segmentation reconstructs the input: where the tokens tile a text and each
/// holds exactly the text of its range, the segments' texts, in order, are
/// the text.
pub proof fn lemma_segments_rebuild_text(ts: Seq<TokenModel>, text: Seq<char>)
    requires
        tiles(ts, encode_utf8(text).len() as int),
        texts_faithful(ts, encode_utf8(text)),
    ensures
        group_texts(group_spec(ts)) == text,
{
    let bytes = encode_utf8(text);
    lemma_tiles_chained(ts, bytes.len() as int);
    lemma_texts_bytes(ts, bytes, 0, bytes.len() as int);
    assert(bytes.subrange(0, bytes.len() as int) =~= bytes);
    lemma_segments_reconstruct_input(ts);
    encode_utf8_decode_utf8(texts_of(ts));
    encode_utf8_decode_utf8(text);
}

/// The segments' texts, in order.
pub open spec fn segment_texts(gs: Seq<TokenGroup>) -> Seq<char>
    decreases gs.len(),
{
    if gs.len() == 0 {
        Seq::<char>::empty()
    } else {
        segment_texts(gs.drop_last()) + gs.last().text@
    }
}

pub proof fn lemma_segment_texts(gs: Seq<TokenGroup>)
    requires
        forall|i: int| 0 <= i < gs.len() ==> group_well_formed(#[trigger] gs[i]),
    ensures
        segment_texts(gs) == group_texts(groups_model(gs)),
    decreases gs.len(),
{
    if gs.len() > 0 {
        let d = gs.drop_last();
        assert forall|i: int| 0 <= i < d.len() implies group_well_formed(#[trigger] d[i]) by {
            assert(d[i] == gs[i]);
        }
        lemma_segment_texts(d);
        assert(groups_model(gs).drop_last() =~= groups_model(d));
        assert(gs.last() == gs[gs.len() - 1]);
        assert(group_well_formed(gs.last()));
    }
}

/// Where the tokens tile a text and hold the text of their ranges, so does
/// each segment, and the segments' texts, in order, are the text.
pub proof fn lemma_segments_partition_text(ts: Seq<TokenModel>, gs: Seq<TokenGroup>, text: Seq<char>)
    requires
        tiles(ts, encode_utf8(text).len() as int),
        texts_faithful(ts, encode_utf8(text)),
        groups_model(gs) == group_spec(ts),
        forall|i: int| 0 <= i < gs.len() ==> group_well_formed(#[trigger] gs[i]),
    ensures
        segment_texts(gs) == text,
        forall|i: int| 0 <= i < gs.len() ==> encode_utf8((#[trigger] gs[i]).text@) == encode_utf8(text).subrange(
            gs[i].range.start as int,
            gs[i].range.end as int,
        ),
{
    let bytes = encode_utf8(text);
    lemma_segments_rebuild_text(ts, text);
    lemma_segment_texts(gs);
    lemma_tiles_chained(ts, bytes.len() as int);
    lemma_groups_chained(ts, bytes.len() as int, bytes);
    assert forall|i: int| 0 <= i < gs.len() implies encode_utf8((#[trigger] gs[i]).text@) == bytes.subrange(
        gs[i].range.start as int,
        gs[i].range.end as int,
    ) by {
        let m = groups_model(gs)[i];
        assert(m == gs[i]@);
        assert(group_well_formed(gs[i]));
        assert(chained_from(m.1, group_start(m), group_end(m)) && texts_faithful(m.1, bytes));
        lemma_texts_bytes(m.1, bytes, group_start(m), group_end(m));
    }
}


/// Where the tokens tile a text and each covers some bytes, there are no
/// segments exactly when the text is empty.
pub proof fn lemma_no_segments_iff_empty(ts: Seq<TokenModel>, text: Seq<char>)
    requires
        tiles(ts, encode_utf8(text).len() as int),
        all_nonempty(ts),
    ensures
        group_spec(ts).len() == 0 <==> text.len() == 0,
{
    let n = encode_utf8(text).len() as int;
    lemma_group_partition(ts);
    encode_utf8_decode_utf8(text);
    if ts.len() > 0 {
        lemma_tiles_chained(ts, n);
        let t = ts.last();
        assert(t == ts[ts.len() - 1]);
        lemma_chain_le(ts.drop_last(), 0, start_of(t));
        assert(n > 0);
        assert(group_spec(ts).len() > 0) by {
            if group_spec(ts).len() == 0 {
                assert(flatten(group_spec(ts)) =~= Seq::<TokenModel>::empty());
            }
        }
        if text.len() == 0 {
            assert(encode_utf8(text) =~= Seq::<u8>::empty());
        }
    } else {
        assert(n == 0);
        assert(encode_utf8(text) =~= Seq::<u8>::empty());
        assert(decode_utf8(encode_utf8(text)) =~= Seq::<char>::empty());
    }
}

} // verus!
