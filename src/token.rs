//! Tokens: morpheme runs with their source byte range.

use vstd::prelude::*;

use crate::pattern::{
    Element, ElementModel, Pattern, PatternModel, parse_pattern_spec, unk_string, unk_tag,
};
use crate::text::{split_chars, split_spec, str_is};
use vstd::string::StringSliceAdditionalSpecFns;
use vstd::utf8::{decode_utf8, encode_utf8, encode_utf8_decode_utf8, is_char_boundary};
use crate::Error;

verus! {

/// A run of source text with the morphemes it was analysed into. `range` is
/// the byte range in the analysed text; tokens given by hand have none.
#[derive(Debug)]
pub struct Token {
    pub range: Option<std::ops::Range<usize>>,
    pub text: String,
    pub pattern: Pattern,
}

/// The model of a token: (byte range, text, pattern).
pub type TokenModel = (Option<(int, int)>, Seq<char>, PatternModel);

pub open spec fn range_model(r: Option<std::ops::Range<usize>>) -> Option<(int, int)> {
    match r {
        Some(r) => Some((r.start as int, r.end as int)),
        None => None,
    }
}

impl View for Token {
    type V = TokenModel;

    open spec fn view(&self) -> TokenModel {
        (range_model(self.range), self.text@, self.pattern@)
    }
}

pub open spec fn tokens_model(v: Seq<Token>) -> Seq<TokenModel> {
    v.map_values(|t: Token| t@)
}

/// What a tokenizer feature string describes: eight `,`-separated fields, of
/// which the fourth is the token's text; the eighth is its pattern, or `*`
/// for a single element tagged with the first field.
pub open spec fn feature_spec(f: Seq<char>) -> Option<(Seq<char>, PatternModel)> {
    let fields = split_spec(f, ',');
    if fields.len() != 8 {
        None
    } else if fields[7] == seq!['*'] {
        Some((fields[3], seq![(fields[3], fields[0])]))
    } else {
        match parse_pattern_spec(fields[7]) {
            Some(p) => Some((fields[3], p)),
            None => None,
        }
    }
}

impl Token {
    /// A copy of the token.
    pub fn duplicate(&self) -> (r: Token)
        ensures
            r@ == self@,
    {
        let range = match &self.range {
            Some(r) => Some(r.start..r.end),
            None => None,
        };
        Token { range, text: self.text.clone(), pattern: self.pattern.duplicate() }
    }

    /// Builds a token from a tokenizer feature string and the token's range.
    pub fn from_feature(feature: &str, range: std::ops::Range<usize>) -> (r: Result<Token, Error>)
        ensures
            r is Ok <==> feature_spec(feature@) is Some,
            r matches Ok(t) ==> (feature_spec(feature@) matches Some(m) && t@ == (
                Some((range.start as int, range.end as int)),
                m.0,
                m.1,
            )),
            split_spec(feature@, ',').len() != 8 ==> r matches Err(Error::Tokenize(_)),
            split_spec(feature@, ',').len() == 8 ==> (r matches Err(e) ==> e is Parse),
    {
        let fields = split_chars(feature, ',');
        let ghost fm = fields@.map_values(|p: String| p@);
        assert(fm.len() == fields@.len());
        if fields.len() != 8 {
            return Err(Error::Tokenize(feature.to_owned()));
        }
        assert(fm[0] == fields@[0]@ && fm[3] == fields@[3]@ && fm[7] == fields@[7]@);
        let text = fields[3].clone();
        proof {
            reveal_strlit("*");
            assert("*"@ =~= seq!['*']);
        }
        let star = str_is(fields[7].as_str(), "*");
        let pattern = if star {
            let e = Element { text: text.clone(), pos: fields[0].clone() };
            let v = vec![e];
            let p = Pattern(v);
            assert(p@ =~= seq![(fm[3], fm[0])]);
            p
        } else {
            match Pattern::parse(fields[7].as_str()) {
                Ok(p) => p,
                Err(e) => {
                    return Err(e);
                },
            }
        };
        Ok(Token { range: Some(range), text, pattern })
    }
}

pub open spec fn start_of(t: TokenModel) -> int {
    t.0->Some_0.0
}

pub open spec fn end_of(t: TokenModel) -> int {
    t.0->Some_0.1
}

/// Tokens whose byte ranges tile `[0, n)` in order.
pub open spec fn tiles(q: Seq<TokenModel>, n: int) -> bool {
    &&& forall|i: int| 0 <= i < q.len() ==> (#[trigger] q[i]).0 is Some && start_of(q[i]) <= end_of(q[i])
    &&& q.len() == 0 ==> n == 0
    &&& q.len() > 0 ==> start_of(q[0]) == 0 && end_of(q.last()) == n
    &&& forall|i: int| 0 <= i < q.len() - 1 ==> end_of(#[trigger] q[i]) == start_of(q[i + 1])
}

proof fn lemma_tiles_push(q: Seq<TokenModel>, n: int, t: TokenModel)
    requires
        q.len() == 0 ==> n == 0,
        q.len() > 0 ==> tiles(q, n),
        t.0 is Some,
        start_of(t) == n,
        n <= end_of(t),
    ensures
        tiles(q.push(t), end_of(t)),
{
    let r = q.push(t);
    assert(forall|i: int| 0 <= i < q.len() ==> r[i] == q[i]);
    assert(r.last() == t);
    assert forall|i: int| 0 <= i < r.len() - 1 implies end_of(#[trigger] r[i]) == start_of(r[i + 1]) by {
        if i < q.len() - 1 {
            assert(r[i + 1] == q[i + 1]);
        }
    }
}

/// Each token's text is exactly the bytes of its range.
pub open spec fn texts_faithful(ts: Seq<TokenModel>, bytes: Seq<u8>) -> bool {
    forall|i: int| 0 <= i < ts.len() ==> encode_utf8((#[trigger] ts[i]).1) == bytes.subrange(start_of(ts[i]), end_of(ts[i]))
}

/// Every token covers at least one byte.
pub open spec fn all_nonempty(ts: Seq<TokenModel>) -> bool {
    forall|i: int| 0 <= i < ts.len() ==> start_of(#[trigger] ts[i]) < end_of(ts[i])
}

/// The text of bytes `a..b`.
pub open spec fn slice_text(bytes: Seq<u8>, a: int, b: int) -> Seq<char> {
    decode_utf8(bytes.subrange(a, b))
}

/// The token made for the text between two analysed tokens, if that text is
/// not empty: one `UNK` element holding exactly the bytes of its range.
pub open spec fn gap_seq(bytes: Seq<u8>, a: int, b: int) -> Seq<TokenModel> {
    if a == b {
        Seq::<TokenModel>::empty()
    } else {
        let t = slice_text(bytes, a, b);
        seq![(Some((a, b)), t, seq![(t, unk_tag())])]
    }
}

/// The text between bytes `a` and `b` can be cut out: it is empty, or both
/// ends are char boundaries in order within the text.
pub open spec fn gap_ok(bytes: Seq<u8>, a: int, b: int) -> bool {
    a == b || (0 <= a <= b <= bytes.len() && is_char_boundary(bytes, a) && is_char_boundary(bytes, b))
}

/// The analysed tokens from `ts` on fit a text of `n` bytes after byte
/// `last`: each one not named `*` has a range that starts at or after the
/// previous one's end and ends within the text, and the range and every gap
/// can be cut out.
pub open spec fn fits(bytes: Seq<u8>, n: int, ts: Seq<TokenModel>, last: int) -> bool
    decreases ts.len(),
{
    if ts.len() == 0 {
        gap_ok(bytes, last, n)
    } else {
        let t = ts[0];
        if t.1 == seq!['*'] {
            fits(bytes, n, ts.drop_first(), last)
        } else {
            &&& t.0 is Some
            &&& last <= start_of(t) <= end_of(t) <= n
            &&& gap_ok(bytes, last, start_of(t))
            &&& gap_ok(bytes, start_of(t), end_of(t))
            &&& fits(bytes, n, ts.drop_first(), end_of(t))
        }
    }
}

/// The token stream made of the analysed tokens from `ts` on, after byte
/// `last`: tokens named `*` and tokens covering no bytes are dropped; each
/// other token, with the text of its range, follows the gap token for the
/// text before it; a gap token for the rest of the text closes the stream.
pub open spec fn filled(bytes: Seq<u8>, n: int, ts: Seq<TokenModel>, last: int) -> Seq<TokenModel>
    decreases ts.len(),
{
    if ts.len() == 0 {
        gap_seq(bytes, last, n)
    } else {
        let t = ts[0];
        if t.1 == seq!['*'] {
            filled(bytes, n, ts.drop_first(), last)
        } else {
            gap_seq(bytes, last, start_of(t)) + own_seq(bytes, start_of(t), end_of(t), t.2) + filled(
                bytes,
                n,
                ts.drop_first(),
                end_of(t),
            )
        }
    }
}

/// An analysed token over bytes `a..b` with the text of its range, unless
/// it covers no bytes.
pub open spec fn own_seq(bytes: Seq<u8>, a: int, b: int, p: PatternModel) -> Seq<TokenModel> {
    if a == b {
        Seq::<TokenModel>::empty()
    } else {
        seq![(Some((a, b)), slice_text(bytes, a, b), p)]
    }
}

pub open spec fn opt_token(o: Option<Token>) -> Seq<TokenModel> {
    match o {
        Some(t) => seq![t@],
        None => Seq::<TokenModel>::empty(),
    }
}

/// Relies on `str::get` with a byte range: `Some` exactly when both ends are
/// char boundaries and in order within the string, holding those bytes.
#[verifier::external_body]
fn byte_slice(s: &str, start: usize, end: usize) -> (r: Option<String>)
    ensures
        r is Some <==> (start <= end <= s.spec_bytes().len() && is_char_boundary(
            s.spec_bytes(),
            start as int,
        ) && is_char_boundary(s.spec_bytes(), end as int)),
        r matches Some(t) ==> encode_utf8(t@) == s.spec_bytes().subrange(start as int, end as int),
{
    s.get(start..end).map(|t| t.to_string())
}

/// The text of bytes `start..end` of `text`, if both are char boundaries in
/// order within it.
fn slice_of(text: &str, start: usize, end: usize) -> (r: Option<String>)
    requires
        start < end,
    ensures
        r is Some <==> gap_ok(text.spec_bytes(), start as int, end as int),
        r matches Some(t) ==> t@ == slice_text(text.spec_bytes(), start as int, end as int)
            && encode_utf8(t@) == text.spec_bytes().subrange(start as int, end as int),
{
    let r = byte_slice(text, start, end);
    match &r {
        Some(t) => {
            proof {
                encode_utf8_decode_utf8(t@);
            }
        },
        None => {},
    }
    r
}

/// A gap token for `text[start..end]`, unless that is empty.
fn gap_token(text: &str, start: usize, end: usize) -> (r: Result<Option<Token>, Error>)
    requires
        start <= end,
    ensures
        r matches Ok(o) ==> opt_token(o) == gap_seq(text.spec_bytes(), start as int, end as int),
        r matches Ok(Some(t)) ==> t@.0 == Some((start as int, end as int)) && start < end
            && encode_utf8(t@.1) == text.spec_bytes().subrange(start as int, end as int),
        r is Err <==> !gap_ok(text.spec_bytes(), start as int, end as int),
        r matches Err(e) ==> e is Tokenize,
{
    if start == end {
        assert(opt_token(None) =~= gap_seq(text.spec_bytes(), start as int, end as int));
        return Ok(None);
    }
    match slice_of(text, start, end) {
        Some(sep) => {
            let e = Element { text: sep.clone(), pos: unk_string() };
            let p = Pattern(vec![e]);
            assert(p@ =~= seq![(sep@, unk_tag())]);
            let t = Token { range: Some(start..end), text: sep, pattern: p };
            assert(opt_token(Some(t)) =~= gap_seq(text.spec_bytes(), start as int, end as int));
            Ok(Some(t))
        },
        None => Err(Error::Tokenize(text.to_owned())),
    }
}

proof fn lemma_facts_push(q: Seq<TokenModel>, t: TokenModel, bytes: Seq<u8>)
    requires
        texts_faithful(q, bytes),
        all_nonempty(q),
        encode_utf8(t.1) == bytes.subrange(start_of(t), end_of(t)),
        start_of(t) < end_of(t),
    ensures
        texts_faithful(q.push(t), bytes),
        all_nonempty(q.push(t)),
{
    let r = q.push(t);
    assert(forall|i: int| 0 <= i < q.len() ==> r[i] == q[i]);
    assert(r[q.len() as int] == t);
}

/// The facts kept of a token stream built up to byte `last`.
pub open spec fn stream_ok(q: Seq<TokenModel>, last: int, bytes: Seq<u8>) -> bool {
    &&& q.len() == 0 ==> last == 0
    &&& q.len() > 0 ==> tiles(q, last)
    &&& texts_faithful(q, bytes)
    &&& all_nonempty(q)
}

/// Appends the gap token for `last..start` and the analysed token over
/// `start..end` with pattern `pattern`.
fn append_token(text: &str, out: &mut Vec<Token>, last: usize, start: usize, end: usize, pattern: &Pattern) -> (r: Result<(), Error>)
    requires
        last <= start <= end <= text.spec_bytes().len(),
        stream_ok(tokens_model(old(out)@), last as int, text.spec_bytes()),
    ensures
        r is Err <==> !(gap_ok(text.spec_bytes(), last as int, start as int) && gap_ok(
            text.spec_bytes(),
            start as int,
            end as int,
        )),
        r is Ok ==> tokens_model(final(out)@) == tokens_model(old(out)@) + gap_seq(
            text.spec_bytes(),
            last as int,
            start as int,
        ) + own_seq(text.spec_bytes(), start as int, end as int, pattern@),
        r is Ok ==> stream_ok(tokens_model(final(out)@), end as int, text.spec_bytes()),
        r matches Err(e) ==> e is Tokenize,
{
    let ghost bytes = text.spec_bytes();
    let ghost q0 = tokens_model(out@);
    let mut cur = last;
    match gap_token(text, last, start) {
        Ok(Some(g)) => {
            if start < end {
                if slice_of(text, start, end).is_none() {
                    return Err(Error::Tokenize(text.to_owned()));
                }
            }
            let ghost old_out = out@;
            proof {
                lemma_tiles_push(tokens_model(old_out), last as int, g@);
                lemma_facts_push(tokens_model(old_out), g@, bytes);
            }
            out.push(g);
            assert(tokens_model(out@) =~= tokens_model(old_out).push(g@));
            cur = start;
        },
        Ok(None) => {
            assert(q0 + gap_seq(bytes, last as int, start as int) =~= q0);
        },
        Err(e) => {
            return Err(e);
        },
    }
    let ghost q1 = tokens_model(out@);
    assert(q1 == q0 + gap_seq(bytes, last as int, start as int));
    if start < end {
        match slice_of(text, start, end) {
            Some(own_text) => {
                let t = Token { range: Some(start..end), text: own_text, pattern: pattern.duplicate() };
                let ghost old_out = out@;
                proof {
                    lemma_tiles_push(tokens_model(old_out), cur as int, t@);
                    lemma_facts_push(tokens_model(old_out), t@, bytes);
                }
                out.push(t);
                assert(tokens_model(out@) =~= tokens_model(old_out).push(t@));
                assert(tokens_model(out@) =~= q1 + own_seq(bytes, start as int, end as int, pattern@));
            },
            None => {
                return Err(Error::Tokenize(text.to_owned()));
            },
        }
    } else {
        assert(q1 + own_seq(bytes, start as int, end as int, pattern@) =~= q1);
    }
    Ok(())
}

/// Puts the analysed tokens of `text` in order with gap tokens for the text
/// between and around them. A token takes the text of its range; tokens
/// named `*` and tokens covering no bytes are dropped. Fails when a token's
/// range overlaps an earlier one or does not lie on char boundaries within
/// the text.
pub fn fill_gaps(text: &str, lexed: Vec<Token>) -> (r: Result<Vec<Token>, Error>)
    ensures
        r is Ok <==> fits(text.spec_bytes(), text.spec_bytes().len() as int, tokens_model(lexed@), 0),
        r matches Ok(q) ==> tokens_model(q@) == filled(
            text.spec_bytes(),
            text.spec_bytes().len() as int,
            tokens_model(lexed@),
            0,
        ),
        r matches Ok(q) ==> tiles(tokens_model(q@), text.spec_bytes().len() as int),
        r matches Ok(q) ==> texts_faithful(tokens_model(q@), text.spec_bytes()),
        r matches Ok(q) ==> all_nonempty(tokens_model(q@)),
        r matches Err(e) ==> e is Tokenize,
{
    let ghost bytes = text.spec_bytes();
    let len = text.as_bytes().len();
    let ghost n = bytes.len() as int;
    assert(len == n);
    let mut out: Vec<Token> = Vec::new();
    let mut last_end: usize = 0;
    let mut k: usize = 0;
    proof {
        reveal_strlit("*");
        assert("*"@ =~= seq!['*']);
    }
    let ghost tm = tokens_model(lexed@);
    assert(tm.skip(0) =~= tm);
    assert(tokens_model(out@) + filled(bytes, n, tm, 0) =~= filled(bytes, n, tm, 0));
    while k < lexed.len()
        invariant
            k <= lexed.len(),
            tm == tokens_model(lexed@),
            len == n,
            n == bytes.len(),
            fits(bytes, n, tm, 0) <==> fits(bytes, n, tm.skip(k as int), last_end as int),
            filled(bytes, n, tm, 0) == tokens_model(out@) + filled(bytes, n, tm.skip(k as int), last_end as int),
            bytes == text.spec_bytes(),
            "*"@ == seq!['*'],
            last_end <= n,
            stream_ok(tokens_model(out@), last_end as int, bytes),
        decreases lexed.len() - k,
    {
        let tok = &lexed[k];
        let ghost rest = tm.skip(k as int);
        proof {
            assert(rest[0] == tm[k as int]);
            assert(rest.drop_first() =~= tm.skip(k + 1));
            assert(tm[k as int] == lexed@[k as int]@);
        }
        if str_is(tok.text.as_str(), "*") {
            k += 1;
            continue;
        }
        let (start, end) = match &tok.range {
            Some(r) => (r.start, r.end),
            None => {
                return Err(Error::Tokenize(text.to_owned()));
            },
        };
        if start < last_end || end < start || end > len {
            return Err(Error::Tokenize(text.to_owned()));
        }
        match append_token(text, &mut out, last_end, start, end, &tok.pattern) {
            Ok(()) => {},
            Err(e) => {
                return Err(e);
            },
        }
        proof {
            assert(filled(bytes, n, rest, last_end as int) == gap_seq(bytes, last_end as int, start as int) + own_seq(
                bytes,
                start as int,
                end as int,
                rest[0].2,
            ) + filled(bytes, n, tm.skip(k + 1), end as int));
        }
        last_end = end;
        k += 1;
    }
    let gap = gap_token(text, last_end, len);
    match gap {
        Ok(Some(g)) => {
            let ghost old_out = out@;
            proof {
                lemma_tiles_push(tokens_model(old_out), last_end as int, g@);
                lemma_facts_push(tokens_model(old_out), g@, bytes);
            }
            out.push(g);
            assert(tokens_model(out@) =~= tokens_model(old_out).push(g@));
        },
        Ok(None) => {
            assert(last_end == len);
        },
        Err(e) => {
            return Err(e);
        },
    }
    assert(tm.skip(k as int) =~= Seq::<TokenModel>::empty());
    Ok(out)
}

/// The text a feature string gives a token; empty for a malformed one.
pub open spec fn feat_text(f: Seq<char>) -> Seq<char> {
    match feature_spec(f) {
        Some(m) => m.0,
        None => Seq::<char>::empty(),
    }
}

/// The pattern a feature string gives a token; empty for a malformed one.
pub open spec fn feat_pattern(f: Seq<char>) -> PatternModel {
    match feature_spec(f) {
        Some(m) => m.1,
        None => Seq::<ElementModel>::empty(),
    }
}

/// The tokens the lexer's output describes, one per feature string and range.
pub open spec fn lexed_models(lexed: Seq<(String, std::ops::Range<usize>)>) -> Seq<TokenModel> {
    Seq::new(
        lexed.len(),
        |i: int| (Some((lexed[i].1.start as int, lexed[i].1.end as int)), feat_text(lexed[i].0@), feat_pattern(lexed[i].0@)),
    )
}

/// Every feature string of the lexer's output is well formed.
pub open spec fn features_ok(lexed: Seq<(String, std::ops::Range<usize>)>) -> bool {
    forall|i: int| 0 <= i < lexed.len() ==> (#[trigger] feature_spec(lexed[i].0@)) is Some
}

/// The token stream of `text` from the lexer's output: each token's feature
/// string and byte range, in order.
pub fn tokens_from_lexer(text: &str, lexed: &Vec<(String, std::ops::Range<usize>)>) -> (r: Result<Vec<Token>, Error>)
    ensures
        r is Ok <==> features_ok(lexed@) && fits(
            text.spec_bytes(),
            text.spec_bytes().len() as int,
            lexed_models(lexed@),
            0,
        ),
        r matches Ok(q) ==> tokens_model(q@) == filled(
            text.spec_bytes(),
            text.spec_bytes().len() as int,
            lexed_models(lexed@),
            0,
        ),
        r matches Ok(q) ==> tiles(tokens_model(q@), text.spec_bytes().len() as int),
        r matches Ok(q) ==> texts_faithful(tokens_model(q@), text.spec_bytes()),
        r matches Ok(q) ==> all_nonempty(tokens_model(q@)),
        r matches Err(e) ==> e is Tokenize || e is Parse,
{
    let ghost lm = lexed_models(lexed@);
    let mut tokens: Vec<Token> = Vec::new();
    let mut i: usize = 0;
    while i < lexed.len()
        invariant
            i <= lexed.len(),
            lm == lexed_models(lexed@),
            tokens_model(tokens@) == lm.take(i as int),
            forall|j: int| 0 <= j < i ==> (#[trigger] feature_spec(lexed@[j].0@)) is Some,
        decreases lexed.len() - i,
    {
        let range = lexed[i].1.start..lexed[i].1.end;
        match Token::from_feature(lexed[i].0.as_str(), range) {
            Ok(t) => {
                let ghost before = tokens@;
                tokens.push(t);
                assert(tokens_model(tokens@) =~= tokens_model(before).push(t@));
                assert(tokens_model(tokens@) =~= lm.take(i + 1));
            },
            Err(e) => {
                assert(!features_ok(lexed@));
                return Err(e);
            },
        }
        i += 1;
    }
    assert(lm.take(i as int) =~= lm);
    fill_gaps(text, tokens)
}

} // verus!
