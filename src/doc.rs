//! Documents, and the parsers that split plain text into analysable spans
//! and alphabetic words.

use vstd::prelude::*;
use vstd::utf8::{encode_scalar, encode_utf8};

use crate::text::{chars_of, lemma_encode_concat, string_of_range};
use crate::word::Segment;

verus! {

/// A text with the byte spans of it that are to be analysed.
#[derive(Debug)]
pub struct Document {
    pub text: String,
    pub spans: Vec<std::ops::Range<usize>>,
}

impl Document {
    pub fn new(text: String, spans: Vec<std::ops::Range<usize>>) -> (r: Document)
        ensures
            r.text == text,
            r.spans == spans,
    {
        Document { text, spans }
    }
}

/// Reads a whole input as one span of text.
pub struct PlainTextParser;

impl PlainTextParser {
    /// The input as a document with a single span covering all of it.
    pub fn parse_document(&self, input: &str) -> (r: Document)
        ensures
            r.text@ == input@,
            r.spans@.len() == 1,
            r.spans@[0].start == 0,
            r.spans@[0].end == input.len(),
    {
        let text = input.to_owned();
        let spans = vec![0..input.len()];
        Document::new(text, spans)
    }
}

pub uninterp spec fn alphabetic(c: char) -> bool;

/// Relies on `char::is_alphabetic`: the Unicode `Alphabetic` property, which
/// depends on the character alone.
#[verifier::external_body]
fn is_alphabetic(c: char) -> (r: bool)
    ensures
        r == alphabetic(c),
{
    c.is_alphabetic()
}

/// The maximal runs of alphabetic characters, as char index ranges.
pub open spec fn alpha_runs(s: Seq<char>) -> Seq<(int, int)>
    decreases s.len(),
{
    if s.len() == 0 {
        Seq::<(int, int)>::empty()
    } else {
        let r = alpha_runs(s.drop_last());
        let n = s.len() as int;
        if !alphabetic(s.last()) {
            r
        } else if r.len() > 0 && r.last().1 == n - 1 {
            r.update(r.len() - 1, (r.last().0, n))
        } else {
            r.push((n - 1, n))
        }
    }
}

/// The byte offset of char index `k`.
pub open spec fn byte_offset(s: Seq<char>, k: int) -> int {
    encode_utf8(s.take(k)).len() as int
}

proof fn lemma_offset_step(s: Seq<char>, k: int)
    requires
        0 <= k < s.len(),
    ensures
        byte_offset(s, k + 1) == byte_offset(s, k) + encode_scalar(s[k] as u32).len(),
{
    let one = seq![s[k]];
    assert(s.take(k + 1) =~= s.take(k) + one);
    lemma_encode_concat(s.take(k), one);
    assert(one.drop_first() =~= Seq::<char>::empty());
    assert(encode_utf8(one.drop_first()) =~= Seq::<u8>::empty());
    assert(encode_utf8(one) =~= encode_scalar(one[0] as u32) + Seq::<u8>::empty());
    assert(encode_utf8(one) =~= encode_scalar(s[k] as u32));
}

/// The number of bytes `c` takes in UTF-8.
fn len_utf8(c: char) -> (r: usize)
    ensures
        r == encode_scalar(c as u32).len(),
{
    let v = c as u32;
    if v < 0x80 {
        1
    } else if v < 0x800 {
        2
    } else if v < 0x10000 {
        3
    } else {
        4
    }
}

/// Splits text into words made of alphabetic characters.
pub struct AlphabeticParser;

pub open spec fn segment_of_run(s: Seq<char>, run: (int, int), seg: Segment) -> bool {
    &&& seg.text@ == s.subrange(run.0, run.1)
    &&& seg.range.start == byte_offset(s, run.0)
    &&& seg.range.end == byte_offset(s, run.1)
    &&& seg.words@.len() == 0
}

impl AlphabeticParser {
    /// One segment per maximal run of alphabetic characters, with its byte
    /// range; the words of each are left empty.
    pub fn parse(&self, text: &str) -> (r: Vec<Segment>)
        requires
            encode_utf8(text@).len() <= usize::MAX,
        ensures
            r.len() == alpha_runs(text@).len(),
            forall|i: int| 0 <= i < r.len() ==> segment_of_run(text@, alpha_runs(text@)[i], #[trigger] r@[i]),
    {
        let v = chars_of(text);
        let ghost s = v@;
        let mut segs: Vec<Segment> = Vec::new();
        let mut start: Option<(usize, usize)> = None;
        let mut offset: usize = 0;
        let mut i: usize = 0;
        assert(s.take(0) =~= Seq::<char>::empty());
        while i < v.len()
            invariant
                s == v@,
                s == text@,
                encode_utf8(s).len() <= usize::MAX,
                i <= v.len(),
                offset == byte_offset(s, i as int),
                ({
                    let runs = alpha_runs(s.take(i as int));
                    match start {
                        None => segs.len() == runs.len() && (runs.len() > 0 ==> runs.last().1 < i),
                        Some((ci, bi)) => segs.len() + 1 == runs.len() && runs.last() == (ci as int, i as int)
                            && bi == byte_offset(s, ci as int),
                    }
                }),
                forall|j: int| 0 <= j < segs.len() ==> segment_of_run(s, alpha_runs(s.take(i as int))[j], #[trigger] segs@[j]),
                forall|j: int| 0 <= j < alpha_runs(s.take(i as int)).len() ==> 0 <= (#[trigger] alpha_runs(s.take(i as int))[j]).0
                    < alpha_runs(s.take(i as int))[j].1 <= i,
            decreases v.len() - i,
        {
            let c = v[i];
            let w = len_utf8(c);
            proof {
                lemma_offset_step(s, i as int);
                assert(s.take(i + 1).drop_last() =~= s.take(i as int));
                assert(s.take(i + 1).last() == c);
                lemma_offset_bound(s, i + 1);
            }
            let alpha = is_alphabetic(c);
            if alpha {
                if start.is_none() {
                    start = Some((i, offset));
                }
            } else {
                match start {
                    Some((ci, bi)) => {
                        let seg_text = string_of_range(&v, ci, i);
                        segs.push(Segment { range: bi..offset, text: seg_text, words: Vec::new() });
                        start = None;
                    },
                    None => {},
                }
            }
            offset = offset + w;
            i += 1;
        }
        match start {
            Some((ci, bi)) => {
                let seg_text = string_of_range(&v, ci, i);
                segs.push(Segment { range: bi..offset, text: seg_text, words: Vec::new() });
            },
            None => {},
        }
        assert(s.take(i as int) =~= s);
        segs
    }
}

proof fn lemma_offset_bound(s: Seq<char>, k: int)
    requires
        0 <= k <= s.len(),
    ensures
        byte_offset(s, k) <= encode_utf8(s).len(),
{
    assert(s =~= s.take(k) + s.skip(k));
    lemma_encode_concat(s.take(k), s.skip(k));
}

} // verus!
