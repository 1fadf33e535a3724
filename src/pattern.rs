//! Morpheme elements and patterns, with their textual notation.

use vstd::prelude::*;

use crate::text::{append_str, chars_of, push_char, split_chars, split_spec, starts_with_char};
use crate::Error;

verus! {

/// The canonical (compatibility) form of a conjoining jamo; other characters
/// are left as they are.
pub open spec fn canonical_jamo(c: char) -> char {
    match c {
        '\u{1100}' => '\u{3131}',
        '\u{1101}' => '\u{3132}',
        '\u{1102}' => '\u{3134}',
        '\u{1103}' => '\u{3137}',
        '\u{1104}' => '\u{3138}',
        '\u{1105}' => '\u{3139}',
        '\u{1106}' => '\u{3141}',
        '\u{1107}' => '\u{3142}',
        '\u{1108}' => '\u{3143}',
        '\u{1109}' => '\u{3145}',
        '\u{110a}' => '\u{3146}',
        '\u{110b}' => '\u{3147}',
        '\u{110c}' => '\u{3148}',
        '\u{110d}' => '\u{3149}',
        '\u{110e}' => '\u{314a}',
        '\u{110f}' => '\u{314b}',
        '\u{1110}' => '\u{314c}',
        '\u{1111}' => '\u{314d}',
        '\u{1112}' => '\u{314e}',
        '\u{1161}' => '\u{314f}',
        '\u{1162}' => '\u{3150}',
        '\u{1163}' => '\u{3151}',
        '\u{1164}' => '\u{3152}',
        '\u{1165}' => '\u{3153}',
        '\u{1166}' => '\u{3154}',
        '\u{1167}' => '\u{3155}',
        '\u{1168}' => '\u{3156}',
        '\u{1169}' => '\u{3157}',
        '\u{116a}' => '\u{3158}',
        '\u{116b}' => '\u{3159}',
        '\u{116c}' => '\u{315a}',
        '\u{116d}' => '\u{315b}',
        '\u{116e}' => '\u{315c}',
        '\u{116f}' => '\u{315d}',
        '\u{1170}' => '\u{315e}',
        '\u{1171}' => '\u{315f}',
        '\u{1172}' => '\u{3160}',
        '\u{1173}' => '\u{3161}',
        '\u{1174}' => '\u{3162}',
        '\u{1175}' => '\u{3163}',
        '\u{11a8}' => '\u{3131}',
        '\u{11a9}' => '\u{3132}',
        '\u{11aa}' => '\u{3133}',
        '\u{11ab}' => '\u{3134}',
        '\u{11ac}' => '\u{3135}',
        '\u{11ad}' => '\u{3136}',
        '\u{11ae}' => '\u{3137}',
        '\u{11af}' => '\u{3139}',
        '\u{11b0}' => '\u{313a}',
        '\u{11b1}' => '\u{313b}',
        '\u{11b2}' => '\u{313c}',
        '\u{11b3}' => '\u{313d}',
        '\u{11b4}' => '\u{313e}',
        '\u{11b5}' => '\u{313f}',
        '\u{11b6}' => '\u{3140}',
        '\u{11b7}' => '\u{3141}',
        '\u{11b8}' => '\u{3142}',
        '\u{11b9}' => '\u{3144}',
        '\u{11ba}' => '\u{3145}',
        '\u{11bb}' => '\u{3146}',
        '\u{11bc}' => '\u{3147}',
        '\u{11bd}' => '\u{3148}',
        '\u{11be}' => '\u{314a}',
        '\u{11bf}' => '\u{314b}',
        '\u{11c0}' => '\u{314c}',
        '\u{11c1}' => '\u{314d}',
        '\u{11c2}' => '\u{314e}',
        _ => c,
    }
}

/// Text with every conjoining jamo replaced by its canonical form.
pub open spec fn normalize_text_spec(s: Seq<char>) -> Seq<char> {
    s.map_values(|c: char| canonical_jamo(c))
}

/// Maps a conjoining jamo to its compatibility form.
pub fn normalize_jamo(c: char) -> (r: char)
    ensures
        r == canonical_jamo(c),
{
    match c {
        '\u{1100}' => '\u{3131}',
        '\u{1101}' => '\u{3132}',
        '\u{1102}' => '\u{3134}',
        '\u{1103}' => '\u{3137}',
        '\u{1104}' => '\u{3138}',
        '\u{1105}' => '\u{3139}',
        '\u{1106}' => '\u{3141}',
        '\u{1107}' => '\u{3142}',
        '\u{1108}' => '\u{3143}',
        '\u{1109}' => '\u{3145}',
        '\u{110a}' => '\u{3146}',
        '\u{110b}' => '\u{3147}',
        '\u{110c}' => '\u{3148}',
        '\u{110d}' => '\u{3149}',
        '\u{110e}' => '\u{314a}',
        '\u{110f}' => '\u{314b}',
        '\u{1110}' => '\u{314c}',
        '\u{1111}' => '\u{314d}',
        '\u{1112}' => '\u{314e}',
        '\u{1161}' => '\u{314f}',
        '\u{1162}' => '\u{3150}',
        '\u{1163}' => '\u{3151}',
        '\u{1164}' => '\u{3152}',
        '\u{1165}' => '\u{3153}',
        '\u{1166}' => '\u{3154}',
        '\u{1167}' => '\u{3155}',
        '\u{1168}' => '\u{3156}',
        '\u{1169}' => '\u{3157}',
        '\u{116a}' => '\u{3158}',
        '\u{116b}' => '\u{3159}',
        '\u{116c}' => '\u{315a}',
        '\u{116d}' => '\u{315b}',
        '\u{116e}' => '\u{315c}',
        '\u{116f}' => '\u{315d}',
        '\u{1170}' => '\u{315e}',
        '\u{1171}' => '\u{315f}',
        '\u{1172}' => '\u{3160}',
        '\u{1173}' => '\u{3161}',
        '\u{1174}' => '\u{3162}',
        '\u{1175}' => '\u{3163}',
        '\u{11a8}' => '\u{3131}',
        '\u{11a9}' => '\u{3132}',
        '\u{11aa}' => '\u{3133}',
        '\u{11ab}' => '\u{3134}',
        '\u{11ac}' => '\u{3135}',
        '\u{11ad}' => '\u{3136}',
        '\u{11ae}' => '\u{3137}',
        '\u{11af}' => '\u{3139}',
        '\u{11b0}' => '\u{313a}',
        '\u{11b1}' => '\u{313b}',
        '\u{11b2}' => '\u{313c}',
        '\u{11b3}' => '\u{313d}',
        '\u{11b4}' => '\u{313e}',
        '\u{11b5}' => '\u{313f}',
        '\u{11b6}' => '\u{3140}',
        '\u{11b7}' => '\u{3141}',
        '\u{11b8}' => '\u{3142}',
        '\u{11b9}' => '\u{3144}',
        '\u{11ba}' => '\u{3145}',
        '\u{11bb}' => '\u{3146}',
        '\u{11bc}' => '\u{3147}',
        '\u{11bd}' => '\u{3148}',
        '\u{11be}' => '\u{314a}',
        '\u{11bf}' => '\u{314b}',
        '\u{11c0}' => '\u{314c}',
        '\u{11c1}' => '\u{314d}',
        '\u{11c2}' => '\u{314e}',
        _ => c,
    }
}

/// Replaces every conjoining jamo of `s` by its canonical form.
pub fn normalize_text(s: &str) -> (r: String)
    ensures
        r@ == normalize_text_spec(s@),
{
    let v = chars_of(s);
    let mut r = String::new();
    let mut i: usize = 0;
    while i < v.len()
        invariant
            i <= v.len(),
            v@ == s@,
            r@ == normalize_text_spec(v@.take(i as int)),
        decreases v.len() - i,
    {
        push_char(&mut r, normalize_jamo(v[i]));
        i += 1;
        assert(r@ =~= normalize_text_spec(v@.take(i as int)));
    }
    assert(v@.take(v.len() as int) =~= v@);
    r
}

/// One morpheme: its text and its part-of-speech tag.
#[derive(Clone, Debug)]
pub struct Element {
    pub text: String,
    pub pos: String,
}

/// The model of an element: (text, tag).
pub type ElementModel = (Seq<char>, Seq<char>);

impl View for Element {
    type V = ElementModel;

    open spec fn view(&self) -> ElementModel {
        (self.text@, self.pos@)
    }
}

pub open spec fn unk_tag() -> Seq<char> {
    seq!['U', 'N', 'K']
}

/// A tag of a word class: neither unknown nor a symbol.
pub open spec fn is_word_pos(pos: Seq<char>) -> bool {
    pos != unk_tag() && !(pos.len() > 0 && pos[0] == 'S')
}

/// The notation `text/pos/*` of an element.
pub open spec fn element_notation(e: ElementModel) -> Seq<char> {
    e.0 + seq!['/'] + e.1 + seq!['/', '*']
}

/// What `text/pos/*` notation parses to: three `/`-separated fields, of which
/// the first, normalized, is the text and the second the tag.
pub open spec fn parse_element_spec(s: Seq<char>) -> Option<ElementModel> {
    let parts = split_spec(s, '/');
    if parts.len() == 3 {
        Some((normalize_text_spec(parts[0]), parts[1]))
    } else {
        None
    }
}

/// The tag `UNK`.
pub fn unk_string() -> (r: String)
    ensures
        r@ == unk_tag(),
{
    let mut r = String::new();
    push_char(&mut r, 'U');
    push_char(&mut r, 'N');
    push_char(&mut r, 'K');
    assert(r@ =~= unk_tag());
    r
}

impl Element {
    /// Whether the element belongs to a word class.
    pub fn is_word(&self) -> (r: bool)
        ensures
            r == is_word_pos(self.pos@),
    {
        let unk = unk_string();
        !(self.pos == unk) && !starts_with_char(self.pos.as_str(), 'S')
    }

    /// A copy of the element.
    pub fn duplicate(&self) -> (r: Element)
        ensures
            r@ == self@,
    {
        Element { text: self.text.clone(), pos: self.pos.clone() }
    }

    /// Whether two elements have the same text and tag.
    pub fn same_as(&self, other: &Element) -> (r: bool)
        ensures
            r == (self@ == other@),
    {
        self.text == other.text && self.pos == other.pos
    }

    /// Parses `text/pos/*` notation.
    pub fn parse(s: &str) -> (r: Result<Element, Error>)
        ensures
            r matches Ok(e) ==> parse_element_spec(s@) == Some(e@),
            r is Err <==> parse_element_spec(s@) is None,
            r matches Err(e) ==> (e matches Error::Parse(m) && m@ == s@),
    {
        let parts = split_chars(s, '/');
        proof {
            assert(parts@.map_values(|p: String| p@).len() == parts@.len());
        }
        if parts.len() != 3 {
            return Err(Error::Parse(s.to_owned()));
        }
        proof {
            assert(parts@.map_values(|p: String| p@)[0] == parts@[0]@);
            assert(parts@.map_values(|p: String| p@)[1] == parts@[1]@);
        }
        let text = normalize_text(parts[0].as_str());
        let pos = parts[1].clone();
        Ok(Element { text, pos })
    }

    /// The `text/pos/*` notation of the element.
    pub fn notation(&self) -> (r: String)
        ensures
            r@ == element_notation(self@),
    {
        let mut r = self.text.clone();
        push_char(&mut r, '/');
        append_str(&mut r, self.pos.as_str());
        push_char(&mut r, '/');
        push_char(&mut r, '*');
        assert(r@ =~= element_notation(self@));
        r
    }
}

/// An ordered sequence of elements.
#[derive(Clone, Debug)]
pub struct Pattern(pub Vec<Element>);

/// The model of a pattern: its elements' models, in order.
pub type PatternModel = Seq<ElementModel>;

pub open spec fn elements_model(v: Seq<Element>) -> PatternModel {
    v.map_values(|e: Element| e@)
}

impl View for Pattern {
    type V = PatternModel;

    open spec fn view(&self) -> PatternModel {
        elements_model(self.0@)
    }
}

pub open spec fn pattern_is_word(p: PatternModel) -> bool {
    forall|i: int| 0 <= i < p.len() ==> is_word_pos(#[trigger] p[i].1)
}

/// The `+`-joined notation of a pattern.
pub open spec fn pattern_notation(p: PatternModel) -> Seq<char>
    decreases p.len(),
{
    if p.len() == 0 {
        Seq::<char>::empty()
    } else if p.len() == 1 {
        element_notation(p[0])
    } else {
        pattern_notation(p.drop_last()) + seq!['+'] + element_notation(p.last())
    }
}

/// What `+`-joined element notation parses to.
pub open spec fn parse_pattern_spec(s: Seq<char>) -> Option<PatternModel> {
    let parts = split_spec(s, '+');
    if forall|i: int| 0 <= i < parts.len() ==> (#[trigger] parse_element_spec(parts[i])) is Some {
        Some(Seq::new(parts.len(), |i: int| parse_element_spec(parts[i])->0))
    } else {
        None
    }
}

impl Pattern {
    /// Whether every element belongs to a word class.
    pub fn is_word(&self) -> (r: bool)
        ensures
            r == pattern_is_word(self@),
    {
        let mut i: usize = 0;
        while i < self.0.len()
            invariant
                i <= self.0.len(),
                forall|j: int| 0 <= j < i ==> is_word_pos(#[trigger] self@[j].1),
            decreases self.0.len() - i,
        {
            let w = self.0[i].is_word();
            if !w {
                assert(self@[i as int] == self.0@[i as int]@);
                assert(!is_word_pos(self@[i as int].1));
                assert(!pattern_is_word(self@));
                return false;
            }
            i += 1;
        }
        true
    }

    /// A copy of the pattern.
    pub fn duplicate(&self) -> (r: Pattern)
        ensures
            r@ == self@,
    {
        let mut v: Vec<Element> = Vec::new();
        let mut i: usize = 0;
        while i < self.0.len()
            invariant
                i <= self.0.len(),
                elements_model(v@) == self@.take(i as int),
            decreases self.0.len() - i,
        {
            let e = self.0[i].duplicate();
            let ghost old_v = v@;
            v.push(e);
            assert(v@ =~= old_v.push(e));
            assert(elements_model(v@) =~= elements_model(old_v).push(e@));
            i += 1;
            assert(elements_model(v@) =~= self@.take(i as int));
        }
        assert(self@.take(i as int) =~= self@);
        Pattern(v)
    }

    /// Parses `+`-joined element notation.
    pub fn parse(s: &str) -> (r: Result<Pattern, Error>)
        ensures
            r matches Ok(p) ==> parse_pattern_spec(s@) == Some(p@),
            r is Err <==> parse_pattern_spec(s@) is None,
            r matches Err(e) ==> e is Parse,
    {
        let parts = split_chars(s, '+');
        let ghost parts_m = parts@.map_values(|p: String| p@);
        let mut elements: Vec<Element> = Vec::new();
        let mut i: usize = 0;
        while i < parts.len()
            invariant
                i <= parts.len(),
                parts_m == split_spec(s@, '+'),
                parts_m == parts@.map_values(|p: String| p@),
                elements.len() == i,
                forall|j: int| 0 <= j < i ==> parse_element_spec(#[trigger] parts_m[j]) == Some(elements@[j]@),
            decreases parts.len() - i,
        {
            assert(parts_m[i as int] == parts@[i as int]@);
            let e = Element::parse(parts[i].as_str());
            match e {
                Ok(e) => {
                    elements.push(e);
                },
                Err(e) => {
                    assert(parse_element_spec(parts_m[i as int]) is None);
                    return Err(e);
                },
            }
            i += 1;
        }
        let p = Pattern(elements);
        assert(p@ =~= Seq::new(parts_m.len(), |i: int| parse_element_spec(parts_m[i])->0));
        Ok(p)
    }

    /// The `+`-joined notation of the pattern.
    pub fn notation(&self) -> (r: String)
        ensures
            r@ == pattern_notation(self@),
    {
        let mut r = String::new();
        let mut i: usize = 0;
        while i < self.0.len()
            invariant
                i <= self.0.len(),
                r@ == pattern_notation(self@.take(i as int)),
            decreases self.0.len() - i,
        {
            let n = self.0[i].notation();
            let ghost before = r@;
            if i > 0 {
                push_char(&mut r, '+');
            }
            append_str(&mut r, n.as_str());
            i += 1;
            proof {
                assert(self@.take(i as int).drop_last() =~= self@.take(i - 1));
                assert(self@.take(i as int).last() == self@[i - 1]);
                if i == 1 {
                    assert(before =~= Seq::<char>::empty());
                }
            }
            assert(r@ =~= pattern_notation(self@.take(i as int)));
        }
        assert(self@.take(self.0.len() as int) =~= self@);
        r
    }
}

} // verus!
