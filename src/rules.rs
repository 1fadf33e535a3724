//! Rewrite rules over patterns, and the reduction of a pattern by them.

use vstd::prelude::*;

use crate::pattern::{Element, ElementModel, Pattern, PatternModel, elements_model};
use crate::text::{append_str, split_chars, split_spec};
use crate::trie::PatternTrie;
use crate::Error;

verus! {

/// A character with the Unicode `White_Space` property.
pub open spec fn white_space(c: char) -> bool {
    ('\u{9}' <= c <= '\u{d}') || c == ' ' || c == '\u{85}' || c == '\u{a0}' || c == '\u{1680}'
        || ('\u{2000}' <= c <= '\u{200a}') || c == '\u{2028}' || c == '\u{2029}' || c == '\u{202f}'
        || c == '\u{205f}' || c == '\u{3000}'
}

/// `s` without its leading white space.
pub open spec fn trim_start_spec(s: Seq<char>) -> Seq<char>
    decreases s.len(),
{
    if s.len() > 0 && white_space(s[0]) {
        trim_start_spec(s.drop_first())
    } else {
        s
    }
}

/// `s` without its trailing white space.
pub open spec fn trim_end_spec(s: Seq<char>) -> Seq<char>
    decreases s.len(),
{
    if s.len() > 0 && white_space(s.last()) {
        trim_end_spec(s.drop_last())
    } else {
        s
    }
}

/// `s` without leading and trailing white space.
pub open spec fn trimmed(s: Seq<char>) -> Seq<char> {
    trim_end_spec(trim_start_spec(s))
}

/// Relies on `str::trim`: leading and trailing characters with the
/// `White_Space` property removed.
#[verifier::external_body]
fn trim(s: &str) -> (r: String)
    ensures
        r@ == trimmed(s@),
{
    s.trim().to_string()
}

pub open spec fn opt_str(o: Option<String>) -> Option<Seq<char>> {
    match o {
        Some(s) => Some(s@),
        None => None,
    }
}

pub open spec fn opt_pattern(o: Option<Pattern>) -> Option<PatternModel> {
    match o {
        Some(p) => Some(p@),
        None => None,
    }
}

pub open spec fn strings_model(v: Seq<String>) -> Seq<Seq<char>> {
    v.map_values(|s: String| s@)
}

/// A row of the rule table as read: pattern and output in element notation
/// already parsed, lists still `,`-joined.
#[derive(Debug)]
pub struct RuleRow {
    pub pattern: Pattern,
    pub parents: Option<String>,
    pub tags: Option<String>,
    pub translation: Option<String>,
    pub output: Option<Pattern>,
}

/// A rewrite rule. With a translation it is terminal; otherwise the matched
/// elements are replaced by `output`.
#[derive(Debug)]
pub struct Rule {
    pub pattern: Pattern,
    pub parents: Vec<String>,
    pub tags: Vec<String>,
    pub translation: Option<String>,
    pub output: Option<Pattern>,
}

pub struct RuleModel {
    pub pattern: PatternModel,
    pub parents: Seq<Seq<char>>,
    pub tags: Seq<Seq<char>>,
    pub translation: Option<Seq<char>>,
    pub output: PatternModel,
}

impl View for Rule {
    type V = RuleModel;

    open spec fn view(&self) -> RuleModel {
        RuleModel {
            pattern: self.pattern@,
            parents: strings_model(self.parents@),
            tags: strings_model(self.tags@),
            translation: opt_str(self.translation),
            output: match self.output {
                Some(p) => p@,
                None => Seq::<ElementModel>::empty(),
            },
        }
    }
}

/// A `,`-separated list with each item trimmed; nothing for an absent or
/// empty text.
pub open spec fn list_spec(s: Option<Seq<char>>) -> Seq<Seq<char>> {
    match s {
        Some(t) => if t.len() == 0 {
            Seq::<Seq<char>>::empty()
        } else {
            split_spec(t, ',').map_values(|p: Seq<char>| trimmed(p))
        },
        None => Seq::<Seq<char>>::empty(),
    }
}

/// Splits a `,`-separated list and trims each item.
pub fn maybe_string_to_list(s: Option<String>) -> (r: Vec<String>)
    ensures
        strings_model(r@) == list_spec(opt_str(s)),
{
    match s {
        None => {
            let r: Vec<String> = Vec::new();
            assert(strings_model(r@) =~= Seq::<Seq<char>>::empty());
            r
        },
        Some(t) => {
            if t.as_str().is_empty() {
                let r: Vec<String> = Vec::new();
                assert(strings_model(r@) =~= Seq::<Seq<char>>::empty());
                return r;
            }
            let parts = split_chars(t.as_str(), ',');
            let ghost pm = parts@.map_values(|p: String| p@);
            let mut r: Vec<String> = Vec::new();
            let mut i: usize = 0;
            while i < parts.len()
                invariant
                    i <= parts.len(),
                    pm == parts@.map_values(|p: String| p@),
                    strings_model(r@) == pm.take(i as int).map_values(|p: Seq<char>| trimmed(p)),
                decreases parts.len() - i,
            {
                let ghost before = r@;
                r.push(trim(parts[i].as_str()));
                i += 1;
                assert(strings_model(r@) =~= strings_model(before).push(trimmed(pm[i - 1])));
                assert(strings_model(r@) =~= pm.take(i as int).map_values(|p: Seq<char>| trimmed(p)));
            }
            assert(pm.take(i as int) =~= pm);
            r
        },
    }
}

impl Rule {
    /// The rule a table row describes.
    pub fn from_row(row: RuleRow) -> (r: Rule)
        ensures
            r.pattern@ == row.pattern@,
            strings_model(r.parents@) == list_spec(opt_str(row.parents)),
            strings_model(r.tags@) == list_spec(opt_str(row.tags)),
            opt_str(r.translation) == opt_str(row.translation),
            opt_pattern(r.output) == opt_pattern(row.output),
    {
        let parents = maybe_string_to_list(row.parents);
        let tags = maybe_string_to_list(row.tags);
        Rule {
            pattern: row.pattern,
            parents,
            tags,
            translation: row.translation,
            output: row.output,
        }
    }
}

/// `a` is a prefix of `b`.
pub open spec fn is_prefix_of(a: PatternModel, b: PatternModel) -> bool {
    a.len() <= b.len() && b.take(a.len() as int) == a
}

/// Among the first `n` rules, the index of the one with the longest pattern
/// that is a prefix of `rest`.
pub open spec fn longest_upto(rs: Seq<RuleModel>, rest: PatternModel, n: int) -> Option<int>
    decreases n,
{
    if n <= 0 {
        None
    } else {
        let b = longest_upto(rs, rest, n - 1);
        if is_prefix_of(rs[n - 1].pattern, rest) && (b is None || rs[n - 1].pattern.len()
            > rs[b->0].pattern.len()) {
            Some(n - 1)
        } else {
            b
        }
    }
}

pub open spec fn longest_match(rs: Seq<RuleModel>, rest: PatternModel) -> Option<int> {
    longest_upto(rs, rest, rs.len() as int)
}

/// A rule applies at `i` when it is the longest match there and, if it is
/// terminal, it spans the whole pattern from its start.
pub open spec fn applies_at(rs: Seq<RuleModel>, p: PatternModel, i: int, k: int) -> bool {
    longest_match(rs, p.skip(i)) == Some(k) && (rs[k].translation is Some ==> (i == 0 && p.len()
        == rs[k].pattern.len()))
}

/// The first offset from `i` on at which a rule applies, with that rule.
pub open spec fn first_applicable(rs: Seq<RuleModel>, p: PatternModel, i: int) -> Option<(int, int)>
    decreases p.len() - i,
{
    if i < 0 || i >= p.len() {
        None
    } else {
        match longest_match(rs, p.skip(i)) {
            None => first_applicable(rs, p, i + 1),
            Some(k) => if applies_at(rs, p, i, k) {
                Some((i, k))
            } else {
                first_applicable(rs, p, i + 1)
            },
        }
    }
}

/// `acc` with each item of `new` not yet in it appended, in order.
pub open spec fn merge_spec(acc: Seq<Seq<char>>, new: Seq<Seq<char>>) -> Seq<Seq<char>>
    decreases new.len(),
{
    if new.len() == 0 {
        acc
    } else {
        let m = merge_spec(acc, new.drop_last());
        if m.contains(new.last()) {
            m
        } else {
            m.push(new.last())
        }
    }
}

/// `p` with `len` elements from `i` replaced by `out`.
pub open spec fn splice_spec(p: PatternModel, i: int, len: int, out: PatternModel) -> PatternModel {
    p.take(i) + out + p.skip(i + len)
}

/// The rules, at most one per pattern, with a trie over their patterns. A
/// lookup at an offset walks down the trie and yields the deepest rule it
/// meets: the rule with the longest pattern that is a prefix of the rest.
pub struct RuleTrie {
    rules: Vec<Rule>,
    index: PatternTrie,
}

pub open spec fn patterns_of(rs: Seq<RuleModel>) -> Seq<PatternModel> {
    rs.map_values(|r: RuleModel| r.pattern)
}

pub open spec fn rules_model(v: Seq<Rule>) -> Seq<RuleModel> {
    v.map_values(|r: Rule| r@)
}

/// One step of reduction.
#[derive(Debug)]
pub enum Reduction {
    Step,
    Terminal(String),
}

fn same_pattern(a: &Pattern, b: &Pattern) -> (r: bool)
    ensures
        r == (a@ == b@),
{
    if a.0.len() != b.0.len() {
        return false;
    }
    let mut i: usize = 0;
    while i < a.0.len()
        invariant
            i <= a.0.len() == b.0.len(),
            a@.take(i as int) == b@.take(i as int),
        decreases a.0.len() - i,
    {
        if !a.0[i].same_as(&b.0[i]) {
            assert(a@[i as int] != b@[i as int]);
            return false;
        }
        i += 1;
        assert(a@.take(i as int) =~= b@.take(i as int));
    }
    assert(a@ =~= a@.take(i as int));
    assert(b@ =~= b@.take(i as int));
    true
}

/// Whether `a` is a prefix of `b` from offset `i`.
fn is_prefix_at(a: &Pattern, b: &Pattern, i: usize) -> (r: bool)
    requires
        i <= b@.len(),
    ensures
        r == is_prefix_of(a@, b@.skip(i as int)),
{
    if a.0.len() > b.0.len() - i {
        return false;
    }
    let mut j: usize = 0;
    while j < a.0.len()
        invariant
            j <= a.0.len() <= b.0.len() - i,
            i <= b.0.len(),
            a@.take(j as int) == b@.skip(i as int).take(j as int),
        decreases a.0.len() - j,
    {
        if !a.0[j].same_as(&b.0[i + j]) {
            assert(a@[j as int] != b@.skip(i as int)[j as int]);
            assert(b@.skip(i as int).take(a@.len() as int)[j as int] == b@.skip(i as int)[j as int]);
            return false;
        }
        j += 1;
        assert(a@.take(j as int) =~= b@.skip(i as int).take(j as int));
    }
    assert(a@ =~= a@.take(j as int));
    true
}

impl RuleTrie {
    pub closed spec fn view_rules(&self) -> Seq<RuleModel> {
        rules_model(self.rules@)
    }

    /// How many nodes the lookup index has.
    pub closed spec fn index_size(&self) -> nat {
        self.index.size()
    }

    /// No two rules share a pattern, and the index holds every pattern.
    pub closed spec fn well_formed(&self) -> bool {
        &&& forall|i: int, j: int|
            0 <= i < j < self.rules.len() ==> (#[trigger] self.rules@[i]).pattern@
                != (#[trigger] self.rules@[j]).pattern@
        &&& self.index.well_formed()
        &&& self.index.indexes(patterns_of(self.view_rules()))
    }

    pub fn new() -> (r: RuleTrie)
        ensures
            r.well_formed(),
            r.view_rules().len() == 0,
            r.index_size() == 1,
    {
        let r = RuleTrie { rules: Vec::new(), index: PatternTrie::new() };
        assert(patterns_of(r.view_rules()) =~= Seq::<PatternModel>::empty());
        r
    }

    /// The rules, in the order they were first added.
    pub fn rules(&self) -> (r: &Vec<Rule>)
        ensures
            rules_model(r@) == self.view_rules(),
    {
        &self.rules
    }

    /// Whether the index can take a pattern of `p`'s length.
    pub fn has_room_for(&self, p: &Pattern) -> (r: bool)
        ensures
            r == (self.index_size() + p@.len() < usize::MAX),
    {
        self.index.len() < usize::MAX - p.0.len()
    }

    /// Adds a rule, replacing the one with the same pattern if there is one.
    /// Returns whether one was replaced.
    pub fn insert(&mut self, rule: Rule) -> (replaced: bool)
        requires
            old(self).well_formed(),
            old(self).index_size() + rule.pattern@.len() < usize::MAX,
        ensures
            final(self).well_formed(),
            replaced <==> exists|k: int| 0 <= k < old(self).view_rules().len() && (#[trigger] old(self).view_rules()[k]).pattern == rule.pattern@,
            replaced ==> exists|k: int| 0 <= k < old(self).view_rules().len() && (#[trigger] old(self).view_rules()[k]).pattern == rule.pattern@
                && final(self).view_rules() == old(self).view_rules().update(k, rule@),
            !replaced ==> final(self).view_rules() == old(self).view_rules().push(rule@),
    {
        let ghost rp = rule.pattern@;
        let ghost rv = rule@;
        let ghost pats = patterns_of(self.view_rules());
        let mut k: usize = 0;
        while k < self.rules.len()
            invariant
                k <= self.rules.len(),
                *self == *old(self),
                rp == rule.pattern@,
                rv == rule@,
                pats == patterns_of(old(self).view_rules()),
                old(self).well_formed(),
                forall|j: int| 0 <= j < k ==> (#[trigger] self.rules@[j]).pattern@ != rule.pattern@,
            decreases self.rules.len() - k,
        {
            if same_pattern(&self.rules[k].pattern, &rule.pattern) {
                let ghost before = self.rules@;
                assert(old(self).view_rules()[k as int].pattern == rp);
                self.rules.set(k, rule);
                proof {
                    assert(self.rules@ == before.update(k as int, rule));
                    assert(forall|j: int| 0 <= j < self.rules.len() && j != k ==> self.rules@[j] == before[j]);
                    assert(self.view_rules() =~= old(self).view_rules().update(k as int, rv));
                    assert(rv.pattern == rp);
                    assert(pats[k as int] == rp);
                    assert(patterns_of(old(self).view_rules().update(k as int, rv)) =~= pats.update(k as int, rp));
                    assert(pats.update(k as int, rp) =~= pats);
                    assert(patterns_of(self.view_rules()) =~= pats);
                }
                return true;
            }
            k += 1;
        }
        let ghost before = self.rules@;
        proof {
            assert forall|j: int| 0 <= j < pats.len() implies pats[j] != rp by {
                assert(pats[j] == self.rules@[j].pattern@);
            }
            assert(!exists|k: int| 0 <= k < old(self).view_rules().len() && (#[trigger] old(self).view_rules()[k]).pattern == rp);
        }
        self.index.insert(&rule.pattern, self.rules.len(), Ghost(pats));
        self.rules.push(rule);
        proof {
            assert(forall|j: int| 0 <= j < before.len() ==> self.rules@[j] == before[j]);
            assert(self.view_rules() =~= old(self).view_rules().push(rv));
            assert(patterns_of(self.view_rules()) =~= pats.push(rp));
        }
        false
    }

    /// The index of the rule with the longest pattern that is a prefix of
    /// `p` from offset `i`.
    pub fn longest_match_at(&self, p: &Pattern, i: usize) -> (r: Option<usize>)
        requires
            self.well_formed(),
            i <= p@.len(),
        ensures
            match r {
                Some(k) => k < self.view_rules().len() && longest_match(self.view_rules(), p@.skip(i as int)) == Some(k as int),
                None => longest_match(self.view_rules(), p@.skip(i as int)) is None,
            },
    {
        let ghost rs = self.view_rules();
        let ghost pats = patterns_of(rs);
        let ghost rest = p@.skip(i as int);
        let r = self.index.longest_at(p, i, Ghost(pats));
        proof {
            lemma_longest_match(rs, rest, rs.len() as int);
            match r {
                Some(k) => {
                    let k2 = longest_match(rs, rest)->0;
                    assert(pats[k as int] == rs[k as int].pattern);
                    assert(pats[k2] == rs[k2].pattern);
                    assert(rs[k2].pattern.len() <= rs[k as int].pattern.len());
                    assert(rs[k as int].pattern.len() <= rs[k2].pattern.len());
                    assert(rs[k as int].pattern =~= rest.take(rs[k as int].pattern.len() as int));
                    assert(rs[k2].pattern =~= rest.take(rs[k2].pattern.len() as int));
                    if k2 != k {
                        assert(self.rules@[k2].pattern@ == rs[k2].pattern);
                        assert(self.rules@[k as int].pattern@ == rs[k as int].pattern);
                        if k2 < k {
                            assert(self.rules@[k2].pattern@ != self.rules@[k as int].pattern@);
                        } else {
                            assert(self.rules@[k as int].pattern@ != self.rules@[k2].pattern@);
                        }
                    }
                },
                None => {
                    if let Some(k2) = longest_match(rs, rest) {
                        assert(pats[k2] == rs[k2].pattern);
                    }
                },
            }
        }
        r
    }

    /// One reduction step on `pattern`: at the first offset where a rule
    /// applies, adds the rule's parents and tags, then either returns its
    /// translation or replaces the matched elements by its output. `None`
    /// when no rule applies anywhere. What it does is noted in `debug`.
    pub fn reduce_pattern_once(
        &self,
        pattern: &mut Pattern,
        parents: &mut Vec<String>,
        tags: &mut Vec<String>,
        debug: &mut String,
    ) -> (r: Option<Reduction>)
        requires
            self.well_formed(),
        ensures
            match first_applicable(self.view_rules(), old(pattern)@, 0) {
                None => r is None && *final(pattern) == *old(pattern) && *final(parents) == *old(parents)
                    && *final(tags) == *old(tags),
                Some((i, k)) => {
                    let rule = self.view_rules()[k];
                    &&& strings_model(final(parents)@) == merge_spec(strings_model(old(parents)@), rule.parents)
                    &&& strings_model(final(tags)@) == merge_spec(strings_model(old(tags)@), rule.tags)
                    &&& match rule.translation {
                        Some(t) => r matches Some(Reduction::Terminal(tr)) && tr@ == t
                            && final(pattern)@ == old(pattern)@,
                        None => r matches Some(Reduction::Step) && final(pattern)@ == splice_spec(
                            old(pattern)@,
                            i,
                            rule.pattern.len() as int,
                            rule.output,
                        ),
                    }
                },
            },
    {
        let ghost rs = self.view_rules();
        let ghost p0 = pattern@;
        let n = pattern.0.len();
        let mut i: usize = 0;
        while i < n
            invariant
                i <= n == pattern@.len(),
                self.well_formed(),
                p0 == pattern@,
                *pattern == *old(pattern),
                *parents == *old(parents),
                *tags == *old(tags),
                rs == self.view_rules(),
                first_applicable(rs, p0, 0) == first_applicable(rs, p0, i as int),
            decreases n - i,
        {
            let m = self.longest_match_at(pattern, i);
            match m {
                None => {
                    assert(first_applicable(rs, p0, i as int) == first_applicable(rs, p0, i + 1));
                    i += 1;
                },
                Some(k) => {
                    let rule = &self.rules[k];
                    assert(rs[k as int] == rule@);
                    proof {
                        lemma_longest_match(rs, p0.skip(i as int), rs.len() as int);
                    }
                    let terminal = rule.translation.is_some();
                    if terminal && !(i == 0 && n == rule.pattern.0.len()) {
                        assert(!applies_at(rs, p0, i as int, k as int));
                        assert(first_applicable(rs, p0, i as int) == first_applicable(rs, p0, i + 1));
                        i += 1;
                    } else {
                        assert(applies_at(rs, p0, i as int, k as int));
                        assert(first_applicable(rs, p0, i as int) == Some((i as int, k as int)));
                        append_str(debug, "\nApplying rule: ");
                        let notation = rule.pattern.notation();
                        append_str(debug, notation.as_str());
                        match &rule.output {
                            Some(out) => {
                                append_str(debug, " ==> ");
                                let o = out.notation();
                                append_str(debug, o.as_str());
                            },
                            None => {},
                        }
                        add_missing(parents, &rule.parents, debug, "parent");
                        add_missing(tags, &rule.tags, debug, "tag");
                        match &rule.translation {
                            Some(tr) => {
                                return Some(Reduction::Terminal(tr.clone()));
                            },
                            None => {},
                        }
                        let j = i + rule.pattern.0.len();
                        let mut elements: Vec<Element> = Vec::new();
                        let mut a: usize = 0;
                        while a < i
                            invariant
                                a <= i < n == pattern@.len(),
                                elements_model(elements@) == pattern@.take(a as int),
                            decreases i - a,
                        {
                            let ghost before = elements@;
                            elements.push(pattern.0[a].duplicate());
                            a += 1;
                            assert(elements_model(elements@) =~= elements_model(before).push(pattern@[a - 1]));
                            assert(elements_model(elements@) =~= pattern@.take(a as int));
                        }
                        let ghost mid = elements_model(elements@);
                        match &rule.output {
                            Some(out) => {
                                let mut b: usize = 0;
                                while b < out.0.len()
                                    invariant
                                        b <= out.0.len(),
                                        elements_model(elements@) == mid + out@.take(b as int),
                                    decreases out.0.len() - b,
                                {
                                    let ghost before = elements@;
                                    elements.push(out.0[b].duplicate());
                                    b += 1;
                                    assert(elements_model(elements@) =~= elements_model(before).push(out@[b - 1]));
                                    assert(elements_model(elements@) =~= mid + out@.take(b as int));
                                }
                                assert(out@.take(b as int) =~= out@);
                            },
                            None => {
                                assert(mid + Seq::<ElementModel>::empty() =~= mid);
                            },
                        }
                        let ghost mid2 = elements_model(elements@);
                        let mut c: usize = j;
                        while c < n
                            invariant
                                j <= c <= n == pattern@.len(),
                                elements_model(elements@) == mid2 + pattern@.subrange(j as int, c as int),
                            decreases n - c,
                        {
                            let ghost before = elements@;
                            elements.push(pattern.0[c].duplicate());
                            c += 1;
                            assert(elements_model(elements@) =~= elements_model(before).push(pattern@[c - 1]));
                            assert(elements_model(elements@) =~= mid2 + pattern@.subrange(j as int, c as int));
                        }
                        assert(pattern@.subrange(j as int, c as int) =~= pattern@.skip(j as int));
                        *pattern = Pattern(elements);
                        return Some(Reduction::Step);
                    }
                },
            }
        }
        assert(first_applicable(rs, p0, n as int) is None);
        None
    }
}

/// Appends each item of `new` that `acc` does not hold yet, noting each one
/// in the `debug` trace under `label`.
pub fn add_missing(acc: &mut Vec<String>, new: &Vec<String>, debug: &mut String, label: &str)
    ensures
        strings_model(final(acc)@) == merge_spec(strings_model(old(acc)@), strings_model(new@)),
{
    let ghost nm = strings_model(new@);
    let ghost a0 = strings_model(acc@);
    let mut i: usize = 0;
    while i < new.len()
        invariant
            i <= new.len(),
            nm == strings_model(new@),
            strings_model(acc@) == merge_spec(a0, nm.take(i as int)),
        decreases new.len() - i,
    {
        let found = contains_string(acc, &new[i]);
        assert(nm.take(i + 1).drop_last() =~= nm.take(i as int));
        assert(nm.take(i + 1).last() == new@[i as int]@);
        if !found {
            append_str(debug, "\nAdding ");
            append_str(debug, label);
            append_str(debug, ": ");
            append_str(debug, new[i].as_str());
            let ghost before = acc@;
            acc.push(new[i].clone());
            assert(strings_model(acc@) =~= strings_model(before).push(new@[i as int]@));
        }
        i += 1;
    }
    assert(nm.take(i as int) =~= nm);
}

/// Whether `v` holds a string equal to `s`.
pub fn contains_string(v: &Vec<String>, s: &String) -> (r: bool)
    ensures
        r == strings_model(v@).contains(s@),
{
    let mut i: usize = 0;
    while i < v.len()
        invariant
            i <= v.len(),
            forall|j: int| 0 <= j < i ==> v@[j]@ != s@,
        decreases v.len() - i,
    {
        if v[i] == *s {
            assert(strings_model(v@)[i as int] == s@);
            return true;
        }
        i += 1;
    }
    assert(forall|j: int| 0 <= j < v.len() ==> strings_model(v@)[j] != s@);
    false
}

/// The rule chosen for a pattern's tail is the longest one that is a prefix
/// of it: every rule whose pattern is such a prefix is no longer.
pub proof fn lemma_longest_match(rs: Seq<RuleModel>, rest: PatternModel, n: int)
    requires
        0 <= n <= rs.len(),
    ensures
        match longest_upto(rs, rest, n) {
            Some(k) => 0 <= k < n && is_prefix_of(rs[k].pattern, rest) && forall|j: int|
                0 <= j < n && is_prefix_of(#[trigger] rs[j].pattern, rest) ==> rs[j].pattern.len()
                    <= rs[k].pattern.len(),
            None => forall|j: int| 0 <= j < n ==> !is_prefix_of(#[trigger] rs[j].pattern, rest),
        },
    decreases n,
{
    if n > 0 {
        lemma_longest_match(rs, rest, n - 1);
    }
}

/// A terminal rule is taken only where it spans the whole pattern from its
/// first element; a match at a later offset, or a shorter one, is passed over.
pub proof fn lemma_terminal_spans_whole(rs: Seq<RuleModel>, p: PatternModel, i: int)
    requires
        0 <= i,
    ensures
        first_applicable(rs, p, i) matches Some((a, k)) ==> (rs[k].translation is Some ==> a == 0
            && rs[k].pattern == p) && i <= a < p.len() && longest_match(rs, p.skip(a)) == Some(k),
    decreases p.len() - i,
{
    if i < p.len() {
        lemma_terminal_spans_whole(rs, p, i + 1);
        if let Some(k) = longest_match(rs, p.skip(i)) {
            lemma_longest_match(rs, p.skip(i), rs.len() as int);
            if applies_at(rs, p, i, k) && rs[k].translation is Some {
                assert(p.skip(0) =~= p);
                assert(p.take(p.len() as int) =~= p);
            }
        }
    }
}

} // verus!
