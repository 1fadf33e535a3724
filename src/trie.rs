//! A trie over element sequences, indexing rule patterns by their position
//! in the rule table.

use vstd::prelude::*;

use crate::pattern::{Element, ElementModel, Pattern, PatternModel};
use crate::rules::is_prefix_of;

verus! {

/// One node: the edges to its children, by element, and the index of the
/// rule whose pattern leads here, if any.
pub struct TrieNode {
    children: Vec<(Element, usize)>,
    rule: Option<usize>,
}

/// The trie. Node 0 is the root; each other node is reached from its parent
/// by one element.
pub struct PatternTrie {
    nodes: Vec<TrieNode>,
    paths: Ghost<Seq<PatternModel>>,
    parents: Ghost<Seq<int>>,
}

pub open spec fn edge_model(e: (Element, usize)) -> (ElementModel, int) {
    (e.0@, e.1 as int)
}

impl PatternTrie {
    /// How many nodes the trie has.
    pub closed spec fn size(&self) -> nat {
        self.nodes@.len()
    }

    /// Every node's path is its parent's path and one element, the parent
    /// lists it under that element, children of a node differ in their
    /// element, and no two nodes share a path.
    pub closed spec fn well_formed(&self) -> bool {
        let ns = self.nodes@;
        let ps = self.paths@;
        let par = self.parents@;
        &&& ns.len() >= 1
        &&& ps.len() == ns.len()
        &&& par.len() == ns.len()
        &&& ps[0].len() == 0
        &&& forall|n: int, c: int| 0 <= n < ns.len() && 0 <= c < ns[n].children.len() ==> {
            let (e, k) = #[trigger] ns[n].children@[c];
            &&& 0 < k < ns.len()
            &&& par[k as int] == n
            &&& ps[k as int] == ps[n].push(e@)
        }
        &&& forall|n: int, c1: int, c2: int| 0 <= n < ns.len() && 0 <= c1 < c2 < ns[n].children.len()
            ==> (#[trigger] ns[n].children@[c1]).0@ != (#[trigger] ns[n].children@[c2]).0@
        &&& forall|k: int| 0 < k < ns.len() ==> {
            &&& 0 <= #[trigger] par[k] < k
            &&& ps[k].len() > 0
            &&& ps[k] == ps[par[k]].push(ps[k].last())
            &&& exists|c: int| 0 <= c < ns[par[k]].children.len() && (#[trigger] ns[par[k]].children@[c]).1 == k
        }
        &&& forall|a: int, b: int| 0 <= a < b < ns.len() ==> #[trigger] ps[a] != #[trigger] ps[b]
    }

    pub fn new() -> (r: PatternTrie)
        ensures
            r.well_formed(),
            r.size() == 1,
            forall|rs: Seq<PatternModel>| rs.len() == 0 ==> #[trigger] r.indexes(rs),
    {
        let root = TrieNode { children: Vec::new(), rule: None };
        let ghost ps: Seq<PatternModel> = seq![Seq::<ElementModel>::empty()];
        let ghost par: Seq<int> = seq![0int];
        PatternTrie { nodes: vec![root], paths: Ghost(ps), parents: Ghost(par) }
    }

    /// How many nodes the trie has.
    pub fn len(&self) -> (r: usize)
        ensures
            r == self.size(),
    {
        self.nodes.len()
    }

    /// The child of node `n` under element `e`, if there is one.
    fn child(&self, n: usize, e: &Element) -> (r: Option<usize>)
        requires
            self.well_formed(),
            n < self.nodes.len(),
        ensures
            match r {
                Some(k) => k < self.nodes.len() && self.paths@[k as int] == self.paths@[n as int].push(e@),
                None => forall|k: int| 0 < k < self.nodes.len() ==> !(self.parents@[k] == n
                    && self.paths@[k] == self.paths@[n as int].push(e@)),
            },
    {
        let node = &self.nodes[n];
        let mut c: usize = 0;
        while c < node.children.len()
            invariant
                self.well_formed(),
                n < self.nodes.len(),
                node == &self.nodes@[n as int],
                c <= node.children.len(),
                forall|i: int| 0 <= i < c ==> (#[trigger] node.children@[i]).0@ != e@,
            decreases node.children.len() - c,
        {
            let (ce, k) = (&node.children[c].0, node.children[c].1);
            if ce.same_as(e) {
                return Some(k);
            }
            c += 1;
        }
        proof {
            assert forall|k: int| 0 < k < self.nodes.len() implies !(self.parents@[k] == n
                && self.paths@[k] == self.paths@[n as int].push(e@)) by {
                if self.parents@[k] == n && self.paths@[k] == self.paths@[n as int].push(e@) {
                    let c2 = choose|c2: int| 0 <= c2 < self.nodes@[n as int].children.len()
                        && (#[trigger] self.nodes@[n as int].children@[c2]).1 == k;
                    let (e2, k2) = self.nodes@[n as int].children@[c2];
                    assert(self.paths@[k] == self.paths@[n as int].push(e2@));
                    assert(self.paths@[n as int].push(e2@).last() == e2@);
                    assert(self.paths@[n as int].push(e@).last() == e@);
                }
            }
        }
        None
    }
}

impl PatternTrie {
    /// The trie indexes `rs`: a node's rule has the node's path as its
    /// pattern, and every pattern of `rs` has its node, marked with it.
    pub closed spec fn indexes(&self, rs: Seq<PatternModel>) -> bool {
        &&& forall|n: int| 0 <= n < self.nodes@.len() ==> ((#[trigger] self.nodes@[n]).rule matches Some(k)
            ==> k < rs.len() && rs[k as int] == self.paths@[n])
        &&& forall|k: int| 0 <= k < rs.len() ==> exists|n: int| 0 <= n < self.nodes@.len()
            && self.paths@[n] == #[trigger] rs[k] && self.nodes@[n].rule == Some(k as usize)
    }
}

/// Every prefix of a node's path is the path of some node.
proof fn lemma_prefix_nodes(t: PatternTrie, k: int, j: int)
    requires
        t.well_formed(),
        0 <= k < t.nodes@.len(),
        0 <= j <= t.paths@[k].len(),
    ensures
        exists|m: int| 0 <= m < t.nodes@.len() && #[trigger] t.paths@[m] == t.paths@[k].take(j),
    decreases k,
{
    if j == t.paths@[k].len() {
        assert(t.paths@[k].take(j) =~= t.paths@[k]);
    } else {
        if k == 0 {
            assert(false);
        }
        let p = t.parents@[k];
        assert(0 <= p < k);
        assert(t.paths@[k] == t.paths@[p].push(t.paths@[k].last()));
        lemma_prefix_nodes(t, p, j);
        let m = choose|m: int| 0 <= m < t.nodes@.len() && #[trigger] t.paths@[m] == t.paths@[p].take(j);
        assert(t.paths@[p].take(j) =~= t.paths@[k].take(j));
    }
}

/// Two nodes with the same path are the same node.
proof fn lemma_path_unique(t: PatternTrie, a: int, b: int)
    requires
        t.well_formed(),
        0 <= a < t.nodes@.len(),
        0 <= b < t.nodes@.len(),
        t.paths@[a] == t.paths@[b],
    ensures
        a == b,
{
    if a < b {
        assert(t.paths@[a] != t.paths@[b]);
    } else if b < a {
        assert(t.paths@[b] != t.paths@[a]);
    }
}

impl PatternTrie {
    /// The index of the rule with the longest pattern among `rs` that is a
    /// prefix of `p` from offset `i`, found by walking down from the root.
    pub fn longest_at(&self, p: &Pattern, i: usize, Ghost(rs): Ghost<Seq<PatternModel>>) -> (r: Option<usize>)
        requires
            self.well_formed(),
            self.indexes(rs),
            i <= p@.len(),
        ensures
            match r {
                Some(k) => k < rs.len() && is_prefix_of(rs[k as int], p@.skip(i as int)) && forall|j: int|
                    0 <= j < rs.len() && is_prefix_of(#[trigger] rs[j], p@.skip(i as int)) ==> rs[j].len() <= rs[k as int].len(),
                None => forall|j: int| 0 <= j < rs.len() ==> !is_prefix_of(#[trigger] rs[j], p@.skip(i as int)),
            },
    {
        let ghost rest = p@.skip(i as int);
        let mut n: usize = 0;
        let mut d: usize = 0;
        let mut best: Option<usize> = self.nodes[0].rule;
        proof {
            assert(rest.take(0) =~= self.paths@[0]);
            assert forall|j: int| 0 <= j < rs.len() && is_prefix_of(#[trigger] rs[j], rest) && rs[j].len() <= 0
                implies best is Some && rs[j].len() <= rs[best->0 as int].len() by {
                let m = choose|m: int| 0 <= m < self.nodes@.len() && self.paths@[m] == rs[j] && self.nodes@[m].rule == Some(j as usize);
                assert(rs[j] =~= self.paths@[0]);
                lemma_path_unique(*self, m, 0);
            }
        }
        while i + d < p.0.len()
            invariant
                self.well_formed(),
                self.indexes(rs),
                i <= p@.len(),
                p@.len() == p.0.len(),
                rest == p@.skip(i as int),
                i + d <= p@.len(),
                n < self.nodes.len(),
                self.paths@[n as int] == rest.take(d as int),
                match best {
                    Some(k) => k < rs.len() && is_prefix_of(rs[k as int], rest) && rs[k as int].len() <= d,
                    None => true,
                },
                forall|j: int| 0 <= j < rs.len() && is_prefix_of(#[trigger] rs[j], rest) && rs[j].len() <= d
                    ==> best is Some && rs[j].len() <= rs[best->0 as int].len(),
            decreases p.0.len() - (i + d),
        {
            let e = &p.0[i + d];
            assert(e@ == rest[d as int]);
            match self.child(n, e) {
                None => {
                    proof {
                        self.lemma_walk_ends(rs, rest, n as int, d as int);
                    }
                    return best;
                },
                Some(k) => {
                    assert(rest.take(d + 1) =~= rest.take(d as int).push(rest[d as int]));
                    n = k;
                    d += 1;
                    let rule = self.nodes[n].rule;
                    proof {
                        assert forall|j: int| 0 <= j < rs.len() && is_prefix_of(#[trigger] rs[j], rest) && rs[j].len() == d
                            implies rule == Some(j as usize) by {
                            let m = choose|m: int| 0 <= m < self.nodes@.len() && self.paths@[m] == rs[j] && self.nodes@[m].rule == Some(j as usize);
                            assert(rs[j] =~= rest.take(d as int));
                            lemma_path_unique(*self, m, n as int);
                        }
                    }
                    match rule {
                        Some(r) => {
                            assert(rs[r as int] == self.paths@[n as int]);
                            assert(rest.take(d as int) == rs[r as int]);
                            best = Some(r);
                        },
                        None => {},
                    }
                },
            }
        }
        proof {
            assert forall|j: int| 0 <= j < rs.len() && is_prefix_of(#[trigger] rs[j], rest) implies rs[j].len() <= d by {
                assert(rest.len() == d);
            }
        }
        best
    }

    proof fn lemma_walk_ends(&self, rs: Seq<PatternModel>, rest: PatternModel, n: int, d: int)
        requires
            self.well_formed(),
            self.indexes(rs),
            0 <= n < self.nodes@.len(),
            0 <= d < rest.len(),
            self.paths@[n] == rest.take(d),
            forall|k: int| 0 < k < self.nodes@.len() ==> !(self.parents@[k] == n
                && self.paths@[k] == self.paths@[n].push(rest[d])),
        ensures
            forall|j: int| 0 <= j < rs.len() && is_prefix_of(#[trigger] rs[j], rest) ==> rs[j].len() <= d,
    {
        assert forall|j: int| 0 <= j < rs.len() && is_prefix_of(#[trigger] rs[j], rest) implies rs[j].len() <= d by {
            if rs[j].len() > d {
                let m = choose|m: int| 0 <= m < self.nodes@.len() && self.paths@[m] == rs[j] && self.nodes@[m].rule == Some(j as usize);
                lemma_prefix_nodes(*self, m, d + 1);
                let m1 = choose|m1: int| 0 <= m1 < self.nodes@.len() && #[trigger] self.paths@[m1] == self.paths@[m].take(d + 1);
                assert(self.paths@[m].take(d + 1) =~= rest.take(d + 1));
                assert(m1 != 0);
                let q = self.parents@[m1];
                assert(self.paths@[m1] == self.paths@[q].push(self.paths@[m1].last()));
                assert(self.paths@[q] =~= self.paths@[m1].drop_last());
                assert(rest.take(d + 1).drop_last() =~= rest.take(d));
                lemma_path_unique(*self, q, n);
                assert(self.paths@[m1] =~= self.paths@[n].push(rest[d]));
            }
        }
    }
}

fn copy_edges(v: &Vec<(Element, usize)>) -> (r: Vec<(Element, usize)>)
    ensures
        r@.len() == v@.len(),
        forall|i: int| 0 <= i < v@.len() ==> edge_model(#[trigger] r@[i]) == edge_model(v@[i]),
{
    let mut r: Vec<(Element, usize)> = Vec::new();
    let mut i: usize = 0;
    while i < v.len()
        invariant
            i <= v.len(),
            r@.len() == i,
            forall|j: int| 0 <= j < i ==> edge_model(#[trigger] r@[j]) == edge_model(v@[j]),
        decreases v.len() - i,
    {
        r.push((v[i].0.duplicate(), v[i].1));
        i += 1;
    }
    r
}

impl PatternTrie {
    /// Replaces node `n` by one with the same edges and rule `rule`.
    fn set_rule(&mut self, n: usize, rule: Option<usize>)
        requires
            old(self).well_formed(),
            n < old(self).nodes.len(),
        ensures
            final(self).well_formed(),
            final(self).paths == old(self).paths,
            final(self).nodes@.len() == old(self).nodes@.len(),
            final(self).nodes@[n as int].rule == rule,
            forall|m: int| 0 <= m < final(self).nodes@.len() && m != n ==> #[trigger] final(self).nodes@[m] == old(self).nodes@[m],
    {
        let children = copy_edges(&self.nodes[n].children);
        let ghost before = *self;
        self.nodes.set(n, TrieNode { children, rule });
        proof {
            let ns = self.nodes@;
            assert forall|a: int, c: int| 0 <= a < ns.len() && 0 <= c < ns[a].children.len() implies
                edge_model(#[trigger] ns[a].children@[c]) == edge_model(before.nodes@[a].children@[c]) by {
            }
            assert forall|a: int, c1: int, c2: int| 0 <= a < ns.len() && 0 <= c1 < c2 < ns[a].children.len()
                implies (#[trigger] ns[a].children@[c1]).0@ != (#[trigger] ns[a].children@[c2]).0@ by {
                assert(edge_model(ns[a].children@[c1]) == edge_model(before.nodes@[a].children@[c1]));
                assert(edge_model(ns[a].children@[c2]) == edge_model(before.nodes@[a].children@[c2]));
            }
            assert forall|a: int, c: int| 0 <= a < ns.len() && 0 <= c < ns[a].children.len() implies {
                let (e, k) = #[trigger] ns[a].children@[c];
                &&& 0 < k < ns.len()
                &&& self.parents@[k as int] == a
                &&& self.paths@[k as int] == self.paths@[a].push(e@)
            } by {
                assert(edge_model(ns[a].children@[c]) == edge_model(before.nodes@[a].children@[c]));
            }
            assert forall|k: int| 0 < k < ns.len() implies {
                &&& 0 <= #[trigger] self.parents@[k] < k
                &&& self.paths@[k].len() > 0
                &&& self.paths@[k] == self.paths@[self.parents@[k]].push(self.paths@[k].last())
                &&& exists|c: int| 0 <= c < ns[self.parents@[k]].children.len() && (#[trigger] ns[self.parents@[k]].children@[c]).1 == k
            } by {
                let q = self.parents@[k];
                let c = choose|c: int| 0 <= c < before.nodes@[q].children.len() && (#[trigger] before.nodes@[q].children@[c]).1 == k;
                assert(edge_model(ns[q].children@[c]) == edge_model(before.nodes@[q].children@[c]));
            }
        }
    }

    /// Adds a child of node `n` under element `e`, which it does not have yet.
    fn add_child(&mut self, n: usize, e: &Element) -> (m: usize)
        requires
            old(self).well_formed(),
            n < old(self).nodes.len(),
            forall|k: int| 0 < k < old(self).nodes.len() ==> !(old(self).parents@[k] == n
                && old(self).paths@[k] == old(self).paths@[n as int].push(e@)),
            old(self).nodes.len() < usize::MAX,
        ensures
            final(self).well_formed(),
            m == old(self).nodes.len(),
            final(self).nodes@.len() == m + 1,
            final(self).paths@ == old(self).paths@.push(old(self).paths@[n as int].push(e@)),
            final(self).nodes@[m as int].rule is None,
            forall|a: int| 0 <= a < m ==> (#[trigger] final(self).nodes@[a]).rule == old(self).nodes@[a].rule,
    {
        let ghost before = *self;
        let m = self.nodes.len();
        let mut children = copy_edges(&self.nodes[n].children);
        children.push((e.duplicate(), m));
        let rule = self.nodes[n].rule;
        self.nodes.set(n, TrieNode { children, rule });
        self.nodes.push(TrieNode { children: Vec::new(), rule: None });
        let ghost new_path = self.paths@[n as int].push(e@);
        self.paths = Ghost(self.paths@.push(new_path));
        self.parents = Ghost(self.parents@.push(n as int));
        proof {
            let ns = self.nodes@;
            let ps = self.paths@;
            let par = self.parents@;
            let ons = before.nodes@;
            assert(forall|a: int| 0 <= a < m ==> ps[a] == before.paths@[a] && par[a] == before.parents@[a]);
            assert(ps[m as int] == new_path && par[m as int] == n);
            assert forall|a: int, c: int| 0 <= a < ns.len() && 0 <= c < ns[a].children.len() implies {
                let (e2, k) = #[trigger] ns[a].children@[c];
                &&& 0 < k < ns.len()
                &&& par[k as int] == a
                &&& ps[k as int] == ps[a].push(e2@)
            } by {
                if a == n && c == ons[a].children.len() {
                } else if a < m {
                    assert(edge_model(ns[a].children@[c]) == edge_model(ons[a].children@[c]));
                }
            }
            assert forall|a: int, c1: int, c2: int| 0 <= a < ns.len() && 0 <= c1 < c2 < ns[a].children.len()
                implies (#[trigger] ns[a].children@[c1]).0@ != (#[trigger] ns[a].children@[c2]).0@ by {
                if a < m {
                    assert(edge_model(ns[a].children@[c1]) == edge_model(ons[a].children@[c1]));
                    if a == n && c2 == ons[a].children.len() {
                        let (e1, k1) = ons[a].children@[c1];
                        assert(before.parents@[k1 as int] == n && before.paths@[k1 as int] == before.paths@[n as int].push(e1@));
                    } else {
                        assert(edge_model(ns[a].children@[c2]) == edge_model(ons[a].children@[c2]));
                    }
                }
            }
            assert forall|k: int| 0 < k < ns.len() implies {
                &&& 0 <= #[trigger] par[k] < k
                &&& ps[k].len() > 0
                &&& ps[k] == ps[par[k]].push(ps[k].last())
                &&& exists|c: int| 0 <= c < ns[par[k]].children.len() && (#[trigger] ns[par[k]].children@[c]).1 == k
            } by {
                if k == m {
                    let c = ons[n as int].children.len() as int;
                    assert(ns[n as int].children@[c].1 == m);
                    assert(new_path.last() == e@);
                    assert(new_path =~= ps[n as int].push(new_path.last()));
                } else {
                    let q = par[k];
                    let c = choose|c: int| 0 <= c < ons[q].children.len() && (#[trigger] ons[q].children@[c]).1 == k;
                    assert(edge_model(ns[q].children@[c]) == edge_model(ons[q].children@[c]));
                }
            }
            assert forall|a: int, b: int| 0 <= a < b < ns.len() implies #[trigger] ps[a] != #[trigger] ps[b] by {
                if b == m {
                    if ps[a] == new_path {
                        assert(a != 0);
                        let q = before.parents@[a];
                        assert(before.paths@[a] == before.paths@[q].push(before.paths@[a].last()));
                        assert(before.paths@[q] =~= new_path.drop_last());
                        assert(new_path.drop_last() =~= before.paths@[n as int]);
                        lemma_path_unique(before, q, n as int);
                        assert(new_path.last() == e@);
                        assert(before.paths@[a] =~= before.paths@[n as int].push(e@));
                    }
                }
            }
        }
        m
    }

    /// Marks the node of `pattern`, made with whatever ancestors it lacks, as
    /// holding rule `k`, the next in the table.
    pub fn insert(&mut self, pattern: &Pattern, k: usize, Ghost(rs): Ghost<Seq<PatternModel>>)
        requires
            old(self).well_formed(),
            old(self).indexes(rs),
            k == rs.len(),
            forall|j: int| 0 <= j < rs.len() ==> rs[j] != pattern@,
            old(self).size() + pattern@.len() < usize::MAX,
        ensures
            final(self).well_formed(),
            final(self).indexes(rs.push(pattern@)),
            final(self).size() <= old(self).size() + pattern@.len(),
    {
        let mut n: usize = 0;
        let mut d: usize = 0;
        let ghost start_len = self.nodes.len();
        assert(pattern@.take(0) =~= self.paths@[0]);
        while d < pattern.0.len()
            invariant
                self.well_formed(),
                self.indexes(rs),
                pattern@.len() == pattern.0.len(),
                d <= pattern.0.len(),
                n < self.nodes.len(),
                self.paths@[n as int] == pattern@.take(d as int),
                self.nodes.len() <= start_len + d,
                start_len + pattern@.len() < usize::MAX,
            decreases pattern.0.len() - d,
        {
            let e = &pattern.0[d];
            assert(e@ == pattern@[d as int]);
            assert(pattern@.take(d + 1) =~= pattern@.take(d as int).push(e@));
            match self.child(n, e) {
                Some(c) => {
                    n = c;
                },
                None => {
                    let ghost before = *self;
                    n = self.add_child(n, e);
                    proof {
                        assert forall|a: int| 0 <= a < self.nodes@.len() implies ((#[trigger] self.nodes@[a]).rule matches Some(j)
                            ==> j < rs.len() && rs[j as int] == self.paths@[a]) by {
                            if a < before.nodes@.len() {
                                assert(self.nodes@[a].rule == before.nodes@[a].rule);
                                assert(self.paths@[a] == before.paths@[a]);
                            }
                        }
                        assert forall|j: int| 0 <= j < rs.len() implies exists|a: int| 0 <= a < self.nodes@.len()
                            && self.paths@[a] == #[trigger] rs[j] && self.nodes@[a].rule == Some(j as usize) by {
                            let a = choose|a: int| 0 <= a < before.nodes@.len() && before.paths@[a] == rs[j] && before.nodes@[a].rule == Some(j as usize);
                            assert(self.paths@[a] == before.paths@[a]);
                            assert(self.nodes@[a].rule == before.nodes@[a].rule);
                        }
                    }
                },
            }
            d += 1;
        }
        assert(pattern@.take(d as int) =~= pattern@);
        let ghost before = *self;
        proof {
            if let Some(j) = self.nodes@[n as int].rule {
                assert(rs[j as int] == self.paths@[n as int]);
            }
        }
        self.set_rule(n, Some(k));
        proof {
            let rs2 = rs.push(pattern@);
            assert forall|a: int| 0 <= a < self.nodes@.len() implies ((#[trigger] self.nodes@[a]).rule matches Some(j)
                ==> j < rs2.len() && rs2[j as int] == self.paths@[a]) by {
                if a != n {
                    assert(self.nodes@[a] == before.nodes@[a]);
                }
            }
            assert forall|j: int| 0 <= j < rs2.len() implies exists|a: int| 0 <= a < self.nodes@.len()
                && self.paths@[a] == #[trigger] rs2[j] && self.nodes@[a].rule == Some(j as usize) by {
                if j == rs.len() {
                    assert(self.paths@[n as int] == rs2[j]);
                } else {
                    let a = choose|a: int| 0 <= a < before.nodes@.len() && before.paths@[a] == rs[j] && before.nodes@[a].rule == Some(j as usize);
                    assert(a != n);
                    assert(self.nodes@[a] == before.nodes@[a]);
                    assert(rs2[j] == rs[j]);
                }
            }
        }
    }
}

} // verus!
