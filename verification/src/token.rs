//! Tokens and the term automaton.
//!
//! A [`TokenSet`] is a finite automaton over characters whose states live in
//! an arena; state `0` is the root. Each state has a terminal flag and at most
//! one outgoing edge per character. The automaton has two readings: as a set
//! of plain strings ([`TokenSet::accepts`]) and as a pattern in which an edge
//! labelled `*` stands for any character ([`TokenSet::matches`]).

use vstd::prelude::*;
use crate::text::{decimal, push_decimal, string_of};

pub mod builder;
pub mod fuzzy;
pub mod intersect;
pub mod laws;
pub mod pattern;
mod trie;
pub mod walk;

verus! {

/// The character that stands for "any character" on a pattern edge.
pub const WILDCARD: char = '*';

/// One token of a tokenized text.
#[derive(Debug, Eq, PartialEq, Clone)]
pub struct Token {
    /// Position of the token among the tokens of its text.
    pub index: usize,
    /// Offset of the token's first character in the text.
    pub start: usize,
    /// The normalized text of the token.
    pub value: String,
}

impl Token {
    pub fn value(&self) -> (v: &str)
        ensures
            v@ == self.value@,
    {
        self.value.as_str()
    }
}

/// An edge of the automaton: reading `label` leads to state `target`.
#[derive(Debug, Clone, Copy)]
pub struct Edge {
    pub label: char,
    pub target: usize,
}

/// One state of the automaton.
#[derive(Debug)]
pub struct TokenSetNode {
    pub last: bool,
    pub edges: Vec<Edge>,
}

/// A finite automaton over characters, stored as an arena of states.
pub struct TokenSet {
    nodes: Vec<TokenSetNode>,
}

impl View for TokenSet {
    type V = Seq<TokenSetNode>;

    /// The states of the automaton; state `0` is the root.
    closed spec fn view(&self) -> Seq<TokenSetNode> {
        self.nodes@
    }
}

/// Whether an edge labelled `label` can read the character `c`. With `wild`
/// set, a `*` edge reads every character.
pub open spec fn label_fits(label: char, c: char, wild: bool) -> bool {
    label == c || (wild && label == WILDCARD)
}

/// Whether the pattern `p` fits the string `w`: same length, and each
/// position of `p` is either the character of `w` or `*`.
pub open spec fn pattern_fits(p: Seq<char>, w: Seq<char>) -> bool {
    &&& p.len() == w.len()
    &&& forall|i: int| 0 <= i < p.len() ==> label_fits(#[trigger] p[i], w[i], true)
}

/// Every edge points into the arena and no state has two edges with one label.
pub open spec fn nodes_wf(nodes: Seq<TokenSetNode>) -> bool {
    &&& nodes.len() >= 1
    &&& forall|n: int, i: int|
        0 <= n < nodes.len() && 0 <= i < nodes[n].edges@.len() ==> (#[trigger] nodes[n].edges@[i]).target
            < nodes.len()
    &&& forall|n: int, i: int, j: int|
        0 <= n < nodes.len() && 0 <= i < j < nodes[n].edges@.len() ==> (#[trigger] nodes[n].edges@[i]).label
            != (#[trigger] nodes[n].edges@[j]).label
}

/// `rank` strictly decreases along every edge.
pub open spec fn ranked(nodes: Seq<TokenSetNode>, rank: Seq<nat>) -> bool {
    &&& rank.len() == nodes.len()
    &&& forall|n: int, i: int|
        0 <= n < nodes.len() && 0 <= i < nodes[n].edges@.len() && (#[trigger] nodes[n].edges@[i]).target
            < nodes.len() ==> rank[nodes[n].edges@[i].target as int] < rank[n]
}

/// Whether `w` leads from state `n` to a terminal state.
pub open spec fn lang_from(nodes: Seq<TokenSetNode>, n: int, w: Seq<char>, wild: bool) -> bool
    decreases w.len(),
{
    if !(0 <= n < nodes.len()) {
        false
    } else if w.len() == 0 {
        nodes[n].last
    } else {
        exists|i: int|
            0 <= i < nodes[n].edges@.len() && label_fits((#[trigger] nodes[n].edges@[i]).label, w[0], wild)
                && lang_from(nodes, nodes[n].edges@[i].target as int, w.drop_first(), wild)
    }
}

/// Whether `w` leads from state `n` to a terminal state through edge `i` of `n`.
pub open spec fn takes_edge(nodes: Seq<TokenSetNode>, n: int, i: int, w: Seq<char>, wild: bool) -> bool {
    &&& 0 <= n < nodes.len()
    &&& w.len() > 0
    &&& 0 <= i < nodes[n].edges@.len()
    &&& label_fits(nodes[n].edges@[i].label, w[0], wild)
    &&& lang_from(nodes, nodes[n].edges@[i].target as int, w.drop_first(), wild)
}

/// A non-empty string read from `n` leaves `n` through one of its edges.
pub proof fn lemma_edge_witness(nodes: Seq<TokenSetNode>, n: int, w: Seq<char>, wild: bool) -> (i: int)
    requires
        lang_from(nodes, n, w, wild),
        w.len() > 0,
    ensures
        takes_edge(nodes, n, i, w, wild),
{
    choose|i: int|
        0 <= i < nodes[n].edges@.len() && label_fits((#[trigger] nodes[n].edges@[i]).label, w[0], wild)
            && lang_from(nodes, nodes[n].edges@[i].target as int, w.drop_first(), wild)
}

/// Every string read from `node` on, put behind `prefix`, is read from the root.
pub open spec fn reads_on(nodes: Seq<TokenSetNode>, prefix: Seq<char>, node: int, wild: bool) -> bool {
    forall|r: Seq<char>| #[trigger] lang_from(nodes, node, r, wild) ==> lang_from(nodes, 0, prefix + r, wild)
}

/// The root reads on from the empty prefix.
pub proof fn lemma_reads_on_root(nodes: Seq<TokenSetNode>, wild: bool)
    ensures
        reads_on(nodes, Seq::<char>::empty(), 0, wild),
{
    assert forall|r: Seq<char>| #[trigger] lang_from(nodes, 0, r, wild) implies lang_from(
        nodes,
        0,
        Seq::<char>::empty() + r,
        wild,
    ) by {
        assert(Seq::<char>::empty() + r =~= r);
    }
}

/// If `node` reads on from `prefix`, the target of its edge `i` reads on from
/// `prefix` followed by any character `c` that the edge can read.
pub proof fn lemma_reads_on_child(
    nodes: Seq<TokenSetNode>,
    prefix: Seq<char>,
    node: int,
    i: int,
    c: char,
    wild: bool,
)
    requires
        0 <= node < nodes.len(),
        0 <= i < nodes[node].edges@.len(),
        label_fits(nodes[node].edges@[i].label, c, wild),
        reads_on(nodes, prefix, node, wild),
    ensures
        reads_on(nodes, prefix.push(c), nodes[node].edges@[i].target as int, wild),
{
    let t = nodes[node].edges@[i].target as int;
    assert forall|r: Seq<char>| #[trigger] lang_from(nodes, t, r, wild) implies lang_from(
        nodes,
        0,
        prefix.push(c) + r,
        wild,
    ) by {
        let full = seq![c] + r;
        assert(full.drop_first() =~= r);
        assert(takes_edge(nodes, node, i, full, wild));
        assert(lang_from(nodes, node, full, wild));
        assert(prefix + full =~= prefix.push(c) + r);
    }
}

/// Adds `edge` to the edges of state `n`.
pub(crate) fn push_edge(nodes: &mut Vec<TokenSetNode>, n: usize, edge: Edge)
    requires
        n < old(nodes)@.len(),
    ensures
        final(nodes)@.len() == old(nodes)@.len(),
        final(nodes)@[n as int].edges@ == old(nodes)@[n as int].edges@.push(edge),
        final(nodes)@[n as int].last == old(nodes)@[n as int].last,
        forall|j: int| 0 <= j < old(nodes)@.len() && j != n ==> final(nodes)@[j] == old(nodes)@[j],
{
    nodes[n].edges.push(edge);
}

/// Sets the terminal flag of state `n`.
pub(crate) fn set_last(nodes: &mut Vec<TokenSetNode>, n: usize, last: bool)
    requires
        n < old(nodes)@.len(),
    ensures
        final(nodes)@.len() == old(nodes)@.len(),
        final(nodes)@[n as int].edges@ == old(nodes)@[n as int].edges@,
        final(nodes)@[n as int].last == last,
        forall|j: int| 0 <= j < old(nodes)@.len() && j != n ==> final(nodes)@[j] == old(nodes)@[j],
{
    nodes[n].last = last;
}

/// `a` is an initial segment of `b`.
pub open spec fn starts_with(b: Seq<char>, a: Seq<char>) -> bool {
    a.len() <= b.len() && b.subrange(0, a.len() as int) == a
}

impl TokenSet {
    /// The arena is well formed: it has a root, every edge points into it,
    /// and no state has two edges with one label.
    pub open spec fn wf(&self) -> bool {
        nodes_wf(self@)
    }

    /// No path through the automaton visits a state twice.
    pub open spec fn is_acyclic(&self) -> bool {
        exists|rank: Seq<nat>| ranked(self@, rank)
    }

    /// Whether the automaton, read as a set of plain strings, holds `w`.
    pub open spec fn accepts(&self, w: Seq<char>) -> bool {
        lang_from(self@, 0, w, false)
    }

    /// Whether the automaton, read as a pattern, matches `w`: a `*` edge
    /// reads any character.
    pub open spec fn matches(&self, w: Seq<char>) -> bool {
        lang_from(self@, 0, w, true)
    }

    /// The automaton over the given arena of states.
    pub(crate) fn from_nodes(nodes: Vec<TokenSetNode>) -> (set: TokenSet)
        ensures
            set@ == nodes@,
    {
        TokenSet { nodes }
    }

    /// The arena of states.
    pub(crate) fn nodes(&self) -> (nodes: &Vec<TokenSetNode>)
        ensures
            nodes@ == self@,
    {
        &self.nodes
    }

    /// The number of states in the arena, the root among them.
    pub fn len(&self) -> (len: usize)
        ensures
            len == self@.len(),
    {
        self.nodes.len()
    }

    /// The state that `c` leads to from `node`, read as a plain character.
    pub fn child(&self, node: usize, c: char) -> (child: Option<usize>)
        requires
            self.wf(),
        ensures
            match child {
                Some(t) => node < self@.len() && exists|i: int|
                    0 <= i < self@[node as int].edges@.len() && #[trigger] self@[node as int].edges@[i] == (Edge {
                        label: c,
                        target: t,
                    }),
                None => node >= self@.len() || forall|i: int|
                    0 <= i < self@[node as int].edges@.len() ==> (#[trigger] self@[node as int].edges@[i]).label != c,
            },
    {
        if node >= self.nodes.len() {
            return None;
        }
        match self.nodes[node].find_edge(c) {
            Some(i) => Some(self.nodes[node].edges[i].target),
            None => None,
        }
    }

    /// Whether `node` is a terminal state.
    pub fn is_last(&self, node: usize) -> (last: bool)
        ensures
            last == (node < self@.len() && self@[node as int].last),
    {
        node < self.nodes.len() && self.nodes[node].last
    }
}

/// The text that stands for the edges `edges`: for each edge its label and
/// the decimal number of its target.
pub open spec fn edges_text(edges: Seq<Edge>) -> Seq<char>
    decreases edges.len(),
{
    if edges.len() == 0 {
        Seq::<char>::empty()
    } else {
        edges_text(edges.drop_last()).push(edges.last().label) + decimal(edges.last().target as nat)
    }
}

impl TokenSetNode {
    /// The text that stands for this state: `1` or `0` for its flag, then
    /// for each edge its label and the decimal number of its target.
    pub open spec fn text(&self) -> Seq<char> {
        seq![if self.last {
            '1'
        } else {
            '0'
        }] + edges_text(self.edges@)
    }

    /// The text that stands for this state: `1` or `0` for its flag, then
    /// for each edge its label and the decimal number of its target.
    pub fn to_str(&self) -> (out: String)
        ensures
            out@ == self.text(),
    {
        let mut cs: Vec<char> = Vec::new();
        cs.push(if self.last {
            '1'
        } else {
            '0'
        });
        let ghost flag = cs@;
        let mut i: usize = 0;
        assert(self.edges@.subrange(0, 0) =~= Seq::<Edge>::empty());
        assert(cs@ =~= flag + edges_text(self.edges@.subrange(0, 0)));
        while i < self.edges.len()
            invariant
                i <= self.edges@.len(),
                cs@ == flag + edges_text(self.edges@.subrange(0, i as int)),
            decreases self.edges@.len() - i,
        {
            let edge = self.edges[i];
            let ghost before = self.edges@.subrange(0, i as int);
            cs.push(edge.label);
            push_decimal(&mut cs, edge.target as u64);
            proof {
                let now = self.edges@.subrange(0, i + 1);
                assert(now.drop_last() =~= before);
                assert(now.last() == edge);
                assert(cs@ =~= flag + edges_text(now));
            }
            i += 1;
        }
        assert(self.edges@.subrange(0, i as int) =~= self.edges@);
        string_of(&cs)
    }

    /// A state with no edges that is not terminal.
    pub fn new() -> (node: TokenSetNode)
        ensures
            !node.last,
            node.edges@.len() == 0,
    {
        TokenSetNode { last: false, edges: Vec::new() }
    }

    /// Position of the edge labelled `c`, if there is one.
    pub fn find_edge(&self, c: char) -> (found: Option<usize>)
        ensures
            match found {
                Some(i) => i < self.edges@.len() && self.edges@[i as int].label == c && forall|j: int|
                    0 <= j < i ==> (#[trigger] self.edges@[j]).label != c,
                None => forall|j: int| 0 <= j < self.edges@.len() ==> (#[trigger] self.edges@[j]).label != c,
            },
    {
        let mut i: usize = 0;
        while i < self.edges.len()
            invariant
                i <= self.edges@.len(),
                forall|j: int| 0 <= j < i ==> (#[trigger] self.edges@[j]).label != c,
            decreases self.edges@.len() - i,
        {
            if self.edges[i].label == c {
                return Some(i);
            }
            i += 1;
        }
        None
    }
}

} // verus!
