//! Pattern automata of literal strings and globs with `*`.

use vstd::prelude::*;
use crate::query::Clause;
use crate::text::{char_at, chars_of};
use crate::token::{
    Edge, TokenSet, TokenSetNode, lang_from, lemma_edge_witness, nodes_wf, push_edge, ranked, set_last,
    takes_edge, WILDCARD,
};

verus! {

/// Whether `p` is `src` from position `from` on, with each `*` replaced by a
/// run of zero or more `*`.
pub open spec fn glob_reads(src: Seq<char>, from: int, p: Seq<char>) -> bool
    decreases src.len() - from, p.len(),
{
    if from < 0 || from >= src.len() {
        p.len() == 0
    } else if src[from] == WILDCARD {
        glob_reads(src, from + 1, p) || (p.len() > 0 && p[0] == WILDCARD && glob_reads(src, from, p.drop_first()))
    } else {
        p.len() > 0 && p[0] == src[from] && glob_reads(src, from + 1, p.drop_first())
    }
}

/// By how many states position `j` of `src` moves on: none for `*`, one otherwise.
spec fn glob_advance(src: Seq<char>, j: int) -> int {
    if src[j] == WILDCARD {
        0
    } else {
        1
    }
}

/// How the states of a glob automaton lie along its source: the state before
/// each position, the edge that each position made or found, the position at
/// which each state begins, and the position behind each edge.
struct GlobShape {
    pub at: Seq<int>,
    pub eidx: Seq<int>,
    pub first: Seq<int>,
    pub origin: Seq<Seq<int>>,
}

/// The automaton built from the first `i` characters of `src`.
spec fn glob_ok(nodes: Seq<TokenSetNode>, src: Seq<char>, i: int, g: GlobShape) -> bool {
    &&& 0 <= i <= src.len()
    &&& nodes.len() >= 1
    &&& g.at.len() == i + 1
    &&& g.eidx.len() == i
    &&& g.first.len() == nodes.len()
    &&& g.origin.len() == nodes.len()
    &&& g.at[0] == 0
    &&& g.first[0] == 0
    &&& g.at[i] == nodes.len() - 1
    &&& forall|j: int| 0 <= j <= i ==> 0 <= #[trigger] g.at[j] < nodes.len()
    &&& forall|j: int|
        0 <= j < i ==> {
            &&& 0 <= #[trigger] g.eidx[j] < nodes[g.at[j]].edges@.len()
            &&& nodes[g.at[j]].edges@[g.eidx[j]].label == src[j]
            &&& nodes[g.at[j]].edges@[g.eidx[j]].target == g.at[j + 1]
            &&& g.at[j + 1] == g.at[j] + glob_advance(src, j)
            &&& src[j] != WILDCARD ==> g.first[g.at[j + 1]] == j + 1
        }
    &&& forall|x: int| 0 <= x < nodes.len() ==> (#[trigger] g.origin[x]).len() == nodes[x].edges@.len()
    &&& forall|x: int, e: int|
        0 <= x < nodes.len() && 0 <= e < nodes[x].edges@.len() ==> 0 <= #[trigger] g.origin[x][e] < i
            && g.at[g.origin[x][e]] == x && nodes[x].edges@[e].label == src[g.origin[x][e]]
            && nodes[x].edges@[e].target == g.at[g.origin[x][e] + 1]
    &&& forall|x: int| 0 <= x < nodes.len() ==> 0 <= #[trigger] g.first[x] <= i && g.at[g.first[x]] == x
    &&& forall|j: int, k: int| 0 <= j <= i && g.first[#[trigger] g.at[j]] <= k < j ==> #[trigger] src[k] == WILDCARD
    &&& forall|x: int| 0 <= x < nodes.len() && (#[trigger] nodes[x]).last ==> x == g.at[i] && i == src.len() && i > 0
    &&& (i == src.len() && i > 0) ==> nodes[g.at[i]].last
}

proof fn lemma_glob_skip_stars(src: Seq<char>, k: int, j: int, p: Seq<char>)
    requires
        0 <= k <= j <= src.len(),
        forall|m: int| k <= m < j ==> #[trigger] src[m] == WILDCARD,
        glob_reads(src, j, p),
    ensures
        glob_reads(src, k, p),
    decreases j - k,
{
    if k < j {
        lemma_glob_skip_stars(src, k + 1, j, p);
        assert(src[k] == WILDCARD);
    }
}

proof fn lemma_glob_to_lang(nodes: Seq<TokenSetNode>, src: Seq<char>, g: GlobShape, j: int, p: Seq<char>)
    requires
        glob_ok(nodes, src, src.len() as int, g),
        src.len() > 0,
        0 <= j <= src.len(),
        glob_reads(src, j, p),
    ensures
        lang_from(nodes, g.at[j], p, false),
    decreases src.len() - j, p.len(),
{
    if j >= src.len() {
    } else if src[j] == WILDCARD {
        let e = g.eidx[j];
        assert(g.at[j + 1] == g.at[j]);
        if glob_reads(src, j + 1, p) {
            lemma_glob_to_lang(nodes, src, g, j + 1, p);
        } else {
            lemma_glob_to_lang(nodes, src, g, j, p.drop_first());
            assert(takes_edge(nodes, g.at[j], e, p, false));
        }
    } else {
        let e = g.eidx[j];
        lemma_glob_to_lang(nodes, src, g, j + 1, p.drop_first());
        assert(takes_edge(nodes, g.at[j], e, p, false));
    }
}

proof fn lemma_lang_to_glob(nodes: Seq<TokenSetNode>, src: Seq<char>, g: GlobShape, x: int, p: Seq<char>)
    requires
        glob_ok(nodes, src, src.len() as int, g),
        0 <= x < nodes.len(),
        lang_from(nodes, x, p, false),
    ensures
        src.len() > 0,
        glob_reads(src, g.first[x], p),
    decreases p.len(),
{
    let n = src.len() as int;
    if p.len() == 0 {
        assert(nodes[x].last);
        assert(x == g.at[n]);
        assert(glob_reads(src, n, p));
        assert(g.at[g.first[x]] == x);
        assert forall|m: int| g.first[x] <= m < n implies #[trigger] src[m] == WILDCARD by {
            assert(g.first[g.at[n]] <= m < n);
        }
        lemma_glob_skip_stars(src, g.first[x], n, p);
    } else {
        let e = lemma_edge_witness(nodes, x, p, false);
        let j = g.origin[x][e];
        assert(g.at[j] == x);
        assert(nodes[x].edges@[e].label == src[j]);
        let y = g.at[j + 1];
        let ej = g.eidx[j];
        assert(nodes[x].edges@[e].target == y);
        lemma_lang_to_glob(nodes, src, g, y, p.drop_first());
        assert forall|m: int| g.first[x] <= m < j implies #[trigger] src[m] == WILDCARD by {
            assert(g.first[g.at[j]] <= m < j);
        }
        assert(g.first[x] <= j) by {
            // the edge's position lies in the run of its state
            if g.first[x] > j {
                lemma_glob_at_monotone(nodes, src, g, j, g.first[x]);
                if src[j] != WILDCARD {
                    lemma_glob_at_monotone(nodes, src, g, j + 1, g.first[x]);
                } else {
                    // the state's run starts behind one of its own stars
                    lemma_glob_first_least(nodes, src, g, j);
                }
            }
        }
        if src[j] == WILDCARD {
            assert(y == x);
            assert(src[g.first[x]] == WILDCARD);
        } else {
            assert(g.first[y] == j + 1);
            assert(glob_reads(src, j, p));
            lemma_glob_skip_stars(src, g.first[x], j, p);
        }
    }
}

proof fn lemma_glob_at_monotone(nodes: Seq<TokenSetNode>, src: Seq<char>, g: GlobShape, a: int, b: int)
    requires
        glob_ok(nodes, src, src.len() as int, g),
        0 <= a <= b <= src.len(),
    ensures
        g.at[a] <= g.at[b],
    decreases b - a,
{
    if a < b {
        lemma_glob_at_monotone(nodes, src, g, a, b - 1);
        let e = g.eidx[b - 1];
        assert(g.at[(b - 1) + 1] >= g.at[b - 1]);
    }
}

/// No position before the first position of its state lies in that state.
proof fn lemma_glob_first_least(nodes: Seq<TokenSetNode>, src: Seq<char>, g: GlobShape, j: int)
    requires
        glob_ok(nodes, src, src.len() as int, g),
        0 <= j <= src.len(),
    ensures
        g.first[g.at[j]] <= j,
    decreases j,
{
    if j == 0 {
    } else if src[j - 1] == WILDCARD {
        lemma_glob_first_least(nodes, src, g, j - 1);
        let e = g.eidx[j - 1];
        assert(g.at[(j - 1) + 1] == g.at[j - 1]);
    } else {
        let e = g.eidx[j - 1];
        assert(g.first[g.at[(j - 1) + 1]] == j);
    }
}

/// The number of characters other than `*` among the first `upto` of `src`.
pub open spec fn literal_count(src: Seq<char>, upto: int) -> int
    decreases upto,
{
    if upto <= 0 {
        0
    } else if src[upto - 1] == WILDCARD {
        literal_count(src, upto - 1)
    } else {
        literal_count(src, upto - 1) + 1
    }
}

/// Whether `nodes` is the chain that a glob makes: one state more than
/// the source has characters other than `*`; every `*` edge leads to the
/// state it leaves and every other edge to the next state; and the last
/// state is terminal if the source is not empty, and no other state is.
pub open spec fn glob_chain(nodes: Seq<TokenSetNode>, src: Seq<char>) -> bool {
    &&& nodes.len() == literal_count(src, src.len() as int) + 1
    &&& forall|n: int, i: int|
        0 <= n < nodes.len() && 0 <= i < nodes[n].edges@.len() ==> (#[trigger] nodes[n].edges@[i]).target == if nodes[n].edges@[i].label
            == WILDCARD {
            n
        } else {
            n + 1
        }
    &&& forall|n: int| 0 <= n < nodes.len() ==> (#[trigger] nodes[n]).last == (n == nodes.len() - 1 && src.len() > 0)
}

/// The state before position `j` has as many states before it as there are
/// characters other than `*` before `j`.
proof fn lemma_glob_count(nodes: Seq<TokenSetNode>, src: Seq<char>, g: GlobShape, j: int)
    requires
        glob_ok(nodes, src, src.len() as int, g),
        0 <= j <= src.len(),
    ensures
        g.at[j] == literal_count(src, j),
    decreases j,
{
    if j > 0 {
        lemma_glob_count(nodes, src, g, j - 1);
        let e = g.eidx[j - 1];
        assert(g.at[(j - 1) + 1] == g.at[j - 1] + glob_advance(src, j - 1));
    }
}

/// The automaton of a glob is the chain that the glob makes.
proof fn lemma_glob_chain(nodes: Seq<TokenSetNode>, src: Seq<char>, g: GlobShape)
    requires
        glob_ok(nodes, src, src.len() as int, g),
    ensures
        glob_chain(nodes, src),
{
    lemma_glob_count(nodes, src, g, src.len() as int);
    assert forall|n: int, i: int| 0 <= n < nodes.len() && 0 <= i < nodes[n].edges@.len() implies (
    #[trigger] nodes[n].edges@[i]).target == if nodes[n].edges@[i].label == WILDCARD {
        n
    } else {
        n + 1
    } by {
        let j = g.origin[n][i];
        let e = g.eidx[j];
        assert(g.at[j + 1] == g.at[j] + glob_advance(src, j));
    }
}

impl TokenSet {
    /// The pattern automaton of the term of `clause`.
    pub fn from_clause(clause: &Clause) -> (set: TokenSet)
        ensures
            set.wf(),
            glob_chain(set@, clause.term@),
            forall|p: Seq<char>| set.accepts(p) <==> (clause.term@.len() > 0 && glob_reads(clause.term@, 0, p)),
            !clause.term@.contains(WILDCARD) ==> set.is_acyclic(),
    {
        TokenSet::from_string(clause.term.as_str())
    }

    /// The pattern automaton of a literal or glob string.
    ///
    /// Each character other than `*` adds an edge to a new state; each `*`
    /// puts a `*` edge from the current state to itself. The state reached
    /// at the end of a non-empty source is the only terminal one. As a set
    /// of plain strings the automaton therefore holds `source` with every
    /// `*` repeated any number of times.
    pub fn from_string(source: &str) -> (set: TokenSet)
        ensures
            set.wf(),
            glob_chain(set@, source@),
            forall|p: Seq<char>| set.accepts(p) <==> (source@.len() > 0 && glob_reads(source@, 0, p)),
            !source@.contains(WILDCARD) ==> set.is_acyclic(),
    {
        let chars = chars_of(source);
        let ghost src = source@;
        let n = chars.len();
        let mut nodes: Vec<TokenSetNode> = Vec::new();
        nodes.push(TokenSetNode::new());
        let mut node: usize = 0;
        let ghost mut g = GlobShape {
            at: seq![0int],
            eidx: Seq::<int>::empty(),
            first: seq![0int],
            origin: seq![Seq::<int>::empty()],
        };
        let mut i: usize = 0;
        while i < n
            invariant
                chars@ == src,
                n == src.len(),
                i <= n,
                nodes_wf(nodes@),
                glob_ok(nodes@, src, i as int, g),
                node == nodes@.len() - 1,
                forall|e: int| 0 <= e < nodes@[node as int].edges@.len() ==> (#[trigger] nodes@[node as int].edges@[e]).label == WILDCARD,
                forall|x: int, e: int|
                    0 <= x < nodes@.len() && 0 <= e < nodes@[x].edges@.len() ==> (#[trigger] nodes@[x].edges@[e]).target == x + 1 || (nodes@[x].edges@[e].label == WILDCARD && exists|j: int| 0 <= j < i && src[j] == WILDCARD),
            decreases n - i,
        {
            let c = char_at(&chars, i);
            let last = i == n - 1;
            let ghost o = nodes@;
            let ghost g0 = g;
            if c == WILDCARD {
                match nodes[node].find_edge(c) {
                    Some(e) => {
                        proof {
                            let j0 = g0.origin[node as int][e as int];
                            let e0 = g0.eidx[j0];
                            assert(src[j0] == WILDCARD);
                            assert(g0.at[j0 + 1] == g0.at[j0]);
                            g = GlobShape { at: g0.at.push(node as int), eidx: g0.eidx.push(e as int), ..g0 };
                        }
                    },
                    None => {
                        push_edge(&mut nodes, node, Edge { label: c, target: node });
                        proof {
                            g = GlobShape {
                                at: g0.at.push(node as int),
                                eidx: g0.eidx.push(o[node as int].edges@.len() as int),
                                first: g0.first,
                                origin: g0.origin.update(node as int, g0.origin[node as int].push(i as int)),
                            };
                        }
                    },
                }
                set_last(&mut nodes, node, last);
                proof {
                    let o2 = nodes@;
                    assert(src[i as int] == WILDCARD);
                    assert forall|x: int| 0 <= x < o.len() && x != node implies #[trigger] o2[x] == o[x] by {}
                    assert forall|x: int, e: int| 0 <= x < o2.len() && 0 <= e < o[x].edges@.len() implies (#[trigger] o2[x].edges@[e]) == o[x].edges@[e] by {}
                    assert forall|j: int| 0 <= j <= i implies #[trigger] g.at[j] == g0.at[j] by {}
                    assert forall|j: int| 0 <= j < i implies #[trigger] g.eidx[j] == g0.eidx[j] by {}
                    assert forall|j: int, k: int| 0 <= j <= i + 1 && g.first[#[trigger] g.at[j]] <= k < j implies #[trigger] src[k] == WILDCARD by {
                        if j <= i {
                            assert(g0.first[g0.at[j]] <= k < j);
                        } else if k < i {
                            assert(g0.first[g0.at[i as int]] <= k < i);
                        }
                    }
                    assert forall|x: int, e: int|
                        0 <= x < o2.len() && 0 <= e < o2[x].edges@.len() implies 0 <= #[trigger] g.origin[x][e] < i + 1
                        && g.at[g.origin[x][e]] == x && o2[x].edges@[e].label == src[g.origin[x][e]]
                        && o2[x].edges@[e].target == g.at[g.origin[x][e] + 1] by {
                        if e < o[x].edges@.len() {
                            assert(g.origin[x][e] == g0.origin[x][e]);
                            assert(g0.at[g0.origin[x][e]] == g.at[g0.origin[x][e]]);
                            assert(g0.at[g0.origin[x][e] + 1] == g.at[g0.origin[x][e] + 1]);
                        }
                    }
                    assert forall|j: int| 0 <= j < i + 1 implies {
                        &&& 0 <= #[trigger] g.eidx[j] < o2[g.at[j]].edges@.len()
                        &&& o2[g.at[j]].edges@[g.eidx[j]].label == src[j]
                        &&& o2[g.at[j]].edges@[g.eidx[j]].target == g.at[j + 1]
                        &&& g.at[j + 1] == g.at[j] + glob_advance(src, j)
                        &&& src[j] != WILDCARD ==> g.first[g.at[j + 1]] == j + 1
                    } by {
                        if j < i {
                            assert(g0.eidx[j] == g.eidx[j]);
                            assert(g0.at[j + 1] == g.at[j + 1]);
                            assert(g0.at[j] == g.at[j]);
                            assert(o2[g0.at[j]].edges@[g0.eidx[j]] == o[g0.at[j]].edges@[g0.eidx[j]]);
                        }
                    }
                    assert forall|x: int| 0 <= x < o2.len() implies 0 <= #[trigger] g.first[x] <= i + 1 && g.at[g.first[x]] == x by {
                        assert(g0.at[g0.first[x]] == x);
                    }
                    assert(glob_ok(o2, src, i + 1, g));
                    assert forall|x: int, a: int, b: int|
                        0 <= x < o2.len() && 0 <= a < b < o2[x].edges@.len() implies (#[trigger] o2[x].edges@[a]).label
                        != (#[trigger] o2[x].edges@[b]).label by {
                        assert(o2[x].edges@[a] == o[x].edges@[a]);
                        if b < o[x].edges@.len() {
                            assert(o2[x].edges@[b] == o[x].edges@[b]);
                        }
                    }
                    assert(nodes_wf(o2));
                    assert forall|x: int, e: int|
                        0 <= x < o2.len() && 0 <= e < o2[x].edges@.len() implies (#[trigger] o2[x].edges@[e]).target == x + 1 || (o2[x].edges@[e].label == WILDCARD && exists|j: int| 0 <= j < i + 1 && src[j] == WILDCARD) by {
                        if e < o[x].edges@.len() {
                            assert(o2[x].edges@[e] == o[x].edges@[e]);
                        }
                    }
                }
            } else {
                let next = nodes.len();
                nodes.push(TokenSetNode { last, edges: Vec::new() });
                let ghost o1 = nodes@;
                push_edge(&mut nodes, node, Edge { label: c, target: next });
                proof {
                    let o2 = nodes@;
                    assert(o1[node as int] == o[node as int]);
                    assert(o2[node as int].edges@ == o[node as int].edges@.push(Edge { label: c, target: next }));
                    assert(o2[next as int] == o1[next as int]);
                    assert(g0.origin[node as int].len() == o[node as int].edges@.len());
                    assert(o2.len() == o.len() + 1);
                    assert forall|x: int| 0 <= x < o.len() && x != node implies #[trigger] o2[x] == o[x] by {
                        assert(o2[x] == o1[x]);
                    }
                    assert forall|e: int| 0 <= e < o[node as int].edges@.len() implies #[trigger] o2[node as int].edges@[e] == o[node as int].edges@[e] by {}
                    assert forall|x: int, e: int| 0 <= x < o.len() && 0 <= e < o[x].edges@.len() implies #[trigger] o2[x].edges@[e] == o[x].edges@[e] by {
                        if x != node {
                            assert(o2[x] == o[x]);
                        }
                    }
                    g = GlobShape {
                        at: g0.at.push(next as int),
                        eidx: g0.eidx.push(o[node as int].edges@.len() as int),
                        first: g0.first.push(i + 1),
                        origin: g0.origin.update(node as int, g0.origin[node as int].push(i as int)).push(
                            Seq::<int>::empty(),
                        ),
                    };
                    assert forall|j: int| 0 <= j <= i implies #[trigger] g.at[j] == g0.at[j] by {}
                    assert forall|j: int| 0 <= j < i implies #[trigger] g.eidx[j] == g0.eidx[j] by {}
                    assert forall|j: int, k: int| 0 <= j <= i + 1 && g.first[#[trigger] g.at[j]] <= k < j implies #[trigger] src[k] == WILDCARD by {
                        if j <= i {
                            assert(g.first[g.at[j]] == g0.first[g0.at[j]]);
                            assert(g0.first[g0.at[j]] <= k < j);
                        }
                    }
                    assert forall|x: int| 0 <= x < o2.len() implies (#[trigger] g.origin[x]).len() == o2[x].edges@.len() by {
                        if x < o.len() {
                            assert(g0.origin[x].len() == o[x].edges@.len());
                            if x != node {
                                assert(o2[x] == o[x]);
                            }
                        }
                    }
                    assert forall|x: int, e: int|
                        0 <= x < o2.len() && 0 <= e < o2[x].edges@.len() implies 0 <= #[trigger] g.origin[x][e] < i + 1
                        && g.at[g.origin[x][e]] == x && o2[x].edges@[e].label == src[g.origin[x][e]]
                        && o2[x].edges@[e].target == g.at[g.origin[x][e] + 1] by {
                        if x < o.len() && e < o[x].edges@.len() {
                            assert(g.origin[x][e] == g0.origin[x][e]);
                            assert(g0.at[g0.origin[x][e]] == g.at[g0.origin[x][e]]);
                            assert(g0.at[g0.origin[x][e] + 1] == g.at[g0.origin[x][e] + 1]);
                        }
                    }
                    assert forall|j: int| 0 <= j < i + 1 implies {
                        &&& 0 <= #[trigger] g.eidx[j] < o2[g.at[j]].edges@.len()
                        &&& o2[g.at[j]].edges@[g.eidx[j]].label == src[j]
                        &&& o2[g.at[j]].edges@[g.eidx[j]].target == g.at[j + 1]
                        &&& g.at[j + 1] == g.at[j] + glob_advance(src, j)
                        &&& src[j] != WILDCARD ==> g.first[g.at[j + 1]] == j + 1
                    } by {
                        if j < i {
                            assert(g0.eidx[j] == g.eidx[j]);
                            assert(g0.at[j + 1] == g.at[j + 1]);
                            assert(g0.at[j] == g.at[j]);
                            assert(o2[g0.at[j]].edges@[g0.eidx[j]] == o[g0.at[j]].edges@[g0.eidx[j]]);
                        }
                    }
                    assert forall|x: int| 0 <= x < o2.len() implies 0 <= #[trigger] g.first[x] <= i + 1 && g.at[g.first[x]] == x by {
                        if x < o.len() {
                            assert(g0.at[g0.first[x]] == x);
                        }
                    }
                    assert forall|x: int| 0 <= x < o2.len() implies (#[trigger] g.origin[x]).len() == o2[x].edges@.len() by {
                        if x < o.len() {
                            assert(g0.origin[x].len() == o[x].edges@.len());
                        }
                    }
                    assert(glob_ok(o2, src, i + 1, g));
                    assert forall|x: int, a: int, b: int|
                        0 <= x < o2.len() && 0 <= a < b < o2[x].edges@.len() implies (#[trigger] o2[x].edges@[a]).label
                        != (#[trigger] o2[x].edges@[b]).label by {
                        assert(o2[x].edges@[a] == o[x].edges@[a]);
                        if b < o[x].edges@.len() {
                            assert(o2[x].edges@[b] == o[x].edges@[b]);
                        }
                    }
                    assert forall|x: int, e: int| 0 <= x < o2.len() && 0 <= e < o2[x].edges@.len() implies (#[trigger] o2[x].edges@[e]).target < o2.len() by {
                        if x < o.len() && e < o[x].edges@.len() {
                            assert(o2[x].edges@[e] == o[x].edges@[e]);
                        }
                    }
                    assert(nodes_wf(o2));
                    assert forall|x: int, e: int|
                        0 <= x < o2.len() && 0 <= e < o2[x].edges@.len() implies (#[trigger] o2[x].edges@[e]).target == x + 1 || (o2[x].edges@[e].label == WILDCARD && exists|j: int| 0 <= j < i + 1 && src[j] == WILDCARD) by {
                        if x < o.len() && e < o[x].edges@.len() {
                            assert(o2[x].edges@[e] == o[x].edges@[e]);
                        }
                    }
                }
                node = next;
            }
            i += 1;
        }
        let ghost o = nodes@;
        let set = TokenSet::from_nodes(nodes);
        proof {
            lemma_glob_chain(o, src, g);
            assert forall|p: Seq<char>| set.accepts(p) <==> (src.len() > 0 && glob_reads(src, 0, p)) by {
                if set.accepts(p) {
                    lemma_lang_to_glob(o, src, g, 0, p);
                }
                if src.len() > 0 && glob_reads(src, 0, p) {
                    lemma_glob_to_lang(o, src, g, 0, p);
                }
            }
            if !src.contains(WILDCARD) {
                let rank = Seq::<nat>::new(o.len(), |x: int| (o.len() - x) as nat);
                assert forall|x: int, e: int|
                    0 <= x < o.len() && 0 <= e < o[x].edges@.len() && (#[trigger] o[x].edges@[e]).target
                        < o.len() implies rank[o[x].edges@[e].target as int] < rank[x] by {
                    if o[x].edges@[e].target != x + 1 {
                        let j = choose|j: int| 0 <= j < i && src[j] == WILDCARD;
                        assert(src.contains(WILDCARD));
                    }
                }
                assert(ranked(o, rank));
            }
        }
        set
    }
}

} // verus!


