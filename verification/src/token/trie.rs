//! Automata that grow as trees: every state is reached by one string only.
//!
//! Both the intersection of two automata and the edit-distance automaton are
//! built this way, one child at a time.

use vstd::prelude::*;
use crate::token::{
    Edge, TokenSetNode, lang_from, lemma_edge_witness, nodes_wf, push_edge, ranked, set_last, takes_edge,
};

verus! {

/// What is known of a tree while it grows: the string that leads to each of
/// its states, and the edge through which each state but the root is reached.
pub struct Shape {
    pub path: Seq<Seq<char>>,
    pub par: Seq<int>,
    pub pidx: Seq<int>,
}

/// The shape of the tree that has a root and nothing else.
pub open spec fn root_shape() -> Shape {
    Shape { path: seq![Seq::<char>::empty()], par: seq![0int], pidx: seq![0int] }
}

/// The arena is a tree in which every state is reached by its own string.
pub open spec fn trie_ok(o: Seq<TokenSetNode>, s: Shape) -> bool {
    &&& nodes_wf(o)
    &&& s.path.len() == o.len()
    &&& s.par.len() == o.len()
    &&& s.pidx.len() == o.len()
    &&& s.path[0] == Seq::<char>::empty()
    &&& forall|n: int, i: int|
        0 <= n < o.len() && 0 <= i < o[n].edges@.len() ==> (#[trigger] o[n].edges@[i]).target > n && s.path[o[n].edges@[i].target as int]
            == s.path[n].push(o[n].edges@[i].label)
    &&& forall|t: int|
        0 < t < o.len() ==> 0 <= (#[trigger] s.par[t]) < t && 0 <= s.pidx[t] < o[s.par[t]].edges@.len()
            && o[s.par[t]].edges@[s.pidx[t]].target == t
}

/// The tree `o2` holds the tree `o`: states keep their strings, and terminal
/// flags are only ever raised.
pub open spec fn grows(o: Seq<TokenSetNode>, s: Shape, o2: Seq<TokenSetNode>, s2: Shape) -> bool {
    &&& o.len() <= o2.len()
    &&& s.path.len() == o.len()
    &&& s2.path.len() == o2.len()
    &&& forall|n: int| 0 <= n < o.len() ==> #[trigger] s2.path[n] == s.path[n]
    &&& forall|n: int| 0 <= n < o.len() && (#[trigger] o[n]).last ==> o2[n].last
}

/// Some terminal state of the tree is reached by `w`.
pub open spec fn emitted(o: Seq<TokenSetNode>, s: Shape, w: Seq<char>) -> bool {
    exists|n: int| 0 <= n < o.len() && n < s.path.len() && #[trigger] s.path[n] == w && o[n].last
}

/// Every terminal state of the tree is reached by a string that `good` holds of.
pub open spec fn flags_in(o: Seq<TokenSetNode>, s: Shape, good: spec_fn(Seq<char>) -> bool) -> bool {
    forall|n: int| 0 <= n < o.len() && (#[trigger] o[n]).last ==> good(s.path[n])
}

/// Every string read from a state of the tree is emitted behind that state's own string.
pub proof fn lemma_trie_forward(o: Seq<TokenSetNode>, s: Shape, n: int, r: Seq<char>)
    requires
        trie_ok(o, s),
        0 <= n < o.len(),
        lang_from(o, n, r, false),
    ensures
        emitted(o, s, s.path[n] + r),
    decreases r.len(),
{
    if r.len() == 0 {
        assert(s.path[n] + r =~= s.path[n]);
    } else {
        let i = lemma_edge_witness(o, n, r, false);
        let t = o[n].edges@[i].target as int;
        lemma_trie_forward(o, s, t, r.drop_first());
        assert(s.path[t] + r.drop_first() =~= s.path[n] + r);
    }
}

/// Every string read from a state of the tree is read from the root behind that state's own string.
pub proof fn lemma_trie_backward(o: Seq<TokenSetNode>, s: Shape, n: int, r: Seq<char>)
    requires
        trie_ok(o, s),
        0 <= n < o.len(),
        lang_from(o, n, r, false),
    ensures
        lang_from(o, 0, s.path[n] + r, false),
    decreases n,
{
    if n == 0 {
        assert(s.path[0] + r =~= r);
    } else {
        let pa = s.par[n];
        let e = o[pa].edges@[s.pidx[n]];
        let r2 = seq![e.label] + r;
        assert(r2.drop_first() =~= r);
        assert(takes_edge(o, pa, s.pidx[n], r2, false));
        lemma_trie_backward(o, s, pa, r2);
        assert(s.path[pa] + r2 =~= s.path[n] + r);
    }
}

/// A tree accepts exactly the strings that reach its terminal states, and it
/// has no cycle.
pub proof fn lemma_trie_language(o: Seq<TokenSetNode>, s: Shape)
    requires
        trie_ok(o, s),
    ensures
        forall|w: Seq<char>| lang_from(o, 0, w, false) <==> emitted(o, s, w),
        exists|rank: Seq<nat>| ranked(o, rank),
{
    assert forall|w: Seq<char>| lang_from(o, 0, w, false) <==> emitted(o, s, w) by {
        if lang_from(o, 0, w, false) {
            lemma_trie_forward(o, s, 0, w);
            assert(s.path[0] + w =~= w);
        }
        if emitted(o, s, w) {
            let n = choose|n: int| 0 <= n < o.len() && n < s.path.len() && #[trigger] s.path[n] == w && o[n].last;
            lemma_trie_backward(o, s, n, Seq::<char>::empty());
            assert(s.path[n] + Seq::<char>::empty() =~= w);
        }
    }
    let rank = Seq::<nat>::new(o.len(), |n: int| (o.len() - n) as nat);
    assert(ranked(o, rank));
}

pub proof fn lemma_grows_emitted(o: Seq<TokenSetNode>, s: Shape, o2: Seq<TokenSetNode>, s2: Shape, w: Seq<char>)
    requires
        grows(o, s, o2, s2),
        emitted(o, s, w),
    ensures
        emitted(o2, s2, w),
{
    let n = choose|n: int| 0 <= n < o.len() && n < s.path.len() && #[trigger] s.path[n] == w && o[n].last;
    assert(s2.path[n] == w);
    assert(o[n].last);
}

/// The state that `label` leads to from `parent`, made if it is not there
/// yet. Its terminal flag is raised if `last` is set.
pub fn trie_child(
    out: &mut Vec<TokenSetNode>,
    parent: usize,
    label: char,
    last: bool,
    Ghost(s): Ghost<Shape>,
    Ghost(good): Ghost<spec_fn(Seq<char>) -> bool>,
) -> (res: (usize, Ghost<Shape>))
    requires
        trie_ok(old(out)@, s),
        flags_in(old(out)@, s, good),
        parent < old(out)@.len(),
        last ==> good(s.path[parent as int].push(label)),
    ensures
        trie_ok(final(out)@, res.1@),
        flags_in(final(out)@, res.1@, good),
        grows(old(out)@, s, final(out)@, res.1@),
        res.0 < final(out)@.len(),
        res.0 > parent,
        final(out)@.len() == old(out)@.len() || (final(out)@.len() == old(out)@.len() + 1 && res.0 == old(out)@.len()),
        res.1@.path[res.0 as int] == s.path[parent as int].push(label),
        final(out)@[res.0 as int].last == ((res.0 < old(out)@.len() && old(out)@[res.0 as int].last) || last),
        forall|n: int| 0 <= n < old(out)@.len() && n != res.0 ==> (#[trigger] final(out)@[n]).last == old(out)@[n].last,
{
    let ghost o = out@;
    match out[parent].find_edge(label) {
        Some(e) => {
            let t = out[parent].edges[e].target;
            assert(o[parent as int].edges@[e as int].target > parent);
            if last {
                set_last(out, t, true);
            }
            proof {
                let o2 = out@;
                assert forall|n: int| 0 <= n < o2.len() implies (#[trigger] o2[n]).edges@ == o[n].edges@ by {}
                assert(trie_ok(o2, s));
                assert forall|n: int| 0 <= n < o2.len() && (#[trigger] o2[n]).last implies good(s.path[n]) by {
                    if n != t {
                        assert(o[n].last);
                    }
                }
            }
            (t, Ghost(s))
        },
        None => {
            let t = out.len();
            out.push(TokenSetNode { last, edges: Vec::new() });
            let ghost o1 = out@;
            push_edge(out, parent, Edge { label, target: t });
            let ghost s2 = Shape {
                path: s.path.push(s.path[parent as int].push(label)),
                par: s.par.push(parent as int),
                pidx: s.pidx.push(o[parent as int].edges@.len() as int),
            };
            proof {
                let o2 = out@;
                assert(o2.len() == o.len() + 1);
                assert forall|n: int| 0 <= n < o.len() && n != parent implies (#[trigger] o2[n]) == o[n] by {
                    assert(o2[n] == o1[n]);
                }
                assert(o2[t as int].edges@.len() == 0);
                assert(o2[parent as int].edges@ == o[parent as int].edges@.push(Edge { label, target: t }));
                assert forall|n: int, i: int| 0 <= n < o2.len() && 0 <= i < o2[n].edges@.len() implies (
                #[trigger] o2[n].edges@[i]).target < o2.len() && o2[n].edges@[i].target > n && s2.path[o2[n].edges@[i].target as int]
                    == s2.path[n].push(o2[n].edges@[i].label) by {
                    if n == parent && i == o[parent as int].edges@.len() {
                    } else {
                        assert(o2[n].edges@[i] == o[n].edges@[i]);
                    }
                }
                assert forall|n: int, i: int, j: int|
                    0 <= n < o2.len() && 0 <= i < j < o2[n].edges@.len() implies (#[trigger] o2[n].edges@[i]).label
                    != (#[trigger] o2[n].edges@[j]).label by {
                    if n == parent {
                        assert(o2[n].edges@[i] == o[n].edges@[i]);
                        if j < o[n].edges@.len() {
                            assert(o2[n].edges@[j] == o[n].edges@[j]);
                        }
                    } else {
                        assert(o2[n].edges@[i] == o[n].edges@[i]);
                        assert(o2[n].edges@[j] == o[n].edges@[j]);
                    }
                }
                assert forall|x: int| 0 < x < o2.len() implies 0 <= (#[trigger] s2.par[x]) < x && 0 <= s2.pidx[x]
                    < o2[s2.par[x]].edges@.len() && o2[s2.par[x]].edges@[s2.pidx[x]].target == x by {
                    if x < o.len() {
                        assert(s2.par[x] == s.par[x]);
                        assert(o2[s.par[x]].edges@[s.pidx[x]] == o[s.par[x]].edges@[s.pidx[x]]);
                    }
                }
                assert(trie_ok(o2, s2));
                assert forall|n: int| 0 <= n < o.len() && n != t implies (#[trigger] o2[n]).last == o[n].last by {
                    if n != parent {
                        assert(o2[n] == o[n]);
                    }
                }
                assert forall|n: int| 0 <= n < o2.len() && (#[trigger] o2[n]).last implies good(s2.path[n]) by {
                    if n < o.len() {
                        assert(o[n].last);
                    }
                }
            }
            (t, Ghost(s2))
        },
    }
}

/// Raises the terminal flag of state `n`.
pub fn trie_mark(
    out: &mut Vec<TokenSetNode>,
    n: usize,
    Ghost(s): Ghost<Shape>,
    Ghost(good): Ghost<spec_fn(Seq<char>) -> bool>,
)
    requires
        trie_ok(old(out)@, s),
        flags_in(old(out)@, s, good),
        n < old(out)@.len(),
        good(s.path[n as int]),
    ensures
        trie_ok(final(out)@, s),
        flags_in(final(out)@, s, good),
        grows(old(out)@, s, final(out)@, s),
        final(out)@.len() == old(out)@.len(),
        final(out)@[n as int].last,
        forall|m: int| 0 <= m < old(out)@.len() && m != n ==> (#[trigger] final(out)@[m]).last == old(out)@[m].last,
{
    let ghost o = out@;
    set_last(out, n, true);
    proof {
        let o2 = out@;
        assert forall|m: int| 0 <= m < o2.len() implies (#[trigger] o2[m]).edges@ == o[m].edges@ by {}
        assert(trie_ok(o2, s));
        assert forall|m: int| 0 <= m < o2.len() && (#[trigger] o2[m]).last implies good(s.path[m]) by {
            if m != n {
                assert(o[m].last);
            }
        }
    }
}

} // verus!
