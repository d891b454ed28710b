//! Building the minimized automaton of a sorted vocabulary.
//!
//! Words are added in ascending order. The states of the word added last
//! form a chain from the root; all other states are settled and never change
//! again. When the next word leaves the chain, the states of the chain that
//! it does not share are settled from the far end: each is replaced by a
//! settled state with the same flag and the same edges if there is one in
//! the register, and entered into the register otherwise.

use vstd::hash_map::StringHashMap;
use vstd::prelude::*;
use crate::text::{char_at, chars_of, copy_chars};
use crate::token::walk::listed;
use crate::token::{
    Edge, TokenSet, TokenSetNode, lang_from, lemma_edge_witness, nodes_wf, push_edge, ranked, set_last, takes_edge,
};

verus! {

/// `a` is `b` or comes before it among the characters.
pub open spec fn char_le(a: char, b: char) -> bool {
    (a as u32) <= (b as u32)
}

/// `a` comes before `b` among the characters.
pub open spec fn char_lt(a: char, b: char) -> bool {
    (a as u32) < (b as u32)
}

/// `a` comes before `b` in the dictionary, or is `b`: `a` starts `b`, or
/// at the first place where they differ `a` has the smaller character.
pub open spec fn lex_le(a: Seq<char>, b: Seq<char>) -> bool {
    exists|k: int| #[trigger] differ_at(a, b, k) && (k == a.len() || (k < b.len() && char_lt(a[k], b[k])))
}

/// `a` and `b` agree on their first `k` characters.
pub open spec fn differ_at(a: Seq<char>, b: Seq<char>, k: int) -> bool {
    0 <= k <= a.len() && k <= b.len() && a.subrange(0, k) == b.subrange(0, k)
}

/// Whether two states have the same flag and the same edges.
pub open spec fn same_shape(a: TokenSetNode, b: TokenSetNode) -> bool {
    a.last == b.last && a.edges@ == b.edges@
}

/// No two different states that edges lead to have the same flag and the
/// same edges: the automaton holds no part twice.
pub open spec fn nodes_minimized(nodes: Seq<TokenSetNode>) -> bool {
    forall|x: int, e: int, y: int, f: int|
        0 <= x < nodes.len() && 0 <= e < nodes[x].edges@.len() && 0 <= y < nodes.len() && 0 <= f
            < nodes[y].edges@.len() && (#[trigger] nodes[x].edges@[e]).target != (
        #[trigger] nodes[y].edges@[f]).target && nodes[x].edges@[e].target < nodes.len() && nodes[y].edges@[f].target
            < nodes.len() ==> !same_shape(
            nodes[nodes[x].edges@[e].target as int],
            nodes[nodes[y].edges@[f].target as int],
        )
}

/// Whether `r` leads from state `x` to state `t`.
pub open spec fn leads(nodes: Seq<TokenSetNode>, x: int, r: Seq<char>, t: int) -> bool
    decreases r.len(),
{
    if !(0 <= x < nodes.len()) {
        false
    } else if r.len() == 0 {
        x == t
    } else {
        exists|i: int|
            0 <= i < nodes[x].edges@.len() && (#[trigger] nodes[x].edges@[i]).label == r[0] && leads(
                nodes,
                nodes[x].edges@[i].target as int,
                r.drop_first(),
                t,
            )
    }
}

/// Two arenas of one size read the same strings from every state, if they
/// agree on flags and labels and the targets of each pair of edges read the
/// same strings in the first arena.
proof fn lemma_same_language(a: Seq<TokenSetNode>, b: Seq<TokenSetNode>, x: int, r: Seq<char>)
    requires
        a.len() == b.len(),
        forall|y: int| 0 <= y < a.len() ==> (#[trigger] a[y]).last == b[y].last && a[y].edges@.len() == b[y].edges@.len(),
        forall|y: int, e: int|
            0 <= y < a.len() && 0 <= e < a[y].edges@.len() ==> (#[trigger] a[y].edges@[e]).label == b[y].edges@[e].label
                && (forall|s: Seq<char>|
                lang_from(a, a[y].edges@[e].target as int, s, false) == #[trigger] lang_from(
                    a,
                    b[y].edges@[e].target as int,
                    s,
                    false,
                )),
    ensures
        lang_from(a, x, r, false) == lang_from(b, x, r, false),
    decreases r.len(),
{
    if 0 <= x < a.len() && r.len() > 0 {
        if lang_from(a, x, r, false) {
            let e = lemma_edge_witness(a, x, r, false);
            assert(a[x].edges@[e].label == b[x].edges@[e].label);
            lemma_same_language(a, b, b[x].edges@[e].target as int, r.drop_first());
            assert(lang_from(a, b[x].edges@[e].target as int, r.drop_first(), false));
            assert(takes_edge(b, x, e, r, false));
        }
        if lang_from(b, x, r, false) {
            let e = lemma_edge_witness(b, x, r, false);
            assert(a[x].edges@[e].label == b[x].edges@[e].label);
            lemma_same_language(a, b, b[x].edges@[e].target as int, r.drop_first());
            assert(lang_from(a, b[x].edges@[e].target as int, r.drop_first(), false));
            assert(lang_from(a, a[x].edges@[e].target as int, r.drop_first(), false));
            assert(takes_edge(a, x, e, r, false));
        }
    }
}

/// Two states with the same flag and the same edges read the same strings.
proof fn lemma_same_shape_language(a: Seq<TokenSetNode>, x: int, y: int, r: Seq<char>)
    requires
        0 <= x < a.len(),
        0 <= y < a.len(),
        same_shape(a[x], a[y]),
    ensures
        lang_from(a, x, r, false) == lang_from(a, y, r, false),
{
    if r.len() > 0 {
        if lang_from(a, x, r, false) {
            let e = lemma_edge_witness(a, x, r, false);
            assert(takes_edge(a, y, e, r, false));
        }
        if lang_from(a, y, r, false) {
            let e = lemma_edge_witness(a, y, r, false);
            assert(takes_edge(a, x, e, r, false));
        }
    }
}

/// A new state without edges and flag, and an edge to it from `tip`, change
/// nothing in what the old states read; the new state reads nothing.
proof fn lemma_dead_edge(a: Seq<TokenSetNode>, b: Seq<TokenSetNode>, tip: int, x: int, r: Seq<char>)
    requires
        nodes_wf(a),
        b.len() == a.len() + 1,
        0 <= tip < a.len(),
        !b[a.len() as int].last,
        b[a.len() as int].edges@.len() == 0,
        forall|y: int| 0 <= y < a.len() && y != tip ==> #[trigger] b[y] == a[y],
        b[tip].last == a[tip].last,
        b[tip].edges@.len() == a[tip].edges@.len() + 1,
        forall|e: int| 0 <= e < a[tip].edges@.len() ==> #[trigger] b[tip].edges@[e] == a[tip].edges@[e],
        b[tip].edges@[a[tip].edges@.len() as int].target == a.len(),
        0 <= x < b.len(),
    ensures
        lang_from(b, x, r, false) == (x < a.len() && lang_from(a, x, r, false)),
    decreases r.len(),
{
    if x < a.len() && r.len() > 0 {
        if lang_from(a, x, r, false) {
            let e = lemma_edge_witness(a, x, r, false);
            let t = a[x].edges@[e].target as int;
            lemma_dead_edge(a, b, tip, t, r.drop_first());
            if x == tip {
                assert(b[x].edges@[e] == a[x].edges@[e]);
            }
            assert(takes_edge(b, x, e, r, false));
        }
        if lang_from(b, x, r, false) {
            let e = lemma_edge_witness(b, x, r, false);
            let t = b[x].edges@[e].target as int;
            if x == tip && e == a[tip].edges@.len() {
                lemma_dead_edge(a, b, tip, t, r.drop_first());
            } else {
                if x == tip {
                    assert(b[x].edges@[e] == a[x].edges@[e]);
                }
                assert(a[x].edges@[e].target < a.len());
                lemma_dead_edge(a, b, tip, t, r.drop_first());
                assert(takes_edge(a, x, e, r, false));
            }
        }
    }
}

/// Raising the flag of state `t` adds the strings that lead to `t`, and no others.
proof fn lemma_mark(a: Seq<TokenSetNode>, b: Seq<TokenSetNode>, t: int, x: int, r: Seq<char>)
    requires
        b.len() == a.len(),
        0 <= t < a.len(),
        b[t].last,
        b[t].edges@ == a[t].edges@,
        forall|y: int| 0 <= y < a.len() && y != t ==> #[trigger] b[y] == a[y],
    ensures
        lang_from(b, x, r, false) == (lang_from(a, x, r, false) || leads(a, x, r, t)),
    decreases r.len(),
{
    if 0 <= x < a.len() && r.len() > 0 {
        if lang_from(b, x, r, false) {
            let e = lemma_edge_witness(b, x, r, false);
            assert(b[x].edges@[e] == a[x].edges@[e]);
            lemma_mark(a, b, t, a[x].edges@[e].target as int, r.drop_first());
            if lang_from(a, a[x].edges@[e].target as int, r.drop_first(), false) {
                assert(takes_edge(a, x, e, r, false));
            }
        }
        if lang_from(a, x, r, false) {
            let e = lemma_edge_witness(a, x, r, false);
            assert(b[x].edges@[e] == a[x].edges@[e]);
            lemma_mark(a, b, t, a[x].edges@[e].target as int, r.drop_first());
            assert(takes_edge(b, x, e, r, false));
        }
        if leads(a, x, r, t) {
            let e = choose|i: int|
                0 <= i < a[x].edges@.len() && (#[trigger] a[x].edges@[i]).label == r[0] && leads(
                    a,
                    a[x].edges@[i].target as int,
                    r.drop_first(),
                    t,
                );
            assert(b[x].edges@[e] == a[x].edges@[e]);
            lemma_mark(a, b, t, a[x].edges@[e].target as int, r.drop_first());
            assert(takes_edge(b, x, e, r, false));
        }
    }
}

/// A state of the chain that is not settled yet, with the edge that leads to it.
#[derive(Debug, Clone, Copy)]
struct UncheckedNodes {
    pub parent: usize,
    pub c: char,
    pub child: usize,
}

/// What the builder knows of its states beyond the arena: the depth of each
/// state of the chain (`-1` for a settled state), the time at which each
/// settled state was settled, and whether it is in the register.
struct Ledger {
    pub depth: Seq<int>,
    pub settled_at: Seq<nat>,
    pub clock: nat,
    pub registered: Seq<bool>,
}

/// The chain spells the start of the word added last. Its states lie at
/// the depths 1, 2 and so on below the root, each hanging by the last edge
/// of the state one step above; no other state has a depth, and no two
/// states have the same.
#[verifier::opaque]
spec fn chain_ok(nodes: Seq<TokenSetNode>, prev: Seq<char>, chain: Seq<UncheckedNodes>, depth: Seq<int>) -> bool {
    &&& chain.len() <= prev.len()
    &&& depth.len() == nodes.len()
    &&& nodes.len() >= 1
    &&& depth[0] == 0
    &&& forall|i: int|
        0 <= i < chain.len() ==> {
            let u = #[trigger] chain[i];
            &&& u.c == prev[i]
            &&& 0 <= u.parent < nodes.len()
            &&& 0 < u.child < nodes.len()
            &&& depth[u.parent as int] == i
            &&& depth[u.child as int] == i + 1
            &&& nodes[u.parent as int].edges@.len() > 0
            &&& nodes[u.parent as int].edges@.last() == (Edge { label: u.c, target: u.child })
        }
    &&& forall|x: int| 0 <= x < nodes.len() ==> (#[trigger] depth[x]) <= chain.len()
    &&& forall|x: int, y: int|
        0 <= x < nodes.len() && 0 <= y < nodes.len() && (#[trigger] depth[x]) >= 0 && depth[x] == (
        #[trigger] depth[y]) ==> x == y
}

/// Only the chain leads to a state of the chain: an edge to such a state is
/// the last edge of the state one step before it.
#[verifier::opaque]
spec fn reach_ok(nodes: Seq<TokenSetNode>, chain: Seq<UncheckedNodes>, depth: Seq<int>) -> bool {
    forall|x: int, e: int|
        0 <= x < nodes.len() && 0 <= e < nodes[x].edges@.len() && depth[(#[trigger] nodes[x].edges@[e]).target as int]
            >= 0 ==> 0 <= depth[x] < chain.len() && e == nodes[x].edges@.len() - 1 && depth[nodes[x].edges@[e].target as int]
            == depth[x] + 1
}

/// A settled state was settled after the states it leads to.
#[verifier::opaque]
spec fn settled_ok(nodes: Seq<TokenSetNode>, depth: Seq<int>, settled_at: Seq<nat>, clock: nat) -> bool {
    &&& settled_at.len() == nodes.len()
    &&& forall|x: int| 0 <= x < nodes.len() && (#[trigger] depth[x]) < 0 ==> settled_at[x] < clock
    &&& forall|x: int, e: int|
        0 <= x < nodes.len() && 0 <= e < nodes[x].edges@.len() && depth[x] < 0 ==> settled_at[(
        #[trigger] nodes[x].edges@[e]).target as int] < settled_at[x]
}

/// No state of the chain has an edge with a label beyond the character that
/// the word added last has at its depth.
#[verifier::opaque]
spec fn labels_ok(nodes: Seq<TokenSetNode>, prev: Seq<char>, depth: Seq<int>) -> bool {
    &&& forall|x: int, e: int|
        0 <= x < nodes.len() && 0 <= e < nodes[x].edges@.len() && depth[x] >= 0 ==> char_le(
            (#[trigger] nodes[x].edges@[e]).label,
            prev[depth[x]],
        )
    &&& forall|x: int|
        0 <= x < nodes.len() && (#[trigger] depth[x]) >= 0 && nodes[x].edges@.len() > 0 ==> depth[x] < prev.len()
}

/// The states of the register are settled, no two of them are alike, and
/// every edge that leaves the chain leads to one of them.
#[verifier::opaque]
spec fn register_ok(nodes: Seq<TokenSetNode>, depth: Seq<int>, registered: Seq<bool>) -> bool {
    &&& registered.len() == nodes.len()
    &&& forall|x: int| 0 <= x < nodes.len() && (#[trigger] registered[x]) ==> depth[x] < 0
    &&& forall|x: int, y: int|
        0 <= x < nodes.len() && 0 <= y < nodes.len() && x != y && (#[trigger] registered[x]) && (
        #[trigger] registered[y]) ==> !same_shape(nodes[x], nodes[y])
    &&& forall|x: int, e: int|
        0 <= x < nodes.len() && 0 <= e < nodes[x].edges@.len() ==> depth[(#[trigger] nodes[x].edges@[e]).target as int]
            >= 0 || registered[nodes[x].edges@[e].target as int]
}

/// The register finds its states by their texts: under each text it holds
/// states of the register with that text, and every state of the register
/// is held under its text.
#[verifier::opaque]
spec fn index_ok(nodes: Seq<TokenSetNode>, register: Map<Seq<char>, Vec<usize>>, registered: Seq<bool>) -> bool {
    &&& registered.len() == nodes.len()
    &&& forall|key: Seq<char>, i: int|
        register.dom().contains(key) && 0 <= i < register[key]@.len() ==> (#[trigger] register[key]@[i]) < nodes.len()
            && registered[register[key]@[i] as int] && nodes[register[key]@[i] as int].text() == key
    &&& forall|x: int|
        0 <= x < nodes.len() && (#[trigger] registered[x]) ==> register.dom().contains(nodes[x].text())
            && register[nodes[x].text()]@.contains(x as usize)
}

/// Whether some string leads from state `x` to a terminal state.
pub open spec fn reaches_end(nodes: Seq<TokenSetNode>, x: int) -> bool {
    exists|r: Seq<char>| #[trigger] lang_from(nodes, x, r, false)
}

/// Every state but the root leads on to a terminal state, and no edge
/// leads back to the root: the automaton holds no dead end.
pub open spec fn nodes_trim(nodes: Seq<TokenSetNode>) -> bool {
    &&& forall|x: int| 0 < x < nodes.len() ==> #[trigger] reaches_end(nodes, x)
    &&& forall|x: int, e: int|
        0 <= x < nodes.len() && 0 <= e < nodes[x].edges@.len() ==> (#[trigger] nodes[x].edges@[e]).target != 0
}

/// Every state has its edges in the order of their labels.
pub open spec fn nodes_sorted(nodes: Seq<TokenSetNode>) -> bool {
    forall|x: int, e: int, f: int|
        0 <= x < nodes.len() && 0 <= e < f < nodes[x].edges@.len() ==> char_lt(
            (#[trigger] nodes[x].edges@[e]).label,
            (#[trigger] nodes[x].edges@[f]).label,
        )
}

/// Every settled state leads on to a terminal state.
#[verifier::opaque]
spec fn alive_ok(nodes: Seq<TokenSetNode>, depth: Seq<int>) -> bool {
    forall|x: int| 0 <= x < nodes.len() && (#[trigger] depth[x]) < 0 ==> reaches_end(nodes, x)
}

/// The last state of the chain is terminal or has an edge.
spec fn tip_ok(nodes: Seq<TokenSetNode>, chain: Seq<UncheckedNodes>) -> bool {
    chain.len() > 0 ==> nodes[chain.last().child as int].last || nodes[chain.last().child as int].edges@.len() > 0
}

/// Settled states stay alive in an arena that reads, from every old state,
/// all that the old arena read from it.
proof fn lemma_alive_kept(o: Seq<TokenSetNode>, o2: Seq<TokenSetNode>, depth: Seq<int>, depth2: Seq<int>)
    requires
        alive_ok(o, depth),
        o.len() <= o2.len(),
        forall|x: int, r: Seq<char>| 0 <= x < o.len() && #[trigger] lang_from(o, x, r, false) ==> lang_from(o2, x, r, false),
        forall|x: int| 0 <= x < o2.len() && (#[trigger] depth2[x]) < 0 ==> x < o.len() && (depth[x] < 0 || reaches_end(o2, x)),
    ensures
        alive_ok(o2, depth2),
{
    reveal(alive_ok);
    assert forall|x: int| 0 <= x < o2.len() && (#[trigger] depth2[x]) < 0 implies reaches_end(o2, x) by {
        if depth[x] < 0 {
            assert(reaches_end(o, x));
            let r = choose|r: Seq<char>| #[trigger] lang_from(o, x, r, false);
            assert(lang_from(o2, x, r, false));
        }
    }
}

/// A state that is terminal or has an edge to a state that leads on to a
/// terminal state leads on to one itself.
proof fn lemma_tip_alive(o: Seq<TokenSetNode>, x: int)
    requires
        0 <= x < o.len(),
        o[x].last || o[x].edges@.len() > 0,
        forall|e: int| 0 <= e < o[x].edges@.len() ==> reaches_end(o, (#[trigger] o[x].edges@[e]).target as int),
    ensures
        reaches_end(o, x),
{
    if o[x].last {
        assert(lang_from(o, x, Seq::<char>::empty(), false));
    } else {
        let edge = o[x].edges@[0];
        assert(reaches_end(o, edge.target as int));
        let r = choose|r: Seq<char>| #[trigger] lang_from(o, edge.target as int, r, false);
        let full = seq![edge.label] + r;
        assert(full.drop_first() =~= r);
        assert(takes_edge(o, x, 0, full, false));
        assert(lang_from(o, x, full, false));
    }
}

/// The builder's states and chain fit together.
spec fn builder_ok(
    nodes: Seq<TokenSetNode>,
    prev: Seq<char>,
    chain: Seq<UncheckedNodes>,
    register: Map<Seq<char>, Vec<usize>>,
    l: Ledger,
) -> bool {
    &&& nodes_wf(nodes)
    &&& chain_ok(nodes, prev, chain, l.depth)
    &&& reach_ok(nodes, chain, l.depth)
    &&& settled_ok(nodes, l.depth, l.settled_at, l.clock)
    &&& labels_ok(nodes, prev, l.depth)
    &&& register_ok(nodes, l.depth, l.registered)
    &&& index_ok(nodes, register, l.registered)
    &&& alive_ok(nodes, l.depth)
}

/// What is known of the last link of a chain: its child lies at the depth of
/// the chain's length and its parent one step before.
spec fn last_link(chain: Seq<UncheckedNodes>, depth: Seq<int>, nodes: Seq<TokenSetNode>) -> bool {
    &&& chain.len() > 0
    &&& depth.len() == nodes.len()
    &&& 0 < chain.last().child < nodes.len()
    &&& 0 <= chain.last().parent < nodes.len()
    &&& chain.last().parent != chain.last().child
    &&& depth[chain.last().child as int] == chain.len()
    &&& depth[chain.last().parent as int] == chain.len() - 1
    &&& nodes[chain.last().parent as int].edges@.len() > 0
    &&& nodes[chain.last().parent as int].edges@.last() == (Edge { label: chain.last().c, target: chain.last().child })
    &&& forall|x: int| 0 <= x < nodes.len() && (#[trigger] depth[x]) >= chain.len() ==> x == chain.last().child
    &&& forall|x: int| 0 <= x < nodes.len() && (#[trigger] depth[x]) == chain.len() - 1 ==> x == chain.last().parent
}

proof fn lemma_last_link(nodes: Seq<TokenSetNode>, prev: Seq<char>, chain: Seq<UncheckedNodes>, depth: Seq<int>)
    requires
        chain_ok(nodes, prev, chain, depth),
        chain.len() > 0,
    ensures
        last_link(chain, depth, nodes),
{
    reveal(chain_ok);
    let n = chain.len() as int;
    let u = chain[n - 1];
    let child = u.child as int;
    let parent = u.parent as int;
    assert(depth[child] == n);
    assert(depth[parent] == n - 1);
    assert forall|x: int| 0 <= x < nodes.len() && (#[trigger] depth[x]) >= chain.len() implies x == chain.last().child by {
        assert(depth[x] == depth[child]);
    }
    assert forall|x: int| 0 <= x < nodes.len() && (#[trigger] depth[x]) == chain.len() - 1 implies x
        == chain.last().parent by {
        assert(depth[x] == depth[parent]);
    }
}

/// The arena `o2` is `o` but for edge `pe` of `parent`, which leads to `m`.
spec fn replaced(o: Seq<TokenSetNode>, o2: Seq<TokenSetNode>, parent: int, pe: int, m: int) -> bool {
    &&& o2.len() == o.len()
    &&& 0 <= parent < o.len()
    &&& 0 <= pe < o[parent].edges@.len()
    &&& 0 <= m < o.len()
    &&& forall|x: int| 0 <= x < o.len() ==> (#[trigger] o2[x]).edges@.len() == o[x].edges@.len() && o2[x].last == o[x].last
    &&& forall|x: int, i: int|
        0 <= x < o.len() && 0 <= i < o[x].edges@.len() && !(x == parent && i == pe) ==> (#[trigger] o2[x].edges@[i])
            == o[x].edges@[i]
    &&& o2[parent].edges@[pe].label == o[parent].edges@[pe].label
    &&& o2[parent].edges@[pe].target == m
}

proof fn lemma_replace_wf(o: Seq<TokenSetNode>, o2: Seq<TokenSetNode>, parent: int, pe: int, m: int)
    requires
        nodes_wf(o),
        replaced(o, o2, parent, pe, m),
    ensures
        nodes_wf(o2),
{
    assert forall|x: int, e: int| 0 <= x < o2.len() && 0 <= e < o2[x].edges@.len() implies (
    #[trigger] o2[x].edges@[e]).target < o2.len() && o2[x].edges@[e].label == o[x].edges@[e].label by {
        assert(o[x].edges@[e].target < o.len());
        if !(x == parent && e == pe) {
            assert(o2[x].edges@[e] == o[x].edges@[e]);
        }
    }
    assert forall|x: int, i: int, j: int| 0 <= x < o2.len() && 0 <= i < j < o2[x].edges@.len() implies (
    #[trigger] o2[x].edges@[i]).label != (#[trigger] o2[x].edges@[j]).label by {
        assert(o2[x].edges@[i].label == o[x].edges@[i].label);
        assert(o2[x].edges@[j].label == o[x].edges@[j].label);
        assert(o[x].edges@[i].label != o[x].edges@[j].label);
    }
}

proof fn lemma_chain_shrinks(
    o: Seq<TokenSetNode>,
    o2: Seq<TokenSetNode>,
    prev: Seq<char>,
    chain: Seq<UncheckedNodes>,
    depth: Seq<int>,
)
    requires
        chain_ok(o, prev, chain, depth),
        last_link(chain, depth, o),
        o2.len() == o.len(),
        forall|x: int|
            0 <= x < o.len() && x != chain.last().parent ==> (#[trigger] o2[x]).edges@ == o[x].edges@,
    ensures
        chain_ok(o2, prev, chain.drop_last(), depth.update(chain.last().child as int, -1)),
{
    reveal(chain_ok);
    let n = chain.len() as int;
    let chain2 = chain.drop_last();
    let child = chain.last().child as int;
    let parent = chain.last().parent as int;
    let depth2 = depth.update(child, -1);
    assert forall|i: int| 0 <= i < chain2.len() implies ({
        let v = #[trigger] chain2[i];
        &&& v.c == prev[i]
        &&& 0 <= v.parent < o2.len()
        &&& 0 < v.child < o2.len()
        &&& depth2[v.parent as int] == i
        &&& depth2[v.child as int] == i + 1
        &&& o2[v.parent as int].edges@.len() > 0
        &&& o2[v.parent as int].edges@.last() == (Edge { label: v.c, target: v.child })
    }) by {
        let v = chain[i];
        assert(chain2[i] == v);
        assert(depth[v.parent as int] == i);
        assert(depth[v.child as int] == i + 1);
        assert(v.parent != parent);
        assert(o2[v.parent as int].edges@ == o[v.parent as int].edges@);
    }
    assert forall|x: int| 0 <= x < o2.len() implies (#[trigger] depth2[x]) <= chain2.len() by {
        if x != child {
            assert(depth[x] <= n);
        }
    }
    assert forall|x: int, y: int|
        0 <= x < o2.len() && 0 <= y < o2.len() && (#[trigger] depth2[x]) >= 0 && depth2[x] == (
        #[trigger] depth2[y]) implies x == y by {
        assert(depth[x] >= 0 && depth[x] == depth[y]);
    }
}

proof fn lemma_reach_after_replace(
    o: Seq<TokenSetNode>,
    o2: Seq<TokenSetNode>,
    chain: Seq<UncheckedNodes>,
    depth: Seq<int>,
    registered: Seq<bool>,
    pe: int,
    m: int,
)
    requires
        nodes_wf(o),
        reach_ok(o, chain, depth),
        register_ok(o, depth, registered),
        last_link(chain, depth, o),
        replaced(o, o2, chain.last().parent as int, pe, m),
        pe == o[chain.last().parent as int].edges@.len() - 1,
        registered[m],
    ensures
        reach_ok(o2, chain.drop_last(), depth.update(chain.last().child as int, -1)),
        register_ok(o2, depth.update(chain.last().child as int, -1), registered),
{
    reveal(reach_ok);
    reveal(register_ok);
    let n = chain.len() as int;
    let chain2 = chain.drop_last();
    let child = chain.last().child as int;
    let parent = chain.last().parent as int;
    let depth2 = depth.update(child, -1);
    assert forall|x: int, e: int|
        0 <= x < o2.len() && 0 <= e < o2[x].edges@.len() && depth2[(#[trigger] o2[x].edges@[e]).target as int]
            >= 0 implies 0 <= depth2[x] < chain2.len() && e == o2[x].edges@.len() - 1 && depth2[o2[x].edges@[e].target as int]
        == depth2[x] + 1 by {
        assert(o[x].edges@[e].target < o.len());
        if x == parent && e == pe {
            assert(depth[m] < 0);
        } else {
            assert(o2[x].edges@[e] == o[x].edges@[e]);
            let t = o[x].edges@[e].target as int;
            assert(depth[t] >= 0);
        }
    }
    assert forall|x: int, y: int|
        0 <= x < o2.len() && 0 <= y < o2.len() && x != y && (#[trigger] registered[x]) && (
        #[trigger] registered[y]) implies !same_shape(o2[x], o2[y]) by {
        assert(depth[x] < 0 && depth[y] < 0);
        assert(x != parent && y != parent);
        assert(o2[x].edges@ =~= o[x].edges@);
        assert(o2[y].edges@ =~= o[y].edges@);
        assert(!same_shape(o[x], o[y]));
    }
    assert forall|x: int, e: int| 0 <= x < o2.len() && 0 <= e < o2[x].edges@.len() implies depth2[(
    #[trigger] o2[x].edges@[e]).target as int] >= 0 || registered[o2[x].edges@[e].target as int] by {
        assert(o[x].edges@[e].target < o.len());
        if x == parent && e == pe {
        } else {
            assert(o2[x].edges@[e] == o[x].edges@[e]);
            let t = o[x].edges@[e].target as int;
            if t == child {
                assert(depth[t] >= 0);
            }
        }
    }
    assert forall|x: int| 0 <= x < o2.len() && (#[trigger] registered[x]) implies depth2[x] < 0 by {}
}

/// The register still finds its states by their texts when an edge of a
/// state of the chain is led elsewhere.
proof fn lemma_index_after_replace(
    o: Seq<TokenSetNode>,
    o2: Seq<TokenSetNode>,
    register: Map<Seq<char>, Vec<usize>>,
    depth: Seq<int>,
    registered: Seq<bool>,
    parent: int,
    pe: int,
    m: int,
)
    requires
        index_ok(o, register, registered),
        register_ok(o, depth, registered),
        replaced(o, o2, parent, pe, m),
        depth.len() == o.len(),
        depth[parent] >= 0,
    ensures
        index_ok(o2, register, registered),
{
    reveal(index_ok);
    reveal(register_ok);
    assert forall|x: int| 0 <= x < o.len() && (#[trigger] registered[x]) implies o2[x].text() == o[x].text() by {
        assert(x != parent);
        assert(o2[x].edges@ =~= o[x].edges@);
    }
    assert forall|key: Seq<char>, i: int|
        register.dom().contains(key) && 0 <= i < register[key]@.len() implies (#[trigger] register[key]@[i]) < o2.len()
        && registered[register[key]@[i] as int] && o2[register[key]@[i] as int].text() == key by {
        let x = register[key]@[i] as int;
        assert(registered[x]);
    }
}

proof fn lemma_reach_after_register(
    o: Seq<TokenSetNode>,
    chain: Seq<UncheckedNodes>,
    depth: Seq<int>,
    registered: Seq<bool>,
)
    requires
        nodes_wf(o),
        reach_ok(o, chain, depth),
        register_ok(o, depth, registered),
        last_link(chain, depth, o),
        forall|x: int| 0 <= x < o.len() && #[trigger] registered[x] ==> !same_shape(o[x], o[chain.last().child as int]),
    ensures
        reach_ok(o, chain.drop_last(), depth.update(chain.last().child as int, -1)),
        register_ok(o, depth.update(chain.last().child as int, -1), registered.update(chain.last().child as int, true)),
{
    reveal(reach_ok);
    reveal(register_ok);
    let n = chain.len() as int;
    let chain2 = chain.drop_last();
    let child = chain.last().child as int;
    let parent = chain.last().parent as int;
    let depth2 = depth.update(child, -1);
    let registered2 = registered.update(child, true);
    assert forall|x: int, e: int|
        0 <= x < o.len() && 0 <= e < o[x].edges@.len() && depth2[(#[trigger] o[x].edges@[e]).target as int]
            >= 0 implies 0 <= depth2[x] < chain2.len() && e == o[x].edges@.len() - 1 && depth2[o[x].edges@[e].target as int]
        == depth2[x] + 1 by {
        let t = o[x].edges@[e].target as int;
        assert(t < o.len());
        assert(depth[t] >= 0);
    }
    assert forall|x: int| 0 <= x < o.len() && (#[trigger] registered2[x]) implies depth2[x] < 0 by {
        if x != child {
            assert(registered[x]);
        }
    }
    assert forall|x: int, y: int|
        0 <= x < o.len() && 0 <= y < o.len() && x != y && (#[trigger] registered2[x]) && (
        #[trigger] registered2[y]) implies !same_shape(o[x], o[y]) by {
        if x == child {
            assert(registered[y]);
        } else if y == child {
            assert(registered[x]);
        } else {
            assert(registered[x] && registered[y]);
        }
    }
    assert forall|x: int, e: int| 0 <= x < o.len() && 0 <= e < o[x].edges@.len() implies depth2[(
    #[trigger] o[x].edges@[e]).target as int] >= 0 || registered2[o[x].edges@[e].target as int] by {
        assert(o[x].edges@[e].target < o.len());
    }
}

proof fn lemma_settled_grows(
    o: Seq<TokenSetNode>,
    o2: Seq<TokenSetNode>,
    chain: Seq<UncheckedNodes>,
    depth: Seq<int>,
    settled_at: Seq<nat>,
    clock: nat,
)
    requires
        nodes_wf(o),
        settled_ok(o, depth, settled_at, clock),
        reach_ok(o, chain, depth),
        last_link(chain, depth, o),
        o2.len() == o.len(),
        forall|x: int|
            0 <= x < o.len() && x != chain.last().parent ==> (#[trigger] o2[x]).edges@ == o[x].edges@,
    ensures
        settled_ok(
            o2,
            depth.update(chain.last().child as int, -1),
            settled_at.update(chain.last().child as int, clock),
            clock + 1,
        ),
{
    reveal(settled_ok);
    reveal(reach_ok);
    let child = chain.last().child as int;
    let parent = chain.last().parent as int;
    let depth2 = depth.update(child, -1);
    let settled2 = settled_at.update(child, clock);
    assert forall|x: int, e: int| 0 <= x < o2.len() && 0 <= e < o2[x].edges@.len() && depth2[x] < 0 implies settled2[(
    #[trigger] o2[x].edges@[e]).target as int] < settled2[x] by {
        assert(x != parent);
        assert(o2[x].edges@ == o[x].edges@);
        let t = o[x].edges@[e].target as int;
        assert(t < o.len());
        if depth[t] >= 0 {
            assert(0 <= depth[x]);
        }
    }
}

proof fn lemma_labels_shrink(
    o: Seq<TokenSetNode>,
    o2: Seq<TokenSetNode>,
    prev: Seq<char>,
    depth: Seq<int>,
    child: int,
)
    requires
        labels_ok(o, prev, depth),
        depth.len() == o.len(),
        o2.len() == o.len(),
        0 <= child < o.len(),
        forall|x: int| 0 <= x < o.len() ==> (#[trigger] o2[x]).edges@.len() == o[x].edges@.len(),
        forall|x: int, e: int|
            0 <= x < o.len() && 0 <= e < o[x].edges@.len() ==> (#[trigger] o2[x].edges@[e]).label == o[x].edges@[e].label,
    ensures
        labels_ok(o2, prev, depth.update(child, -1)),
{
    reveal(labels_ok);
    let depth2 = depth.update(child, -1);
    assert forall|x: int, e: int| 0 <= x < o2.len() && 0 <= e < o2[x].edges@.len() && depth2[x] >= 0 implies char_le(
        (#[trigger] o2[x].edges@[e]).label,
        prev[depth2[x]],
    ) by {
        assert(o2[x].edges@[e].label == o[x].edges@[e].label);
        assert(depth[x] >= 0);
    }
    assert forall|x: int| 0 <= x < o2.len() && (#[trigger] depth2[x]) >= 0 && o2[x].edges@.len() > 0 implies depth2[x]
        < prev.len() by {
        assert(depth[x] >= 0);
        assert(o2[x].edges@.len() == o[x].edges@.len());
    }
}

/// Whether two states have the same flag and the same edges.
fn same_node(a: &TokenSetNode, b: &TokenSetNode) -> (same: bool)
    ensures
        same == same_shape(*a, *b),
{
    if a.last != b.last || a.edges.len() != b.edges.len() {
        return false;
    }
    let mut i: usize = 0;
    while i < a.edges.len()
        invariant
            a.edges@.len() == b.edges@.len(),
            i <= a.edges@.len(),
            forall|j: int| 0 <= j < i ==> a.edges@[j] == b.edges@[j],
        decreases a.edges@.len() - i,
    {
        if a.edges[i].label != b.edges[i].label || a.edges[i].target != b.edges[i].target {
            return false;
        }
        i += 1;
    }
    assert(a.edges@ =~= b.edges@);
    true
}

/// Lets edge `e` of state `n` lead to `target`.
fn retarget(nodes: &mut Vec<TokenSetNode>, n: usize, e: usize, target: usize)
    requires
        n < old(nodes)@.len(),
        e < old(nodes)@[n as int].edges@.len(),
    ensures
        final(nodes)@.len() == old(nodes)@.len(),
        final(nodes)@[n as int].last == old(nodes)@[n as int].last,
        final(nodes)@[n as int].edges@ == old(nodes)@[n as int].edges@.update(
            e as int,
            Edge { label: old(nodes)@[n as int].edges@[e as int].label, target },
        ),
        forall|j: int| 0 <= j < old(nodes)@.len() && j != n ==> final(nodes)@[j] == old(nodes)@[j],
{
    let label = nodes[n].edges[e].label;
    nodes[n].edges[e] = Edge { label, target };
}

/// Builds the minimized automaton of words that come in ascending order.
pub struct TokenSetBuilder {
    prev_word: Vec<char>,
    nodes: Vec<TokenSetNode>,
    unchecked_nodes: Vec<UncheckedNodes>,
    minimized_nodes: StringHashMap<Vec<usize>>,
    ledger: Ghost<Ledger>,
}

impl TokenSetBuilder {
    /// The builder's states and chain fit together.
    pub closed spec fn wf(&self) -> bool {
        builder_ok(self.nodes@, self.prev_word@, self.unchecked_nodes@, self.minimized_nodes@, self.ledger@) && tip_ok(
            self.nodes@,
            self.unchecked_nodes@,
        ) && nodes_sorted(self.nodes@)
    }

    /// The word added last; empty before the first.
    pub closed spec fn prev(&self) -> Seq<char> {
        self.prev_word@
    }

    /// How many states of the word added last are not settled yet.
    pub closed spec fn pending(&self) -> nat {
        self.unchecked_nodes@.len()
    }

    /// Whether `w` was added.
    pub closed spec fn accepts(&self, w: Seq<char>) -> bool {
        lang_from(self.nodes@, 0, w, false)
    }

    /// The builder that holds no word.
    pub fn new() -> (builder: TokenSetBuilder)
        ensures
            builder.wf(),
            builder.prev().len() == 0,
            builder.pending() == 0,
            forall|w: Seq<char>| !builder.accepts(w),
    {
        let mut nodes: Vec<TokenSetNode> = Vec::new();
        nodes.push(TokenSetNode::new());
        let builder = TokenSetBuilder {
            prev_word: Vec::new(),
            nodes,
            unchecked_nodes: Vec::new(),
            minimized_nodes: StringHashMap::new(),
            ledger: Ghost(
                Ledger { depth: seq![0int], settled_at: seq![0nat], clock: 0, registered: seq![false] },
            ),
        };
        proof {
            reveal(chain_ok);
            reveal(reach_ok);
            reveal(settled_ok);
            reveal(labels_ok);
            reveal(register_ok);
            reveal(index_ok);
            reveal(alive_ok);
            assert forall|w: Seq<char>| !builder.accepts(w) by {
                if w.len() > 0 && lang_from(builder.nodes@, 0, w, false) {
                    let e = lemma_edge_witness(builder.nodes@, 0, w, false);
                }
            }
        }
        builder
    }
}

impl TokenSetBuilder {
    /// A state of the register with the flag and the edges of `child`. It is
    /// looked for among the states that the register holds under the text of
    /// `child`.
    fn find_alike(&self, child: usize) -> (found: Option<usize>)
        requires
            self.wf(),
            child < self.nodes@.len(),
        ensures
            match found {
                Some(m) => m < self.nodes@.len() && self.ledger@.registered[m as int] && same_shape(
                    self.nodes@[m as int],
                    self.nodes@[child as int],
                ),
                None => forall|x: int|
                    0 <= x < self.nodes@.len() && #[trigger] self.ledger@.registered[x] ==> !same_shape(
                        self.nodes@[x],
                        self.nodes@[child as int],
                    ),
            },
    {
        let key = self.nodes[child].to_str();
        let n = self.nodes.len();
        let ghost register = self.minimized_nodes@;
        match self.minimized_nodes.get(key.as_str()) {
            Some(bucket) => {
                let mut i: usize = 0;
                while i < bucket.len()
                    invariant
                        self.wf(),
                        register == self.minimized_nodes@,
                        register.dom().contains(key@),
                        *bucket == register[key@],
                        key@ == self.nodes@[child as int].text(),
                        child < self.nodes@.len(),
                        i <= bucket@.len(),
                        n == self.nodes@.len(),
                        forall|j: int|
                            0 <= j < i ==> !same_shape(self.nodes@[(#[trigger] bucket@[j]) as int], self.nodes@[child as int]),
                    decreases bucket@.len() - i,
                {
                    proof {
                        reveal(index_ok);
                    }
                    let m = bucket[i];
                    assert(m == register[key@]@[i as int]);
                    if same_node(&self.nodes[m], &self.nodes[child]) {
                        return Some(m);
                    }
                    i += 1;
                }
                proof {
                    reveal(index_ok);
                    assert forall|x: int|
                        0 <= x < self.nodes@.len() && #[trigger] self.ledger@.registered[x] implies !same_shape(
                        self.nodes@[x],
                        self.nodes@[child as int],
                    ) by {
                        if same_shape(self.nodes@[x], self.nodes@[child as int]) {
                            assert(x < n);
                            assert(self.nodes@[x].text() == key@);
                            assert(register[key@]@.contains(x as usize));
                            let j = choose|j: int| 0 <= j < bucket@.len() && bucket@[j] == x as usize;
                            assert(bucket@[j] as int == x);
                            assert(!same_shape(self.nodes@[bucket@[j] as int], self.nodes@[child as int]));
                        }
                    }
                }
                None
            },
            None => {
                proof {
                    reveal(index_ok);
                    assert forall|x: int|
                        0 <= x < self.nodes@.len() && #[trigger] self.ledger@.registered[x] implies !same_shape(
                        self.nodes@[x],
                        self.nodes@[child as int],
                    ) by {
                        if same_shape(self.nodes@[x], self.nodes@[child as int]) {
                            assert(self.nodes@[x].text() == key@);
                        }
                    }
                }
                None
            },
        }
    }

    /// Enters state `child` into the register, under its text.
    fn register(&mut self, child: usize)
        requires
            child < old(self).nodes@.len(),
            index_ok(old(self).nodes@, old(self).minimized_nodes@, old(self).ledger@.registered),
            !old(self).ledger@.registered[child as int],
        ensures
            final(self).nodes == old(self).nodes,
            final(self).prev_word == old(self).prev_word,
            final(self).unchecked_nodes == old(self).unchecked_nodes,
            final(self).ledger == old(self).ledger,
            index_ok(
                final(self).nodes@,
                final(self).minimized_nodes@,
                old(self).ledger@.registered.update(child as int, true),
            ),
    {
        let key = self.nodes[child].to_str();
        let ghost register = self.minimized_nodes@;
        let ghost registered = self.ledger@.registered;
        let ghost nodes = self.nodes@;
        let mut bucket: Vec<usize> = Vec::new();
        match self.minimized_nodes.get(key.as_str()) {
            Some(held) => {
                let mut i: usize = 0;
                while i < held.len()
                    invariant
                        i <= held@.len(),
                        bucket@ == held@.subrange(0, i as int),
                    decreases held@.len() - i,
                {
                    bucket.push(held[i]);
                    i += 1;
                    assert(bucket@ =~= held@.subrange(0, i as int));
                }
                assert(bucket@ =~= register[key@]@);
            },
            None => {},
        }
        let ghost held = bucket@;
        bucket.push(child);
        self.minimized_nodes.insert(key, bucket);
        proof {
            reveal(index_ok);
            let register2 = self.minimized_nodes@;
            let registered2 = registered.update(child as int, true);
            assert(register2 == register.insert(key@, bucket));
            assert(bucket@ == held.push(child));
            assert forall|k: Seq<char>, i: int|
                register2.dom().contains(k) && 0 <= i < register2[k]@.len() implies (#[trigger] register2[k]@[i]) < nodes.len()
                && registered2[register2[k]@[i] as int] && nodes[register2[k]@[i] as int].text() == k by {
                if k == key@ {
                    if i < held.len() {
                        assert(register.dom().contains(key@));
                        assert(register2[k]@[i] == register[key@]@[i]);
                    }
                } else {
                    assert(register.dom().contains(k));
                    assert(register2[k]@[i] == register[k]@[i]);
                }
            }
            assert forall|x: int| 0 <= x < nodes.len() && (#[trigger] registered2[x]) implies register2.dom().contains(
                nodes[x].text(),
            ) && register2[nodes[x].text()]@.contains(x as usize) by {
                if x == child {
                    assert(bucket@[held.len() as int] == child);
                } else {
                    assert(registered[x]);
                    if nodes[x].text() == key@ {
                        let j = choose|j: int| 0 <= j < register[key@]@.len() && register[key@]@[j] == x as usize;
                        assert(bucket@[j] == x as usize);
                    }
                }
            }
        }
    }

    /// Settles the last state of the chain: it gives way to a state of the
    /// register that is like it, or enters the register itself.
    fn settle_last(&mut self)
        requires
            old(self).wf(),
            old(self).pending() > 0,
        ensures
            final(self).wf(),
            final(self).pending() == old(self).pending() - 1,
            final(self).prev() == old(self).prev(),
            forall|w: Seq<char>| final(self).accepts(w) == old(self).accepts(w),
    {
        let ghost o = self.nodes@;
        let ghost chain = self.unchecked_nodes@;
        let ghost l = self.ledger@;
        let ghost prev = self.prev_word@;
        let ghost reg = self.minimized_nodes@;
        proof {
            assert(index_ok(o, reg, l.registered));
        }
        let last = self.unchecked_nodes.len() - 1;
        let u = self.unchecked_nodes[last];
        let ghost child = u.child as int;
        let ghost parent = u.parent as int;
        proof {
            assert(chain.last() == u);
            lemma_last_link(o, prev, chain, l.depth);
            // the state to be settled leads on to a terminal state
            assert forall|e: int| 0 <= e < o[child].edges@.len() implies reaches_end(
                o,
                (#[trigger] o[child].edges@[e]).target as int,
            ) by {
                reveal(reach_ok);
                reveal(alive_ok);
                let t = o[child].edges@[e].target as int;
                assert(t < o.len());
                assert(l.depth[t] < 0);
            }
            lemma_tip_alive(o, child);
            lemma_new_tip(o, prev, chain, l.depth);
        }
        let found = self.find_alike(u.child);
        let ghost chain2 = chain.drop_last();
        match found {
            Some(m) => {
                let e = self.nodes[u.parent].edges.len() - 1;
                retarget(&mut self.nodes, u.parent, e, m);
                self.unchecked_nodes.pop();
                let ghost l2 = Ledger {
                    depth: l.depth.update(child, -1),
                    settled_at: l.settled_at.update(child, l.clock),
                    clock: l.clock + 1,
                    registered: l.registered,
                };
                self.ledger = Ghost(l2);
                proof {
                    let o2 = self.nodes@;
                    assert(self.unchecked_nodes@ =~= chain2);
                    assert(replaced(o, o2, parent, e as int, m as int)) by {
                        assert forall|x: int, i: int|
                            0 <= x < o.len() && 0 <= i < o[x].edges@.len() && !(x == parent && i == e) implies (
                        #[trigger] o2[x].edges@[i]) == o[x].edges@[i] by {}
                    }
                    assert forall|x: int| 0 <= x < o.len() && x != parent implies (#[trigger] o2[x]).edges@
                        == o[x].edges@ by {}
                    assert forall|x: int, i: int| 0 <= x < o.len() && 0 <= i < o[x].edges@.len() implies (
                    #[trigger] o2[x].edges@[i]).label == o[x].edges@[i].label by {}
                    lemma_replace_wf(o, o2, parent, e as int, m as int);
                    lemma_chain_shrinks(o, o2, prev, chain, l.depth);
                    lemma_reach_after_replace(o, o2, chain, l.depth, l.registered, e as int, m as int);
                    lemma_index_after_replace(o, o2, reg, l.depth, l.registered, parent, e as int, m as int);
                    lemma_settled_grows(o, o2, chain, l.depth, l.settled_at, l.clock);
                    lemma_labels_shrink(o, o2, prev, l.depth, child);
                    assert forall|w: Seq<char>| lang_from(o2, 0, w, false) == lang_from(o, 0, w, false) by {
                        lemma_replace_language(o, o2, parent, e as int, child, m as int, 0, w);
                    }
                    assert forall|x: int, r: Seq<char>| 0 <= x < o.len() && #[trigger] lang_from(o, x, r, false) implies lang_from(
                        o2,
                        x,
                        r,
                        false,
                    ) by {
                        lemma_replace_language(o, o2, parent, e as int, child, m as int, x, r);
                    }
                    assert(reaches_end(o2, child)) by {
                        let r = choose|r: Seq<char>| #[trigger] lang_from(o, child, r, false);
                        assert(lang_from(o2, child, r, false));
                    }
                    lemma_alive_kept(o, o2, l.depth, l2.depth);
                    assert(tip_ok(o2, chain2)) by {
                        if chain2.len() > 0 {
                            assert(chain2.last().child == parent);
                            assert(o2[parent].edges@.len() == o[parent].edges@.len());
                        }
                    }
                    assert(nodes_sorted(o2)) by {
                        assert forall|x: int, i: int, j: int| 0 <= x < o2.len() && 0 <= i < j < o2[x].edges@.len() implies char_lt(
                            (#[trigger] o2[x].edges@[i]).label,
                            (#[trigger] o2[x].edges@[j]).label,
                        ) by {
                            assert(o2[x].edges@.len() == o[x].edges@.len());
                            assert(o2[x].edges@[i].label == o[x].edges@[i].label);
                            assert(o2[x].edges@[j].label == o[x].edges@[j].label);
                        }
                    }
                }
            },
            None => {
                proof {
                    reveal(register_ok);
                    assert(!l.registered[child]);
                }
                self.register(u.child);
                self.unchecked_nodes.pop();
                let ghost l2 = Ledger {
                    depth: l.depth.update(child, -1),
                    settled_at: l.settled_at.update(child, l.clock),
                    clock: l.clock + 1,
                    registered: l.registered.update(child, true),
                };
                self.ledger = Ghost(l2);
                proof {
                    assert(self.unchecked_nodes@ =~= chain2);
                    lemma_chain_shrinks(o, o, prev, chain, l.depth);
                    lemma_reach_after_register(o, chain, l.depth, l.registered);
                    lemma_settled_grows(o, o, chain, l.depth, l.settled_at, l.clock);
                    lemma_labels_shrink(o, o, prev, l.depth, child);
                    lemma_alive_kept(o, o, l.depth, l2.depth);
                    assert(tip_ok(o, chain2)) by {
                        if chain2.len() > 0 {
                            assert(chain2.last().child == parent);
                        }
                    }
                }
            },
        }
    }
}

/// The state above the last state of the chain is the last but one of the
/// chain, if there is one, and has an edge.
proof fn lemma_new_tip(o: Seq<TokenSetNode>, prev: Seq<char>, chain: Seq<UncheckedNodes>, depth: Seq<int>)
    requires
        chain_ok(o, prev, chain, depth),
        chain.len() > 0,
    ensures
        o[chain.last().parent as int].edges@.len() > 0,
        chain.len() > 1 ==> chain.drop_last().last().child == chain.last().parent,
{
    reveal(chain_ok);
    let n = chain.len() as int;
    let u = chain[n - 1];
    if n > 1 {
        let v = chain[n - 2];
        assert(chain.drop_last().last() == v);
        assert(depth[v.child as int] == n - 1);
        assert(depth[u.parent as int] == n - 1);
    }
}

/// Letting one edge lead to a state that is like its old target changes
/// nothing in what any state reads.
proof fn lemma_replace_language(
    o: Seq<TokenSetNode>,
    o2: Seq<TokenSetNode>,
    parent: int,
    pe: int,
    child: int,
    m: int,
    x: int,
    w: Seq<char>,
)
    requires
        replaced(o, o2, parent, pe, m),
        0 <= child < o.len(),
        o[parent].edges@[pe].target == child,
        same_shape(o[m], o[child]),
    ensures
        lang_from(o2, x, w, false) == lang_from(o, x, w, false),
{
    assert forall|y: int, e: int| 0 <= y < o.len() && 0 <= e < o[y].edges@.len() implies (#[trigger] o[y].edges@[e]).label
        == o2[y].edges@[e].label && (forall|s: Seq<char>|
        lang_from(o, o[y].edges@[e].target as int, s, false) == #[trigger] lang_from(
            o,
            o2[y].edges@[e].target as int,
            s,
            false,
        )) by {
        if y == parent && e == pe {
            assert forall|s: Seq<char>|
                lang_from(o, o[y].edges@[e].target as int, s, false) == #[trigger] lang_from(
                    o,
                    o2[y].edges@[e].target as int,
                    s,
                    false,
                ) by {
                lemma_same_shape_language(o, m, child, s);
            }
        } else {
            assert(o2[y].edges@[e] == o[y].edges@[e]);
        }
    }
    lemma_same_language(o, o2, x, w);
}

/// Where two strings first differ, given that the first is not behind the
/// second in the dictionary: the first ends there, or it has the smaller
/// character there.
proof fn lemma_lex_at_split(a: Seq<char>, b: Seq<char>, cp: int)
    requires
        lex_le(a, b),
        differ_at(a, b, cp),
        cp == a.len() || cp == b.len() || a[cp] != b[cp],
    ensures
        cp == a.len() || (cp < a.len() && cp < b.len() && char_lt(a[cp], b[cp])),
{
    let k = choose|k: int|
        #[trigger] differ_at(a, b, k) && (k == a.len() || (k < b.len() && char_lt(a[k], b[k])));
    if cp < a.len() {
        if k == a.len() {
            assert(a.subrange(0, k)[cp] == b.subrange(0, k)[cp]);
        } else {
            if cp < k {
                assert(a.subrange(0, k)[cp] == b.subrange(0, k)[cp]);
            }
            if k < cp {
                assert(a.subrange(0, cp)[k] == b.subrange(0, cp)[k]);
            }
        }
    }
}

/// The builder stays sound when the word added last gives way to a word
/// that is not before it and shares the whole chain with it.
proof fn lemma_next_word(
    o: Seq<TokenSetNode>,
    prev: Seq<char>,
    word: Seq<char>,
    chain: Seq<UncheckedNodes>,
    register: Map<Seq<char>, Vec<usize>>,
    l: Ledger,
)
    requires
        builder_ok(o, prev, chain, register, l),
        lex_le(prev, word),
        differ_at(prev, word, chain.len() as int),
        chain.len() == prev.len() || chain.len() == word.len() || prev[chain.len() as int] != word[chain.len() as int],
    ensures
        builder_ok(o, word, chain, register, l),
        forall|x: int, e: int|
            0 <= x < o.len() && l.depth[x] == chain.len() && 0 <= e < o[x].edges@.len() ==> char_lt(
                (#[trigger] o[x].edges@[e]).label,
                word[chain.len() as int],
            ),
        chain.len() == word.len() ==> forall|x: int|
            0 <= x < o.len() && (#[trigger] l.depth[x]) == chain.len() ==> o[x].edges@.len() == 0,
{
    reveal(chain_ok);
    reveal(labels_ok);
    let cp = chain.len() as int;
    lemma_lex_at_split(prev, word, cp);
    assert forall|i: int| 0 <= i < chain.len() implies (#[trigger] chain[i]).c == word[i] by {
        assert(prev.subrange(0, cp)[i] == word.subrange(0, cp)[i]);
    }
    assert forall|x: int, e: int| 0 <= x < o.len() && 0 <= e < o[x].edges@.len() && l.depth[x] >= 0 implies char_le(
        (#[trigger] o[x].edges@[e]).label,
        word[l.depth[x]],
    ) by {
        let d = l.depth[x];
        let lab = o[x].edges@[e].label;
        assert(char_le(lab, prev[l.depth[x]]));
        assert(d <= cp);
        assert(d < prev.len());
        if d < cp {
            assert(prev.subrange(0, cp)[d] == word.subrange(0, cp)[d]);
        }
    }
    assert forall|x: int| 0 <= x < o.len() && (#[trigger] l.depth[x]) >= 0 && o[x].edges@.len() > 0 implies l.depth[x]
        < word.len() by {
        assert(l.depth[x] < prev.len());
        assert(l.depth[x] <= cp);
    }
    assert forall|x: int, e: int|
        0 <= x < o.len() && l.depth[x] == chain.len() && 0 <= e < o[x].edges@.len() implies char_lt(
        (#[trigger] o[x].edges@[e]).label,
        word[chain.len() as int],
    ) by {
        let lab = o[x].edges@[e].label;
        assert(char_le(lab, prev[l.depth[x]]));
        assert(l.depth[x] < prev.len());
        assert(char_lt(prev[cp], word[cp]));
        assert((lab as u32) < (word[cp] as u32));
    }
    if chain.len() == word.len() {
        assert forall|x: int| 0 <= x < o.len() && (#[trigger] l.depth[x]) == chain.len() implies o[x].edges@.len()
            == 0 by {
            if o[x].edges@.len() > 0 {
                assert(l.depth[x] < prev.len());
            }
        }
    }
}

proof fn lemma_labels_grow(
    o: Seq<TokenSetNode>,
    o2: Seq<TokenSetNode>,
    prev: Seq<char>,
    depth: Seq<int>,
    tip: int,
    c: char,
)
    requires
        labels_ok(o, prev, depth),
        depth.len() == o.len(),
        0 <= tip < o.len(),
        0 <= depth[tip] < prev.len(),
        c == prev[depth[tip]],
        o2.len() == o.len() + 1,
        forall|x: int| 0 <= x < o.len() && x != tip ==> #[trigger] o2[x] == o[x],
        o2[tip].edges@ == o[tip].edges@.push(Edge { label: c, target: o.len() as usize }),
        o2[o.len() as int].edges@.len() == 0,
        !o2[o.len() as int].last,
    ensures
        labels_ok(o2, prev, depth.push(depth[tip] + 1)),
{
    reveal(labels_ok);
    let depth2 = depth.push(depth[tip] + 1);
    assert forall|x: int, e: int| 0 <= x < o2.len() && 0 <= e < o2[x].edges@.len() && depth2[x] >= 0 implies char_le(
        (#[trigger] o2[x].edges@[e]).label,
        prev[depth2[x]],
    ) by {
        assert(x < o.len());
        assert(depth2[x] == depth[x]);
        if x == tip && e == o[tip].edges@.len() {
            assert(o2[x].edges@[e].label == c);
        } else {
            assert(o2[x].edges@[e] == o[x].edges@[e]);
        }
    }
    assert forall|x: int| 0 <= x < o2.len() && (#[trigger] depth2[x]) >= 0 && o2[x].edges@.len() > 0 implies depth2[x]
        < prev.len() by {
        assert(x < o.len());
        assert(depth2[x] == depth[x]);
        if x != tip {
            assert(o2[x] == o[x]);
        }
    }
}

/// The builder stays sound when a new state is hung below the end of the chain.
proof fn lemma_chain_grows(
    o: Seq<TokenSetNode>,
    o2: Seq<TokenSetNode>,
    prev: Seq<char>,
    chain: Seq<UncheckedNodes>,
    register: Map<Seq<char>, Vec<usize>>,
    l: Ledger,
    tip: int,
    c: char,
)
    requires
        builder_ok(o, prev, chain, register, l),
        0 <= tip < o.len(),
        l.depth[tip] == chain.len(),
        chain.len() < prev.len(),
        c == prev[chain.len() as int],
        forall|e: int| 0 <= e < o[tip].edges@.len() ==> (#[trigger] o[tip].edges@[e]).label != c,
        o.len() <= usize::MAX,
        o2.len() == o.len() + 1,
        forall|x: int| 0 <= x < o.len() && x != tip ==> #[trigger] o2[x] == o[x],
        o2[tip].last == o[tip].last,
        o2[tip].edges@ == o[tip].edges@.push(Edge { label: c, target: o.len() as usize }),
        o2[o.len() as int].edges@.len() == 0,
        !o2[o.len() as int].last,
    ensures
        builder_ok(
            o2,
            prev,
            chain.push(UncheckedNodes { parent: tip as usize, c, child: o.len() as usize }),
            register,
            Ledger {
                depth: l.depth.push((chain.len() + 1) as int),
                settled_at: l.settled_at.push(0),
                clock: l.clock,
                registered: l.registered.push(false),
            },
        ),
{
    let n = chain.len() as int;
    let next = o.len() as int;
    let link = UncheckedNodes { parent: tip as usize, c, child: o.len() as usize };
    let chain2 = chain.push(link);
    let depth2 = l.depth.push(n + 1);
    let settled2 = l.settled_at.push(0);
    let registered2 = l.registered.push(false);
    assert(l.depth.len() == o.len()) by {
        reveal(chain_ok);
    }
    assert(l.settled_at.len() == o.len()) by {
        reveal(settled_ok);
    }
    assert(l.registered.len() == o.len()) by {
        reveal(register_ok);
    }
    assert(index_ok(o, register, l.registered));
    assert forall|x: int, e: int| 0 <= x < o.len() && 0 <= e < o[x].edges@.len() implies (#[trigger] o2[x].edges@[e])
        == o[x].edges@[e] by {}
    assert(nodes_wf(o2)) by {
        assert forall|x: int, e: int| 0 <= x < o2.len() && 0 <= e < o2[x].edges@.len() implies (
        #[trigger] o2[x].edges@[e]).target < o2.len() by {
            if x < o.len() && e < o[x].edges@.len() {
                assert(o2[x].edges@[e] == o[x].edges@[e]);
                assert(o[x].edges@[e].target < o.len());
            }
        }
        assert forall|x: int, i: int, j: int| 0 <= x < o2.len() && 0 <= i < j < o2[x].edges@.len() implies (
        #[trigger] o2[x].edges@[i]).label != (#[trigger] o2[x].edges@[j]).label by {
            assert(o2[x].edges@[i] == o[x].edges@[i]);
            if j < o[x].edges@.len() {
                assert(o2[x].edges@[j] == o[x].edges@[j]);
                assert(o[x].edges@[i].label != o[x].edges@[j].label);
            }
        }
    }
    assert(chain_ok(o2, prev, chain2, depth2)) by {
        reveal(chain_ok);
        assert forall|i: int| 0 <= i < chain2.len() implies ({
            let v = #[trigger] chain2[i];
            &&& v.c == prev[i]
            &&& 0 <= v.parent < o2.len()
            &&& 0 < v.child < o2.len()
            &&& depth2[v.parent as int] == i
            &&& depth2[v.child as int] == i + 1
            &&& o2[v.parent as int].edges@.len() > 0
            &&& o2[v.parent as int].edges@.last() == (Edge { label: v.c, target: v.child })
        }) by {
            if i < n {
                let v = chain[i];
                assert(chain2[i] == v);
                assert(l.depth[v.parent as int] == i);
                assert(v.parent != tip);
                assert(o2[v.parent as int] == o[v.parent as int]);
            }
        }
        assert forall|x: int| 0 <= x < o2.len() implies (#[trigger] depth2[x]) <= chain2.len() by {
            if x < o.len() {
                assert(l.depth[x] <= n);
            }
        }
        assert forall|x: int, y: int|
            0 <= x < o2.len() && 0 <= y < o2.len() && (#[trigger] depth2[x]) >= 0 && depth2[x] == (
            #[trigger] depth2[y]) implies x == y by {
            if x < o.len() {
                assert(l.depth[x] <= n);
            }
            if y < o.len() {
                assert(l.depth[y] <= n);
            }
        }
    }
    assert(reach_ok(o2, chain2, depth2)) by {
        reveal(reach_ok);
        assert forall|x: int, e: int|
            0 <= x < o2.len() && 0 <= e < o2[x].edges@.len() && depth2[(#[trigger] o2[x].edges@[e]).target as int]
                >= 0 implies 0 <= depth2[x] < chain2.len() && e == o2[x].edges@.len() - 1 && depth2[o2[x].edges@[e].target as int]
            == depth2[x] + 1 by {
            if x < o.len() && e < o[x].edges@.len() {
                assert(o2[x].edges@[e] == o[x].edges@[e]);
                let t = o[x].edges@[e].target as int;
                assert(t < o.len());
                assert(l.depth[t] >= 0);
            }
        }
    }
    assert(settled_ok(o2, depth2, settled2, l.clock)) by {
        reveal(settled_ok);
        assert forall|x: int, e: int| 0 <= x < o2.len() && 0 <= e < o2[x].edges@.len() && depth2[x] < 0 implies settled2[(
        #[trigger] o2[x].edges@[e]).target as int] < settled2[x] by {
            assert(x != tip && x < o.len());
            assert(o2[x] == o[x]);
            assert(o[x].edges@[e].target < o.len());
        }
    }
    lemma_labels_grow(o, o2, prev, l.depth, tip, c);
    assert(register_ok(o2, depth2, registered2)) by {
        reveal(register_ok);
        reveal(chain_ok);
        assert forall|x: int| 0 <= x < o2.len() && (#[trigger] registered2[x]) implies depth2[x] < 0 by {
            assert(l.registered[x]);
        }
        assert forall|x: int, y: int|
            0 <= x < o2.len() && 0 <= y < o2.len() && x != y && (#[trigger] registered2[x]) && (
            #[trigger] registered2[y]) implies !same_shape(o2[x], o2[y]) by {
            assert(l.registered[x] && l.registered[y]);
            assert(o2[x] == o[x] && o2[y] == o[y]);
        }
        assert forall|x: int, e: int| 0 <= x < o2.len() && 0 <= e < o2[x].edges@.len() implies depth2[(
        #[trigger] o2[x].edges@[e]).target as int] >= 0 || registered2[o2[x].edges@[e].target as int] by {
            if x < o.len() && e < o[x].edges@.len() {
                assert(o2[x].edges@[e] == o[x].edges@[e]);
                assert(o[x].edges@[e].target < o.len());
            }
        }
    }
    assert(alive_ok(o2, depth2)) by {
        assert forall|x: int, r: Seq<char>| 0 <= x < o.len() && #[trigger] lang_from(o, x, r, false) implies lang_from(
            o2,
            x,
            r,
            false,
        ) by {
            assert forall|e: int| 0 <= e < o[tip].edges@.len() implies #[trigger] o2[tip].edges@[e] == o[tip].edges@[e] by {}
            lemma_dead_edge(o, o2, tip, x, r);
        }
        lemma_alive_kept(o, o2, l.depth, depth2);
    }
    assert(index_ok(o2, register, registered2)) by {
        reveal(index_ok);
        reveal(register_ok);
        assert forall|key: Seq<char>, i: int|
            register.dom().contains(key) && 0 <= i < register[key]@.len() implies (#[trigger] register[key]@[i]) < o2.len()
            && registered2[register[key]@[i] as int] && o2[register[key]@[i] as int].text() == key by {
            let x = register[key]@[i] as int;
            assert(l.registered[x]);
            assert(l.depth[x] < 0);
            assert(o2[x] == o[x]);
        }
        assert forall|x: int| 0 <= x < o2.len() && (#[trigger] registered2[x]) implies register.dom().contains(o2[x].text())
            && register[o2[x].text()]@.contains(x as usize) by {
            assert(l.registered[x]);
            assert(l.depth[x] < 0);
            assert(o2[x] == o[x]);
        }
    }
}

/// The builder stays sound when the flag of a state of the chain is raised.
proof fn lemma_flag_raised(
    o: Seq<TokenSetNode>,
    o2: Seq<TokenSetNode>,
    prev: Seq<char>,
    chain: Seq<UncheckedNodes>,
    register: Map<Seq<char>, Vec<usize>>,
    l: Ledger,
    tip: int,
)
    requires
        builder_ok(o, prev, chain, register, l),
        0 <= tip < o.len(),
        l.depth[tip] >= 0,
        o2.len() == o.len(),
        forall|x: int| 0 <= x < o.len() && x != tip ==> #[trigger] o2[x] == o[x],
        o2[tip].edges@ == o[tip].edges@,
        o2[tip].last,
    ensures
        builder_ok(o2, prev, chain, register, l),
{
    assert forall|x: int| 0 <= x < o.len() implies (#[trigger] o2[x]).edges@ == o[x].edges@ by {}
    assert(chain_ok(o2, prev, chain, l.depth)) by {
        reveal(chain_ok);
    }
    assert(reach_ok(o2, chain, l.depth)) by {
        reveal(reach_ok);
    }
    assert(settled_ok(o2, l.depth, l.settled_at, l.clock)) by {
        reveal(settled_ok);
    }
    assert(labels_ok(o2, prev, l.depth)) by {
        reveal(labels_ok);
    }
    assert(register_ok(o2, l.depth, l.registered)) by {
        reveal(register_ok);
        assert forall|x: int, y: int|
            0 <= x < o2.len() && 0 <= y < o2.len() && x != y && (#[trigger] l.registered[x]) && (
            #[trigger] l.registered[y]) implies !same_shape(o2[x], o2[y]) by {
            assert(o2[x] == o[x] && o2[y] == o[y]);
        }
    }
    assert(alive_ok(o2, l.depth)) by {
        assert forall|x: int, r: Seq<char>| 0 <= x < o.len() && #[trigger] lang_from(o, x, r, false) implies lang_from(
            o2,
            x,
            r,
            false,
        ) by {
            lemma_mark(o, o2, tip, x, r);
        }
        lemma_alive_kept(o, o2, l.depth, l.depth);
    }
    assert(index_ok(o2, register, l.registered)) by {
        reveal(index_ok);
        reveal(register_ok);
        assert forall|key: Seq<char>, i: int|
            register.dom().contains(key) && 0 <= i < register[key]@.len() implies (#[trigger] register[key]@[i]) < o2.len()
            && l.registered[register[key]@[i] as int] && o2[register[key]@[i] as int].text() == key by {
            let x = register[key]@[i] as int;
            assert(l.registered[x]);
            assert(o2[x] == o[x]);
        }
        assert forall|x: int| 0 <= x < o2.len() && (#[trigger] l.registered[x]) implies register.dom().contains(
            o2[x].text(),
        ) && register[o2[x].text()]@.contains(x as usize) by {
            assert(o2[x] == o[x]);
        }
    }
}

/// A string leads from a state of the chain to the end of the chain exactly
/// if it is the rest of the word from that state's depth on; no string
/// leads there from a settled state.
proof fn lemma_leads_to_tip(
    o: Seq<TokenSetNode>,
    word: Seq<char>,
    chain: Seq<UncheckedNodes>,
    depth: Seq<int>,
    tip: int,
    x: int,
    r: Seq<char>,
)
    requires
        nodes_wf(o),
        chain_ok(o, word, chain, depth),
        reach_ok(o, chain, depth),
        chain.len() == word.len(),
        0 <= tip < o.len(),
        depth[tip] == chain.len(),
        0 <= x < o.len(),
    ensures
        leads(o, x, r, tip) == (depth[x] >= 0 && r == word.skip(depth[x])),
    decreases r.len(),
{
    reveal(chain_ok);
    reveal(reach_ok);
    let n = chain.len() as int;
    let d = depth[x];
    if r.len() == 0 {
        if x == tip {
            assert(word.skip(n) =~= r);
        }
        if d >= 0 && r == word.skip(d) {
            assert(d == n);
            assert(depth[x] == depth[tip]);
        }
    } else {
        if leads(o, x, r, tip) {
            let e = choose|i: int|
                0 <= i < o[x].edges@.len() && (#[trigger] o[x].edges@[i]).label == r[0] && leads(
                    o,
                    o[x].edges@[i].target as int,
                    r.drop_first(),
                    tip,
                );
            let t = o[x].edges@[e].target as int;
            assert(t < o.len());
            lemma_leads_to_tip(o, word, chain, depth, tip, t, r.drop_first());
            assert(depth[t] >= 0);
            assert(0 <= d < n && e == o[x].edges@.len() - 1 && depth[t] == d + 1);
            let u = chain[d];
            assert(depth[u.parent as int] == d);
            assert(u.parent == x);
            assert(o[x].edges@[e] == (Edge { label: u.c, target: u.child }));
            assert(r =~= word.skip(d)) by {
                assert(r.drop_first() == word.skip(d + 1));
                assert(r[0] == word[d]);
                assert forall|i: int| 0 <= i < r.len() implies r[i] == word.skip(d)[i] by {
                    if i > 0 {
                        assert(r[i] == r.drop_first()[i - 1]);
                    }
                }
            }
        }
        if d >= 0 && r == word.skip(d) {
            assert(d < n);
            let u = chain[d];
            assert(depth[u.parent as int] == d);
            assert(u.parent == x);
            let e = o[x].edges@.len() - 1;
            assert(o[x].edges@[e] == (Edge { label: u.c, target: u.child }));
            assert(r.drop_first() =~= word.skip(d + 1));
            lemma_leads_to_tip(o, word, chain, depth, tip, u.child as int, r.drop_first());
            assert(leads(o, u.child as int, r.drop_first(), tip));
            assert(o[x].edges@[e].label == r[0]);
        }
    }
}

impl TokenSetBuilder {
    /// Settles the states of the chain from its end down to depth `down_to`.
    pub fn minimize(&mut self, down_to: usize)
        requires
            old(self).wf(),
        ensures
            final(self).wf(),
            final(self).prev() == old(self).prev(),
            final(self).pending() == if old(self).pending() < down_to {
                old(self).pending()
            } else {
                down_to as nat
            },
            forall|w: Seq<char>| final(self).accepts(w) == old(self).accepts(w),
    {
        while self.unchecked_nodes.len() > down_to
            invariant
                self.wf(),
                self.prev() == old(self).prev(),
                self.pending() <= old(self).pending(),
                old(self).pending() >= down_to ==> self.pending() >= down_to,
                old(self).pending() < down_to ==> self.pending() == old(self).pending(),
                forall|w: Seq<char>| self.accepts(w) == old(self).accepts(w),
            decreases self.unchecked_nodes@.len(),
        {
            self.settle_last();
        }
    }

    /// Settles all states of the chain. No word can be added afterwards,
    /// unless the word added last was the empty one.
    pub fn finish(&mut self)
        requires
            old(self).wf(),
        ensures
            final(self).wf(),
            final(self).prev() == old(self).prev(),
            final(self).pending() == 0,
            forall|w: Seq<char>| final(self).accepts(w) == old(self).accepts(w),
    {
        self.minimize(0);
    }

    /// Adds `word`, which must not come before the word added last.
    pub fn insert(&mut self, word: &str)
        requires
            old(self).wf(),
            old(self).pending() == old(self).prev().len(),
            lex_le(old(self).prev(), word@),
        ensures
            final(self).wf(),
            final(self).prev() == word@,
            final(self).pending() == word@.len(),
            forall|w: Seq<char>| final(self).accepts(w) == (old(self).accepts(w) || w == word@),
    {
        let chars = chars_of(word);
        let ghost wd = word@;
        let ghost old_prev = self.prev_word@;
        let n = chars.len();
        let mut cp: usize = 0;
        assert(old_prev.subrange(0, 0) =~= wd.subrange(0, 0));
        while cp < n && cp < self.prev_word.len() && char_at(&chars, cp) == char_at(&self.prev_word, cp)
            invariant
                chars@ == wd,
                n == wd.len(),
                self.prev_word@ == old_prev,
                cp <= n,
                cp <= old_prev.len(),
                differ_at(old_prev, wd, cp as int),
            decreases n - cp,
        {
            cp += 1;
            assert(old_prev.subrange(0, cp as int) =~= old_prev.subrange(0, cp - 1).push(old_prev[cp - 1]));
            assert(wd.subrange(0, cp as int) =~= wd.subrange(0, cp - 1).push(wd[cp - 1]));
        }
        self.minimize(cp);
        let mut node: usize = if self.unchecked_nodes.len() == 0 {
            0
        } else {
            self.unchecked_nodes[self.unchecked_nodes.len() - 1].child
        };
        self.prev_word = copy_chars(&chars);
        proof {
            lemma_next_word(self.nodes@, old_prev, wd, self.unchecked_nodes@, self.minimized_nodes@, self.ledger@);
            reveal(chain_ok);
            assert(self.unchecked_nodes@.len() == cp);
            if self.unchecked_nodes@.len() > 0 {
                let u = self.unchecked_nodes@[self.unchecked_nodes@.len() - 1];
                assert(self.ledger@.depth[u.child as int] == cp);
            }
            assert(self.ledger@.depth[node as int] == cp);
            assert(0 <= node < self.nodes@.len() && self.ledger@.depth[node as int] == self.unchecked_nodes@.len());
        }
        let mut i: usize = cp;
        while i < n
            invariant
                chars@ == wd,
                n == wd.len(),
                cp <= i <= n,
                self.prev_word@ == wd,
                builder_ok(self.nodes@, self.prev_word@, self.unchecked_nodes@, self.minimized_nodes@, self.ledger@),
                self.unchecked_nodes@.len() == i,
                node < self.nodes@.len(),
                self.ledger@.depth.len() == self.nodes@.len(),
                self.ledger@.depth[node as int] == i,
                nodes_sorted(self.nodes@),
                forall|e: int|
                    0 <= e < self.nodes@[node as int].edges@.len() ==> char_lt(
                        (#[trigger] self.nodes@[node as int].edges@[e]).label,
                        wd[i as int],
                    ),
                forall|w: Seq<char>| self.accepts(w) == old(self).accepts(w),
            decreases n - i,
        {
            let c = char_at(&chars, i);
            let ghost o = self.nodes@;
            let ghost chain = self.unchecked_nodes@;
            let ghost l = self.ledger@;
            let next = self.nodes.len();
            self.nodes.push(TokenSetNode::new());
            let ghost o1 = self.nodes@;
            push_edge(&mut self.nodes, node, Edge { label: c, target: next });
            self.unchecked_nodes.push(UncheckedNodes { parent: node, c, child: next });
            self.ledger = Ghost(
                Ledger {
                    depth: l.depth.push((chain.len() + 1) as int),
                    settled_at: l.settled_at.push(0),
                    clock: l.clock,
                    registered: l.registered.push(false),
                },
            );
            proof {
                let o2 = self.nodes@;
                assert forall|x: int| 0 <= x < o.len() && x != node implies #[trigger] o2[x] == o[x] by {
                    assert(o2[x] == o1[x]);
                }
                assert(o2[next as int] == o1[next as int]);
                assert(o1[node as int] == o[node as int]);
                lemma_chain_grows(o, o2, wd, chain, self.minimized_nodes@, l, node as int, c);
                assert(nodes_sorted(o2)) by {
                    assert forall|x: int, e: int, f: int| 0 <= x < o2.len() && 0 <= e < f < o2[x].edges@.len() implies char_lt(
                        (#[trigger] o2[x].edges@[e]).label,
                        (#[trigger] o2[x].edges@[f]).label,
                    ) by {
                        if x == node {
                            assert(o2[x].edges@[e] == o[x].edges@[e]);
                            if f < o[x].edges@.len() {
                                assert(o2[x].edges@[f] == o[x].edges@[f]);
                            }
                        } else {
                            assert(o2[x] == o[x]);
                        }
                    }
                }
                assert forall|w: Seq<char>| lang_from(o2, 0, w, false) == lang_from(o, 0, w, false) by {
                    assert forall|e: int| 0 <= e < o[node as int].edges@.len() implies #[trigger] o2[node as int].edges@[e]
                        == o[node as int].edges@[e] by {}
                    lemma_dead_edge(o, o2, node as int, 0, w);
                }
            }
            node = next;
            i += 1;
        }
        let ghost o = self.nodes@;
        set_last(&mut self.nodes, node, true);
        proof {
            let o2 = self.nodes@;
            lemma_flag_raised(
                o,
                o2,
                wd,
                self.unchecked_nodes@,
                self.minimized_nodes@,
                self.ledger@,
                node as int,
            );
            assert forall|w: Seq<char>| lang_from(o2, 0, w, false) == (lang_from(o, 0, w, false) || w == wd) by {
                lemma_mark(o, o2, node as int, 0, w);
                lemma_leads_to_tip(o, wd, self.unchecked_nodes@, self.ledger@.depth, node as int, 0, w);
                reveal(chain_ok);
                assert(wd.skip(0) =~= wd);
            }
            assert(nodes_sorted(o2)) by {
                assert forall|x: int, e: int, f: int| 0 <= x < o2.len() && 0 <= e < f < o2[x].edges@.len() implies char_lt(
                    (#[trigger] o2[x].edges@[e]).label,
                    (#[trigger] o2[x].edges@[f]).label,
                ) by {
                    assert(o2[x].edges@ == o[x].edges@);
                }
            }
            assert(tip_ok(o2, self.unchecked_nodes@)) by {
                reveal(chain_ok);
                if self.unchecked_nodes@.len() > 0 {
                    let u = self.unchecked_nodes@[self.unchecked_nodes@.len() - 1];
                    assert(self.ledger@.depth[u.child as int] == self.ledger@.depth[node as int]);
                    assert(u.child == node);
                }
            }
        }
    }

    /// The automaton of the words added so far.
    pub fn into_set(self) -> (set: TokenSet)
        requires
            self.wf(),
        ensures
            set.wf(),
            set.is_acyclic(),
            forall|w: Seq<char>| set.accepts(w) == self.accepts(w),
            nodes_sorted(set@),
            self.pending() == 0 ==> nodes_minimized(set@) && nodes_trim(set@),
    {
        let ghost o = self.nodes@;
        let ghost l = self.ledger@;
        let ghost chain = self.unchecked_nodes@;
        proof {
            reveal(chain_ok);
            reveal(reach_ok);
            reveal(settled_ok);
            reveal(register_ok);
            let n = chain.len() as int;
            let rank = Seq::<nat>::new(
                o.len(),
                |x: int|
                    if l.depth[x] < 0 {
                        l.settled_at[x]
                    } else {
                        (l.clock + n - l.depth[x]) as nat
                    },
            );
            assert forall|x: int, e: int|
                0 <= x < o.len() && 0 <= e < o[x].edges@.len() && (#[trigger] o[x].edges@[e]).target
                    < o.len() implies rank[o[x].edges@[e].target as int] < rank[x] by {
                let t = o[x].edges@[e].target as int;
                assert(l.depth[x] <= n);
                assert(l.depth[t] <= n);
                if l.depth[t] >= 0 {
                    assert(l.depth[t] == l.depth[x] + 1);
                } else if l.depth[x] >= 0 {
                    assert(l.settled_at[t] < l.clock);
                }
            }
            assert(ranked(o, rank));
            if chain.len() == 0 {
                assert forall|x: int, e: int, y: int, f: int|
                    0 <= x < o.len() && 0 <= e < o[x].edges@.len() && 0 <= y < o.len() && 0 <= f < o[y].edges@.len() && (
                    #[trigger] o[x].edges@[e]).target != (#[trigger] o[y].edges@[f]).target && o[x].edges@[e].target
                        < o.len() && o[y].edges@[f].target < o.len() implies !same_shape(
                    o[o[x].edges@[e].target as int],
                    o[o[y].edges@[f].target as int],
                ) by {
                    let t = o[x].edges@[e].target as int;
                    let v = o[y].edges@[f].target as int;
                    assert(l.depth[t] < 0);
                    assert(l.depth[v] < 0);
                    assert(l.registered[t] && l.registered[v]);
                }
                assert forall|x: int| 0 < x < o.len() implies #[trigger] reaches_end(o, x) by {
                    reveal(alive_ok);
                    assert(l.depth[x] <= 0);
                    if l.depth[x] == 0 {
                        assert(l.depth[x] == l.depth[0]);
                    }
                }
                assert forall|x: int, e: int| 0 <= x < o.len() && 0 <= e < o[x].edges@.len() implies (
                #[trigger] o[x].edges@[e]).target != 0 by {
                    let t = o[x].edges@[e].target as int;
                    assert(l.depth[t] < 0);
                }
            }
        }
        TokenSet::from_nodes(self.nodes)
    }
}

/// Whether the words come in ascending order.
pub open spec fn ascending(words: Seq<String>) -> bool {
    forall|i: int, j: int| 0 <= i <= j < words.len() ==> lex_le(#[trigger] words[i]@, #[trigger] words[j]@)
}

pub proof fn lemma_lex_le_empty(b: Seq<char>)
    ensures
        lex_le(Seq::<char>::empty(), b),
{
    assert(Seq::<char>::empty().subrange(0, 0) =~= b.subrange(0, 0));
    assert(differ_at(Seq::<char>::empty(), b, 0));
}

impl TokenSet {
    /// The minimized automaton of a vocabulary whose words come in ascending
    /// order. A word may come more than once. The automaton holds no part
    /// twice and no dead end, and every state has its edges in the order of
    /// their labels, so that two beginnings of words that can be ended by
    /// the same strings lead to the same state.
    pub fn from_array(tokens: &Vec<String>) -> (set: TokenSet)
        requires
            ascending(tokens@),
        ensures
            set.wf(),
            set.is_acyclic(),
            forall|w: Seq<char>| set.accepts(w) <==> listed(tokens@, w),
            nodes_minimized(set@),
            nodes_trim(set@),
            nodes_sorted(set@),
    {
        let mut builder = TokenSetBuilder::new();
        let mut i: usize = 0;
        while i < tokens.len()
            invariant
                i <= tokens@.len(),
                ascending(tokens@),
                builder.wf(),
                builder.pending() == builder.prev().len(),
                i == 0 ==> builder.prev().len() == 0,
                i > 0 ==> builder.prev() == tokens@[i - 1]@,
                forall|w: Seq<char>|
                    builder.accepts(w) <==> exists|j: int| 0 <= j < i && (#[trigger] tokens@[j])@ == w,
            decreases tokens@.len() - i,
        {
            let ghost before = builder;
            proof {
                if i == 0 {
                    assert(builder.prev() =~= Seq::<char>::empty());
                    lemma_lex_le_empty(tokens@[0]@);
                } else {
                    assert(lex_le(tokens@[i - 1]@, tokens@[i as int]@));
                }
            }
            builder.insert(tokens[i].as_str());
            proof {
                assert forall|w: Seq<char>| builder.accepts(w) <==> exists|j: int|
                    0 <= j < i + 1 && (#[trigger] tokens@[j])@ == w by {
                    if builder.accepts(w) {
                        if before.accepts(w) {
                            let j = choose|j: int| 0 <= j < i && (#[trigger] tokens@[j])@ == w;
                            assert(0 <= j < i + 1 && tokens@[j]@ == w);
                        } else {
                            assert(tokens@[i as int]@ == w);
                        }
                    }
                    if exists|j: int| 0 <= j < i + 1 && (#[trigger] tokens@[j])@ == w {
                        let j = choose|j: int| 0 <= j < i + 1 && (#[trigger] tokens@[j])@ == w;
                        if j < i {
                            assert(before.accepts(w));
                        }
                    }
                }
            }
            i += 1;
        }
        builder.finish();
        builder.into_set()
    }
}

/// The order of the dictionary hands on: what is not behind a second
/// string, which is not behind a third, is not behind the third.
pub proof fn lemma_lex_le_transitive(a: Seq<char>, b: Seq<char>, c: Seq<char>)
    requires
        lex_le(a, b),
        lex_le(b, c),
    ensures
        lex_le(a, c),
{
    let i = choose|k: int| #[trigger] differ_at(a, b, k) && (k == a.len() || (k < b.len() && char_lt(a[k], b[k])));
    let j = choose|k: int| #[trigger] differ_at(b, c, k) && (k == b.len() || (k < c.len() && char_lt(b[k], c[k])));
    let k = if i <= j {
        i
    } else {
        j
    };
    assert(a.subrange(0, k) =~= c.subrange(0, k)) by {
        assert forall|m: int| 0 <= m < k implies a[m] == c[m] by {
            assert(a.subrange(0, i)[m] == b.subrange(0, i)[m]);
            assert(b.subrange(0, j)[m] == c.subrange(0, j)[m]);
        }
    }
    assert(differ_at(a, c, k));
    if i <= j {
        if i < a.len() && i < j {
            assert(b.subrange(0, j)[i] == c.subrange(0, j)[i]);
        }
    } else {
        assert(a.subrange(0, i)[j] == b.subrange(0, i)[j]);
    }
}

/// Every string is itself.
pub proof fn lemma_lex_le_reflexive(a: Seq<char>)
    ensures
        lex_le(a, a),
{
    assert(differ_at(a, a, a.len() as int));
}

/// Whether `a` is `b` or comes before it in the dictionary.
pub fn comes_first(a: &str, b: &str) -> (first: bool)
    ensures
        first == lex_le(a@, b@),
        !first ==> lex_le(b@, a@),
{
    let x = chars_of(a);
    let y = chars_of(b);
    let mut k: usize = 0;
    assert(x@.subrange(0, 0) =~= y@.subrange(0, 0));
    while k < x.len() && k < y.len() && char_at(&x, k) == char_at(&y, k)
        invariant
            x@ == a@,
            y@ == b@,
            k <= x@.len(),
            k <= y@.len(),
            differ_at(x@, y@, k as int),
        decreases x@.len() - k,
    {
        k += 1;
        assert(x@.subrange(0, k as int) =~= x@.subrange(0, k - 1).push(x@[k - 1]));
        assert(y@.subrange(0, k as int) =~= y@.subrange(0, k - 1).push(y@[k - 1]));
    }
    let first = if k == x.len() {
        true
    } else if k == y.len() {
        false
    } else {
        (char_at(&x, k) as u32) < (char_at(&y, k) as u32)
    };
    proof {
        assert(differ_at(y@, x@, k as int));
        if !first {
            if k < y@.len() {
                assert(x@[k as int] != y@[k as int]);
                assert(char_lt(y@[k as int], x@[k as int]));
            }
            if lex_le(x@, y@) {
                lemma_lex_at_split(x@, y@, k as int);
            }
        }
    }
    first
}

/// The characters of each word.
pub open spec fn texts(words: Seq<String>) -> Seq<Seq<char>> {
    Seq::new(words.len(), |i: int| words[i]@)
}

/// The words in the order of the dictionary. Every word is kept, as often
/// as it came.
pub fn sorted(words: &Vec<String>) -> (out: Vec<String>)
    ensures
        ascending(out@),
        texts(out@).to_multiset() == texts(words@).to_multiset(),
        out@.len() == words@.len(),
        forall|w: Seq<char>| listed(out@, w) == listed(words@, w),
{
    let mut out: Vec<String> = Vec::new();
    let mut i: usize = 0;
    proof {
        assert(texts(out@) =~= texts(words@.subrange(0, 0)));
    }
    while i < words.len()
        invariant
            i <= words@.len(),
            out@.len() == i,
            ascending(out@),
            texts(out@).to_multiset() == texts(words@.subrange(0, i as int)).to_multiset(),
            forall|w: Seq<char>| #![trigger listed(out@, w)]
                listed(out@, w) == exists|j: int| 0 <= j < i && (#[trigger] words@[j])@ == w,
        decreases words@.len() - i,
    {
        let word = words[i].clone();
        let ghost before = out@;
        let mut pos: usize = 0;
        while pos < out.len() && comes_first(out[pos].as_str(), word.as_str())
            invariant
                out@ == before,
                pos <= before.len(),
                forall|j: int| 0 <= j < pos ==> lex_le((#[trigger] before[j])@, word@),
            decreases before.len() - pos,
        {
            pos += 1;
        }
        out.insert(pos, word);
        proof {
            let after = out@;
            assert(after == before.insert(pos as int, word));
            assert(texts(after) =~= texts(before).insert(pos as int, word@));
            assert(texts(words@.subrange(0, i + 1)) =~= texts(words@.subrange(0, i as int)).push(word@));
            vstd::seq_lib::to_multiset_insert(texts(before), pos as int, word@);
            vstd::seq_lib::to_multiset_build(texts(words@.subrange(0, i as int)), word@);
            assert forall|a: int, b: int| 0 <= a <= b < after.len() implies lex_le(
                #[trigger] after[a]@,
                #[trigger] after[b]@,
            ) by {
                if a == b {
                    lemma_lex_le_reflexive(after[a]@);
                } else if b < pos {
                    assert(lex_le(before[a]@, before[b]@));
                } else if b == pos {
                    assert(lex_le(before[a]@, word@));
                } else if a < pos {
                    assert(lex_le(before[a]@, before[b - 1]@));
                } else if a == pos {
                    assert(lex_le(word@, before[pos as int]@));
                    assert(lex_le(before[pos as int]@, before[b - 1]@));
                    lemma_lex_le_transitive(word@, before[pos as int]@, before[b - 1]@);
                } else {
                    assert(lex_le(before[a - 1]@, before[b - 1]@));
                }
            }
            assert forall|w: Seq<char>| #![trigger listed(after, w)]
                listed(after, w) == exists|j: int| 0 <= j < i + 1 && (#[trigger] words@[j])@ == w by {
                assert(listed(before, w) == exists|j: int| 0 <= j < i && (#[trigger] words@[j])@ == w);
                if listed(after, w) {
                    let m = choose|m: int| 0 <= m < after.len() && (#[trigger] after[m])@ == w;
                    if m < pos {
                        assert(before[m]@ == w);
                        assert(listed(before, w));
                    } else if m > pos {
                        assert(before[m - 1]@ == w);
                        assert(listed(before, w));
                    } else {
                        assert(words@[i as int]@ == w);
                    }
                    if listed(before, w) {
                        let j = choose|j: int| 0 <= j < i && (#[trigger] words@[j])@ == w;
                        assert(0 <= j < i + 1 && words@[j]@ == w);
                    }
                }
                if exists|j: int| 0 <= j < i + 1 && (#[trigger] words@[j])@ == w {
                    let j = choose|j: int| 0 <= j < i + 1 && (#[trigger] words@[j])@ == w;
                    if j < i {
                        assert(listed(before, w));
                        let m = choose|m: int| 0 <= m < before.len() && (#[trigger] before[m])@ == w;
                        let m2 = if m < pos {
                            m
                        } else {
                            m + 1
                        };
                        assert(after[m2]@ == w);
                    } else {
                        assert(after[pos as int]@ == w);
                    }
                }
            }
        }
        i += 1;
    }
    proof {
        assert(words@.subrange(0, i as int) =~= words@);
        assert forall|w: Seq<char>| listed(out@, w) == listed(words@, w) by {
            if listed(words@, w) {
                let j = choose|j: int| 0 <= j < words@.len() && (#[trigger] words@[j])@ == w;
                assert(0 <= j < i && words@[j]@ == w);
            }
        }
    }
    out
}

/// Whether the words come in ascending order.
pub fn is_ascending(words: &Vec<String>) -> (ordered: bool)
    ensures
        ordered == ascending(words@),
{
    let mut i: usize = 1;
    proof {
        if words@.len() > 0 {
            lemma_lex_le_reflexive(words@[0]@);
        }
    }
    while i < words.len()
        invariant
            1 <= i,
            forall|a: int, b: int| 0 <= a <= b < i && b < words@.len() ==> lex_le(
                #[trigger] words@[a]@,
                #[trigger] words@[b]@,
            ),
        decreases words@.len() - i,
    {
        if !comes_first(words[i - 1].as_str(), words[i].as_str()) {
            assert(!lex_le(words@[i - 1]@, words@[i as int]@));
            return false;
        }
        proof {
            assert forall|a: int, b: int| 0 <= a <= b < i + 1 && b < words@.len() implies lex_le(
                #[trigger] words@[a]@,
                #[trigger] words@[b]@,
            ) by {
                if b == i {
                    if a == i {
                        lemma_lex_le_reflexive(words@[a]@);
                    } else {
                        assert(lex_le(words@[a]@, words@[i - 1]@));
                        lemma_lex_le_transitive(words@[a]@, words@[i - 1]@, words@[i as int]@);
                    }
                }
            }
        }
        i += 1;
    }
    proof {
        assert forall|a: int, b: int| 0 <= a <= b < words@.len() implies lex_le(
            #[trigger] words@[a]@,
            #[trigger] words@[b]@,
        ) by {}
    }
    true
}

} // verus!
