//! What holds of every automaton, and of the automata that the constructors make.

use vstd::prelude::*;
use crate::token::{
    Edge, TokenSet, TokenSetNode, label_fits, lang_from, lemma_edge_witness, nodes_wf, pattern_fits, ranked, takes_edge,
    WILDCARD,
};
use crate::token::builder::{char_lt, leads, nodes_minimized, nodes_sorted, nodes_trim, reaches_end, same_shape};
use crate::token::fuzzy::{after_swap, fuzzy_reads};
use crate::token::pattern::glob_reads;
use crate::token::walk::listed;

verus! {

/// A state reads `w` as a pattern exactly if it reads, as plain strings, some
/// pattern that fits `w`.
pub proof fn lemma_pattern_reading(nodes: Seq<TokenSetNode>, n: int, w: Seq<char>)
    ensures
        lang_from(nodes, n, w, true) <==> exists|p: Seq<char>| lang_from(nodes, n, p, false) && #[trigger] pattern_fits(p, w),
    decreases w.len(),
{
    if lang_from(nodes, n, w, true) {
        if w.len() == 0 {
            assert(pattern_fits(w, w));
        } else {
            let i = lemma_edge_witness(nodes, n, w, true);
            let t = nodes[n].edges@[i].target as int;
            let label = nodes[n].edges@[i].label;
            lemma_pattern_reading(nodes, t, w.drop_first());
            let rest = choose|p: Seq<char>| lang_from(nodes, t, p, false) && #[trigger] pattern_fits(p, w.drop_first());
            let p = seq![label] + rest;
            assert(p.drop_first() =~= rest);
            assert(takes_edge(nodes, n, i, p, false));
            assert forall|j: int| 0 <= j < p.len() implies label_fits(#[trigger] p[j], w[j], true) by {
                if j > 0 {
                    assert(p[j] == rest[j - 1]);
                    assert(w[j] == w.drop_first()[j - 1]);
                }
            }
            assert(pattern_fits(p, w));
        }
    }
    if exists|p: Seq<char>| lang_from(nodes, n, p, false) && #[trigger] pattern_fits(p, w) {
        let p = choose|p: Seq<char>| lang_from(nodes, n, p, false) && #[trigger] pattern_fits(p, w);
        if p.len() > 0 {
            let i = lemma_edge_witness(nodes, n, p, false);
            let t = nodes[n].edges@[i].target as int;
            lemma_pattern_reading(nodes, t, w.drop_first());
            assert forall|j: int| 0 <= j < p.drop_first().len() implies label_fits(
                #[trigger] p.drop_first()[j],
                w.drop_first()[j],
                true,
            ) by {
                assert(p.drop_first()[j] == p[j + 1]);
            }
            assert(pattern_fits(p.drop_first(), w.drop_first()));
            assert(label_fits(p[0], w[0], true));
            assert(takes_edge(nodes, n, i, w, true));
        }
    }
}

/// An automaton matches `w` exactly if it accepts a pattern that fits `w`:
/// a string of the same length that has, at each place, the character of
/// `w` or `*`.
pub proof fn lemma_matches_fitting(set: TokenSet, w: Seq<char>)
    ensures
        set.matches(w) <==> exists|p: Seq<char>| set.accepts(p) && #[trigger] pattern_fits(p, w),
{
    lemma_pattern_reading(set@, 0, w);
}

/// A string that an automaton accepts is also matched by it.
pub proof fn lemma_accepted_is_matched(set: TokenSet, w: Seq<char>)
    requires
        set.accepts(w),
    ensures
        set.matches(w),
{
    lemma_pattern_reading(set@, 0, w);
    assert(pattern_fits(w, w));
}

/// A source without `*` stands for itself only.
pub proof fn lemma_literal_glob(src: Seq<char>, from: int, p: Seq<char>)
    requires
        !src.contains(WILDCARD),
        0 <= from <= src.len(),
    ensures
        glob_reads(src, from, p) <==> p == src.skip(from),
    decreases src.len() - from,
{
    if from >= src.len() {
        assert(src.skip(from) =~= Seq::<char>::empty());
        if p.len() == 0 {
            assert(p =~= Seq::<char>::empty());
        }
    } else {
        assert(src[from] != WILDCARD);
        lemma_literal_glob(src, from + 1, p.drop_first());
        if p.len() > 0 && p[0] == src[from] && p.drop_first() == src.skip(from + 1) {
            assert(p =~= src.skip(from)) by {
                assert forall|i: int| 0 <= i < p.len() implies p[i] == src.skip(from)[i] by {
                    if i > 0 {
                        assert(p[i] == p.drop_first()[i - 1]);
                    }
                }
            }
        }
        if p == src.skip(from) {
            assert(p.drop_first() =~= src.skip(from + 1));
        }
    }
}

/// The automaton of a non-empty source without `*` accepts that source and
/// nothing else, and matches nothing else either.
pub proof fn lemma_literal_language(set: TokenSet, src: Seq<char>, w: Seq<char>)
    requires
        !src.contains(WILDCARD),
        forall|p: Seq<char>| set.accepts(p) <==> (src.len() > 0 && glob_reads(src, 0, p)),
    ensures
        set.accepts(w) <==> (src.len() > 0 && w == src),
        set.matches(w) <==> (src.len() > 0 && w == src),
{
    lemma_literal_glob(src, 0, w);
    assert(src.skip(0) =~= src);
    lemma_matches_fitting(set, w);
    if set.matches(w) {
        let p = choose|p: Seq<char>| set.accepts(p) && #[trigger] pattern_fits(p, w);
        lemma_literal_glob(src, 0, p);
        assert(p == src);
        assert(w =~= src) by {
            assert forall|i: int| 0 <= i < w.len() implies w[i] == src[i] by {
                assert(label_fits(p[i], w[i], true));
                if p[i] == WILDCARD {
                    assert(src.contains(WILDCARD));
                }
            }
        }
    }
    if src.len() > 0 && w == src {
        assert(set.accepts(src));
        assert(pattern_fits(src, w));
    }
}

/// Intersecting an automaton with itself gives back its own strings, as
/// long as the empty string is not among them: the intersection `out` of
/// `a` with `a` accepts what `a` accepts.
pub proof fn lemma_intersect_self(a: TokenSet, out: TokenSet)
    requires
        !a.accepts(Seq::<char>::empty()),
        forall|w: Seq<char>| out.accepts(w) <==> (w.len() > 0 && a.accepts(w) && a.matches(w)),
    ensures
        forall|w: Seq<char>| out.accepts(w) <==> a.accepts(w),
{
    assert forall|w: Seq<char>| out.accepts(w) <==> a.accepts(w) by {
        if a.accepts(w) {
            lemma_accepted_is_matched(a, w);
            if w.len() == 0 {
                assert(w =~= Seq::<char>::empty());
            }
        }
    }
}

/// A list without repetitions that holds exactly one string has one entry.
pub proof fn lemma_single_listing(words: Seq<String>, s: Seq<char>)
    requires
        forall|w: Seq<char>| listed(words, w) <==> w == s,
        forall|i: int, j: int| 0 <= i < j < words.len() ==> words[i]@ != words[j]@,
    ensures
        words.len() == 1,
        words[0]@ == s,
{
    assert(listed(words, s));
    let i = choose|i: int| 0 <= i < words.len() && (#[trigger] words[i])@ == s;
    if words.len() > 1 {
        let j = if i == 0 {
            1int
        } else {
            0int
        };
        assert(listed(words, words[j]@));
    }
    assert(listed(words, words[0]@));
}

/// For the automaton `a` of a non-empty source without `*`, the list of the
/// strings of `a` intersected with itself is the list of the strings of `a`:
/// both hold the source and nothing else. Here `out` is the intersection of
/// `a` with `a`, and `listed_a` and `listed_out` are the lists of the two.
pub proof fn lemma_intersection_identity(
    a: TokenSet,
    out: TokenSet,
    src: Seq<char>,
    listed_a: Seq<String>,
    listed_out: Seq<String>,
)
    requires
        src.len() > 0,
        !src.contains(WILDCARD),
        forall|p: Seq<char>| a.accepts(p) <==> (src.len() > 0 && glob_reads(src, 0, p)),
        forall|w: Seq<char>| out.accepts(w) <==> (w.len() > 0 && a.accepts(w) && a.matches(w)),
        forall|w: Seq<char>| a.accepts(w) <==> listed(listed_a, w),
        forall|i: int, j: int| 0 <= i < j < listed_a.len() ==> listed_a[i]@ != listed_a[j]@,
        forall|w: Seq<char>| out.accepts(w) <==> listed(listed_out, w),
        forall|i: int, j: int| 0 <= i < j < listed_out.len() ==> listed_out[i]@ != listed_out[j]@,
    ensures
        listed_a.len() == 1,
        listed_out.len() == 1,
        listed_a[0]@ == src,
        listed_out[0]@ == src,
{
    assert forall|w: Seq<char>| listed(listed_a, w) <==> w == src by {
        lemma_literal_language(a, src, w);
    }
    assert forall|w: Seq<char>| listed(listed_out, w) <==> w == src by {
        lemma_literal_language(a, src, w);
    }
    lemma_single_listing(listed_a, src);
    lemma_single_listing(listed_out, src);
}

/// The automaton of a vocabulary depends on the set of its words only: two
/// automata that accept the words of two vocabularies with the same words
/// accept the same strings.
pub proof fn lemma_vocabulary_language(a: TokenSet, words_a: Seq<String>, b: TokenSet, words_b: Seq<String>)
    requires
        forall|w: Seq<char>| a.accepts(w) <==> listed(words_a, w),
        forall|w: Seq<char>| b.accepts(w) <==> listed(words_b, w),
        forall|w: Seq<char>| listed(words_a, w) <==> listed(words_b, w),
    ensures
        forall|w: Seq<char>| a.accepts(w) <==> b.accepts(w),
{
}

/// Whether the edges come in the order of their labels.
pub open spec fn edges_sorted(edges: Seq<Edge>) -> bool {
    forall|e: int, f: int| 0 <= e < f < edges.len() ==> char_lt((#[trigger] edges[e]).label, (#[trigger] edges[f]).label)
}

/// Two lists of edges in the order of their labels that hold the same
/// edges are the same list.
pub proof fn lemma_sorted_edges_agree(a: Seq<Edge>, b: Seq<Edge>)
    requires
        edges_sorted(a),
        edges_sorted(b),
        forall|i: int| 0 <= i < a.len() ==> b.contains(#[trigger] a[i]),
        forall|j: int| 0 <= j < b.len() ==> a.contains(#[trigger] b[j]),
    ensures
        a == b,
    decreases a.len(),
{
    if a.len() == 0 {
        if b.len() > 0 {
            assert(a.contains(b[0]));
        }
        assert(a =~= b);
    } else {
        assert(b.contains(a[0]));
        let la = a.last();
        let lb = b.last();
        assert(b.contains(a[a.len() - 1]));
        assert(a.contains(b[b.len() - 1]));
        let j = choose|j: int| 0 <= j < b.len() && b[j] == la;
        let i = choose|i: int| 0 <= i < a.len() && a[i] == lb;
        if j < b.len() - 1 {
            assert(char_lt(b[j].label, b[b.len() - 1].label));
        }
        if i < a.len() - 1 {
            assert(char_lt(a[i].label, a[a.len() - 1].label));
        }
        assert(la == lb);
        let shorter_a = a.drop_last();
        let shorter_b = b.drop_last();
        assert forall|k: int| 0 <= k < shorter_a.len() implies shorter_b.contains(#[trigger] shorter_a[k]) by {
            assert(shorter_a[k] == a[k]);
            assert(b.contains(a[k]));
            let m = choose|m: int| 0 <= m < b.len() && b[m] == a[k];
            assert(char_lt(a[k].label, a[a.len() - 1].label));
            assert(m < b.len() - 1);
            assert(shorter_b[m] == a[k]);
        }
        assert forall|k: int| 0 <= k < shorter_b.len() implies shorter_a.contains(#[trigger] shorter_b[k]) by {
            assert(shorter_b[k] == b[k]);
            assert(a.contains(b[k]));
            let m = choose|m: int| 0 <= m < a.len() && a[m] == b[k];
            assert(char_lt(b[k].label, b[b.len() - 1].label));
            assert(m < a.len() - 1);
            assert(shorter_a[m] == b[k]);
        }
        assert forall|e: int, f: int| 0 <= e < f < shorter_a.len() implies char_lt(
            (#[trigger] shorter_a[e]).label,
            (#[trigger] shorter_a[f]).label,
        ) by {
            assert(char_lt(a[e].label, a[f].label));
        }
        assert forall|e: int, f: int| 0 <= e < f < shorter_b.len() implies char_lt(
            (#[trigger] shorter_b[e]).label,
            (#[trigger] shorter_b[f]).label,
        ) by {
            assert(char_lt(b[e].label, b[f].label));
        }
        lemma_sorted_edges_agree(shorter_a, shorter_b);
        assert(a =~= shorter_a.push(la));
        assert(b =~= shorter_b.push(lb));
    }
}

/// Whether an edge of some state leads to state `x`.
pub open spec fn is_target(nodes: Seq<TokenSetNode>, x: int) -> bool {
    exists|p: int, e: int|
        0 <= p < nodes.len() && 0 <= e < nodes[p].edges@.len() && (#[trigger] nodes[p].edges@[e]).target == x
}

/// A string is read from a state exactly if it is read, behind the label of
/// one of the state's edges, from the state that the edge leads to.
proof fn lemma_reads_through(nodes: Seq<TokenSetNode>, x: int, e: int, r: Seq<char>)
    requires
        nodes_wf(nodes),
        0 <= x < nodes.len(),
        0 <= e < nodes[x].edges@.len(),
    ensures
        lang_from(nodes, nodes[x].edges@[e].target as int, r, false) == lang_from(
            nodes,
            x,
            seq![nodes[x].edges@[e].label] + r,
            false,
        ),
{
    let w = seq![nodes[x].edges@[e].label] + r;
    assert(w.drop_first() =~= r);
    assert(w[0] == nodes[x].edges@[e].label);
    if lang_from(nodes, x, w, false) {
        let i = lemma_edge_witness(nodes, x, w, false);
        if i < e {
            assert(nodes[x].edges@[i].label != nodes[x].edges@[e].label);
        }
        if e < i {
            assert(nodes[x].edges@[e].label != nodes[x].edges@[i].label);
        }
    }
    if lang_from(nodes, nodes[x].edges@[e].target as int, r, false) {
        assert(takes_edge(nodes, x, e, w, false));
    }
}

/// Of two states that read the same strings, in an automaton without dead
/// ends where alike states are one, each edge of the first is an edge of the
/// second, given that this law holds below the first.
proof fn lemma_edge_shared(nodes: Seq<TokenSetNode>, rank: Seq<nat>, x: int, y: int, e: int, from_first: bool)
    requires
        nodes_wf(nodes),
        ranked(nodes, rank),
        nodes_minimized(nodes),
        nodes_trim(nodes),
        nodes_sorted(nodes),
        0 <= x < nodes.len(),
        0 <= y < nodes.len(),
        forall|r: Seq<char>| lang_from(nodes, x, r, false) == lang_from(nodes, y, r, false),
        from_first ==> 0 <= e < nodes[x].edges@.len(),
        !from_first ==> 0 <= e < nodes[y].edges@.len(),
    ensures
        from_first ==> nodes[y].edges@.contains(nodes[x].edges@[e]),
        !from_first ==> nodes[x].edges@.contains(nodes[y].edges@[e]),
    decreases rank[x], 0nat,
{
    // the state that gives the edge, and the other one
    let (g, h) = if from_first {
        (x, y)
    } else {
        (y, x)
    };
    let edge = nodes[g].edges@[e];
    let t = edge.target as int;
    assert(t != 0);
    assert(reaches_end(nodes, t));
    let tail = choose|r: Seq<char>| #[trigger] lang_from(nodes, t, r, false);
    let w = seq![edge.label] + tail;
    lemma_reads_through(nodes, g, e, tail);
    assert(lang_from(nodes, g, w, false));
    assert(lang_from(nodes, h, w, false));
    let f = lemma_edge_witness(nodes, h, w, false);
    assert(w[0] == edge.label);
    let other = nodes[h].edges@[f];
    assert(other.label == edge.label);
    let v = other.target as int;
    assert forall|r: Seq<char>| lang_from(nodes, t, r, false) == lang_from(nodes, v, r, false) by {
        lemma_reads_through(nodes, g, e, r);
        lemma_reads_through(nodes, h, f, r);
    }
    if from_first {
        assert(rank[t] < rank[x]);
        lemma_alike_states(nodes, rank, t, v);
    } else {
        assert(rank[v] < rank[x]);
        assert forall|r: Seq<char>| lang_from(nodes, v, r, false) == lang_from(nodes, t, r, false) by {
            lemma_reads_through(nodes, g, e, r);
            lemma_reads_through(nodes, h, f, r);
        }
        lemma_alike_states(nodes, rank, v, t);
    }
    assert(other == edge);
}

/// In an automaton without cycles and without dead ends, whose states have
/// their edges in order and where no two states that edges lead to are
/// alike, two such states that read the same strings are one state.
pub proof fn lemma_alike_states(nodes: Seq<TokenSetNode>, rank: Seq<nat>, x: int, y: int)
    requires
        nodes_wf(nodes),
        ranked(nodes, rank),
        nodes_minimized(nodes),
        nodes_trim(nodes),
        nodes_sorted(nodes),
        is_target(nodes, x),
        is_target(nodes, y),
        forall|r: Seq<char>| lang_from(nodes, x, r, false) == lang_from(nodes, y, r, false),
    ensures
        x == y,
    decreases rank[x], 1nat,
{
    let (px, ex) = choose|p: int, e: int|
        0 <= p < nodes.len() && 0 <= e < nodes[p].edges@.len() && (#[trigger] nodes[p].edges@[e]).target == x;
    let (py, ey) = choose|p: int, e: int|
        0 <= p < nodes.len() && 0 <= e < nodes[p].edges@.len() && (#[trigger] nodes[p].edges@[e]).target == y;
    assert(nodes[px].edges@[ex].target < nodes.len());
    assert(nodes[py].edges@[ey].target < nodes.len());
    let a = nodes[x].edges@;
    let b = nodes[y].edges@;
    assert(nodes[x].last == nodes[y].last) by {
        assert(lang_from(nodes, x, Seq::<char>::empty(), false) == lang_from(nodes, y, Seq::<char>::empty(), false));
    }
    assert forall|i: int| 0 <= i < a.len() implies b.contains(#[trigger] a[i]) by {
        lemma_edge_shared(nodes, rank, x, y, i, true);
    }
    assert forall|j: int| 0 <= j < b.len() implies a.contains(#[trigger] b[j]) by {
        lemma_edge_shared(nodes, rank, x, y, j, false);
    }
    assert(edges_sorted(a)) by {
        assert forall|e: int, f: int| 0 <= e < f < a.len() implies char_lt((#[trigger] a[e]).label, (#[trigger] a[f]).label) by {
            assert(char_lt(nodes[x].edges@[e].label, nodes[x].edges@[f].label));
        }
    }
    assert(edges_sorted(b)) by {
        assert forall|e: int, f: int| 0 <= e < f < b.len() implies char_lt((#[trigger] b[e]).label, (#[trigger] b[f]).label) by {
            assert(char_lt(nodes[y].edges@[e].label, nodes[y].edges@[f].label));
        }
    }
    lemma_sorted_edges_agree(a, b);
    assert(same_shape(nodes[x], nodes[y]));
}

/// The automaton of a vocabulary holds no part twice: two states that
/// edges lead to and that read the same strings are one state.
pub proof fn lemma_same_strings_same_state(set: TokenSet, x: int, y: int)
    requires
        set.wf(),
        set.is_acyclic(),
        nodes_minimized(set@),
        nodes_trim(set@),
        nodes_sorted(set@),
        is_target(set@, x),
        is_target(set@, y),
        forall|r: Seq<char>| lang_from(set@, x, r, false) == lang_from(set@, y, r, false),
    ensures
        x == y,
{
    let rank = choose|rank: Seq<nat>| ranked(set@, rank);
    lemma_alike_states(set@, rank, x, y);
}

/// What is read from the state that `p` leads to is what is read behind
/// `p` from the state where `p` starts.
pub proof fn lemma_reads_behind(nodes: Seq<TokenSetNode>, x: int, p: Seq<char>, t: int, r: Seq<char>)
    requires
        nodes_wf(nodes),
        leads(nodes, x, p, t),
    ensures
        lang_from(nodes, t, r, false) == lang_from(nodes, x, p + r, false),
        p.len() > 0 ==> is_target(nodes, t),
    decreases p.len(),
{
    if p.len() == 0 {
        assert(p + r =~= r);
    } else {
        let i = choose|i: int|
            0 <= i < nodes[x].edges@.len() && (#[trigger] nodes[x].edges@[i]).label == p[0] && leads(
                nodes,
                nodes[x].edges@[i].target as int,
                p.drop_first(),
                t,
            );
        let next = nodes[x].edges@[i].target as int;
        lemma_reads_behind(nodes, next, p.drop_first(), t, r);
        lemma_reads_through(nodes, x, i, p.drop_first() + r);
        assert(seq![p[0]] + (p.drop_first() + r) =~= p + r);
        if p.len() == 1 {
            assert(p.drop_first().len() == 0);
            assert(next == t);
        }
    }
}

/// The automaton of a vocabulary has one state for each set of endings:
/// where two beginnings can be ended by the same strings, both lead from
/// the root to the same state.
pub proof fn lemma_same_endings_same_state(set: TokenSet, p: Seq<char>, q: Seq<char>, x: int, y: int)
    requires
        set.wf(),
        set.is_acyclic(),
        nodes_minimized(set@),
        nodes_trim(set@),
        nodes_sorted(set@),
        p.len() > 0,
        q.len() > 0,
        leads(set@, 0, p, x),
        leads(set@, 0, q, y),
        forall|r: Seq<char>| set.accepts(p + r) == set.accepts(q + r),
    ensures
        x == y,
{
    assert forall|r: Seq<char>| lang_from(set@, x, r, false) == lang_from(set@, y, r, false) by {
        lemma_reads_behind(set@, 0, p, x, r);
        lemma_reads_behind(set@, 0, q, y, r);
        assert(set.accepts(p + r) == set.accepts(q + r));
    }
    lemma_reads_behind(set@, 0, p, x, Seq::empty());
    lemma_reads_behind(set@, 0, q, y, Seq::empty());
    lemma_same_strings_same_state(set, x, y);
}

/// Whether the glob `src`, from position `from` on, stands for `w`: each
/// `*` stands for any characters, none among them, and every other
/// character for itself.
pub open spec fn wild_reads(src: Seq<char>, from: int, w: Seq<char>) -> bool
    decreases src.len() - from, w.len(),
{
    if from < 0 || from >= src.len() {
        w.len() == 0
    } else if src[from] == WILDCARD {
        wild_reads(src, from + 1, w) || (w.len() > 0 && wild_reads(src, from, w.drop_first()))
    } else {
        w.len() > 0 && w[0] == src[from] && wild_reads(src, from + 1, w.drop_first())
    }
}

/// A pattern made from a glob by repeating its `*` fits only what the glob stands for.
pub proof fn lemma_glob_fits_wild(src: Seq<char>, from: int, p: Seq<char>, w: Seq<char>)
    requires
        glob_reads(src, from, p),
        pattern_fits(p, w),
    ensures
        wild_reads(src, from, w),
    decreases src.len() - from, w.len(),
{
    if from < 0 || from >= src.len() {
    } else if src[from] == WILDCARD {
        if glob_reads(src, from + 1, p) {
            lemma_glob_fits_wild(src, from + 1, p, w);
        } else {
            lemma_fits_rest(p, w);
            lemma_glob_fits_wild(src, from, p.drop_first(), w.drop_first());
        }
    } else {
        lemma_fits_rest(p, w);
        assert(label_fits(p[0], w[0], true));
        lemma_glob_fits_wild(src, from + 1, p.drop_first(), w.drop_first());
    }
}

/// A pattern that fits a string fits it from its second character on.
proof fn lemma_fits_rest(p: Seq<char>, w: Seq<char>)
    requires
        pattern_fits(p, w),
        p.len() > 0,
    ensures
        pattern_fits(p.drop_first(), w.drop_first()),
{
    assert forall|j: int| 0 <= j < p.drop_first().len() implies label_fits(
        #[trigger] p.drop_first()[j],
        w.drop_first()[j],
        true,
    ) by {
        assert(p.drop_first()[j] == p[j + 1]);
    }
}

/// A pattern that fits a string still fits with a fitting character in front.
proof fn lemma_fits_more(c: char, x: char, p: Seq<char>, w: Seq<char>)
    requires
        pattern_fits(p, w),
        label_fits(c, x, true),
    ensures
        pattern_fits(seq![c] + p, seq![x] + w),
{
    let longer = seq![c] + p;
    let read = seq![x] + w;
    assert forall|j: int| 0 <= j < longer.len() implies label_fits(#[trigger] longer[j], read[j], true) by {
        if j > 0 {
            assert(longer[j] == p[j - 1]);
            assert(read[j] == w[j - 1]);
        }
    }
}

/// What a glob stands for is fitted by a pattern made from the glob by
/// repeating its `*`.
pub proof fn lemma_wild_has_pattern(src: Seq<char>, from: int, w: Seq<char>) -> (p: Seq<char>)
    requires
        wild_reads(src, from, w),
    ensures
        glob_reads(src, from, p),
        pattern_fits(p, w),
    decreases src.len() - from, w.len(),
{
    if from < 0 || from >= src.len() {
        assert(pattern_fits(w, w));
        w
    } else if src[from] == WILDCARD {
        if wild_reads(src, from + 1, w) {
            lemma_wild_has_pattern(src, from + 1, w)
        } else {
            let rest = lemma_wild_has_pattern(src, from, w.drop_first());
            let p = seq![WILDCARD] + rest;
            lemma_fits_more(WILDCARD, w[0], rest, w.drop_first());
            assert(seq![w[0]] + w.drop_first() =~= w);
            assert(p.drop_first() =~= rest);
            p
        }
    } else {
        let rest = lemma_wild_has_pattern(src, from + 1, w.drop_first());
        let p = seq![src[from]] + rest;
        lemma_fits_more(src[from], w[0], rest, w.drop_first());
        assert(seq![w[0]] + w.drop_first() =~= w);
        assert(p.drop_first() =~= rest);
        p
    }
}

/// The automaton of a glob matches what the glob stands for, where each `*`
/// stands for any characters and every other character for itself. The
/// empty glob matches nothing.
pub proof fn lemma_glob_language(set: TokenSet, src: Seq<char>, w: Seq<char>)
    requires
        forall|p: Seq<char>| set.accepts(p) <==> (src.len() > 0 && glob_reads(src, 0, p)),
    ensures
        set.matches(w) <==> (src.len() > 0 && wild_reads(src, 0, w)),
{
    lemma_matches_fitting(set, w);
    if set.matches(w) {
        let p = choose|p: Seq<char>| set.accepts(p) && #[trigger] pattern_fits(p, w);
        lemma_glob_fits_wild(src, 0, p, w);
    }
    if src.len() > 0 && wild_reads(src, 0, w) {
        let p = lemma_wild_has_pattern(src, 0, w);
        assert(set.accepts(p) && pattern_fits(p, w));
    }
}

/// Without edits left, only the source itself is read.
pub proof fn lemma_fuzzy_without_edits(s: Seq<char>, p: Seq<char>)
    ensures
        fuzzy_reads(s, 0, p) <==> (s.len() >= 1 && p == s),
    decreases s.len(),
{
    if s.len() >= 1 {
        lemma_fuzzy_without_edits(s.drop_first(), p.drop_first());
        if fuzzy_reads(s, 0, p) {
            if s.len() == 1 && p.len() == 1 {
                assert(p =~= s);
            } else {
                assert(p.drop_first() == s.drop_first());
                assert(p =~= s) by {
                    assert forall|i: int| 0 <= i < p.len() implies p[i] == s[i] by {
                        if i > 0 {
                            assert(p[i] == p.drop_first()[i - 1]);
                            assert(s[i] == s.drop_first()[i - 1]);
                        }
                    }
                    assert(p.len() == p.drop_first().len() + 1);
                }
            }
        }
        if p == s {
            if s.len() > 1 {
                assert(fuzzy_reads(s.drop_first(), 0, p.drop_first()));
            }
        }
    }
}

/// The source itself is read, however many edits are left.
pub proof fn lemma_fuzzy_reads_source(s: Seq<char>, k: nat)
    requires
        s.len() >= 1,
    ensures
        fuzzy_reads(s, k, s),
    decreases s.len(),
{
    if s.len() > 1 {
        lemma_fuzzy_reads_source(s.drop_first(), k);
    }
}

/// What is read with some edits left is read with more edits left.
pub proof fn lemma_fuzzy_more_edits(s: Seq<char>, k: nat, p: Seq<char>)
    requires
        fuzzy_reads(s, k, p),
    ensures
        fuzzy_reads(s, k + 1, p),
    decreases s.len() + k,
{
    if s.len() >= 1 && p.len() >= 1 && p[0] == s[0] && !(s.len() == 1 && p.len() == 1) && fuzzy_reads(
        s.drop_first(),
        k,
        p.drop_first(),
    ) {
        lemma_fuzzy_more_edits(s.drop_first(), k, p.drop_first());
    }
    if k > 0 {
        if p.len() >= 1 && p[0] == WILDCARD && fuzzy_reads(s, (k - 1) as nat, p.drop_first()) {
            lemma_fuzzy_more_edits(s, (k - 1) as nat, p.drop_first());
        }
        if s.len() > 1 && fuzzy_reads(s.drop_first(), (k - 1) as nat, p) {
            lemma_fuzzy_more_edits(s.drop_first(), (k - 1) as nat, p);
        }
        if s.len() >= 1 && p.len() >= 1 && p[0] == WILDCARD && fuzzy_reads(
            s.drop_first(),
            (k - 1) as nat,
            p.drop_first(),
        ) {
            lemma_fuzzy_more_edits(s.drop_first(), (k - 1) as nat, p.drop_first());
        }
        if s.len() > 1 && p.len() >= 1 && p[0] == s[1] && fuzzy_reads(after_swap(s), (k - 1) as nat, p.drop_first()) {
            lemma_fuzzy_more_edits(after_swap(s), (k - 1) as nat, p.drop_first());
        }
    }
}

/// Whether the edit-distance pattern of `s` with `k` edits left matches `w`.
///
/// One clause per kind of step: the next character as it is; an inserted
/// character; a deleted character; a substituted character; and two
/// transposed characters, of which the second is read first and the first
/// stays to be read. A `*` in the source itself reads any character.
pub open spec fn fuzzy_matches(s: Seq<char>, k: nat, w: Seq<char>) -> bool
    decreases s.len() + k,
{
    ||| (s.len() >= 1 && w.len() >= 1 && label_fits(s[0], w[0], true) && ((s.len() == 1 && w.len() == 1)
        || fuzzy_matches(s.drop_first(), k, w.drop_first())))
    ||| (k > 0 && w.len() >= 1 && ((s.len() == 0 && w.len() == 1) || fuzzy_matches(s, (k - 1) as nat, w.drop_first())))
    ||| (k > 0 && s.len() > 1 && fuzzy_matches(s.drop_first(), (k - 1) as nat, w))
    ||| (k > 0 && s.len() == 1 && w.len() == 0)
    ||| (k > 0 && s.len() >= 1 && w.len() >= 1 && ((s.len() == 1 && w.len() == 1) || fuzzy_matches(
        s.drop_first(),
        (k - 1) as nat,
        w.drop_first(),
    )))
    ||| (k > 0 && s.len() > 1 && w.len() >= 1 && label_fits(s[1], w[0], true) && fuzzy_matches(
        after_swap(s),
        (k - 1) as nat,
        w.drop_first(),
    ))
}

proof fn lemma_fits_one(c: char, x: char)
    requires
        label_fits(c, x, true),
    ensures
        pattern_fits(seq![c], seq![x]),
{
}

proof fn lemma_fits_first(p: Seq<char>, w: Seq<char>)
    requires
        pattern_fits(p, w),
        p.len() > 0,
    ensures
        label_fits(p[0], w[0], true),
{
}

/// What a pattern of the edit-distance automaton fits is matched.
pub proof fn lemma_fuzzy_fits_matches(s: Seq<char>, k: nat, p: Seq<char>, w: Seq<char>)
    requires
        fuzzy_reads(s, k, p),
        pattern_fits(p, w),
    ensures
        fuzzy_matches(s, k, w),
    decreases s.len() + k,
{
    if p.len() >= 1 {
        lemma_fits_rest(p, w);
        lemma_fits_first(p, w);
    }
    if s.len() >= 1 && p.len() >= 1 && p[0] == s[0] && !(s.len() == 1 && p.len() == 1) && fuzzy_reads(
        s.drop_first(),
        k,
        p.drop_first(),
    ) {
        lemma_fuzzy_fits_matches(s.drop_first(), k, p.drop_first(), w.drop_first());
    }
    if k > 0 {
        if p.len() >= 1 && p[0] == WILDCARD && fuzzy_reads(s, (k - 1) as nat, p.drop_first()) {
            lemma_fuzzy_fits_matches(s, (k - 1) as nat, p.drop_first(), w.drop_first());
        }
        if s.len() > 1 && fuzzy_reads(s.drop_first(), (k - 1) as nat, p) {
            lemma_fuzzy_fits_matches(s.drop_first(), (k - 1) as nat, p, w);
        }
        if s.len() >= 1 && p.len() >= 1 && p[0] == WILDCARD && fuzzy_reads(
            s.drop_first(),
            (k - 1) as nat,
            p.drop_first(),
        ) {
            lemma_fuzzy_fits_matches(s.drop_first(), (k - 1) as nat, p.drop_first(), w.drop_first());
        }
        if s.len() > 1 && p.len() >= 1 && p[0] == s[1] && fuzzy_reads(after_swap(s), (k - 1) as nat, p.drop_first()) {
            lemma_fuzzy_fits_matches(after_swap(s), (k - 1) as nat, p.drop_first(), w.drop_first());
        }
    }
}

/// What is matched is fitted by a pattern of the edit-distance automaton.
pub proof fn lemma_fuzzy_matches_has_pattern(s: Seq<char>, k: nat, w: Seq<char>) -> (p: Seq<char>)
    requires
        fuzzy_matches(s, k, w),
    ensures
        fuzzy_reads(s, k, p),
        pattern_fits(p, w),
    decreases s.len() + k,
{
    if s.len() >= 1 && w.len() >= 1 && label_fits(s[0], w[0], true) && ((s.len() == 1 && w.len() == 1)
        || fuzzy_matches(s.drop_first(), k, w.drop_first())) {
        if s.len() == 1 && w.len() == 1 {
            lemma_fits_one(s[0], w[0]);
            assert(seq![w[0]] =~= w);
            seq![s[0]]
        } else {
            let rest = lemma_fuzzy_matches_has_pattern(s.drop_first(), k, w.drop_first());
            lemma_fits_more(s[0], w[0], rest, w.drop_first());
            assert(seq![w[0]] + w.drop_first() =~= w);
            assert((seq![s[0]] + rest).drop_first() =~= rest);
            seq![s[0]] + rest
        }
    } else if k > 0 && w.len() >= 1 && ((s.len() == 0 && w.len() == 1) || fuzzy_matches(
        s,
        (k - 1) as nat,
        w.drop_first(),
    )) {
        if s.len() == 0 && w.len() == 1 {
            lemma_fits_one(WILDCARD, w[0]);
            assert(seq![w[0]] =~= w);
            seq![WILDCARD]
        } else {
            let rest = lemma_fuzzy_matches_has_pattern(s, (k - 1) as nat, w.drop_first());
            lemma_fits_more(WILDCARD, w[0], rest, w.drop_first());
            assert(seq![w[0]] + w.drop_first() =~= w);
            assert((seq![WILDCARD] + rest).drop_first() =~= rest);
            seq![WILDCARD] + rest
        }
    } else if k > 0 && s.len() > 1 && fuzzy_matches(s.drop_first(), (k - 1) as nat, w) {
        lemma_fuzzy_matches_has_pattern(s.drop_first(), (k - 1) as nat, w)
    } else if k > 0 && s.len() == 1 && w.len() == 0 {
        assert(pattern_fits(w, w));
        w
    } else if k > 0 && s.len() >= 1 && w.len() >= 1 && ((s.len() == 1 && w.len() == 1) || fuzzy_matches(
        s.drop_first(),
        (k - 1) as nat,
        w.drop_first(),
    )) {
        if s.len() == 1 && w.len() == 1 {
            lemma_fits_one(WILDCARD, w[0]);
            assert(seq![w[0]] =~= w);
            seq![WILDCARD]
        } else {
            let rest = lemma_fuzzy_matches_has_pattern(s.drop_first(), (k - 1) as nat, w.drop_first());
            lemma_fits_more(WILDCARD, w[0], rest, w.drop_first());
            assert(seq![w[0]] + w.drop_first() =~= w);
            assert((seq![WILDCARD] + rest).drop_first() =~= rest);
            seq![WILDCARD] + rest
        }
    } else {
        let rest = lemma_fuzzy_matches_has_pattern(after_swap(s), (k - 1) as nat, w.drop_first());
        lemma_fits_more(s[1], w[0], rest, w.drop_first());
        assert(seq![w[0]] + w.drop_first() =~= w);
        assert((seq![s[1]] + rest).drop_first() =~= rest);
        seq![s[1]] + rest
    }
}

/// The edit-distance automaton of `src` with `k` edits matches exactly the
/// strings that [`fuzzy_matches`] names.
pub proof fn lemma_fuzzy_language(set: TokenSet, src: Seq<char>, k: nat, w: Seq<char>)
    requires
        forall|p: Seq<char>| set.accepts(p) <==> fuzzy_reads(src, k, p),
    ensures
        set.matches(w) <==> fuzzy_matches(src, k, w),
{
    lemma_matches_fitting(set, w);
    if set.matches(w) {
        let p = choose|p: Seq<char>| set.accepts(p) && #[trigger] pattern_fits(p, w);
        lemma_fuzzy_fits_matches(src, k, p, w);
    }
    if fuzzy_matches(src, k, w) {
        let p = lemma_fuzzy_matches_has_pattern(src, k, w);
        assert(set.accepts(p) && pattern_fits(p, w));
    }
}

/// Whether `w` comes from `s` by at most `k` edits, where an edit puts a
/// character in, takes one out, puts one in the place of another, or swaps
/// two neighbours that are not edited otherwise.
pub open spec fn within_edits(s: Seq<char>, k: nat, w: Seq<char>) -> bool
    decreases s.len() + w.len() + k,
{
    ||| (s.len() == 0 && w.len() == 0)
    ||| (s.len() >= 1 && w.len() >= 1 && s[0] == w[0] && within_edits(s.drop_first(), k, w.drop_first()))
    ||| (k > 0 && w.len() >= 1 && within_edits(s, (k - 1) as nat, w.drop_first()))
    ||| (k > 0 && s.len() >= 1 && within_edits(s.drop_first(), (k - 1) as nat, w))
    ||| (k > 0 && s.len() >= 1 && w.len() >= 1 && within_edits(s.drop_first(), (k - 1) as nat, w.drop_first()))
    ||| (k > 0 && s.len() >= 2 && w.len() >= 2 && w[0] == s[1] && w[1] == s[0] && within_edits(
        s.skip(2),
        (k - 1) as nat,
        w.skip(2),
    ))
}

/// What comes from the empty string by edits has no more characters than
/// there are edits.
proof fn lemma_edits_of_nothing(k: nat, w: Seq<char>)
    requires
        within_edits(Seq::<char>::empty(), k, w),
    ensures
        w.len() <= k,
    decreases w.len() + k,
{
    let e = Seq::<char>::empty();
    if w.len() > 0 {
        assert(k > 0 && within_edits(e, (k - 1) as nat, w.drop_first()));
        lemma_edits_of_nothing((k - 1) as nat, w.drop_first());
    }
}

/// With nothing left of the source, up to as many characters are matched
/// as there are edits, but at least one.
proof fn lemma_matches_insertions(k: nat, w: Seq<char>)
    requires
        1 <= w.len() <= k,
    ensures
        fuzzy_matches(Seq::<char>::empty(), k, w),
    decreases w.len(),
{
    if w.len() > 1 {
        lemma_matches_insertions((k - 1) as nat, w.drop_first());
    }
}

/// Every string within `k` edits of the source is matched, but for the
/// empty string where the source is empty.
pub proof fn lemma_fuzzy_matches_edits(s: Seq<char>, k: nat, w: Seq<char>)
    requires
        within_edits(s, k, w),
        s.len() > 0 || w.len() > 0,
    ensures
        fuzzy_matches(s, k, w),
    decreases s.len() + w.len() + k,
{
    if s.len() == 0 {
        assert(s =~= Seq::<char>::empty());
        lemma_edits_of_nothing(k, w);
        lemma_matches_insertions(k, w);
        assert(fuzzy_matches(s, k, w));
    } else if w.len() >= 1 && s[0] == w[0] && within_edits(s.drop_first(), k, w.drop_first()) {
        if !(s.len() == 1 && w.len() == 1) {
            lemma_fuzzy_matches_edits(s.drop_first(), k, w.drop_first());
        }
        assert(fuzzy_matches(s, k, w));
    } else if k > 0 && w.len() >= 1 && within_edits(s, (k - 1) as nat, w.drop_first()) {
        lemma_fuzzy_matches_edits(s, (k - 1) as nat, w.drop_first());
        assert(fuzzy_matches(s, k, w));
    } else if k > 0 && within_edits(s.drop_first(), (k - 1) as nat, w) {
        if s.len() > 1 {
            lemma_fuzzy_matches_edits(s.drop_first(), (k - 1) as nat, w);
        } else if w.len() > 0 {
            // the last character gives way to the first of `w`; the rest is put in
            assert(s.drop_first() =~= Seq::<char>::empty());
            lemma_edits_of_nothing((k - 1) as nat, w);
            if w.len() > 1 {
                lemma_matches_insertions((k - 1) as nat, w.drop_first());
            }
            assert(fuzzy_matches(s, k, w));
        } else {
            assert(fuzzy_matches(s, k, w));
        }
        assert(fuzzy_matches(s, k, w));
    } else if k > 0 && w.len() >= 1 && within_edits(s.drop_first(), (k - 1) as nat, w.drop_first()) {
        if !(s.len() == 1 && w.len() == 1) {
            lemma_fuzzy_matches_edits(s.drop_first(), (k - 1) as nat, w.drop_first());
        }
    } else {
        assert(k > 0 && s.len() >= 2 && w.len() >= 2 && w[0] == s[1] && w[1] == s[0] && within_edits(
            s.skip(2),
            (k - 1) as nat,
            w.skip(2),
        ));
        let t = after_swap(s);
        let v = w.drop_first();
        assert(t[0] == v[0]);
        assert(t.drop_first() =~= s.skip(2));
        assert(v.drop_first() =~= w.skip(2));
        if !(t.len() == 1 && v.len() == 1) {
            lemma_fuzzy_matches_edits(s.skip(2), (k - 1) as nat, w.skip(2));
        }
        assert(fuzzy_matches(t, (k - 1) as nat, v));
        assert(fuzzy_matches(s, k, w));
    }
}

/// The edit-distance automaton of `src` with `k` edits matches every
/// string within `k` edits of `src`, but for the empty string where the
/// source is empty.
pub proof fn lemma_fuzzy_closure(set: TokenSet, src: Seq<char>, k: nat, w: Seq<char>)
    requires
        forall|p: Seq<char>| set.accepts(p) <==> fuzzy_reads(src, k, p),
        within_edits(src, k, w),
        src.len() > 0 || w.len() > 0,
    ensures
        set.matches(w),
{
    lemma_fuzzy_matches_edits(src, k, w);
    lemma_fuzzy_language(set, src, k, w);
}

/// `a` with its neighbours at the positions `i` and `i + 1` swapped.
pub open spec fn swapped(a: Seq<char>, i: int) -> Seq<char> {
    a.update(i, a[i + 1]).update(i + 1, a[i])
}

/// Whether `b` comes from `a` by one edit: a character is put in, taken
/// out or put in the place of another, or two neighbours are swapped.
pub open spec fn one_edit(a: Seq<char>, b: Seq<char>) -> bool {
    ||| exists|i: int, c: char| 0 <= i <= a.len() && b == #[trigger] a.insert(i, c)
    ||| exists|i: int| 0 <= i < a.len() && b == #[trigger] a.remove(i)
    ||| exists|i: int, c: char| 0 <= i < a.len() && b == #[trigger] a.update(i, c)
    ||| exists|i: int| 0 <= i && i + 1 < a.len() && b == #[trigger] swapped(a, i)
}

/// Whether `b` comes from `a` by at most `k` edits, one after the other,
/// each on the whole string as the edits before have left it.
pub open spec fn edits_reach(a: Seq<char>, k: nat, b: Seq<char>) -> bool
    decreases k,
{
    a == b || (k > 0 && exists|m: Seq<char>| #[trigger] one_edit(a, m) && edits_reach(m, (k - 1) as nat, b))
}

/// An edit stays an edit behind one more character.
proof fn lemma_edit_behind(c: char, a: Seq<char>, b: Seq<char>)
    requires
        one_edit(a, b),
    ensures
        one_edit(seq![c] + a, seq![c] + b),
{
    let a2 = seq![c] + a;
    let b2 = seq![c] + b;
    if exists|i: int, x: char| 0 <= i <= a.len() && b == #[trigger] a.insert(i, x) {
        let (i, x) = choose|i: int, x: char| 0 <= i <= a.len() && b == #[trigger] a.insert(i, x);
        assert(b2 =~= a2.insert(i + 1, x));
    } else if exists|i: int| 0 <= i < a.len() && b == #[trigger] a.remove(i) {
        let i = choose|i: int| 0 <= i < a.len() && b == #[trigger] a.remove(i);
        assert(b2 =~= a2.remove(i + 1));
    } else if exists|i: int, x: char| 0 <= i < a.len() && b == #[trigger] a.update(i, x) {
        let (i, x) = choose|i: int, x: char| 0 <= i < a.len() && b == #[trigger] a.update(i, x);
        assert(b2 =~= a2.update(i + 1, x));
    } else {
        let i = choose|i: int| 0 <= i && i + 1 < a.len() && b == #[trigger] swapped(a, i);
        assert(b2 =~= swapped(a2, i + 1));
    }
}

/// What is reached by edits is reached behind one more character.
proof fn lemma_reach_behind(c: char, a: Seq<char>, k: nat, b: Seq<char>)
    requires
        edits_reach(a, k, b),
    ensures
        edits_reach(seq![c] + a, k, seq![c] + b),
    decreases k,
{
    if a != b {
        let m = choose|m: Seq<char>| #[trigger] one_edit(a, m) && edits_reach(m, (k - 1) as nat, b);
        lemma_edit_behind(c, a, m);
        lemma_reach_behind(c, m, (k - 1) as nat, b);
        assert(one_edit(seq![c] + a, seq![c] + m) && edits_reach(seq![c] + m, (k - 1) as nat, seq![c] + b));
    }
}

/// What is reached by some edits is reached by more.
proof fn lemma_reach_more(a: Seq<char>, j: nat, k: nat, b: Seq<char>)
    requires
        edits_reach(a, j, b),
        j <= k,
    ensures
        edits_reach(a, k, b),
    decreases j,
{
    if a != b {
        let m = choose|m: Seq<char>| #[trigger] one_edit(a, m) && edits_reach(m, (j - 1) as nat, b);
        lemma_reach_more(m, (j - 1) as nat, (k - 1) as nat, b);
        assert(one_edit(a, m) && edits_reach(m, (k - 1) as nat, b));
    }
}

/// One more edit at the end reaches one edit further.
proof fn lemma_reach_then_edit(a: Seq<char>, k: nat, m: Seq<char>, b: Seq<char>)
    requires
        edits_reach(a, k, m),
        one_edit(m, b),
    ensures
        edits_reach(a, k + 1, b),
    decreases k,
{
    if a == m {
        assert(one_edit(a, b) && edits_reach(b, k, b));
    } else {
        let n = choose|n: Seq<char>| #[trigger] one_edit(a, n) && edits_reach(n, (k - 1) as nat, m);
        lemma_reach_then_edit(n, (k - 1) as nat, m, b);
        assert(one_edit(a, n) && edits_reach(n, k, b));
    }
}

/// One edit first, then what is reached from its result.
proof fn lemma_edit_then_reach(a: Seq<char>, m: Seq<char>, k: nat, b: Seq<char>)
    requires
        one_edit(a, m),
        edits_reach(m, k, b),
    ensures
        edits_reach(a, k + 1, b),
{
    assert(one_edit(a, m) && edits_reach(m, ((k + 1) - 1) as nat, b));
}

/// What the edit-distance pattern of a source without `*` matches comes
/// from the source by at most `k` edits.
pub proof fn lemma_fuzzy_matches_within(s: Seq<char>, k: nat, w: Seq<char>)
    requires
        fuzzy_matches(s, k, w),
        !s.contains(WILDCARD),
    ensures
        edits_reach(s, k, w),
    decreases s.len() + k,
{
    if s.len() >= 1 {
        assert(s.contains(s[0]));
        assert(s[0] != WILDCARD);
        assert forall|c: char| s.drop_first().contains(c) implies s.contains(c) by {
            let i = choose|i: int| 0 <= i < s.drop_first().len() && s.drop_first()[i] == c;
            assert(s[i + 1] == c);
        }
    }
    if s.len() >= 1 && w.len() >= 1 && label_fits(s[0], w[0], true) && ((s.len() == 1 && w.len() == 1)
        || fuzzy_matches(s.drop_first(), k, w.drop_first())) {
        assert(s[0] == w[0]);
        if s.len() == 1 && w.len() == 1 {
            assert(s =~= w);
        } else {
            lemma_fuzzy_matches_within(s.drop_first(), k, w.drop_first());
            lemma_reach_behind(s[0], s.drop_first(), k, w.drop_first());
            assert(seq![s[0]] + s.drop_first() =~= s);
            assert(seq![s[0]] + w.drop_first() =~= w);
        }
    } else if k > 0 && w.len() >= 1 && ((s.len() == 0 && w.len() == 1) || fuzzy_matches(
        s,
        (k - 1) as nat,
        w.drop_first(),
    )) {
        // a character is put in front of what the rest comes to
        let rest = w.drop_first();
        assert(w =~= rest.insert(0, w[0]));
        assert(one_edit(rest, w));
        if s.len() == 0 && w.len() == 1 {
            assert(s =~= rest);
            lemma_edit_then_reach(s, w, 0, w);
            lemma_reach_more(s, 1, k, w);
        } else {
            lemma_fuzzy_matches_within(s, (k - 1) as nat, rest);
            lemma_reach_then_edit(s, (k - 1) as nat, rest, w);
        }
    } else if k > 0 && s.len() > 1 && fuzzy_matches(s.drop_first(), (k - 1) as nat, w) {
        assert(s.drop_first() =~= s.remove(0));
        assert(one_edit(s, s.drop_first()));
        lemma_fuzzy_matches_within(s.drop_first(), (k - 1) as nat, w);
        lemma_edit_then_reach(s, s.drop_first(), (k - 1) as nat, w);
    } else if k > 0 && s.len() == 1 && w.len() == 0 {
        assert(w =~= s.remove(0));
        assert(one_edit(s, w));
        lemma_edit_then_reach(s, w, 0, w);
        lemma_reach_more(s, 1, k, w);
    } else if k > 0 && s.len() >= 1 && w.len() >= 1 && ((s.len() == 1 && w.len() == 1) || fuzzy_matches(
        s.drop_first(),
        (k - 1) as nat,
        w.drop_first(),
    )) {
        // the first character gives way to that of `w`
        let m = s.update(0, w[0]);
        assert(one_edit(s, m));
        if s.len() == 1 && w.len() == 1 {
            assert(m =~= w);
            lemma_edit_then_reach(s, w, 0, w);
            lemma_reach_more(s, 1, k, w);
        } else {
            lemma_fuzzy_matches_within(s.drop_first(), (k - 1) as nat, w.drop_first());
            lemma_reach_behind(w[0], s.drop_first(), (k - 1) as nat, w.drop_first());
            assert(seq![w[0]] + s.drop_first() =~= m);
            assert(seq![w[0]] + w.drop_first() =~= w);
            lemma_edit_then_reach(s, m, (k - 1) as nat, w);
        }
    } else {
        assert(k > 0 && s.len() > 1 && w.len() >= 1 && label_fits(s[1], w[0], true) && fuzzy_matches(
            after_swap(s),
            (k - 1) as nat,
            w.drop_first(),
        ));
        assert(s.contains(s[1]));
        assert(s[1] == w[0]);
        let t = after_swap(s);
        let m = swapped(s, 0);
        assert(one_edit(s, m));
        assert(m =~= seq![s[1]] + t);
        assert forall|c: char| t.contains(c) implies s.contains(c) by {
            let i = choose|i: int| 0 <= i < t.len() && t[i] == c;
            if i == 0 {
                assert(s[0] == c);
            } else {
                assert(s[i + 1] == c);
            }
        }
        lemma_fuzzy_matches_within(t, (k - 1) as nat, w.drop_first());
        lemma_reach_behind(s[1], t, (k - 1) as nat, w.drop_first());
        assert(seq![s[1]] + w.drop_first() =~= w);
        lemma_edit_then_reach(s, m, (k - 1) as nat, w);
    }
}

/// The edit-distance automaton of a source without `*` matches only
/// strings that come from the source by at most `k` edits.
pub proof fn lemma_fuzzy_bound(set: TokenSet, src: Seq<char>, k: nat, w: Seq<char>)
    requires
        forall|p: Seq<char>| set.accepts(p) <==> fuzzy_reads(src, k, p),
        !src.contains(WILDCARD),
        set.matches(w),
    ensures
        edits_reach(src, k, w),
{
    lemma_fuzzy_language(set, src, k, w);
    lemma_fuzzy_matches_within(src, k, w);
}

} // verus!
