//! Enumeration of the strings that an acyclic automaton accepts.

use vstd::prelude::*;
use crate::text::{copy_chars, string_of};
use crate::token::{TokenSet, TokenSetNode, lang_from, takes_edge, lemma_edge_witness, lemma_reads_on_child, lemma_reads_on_root, reads_on, nodes_wf, ranked, starts_with};

verus! {

/// A state still to be visited, with the string that led to it.
struct WalkFrame {
    pub prefix: Vec<char>,
    pub node: usize,
}

/// One more than the number of paths that leave state `n` through its first
/// `k` edges. Bounds the work that a pending visit of `n` stands for.
spec fn walk_cost(nodes: Seq<TokenSetNode>, rank: Seq<nat>, n: int, k: int) -> nat
    decreases rank[n], k,
{
    if !(nodes_wf(nodes) && ranked(nodes, rank) && 0 <= n < nodes.len() && 0 <= k <= nodes[n].edges@.len()) {
        0
    } else if k == 0 {
        1
    } else {
        let t = nodes[n].edges@[k - 1].target as int;
        walk_cost(nodes, rank, n, k - 1) + walk_cost(nodes, rank, t, nodes[t].edges@.len() as int)
    }
}

spec fn full_cost(nodes: Seq<TokenSetNode>, rank: Seq<nat>, n: int) -> nat {
    walk_cost(nodes, rank, n, nodes[n].edges@.len() as int)
}

spec fn stack_cost(nodes: Seq<TokenSetNode>, rank: Seq<nat>, stack: Seq<WalkFrame>) -> nat
    decreases stack.len(),
{
    if stack.len() == 0 {
        0
    } else {
        stack_cost(nodes, rank, stack.drop_last()) + full_cost(nodes, rank, stack.last().node as int)
    }
}

/// `w` starts with `prefix` and its rest is read from `node` to a terminal state.
spec fn covers(nodes: Seq<TokenSetNode>, prefix: Seq<char>, node: int, w: Seq<char>) -> bool {
    starts_with(w, prefix) && lang_from(nodes, node, w.skip(prefix.len() as int), false)
}

spec fn stack_covers(nodes: Seq<TokenSetNode>, stack: Seq<WalkFrame>, w: Seq<char>) -> bool {
    exists|k: int| 0 <= k < stack.len() && #[trigger] covers(nodes, stack[k].prefix@, stack[k].node as int, w)
}

/// `w` is among `words`.
pub open spec fn listed(words: Seq<String>, w: Seq<char>) -> bool {
    exists|i: int| 0 <= i < words.len() && (#[trigger] words[i])@ == w
}

/// `w` starts with `prefix`, and its rest leaves `node` through an edge at
/// position `from` or later.
spec fn pending(nodes: Seq<TokenSetNode>, prefix: Seq<char>, node: int, from: int, w: Seq<char>) -> bool {
    starts_with(w, prefix) && exists|i: int|
        from <= i && #[trigger] takes_edge(nodes, node, i, w.skip(prefix.len() as int), false)
}

proof fn lemma_stack_cost_push(nodes: Seq<TokenSetNode>, rank: Seq<nat>, stack: Seq<WalkFrame>, f: WalkFrame)
    ensures
        stack_cost(nodes, rank, stack.push(f)) == stack_cost(nodes, rank, stack) + full_cost(
            nodes,
            rank,
            f.node as int,
        ),
{
    assert(stack.push(f).drop_last() =~= stack);
}

/// A string covered by a frame is either the frame's prefix, at a terminal
/// state, or leaves the frame's state through one of its edges.
proof fn lemma_cover_split(nodes: Seq<TokenSetNode>, prefix: Seq<char>, node: int, w: Seq<char>)
    requires
        covers(nodes, prefix, node, w),
    ensures
        (w == prefix && 0 <= node < nodes.len() && nodes[node].last) || pending(nodes, prefix, node, 0, w),
{
    let r = w.skip(prefix.len() as int);
    if r.len() == 0 {
        assert(w =~= prefix);
    } else {
        let i = lemma_edge_witness(nodes, node, r, false);
    }
}

/// A string that leaves `node` through edge `i` is covered by the frame of
/// that edge's target.
proof fn lemma_pending_step(nodes: Seq<TokenSetNode>, prefix: Seq<char>, node: int, k: int, w: Seq<char>)
    requires
        nodes_wf(nodes),
        0 <= node < nodes.len(),
        0 <= k < nodes[node].edges@.len(),
        pending(nodes, prefix, node, k, w),
    ensures
        covers(nodes, prefix.push(nodes[node].edges@[k].label), nodes[node].edges@[k].target as int, w)
            || pending(nodes, prefix, node, k + 1, w),
{
    let r = w.skip(prefix.len() as int);
    let i = choose|i: int| k <= i && #[trigger] takes_edge(nodes, node, i, r, false);
    if i == k {
        let c = nodes[node].edges@[k].label;
        assert(r[0] == c);
        assert(w.subrange(0, (prefix.len() + 1) as int) =~= prefix.push(c));
        assert(r.drop_first() =~= w.skip((prefix.len() + 1) as int));
    } else {
        assert(k + 1 <= i && takes_edge(nodes, node, i, r, false));
    }
}

proof fn lemma_pending_done(nodes: Seq<TokenSetNode>, prefix: Seq<char>, node: int, k: int, w: Seq<char>)
    requires
        0 <= node < nodes.len(),
        k >= nodes[node].edges@.len(),
    ensures
        !pending(nodes, prefix, node, k, w),
{
}

impl TokenSet {
    /// Every string that the automaton accepts, each once. The order is that
    /// of a depth-first walk and is not otherwise specified.
    pub fn to_vec(&self) -> (words: Vec<String>)
        requires
            self.wf(),
            self.is_acyclic(),
        ensures
            forall|w: Seq<char>| self.accepts(w) <==> listed(words@, w),
            forall|i: int, j: int| 0 <= i < j < words@.len() ==> words@[i]@ != words@[j]@,
    {
        let arena = self.nodes();
        let ghost nodes = arena@;
        let ghost rank = choose|rank: Seq<nat>| ranked(nodes, rank);
        let mut words: Vec<String> = Vec::new();
        let mut stack: Vec<WalkFrame> = Vec::new();
        stack.push(WalkFrame { prefix: Vec::new(), node: 0 });
        proof {
            assert(ranked(nodes, rank));
            lemma_reads_on_root(nodes, false);
            assert forall|w: Seq<char>| #[trigger] lang_from(nodes, 0, w, false) implies stack_covers(
                nodes,
                stack@,
                w,
            ) by {
                assert(w.skip(0) =~= w);
                assert(w.subrange(0, 0) =~= Seq::<char>::empty());
                assert(covers(nodes, stack@[0].prefix@, stack@[0].node as int, w));
            }
        }
        while stack.len() > 0
            invariant
                nodes == arena@,
                nodes_wf(nodes),
                ranked(nodes, rank),
                forall|k: int| 0 <= k < stack@.len() ==> (#[trigger] stack@[k]).node < nodes.len(),
                forall|k: int|
                    0 <= k < stack@.len() ==> reads_on(nodes, (#[trigger] stack@[k]).prefix@, stack@[k].node as int, false),
                forall|i: int| 0 <= i < words@.len() ==> lang_from(nodes, 0, (#[trigger] words@[i])@, false),
                forall|w: Seq<char>| #[trigger]
                    lang_from(nodes, 0, w, false) ==> listed(words@, w) || stack_covers(nodes, stack@, w),
                forall|i: int, j: int| 0 <= i < j < words@.len() ==> words@[i]@ != words@[j]@,
                forall|k: int, l: int|
                    0 <= k < stack@.len() && 0 <= l < stack@.len() && k != l ==> !starts_with(
                        (#[trigger] stack@[k]).prefix@,
                        (#[trigger] stack@[l]).prefix@,
                    ),
                forall|i: int, k: int|
                    0 <= i < words@.len() && 0 <= k < stack@.len() ==> !starts_with(
                        (#[trigger] words@[i])@,
                        (#[trigger] stack@[k]).prefix@,
                    ),
            decreases stack_cost(nodes, rank, stack@),
        {
            let ghost old_stack = stack@;
            let ghost old_words = words@;
            let frame = stack.pop().unwrap();
            let ghost base = stack@;
            let ghost prefix = frame.prefix@;
            let ghost node = frame.node as int;
            proof {
                assert(base =~= old_stack.drop_last());
                assert(frame == old_stack[old_stack.len() - 1]);
                assert(old_stack =~= base.push(frame));
                lemma_stack_cost_push(nodes, rank, base, frame);
                assert(forall|k: int| 0 <= k < base.len() ==> base[k] == old_stack[k]);
            }
            if arena[frame.node].last {
                let word = string_of(&frame.prefix);
                proof {
                    assert(lang_from(nodes, node, Seq::<char>::empty(), false));
                    assert(prefix + Seq::<char>::empty() =~= prefix);
                    assert(starts_with(prefix, prefix)) by {
                        assert(prefix.subrange(0, prefix.len() as int) =~= prefix);
                    }
                    assert forall|i: int| 0 <= i < old_words.len() implies (#[trigger] old_words[i])@ != prefix by {
                        assert(!starts_with(old_words[i]@, old_stack[old_stack.len() - 1].prefix@));
                    }
                }
                words.push(word);
                proof {
                    assert(words@[words@.len() - 1]@ == prefix);
                    assert forall|w: Seq<char>| listed(old_words, w) implies listed(words@, w) by {
                        let i = choose|i: int| 0 <= i < old_words.len() && (#[trigger] old_words[i])@ == w;
                        assert(words@[i]@ == w);
                    }
                }
            }
            proof {
                assert forall|w: Seq<char>| listed(old_words, w) implies listed(words@, w) by {
                    let i = choose|i: int| 0 <= i < old_words.len() && (#[trigger] old_words[i])@ == w;
                    assert(words@[i]@ == w);
                }
                assert forall|w: Seq<char>| #[trigger] lang_from(nodes, 0, w, false) implies listed(words@, w)
                    || stack_covers(nodes, stack@, w) || pending(nodes, prefix, node, 0, w) by {
                    if !listed(old_words, w) {
                        let k = choose|k: int|
                            0 <= k < old_stack.len() && #[trigger] covers(
                                nodes,
                                old_stack[k].prefix@,
                                old_stack[k].node as int,
                                w,
                            );
                        if k == old_stack.len() - 1 {
                            lemma_cover_split(nodes, prefix, node, w);
                            if w == prefix && nodes[node].last {
                                assert(words@[words@.len() - 1]@ == w);
                            }
                        } else {
                            assert(covers(nodes, stack@[k].prefix@, stack@[k].node as int, w));
                        }
                    }
                }
            }
            let ghost words_now = words@;
            let n_edges = arena[frame.node].edges.len();
            let mut k: usize = 0;
            while k < n_edges
                invariant
                    nodes == arena@,
                    nodes_wf(nodes),
                    ranked(nodes, rank),
                    words@ == words_now,
                    frame.prefix@ == prefix,
                    frame.node as int == node,
                    0 <= node < nodes.len(),
                    n_edges == nodes[node].edges@.len(),
                    k <= n_edges,
                    reads_on(nodes, prefix, node, false),
                    stack@.len() == base.len() + k,
                    forall|l: int| 0 <= l < base.len() ==> stack@[l] == base[l],
                    forall|l: int|
                        base.len() <= l < stack@.len() ==> (#[trigger] stack@[l]).prefix@ == prefix.push(
                            nodes[node].edges@[l - base.len()].label,
                        ) && stack@[l].node == nodes[node].edges@[l - base.len()].target,
                    forall|l: int| 0 <= l < stack@.len() ==> (#[trigger] stack@[l]).node < nodes.len(),
                    forall|l: int|
                        0 <= l < stack@.len() ==> reads_on(
                            nodes,
                            (#[trigger] stack@[l]).prefix@,
                            stack@[l].node as int,
                            false,
                        ),
                    forall|w: Seq<char>| #[trigger]
                        lang_from(nodes, 0, w, false) ==> listed(words@, w) || stack_covers(nodes, stack@, w)
                            || pending(nodes, prefix, node, k as int, w),
                    stack_cost(nodes, rank, stack@) + 1 == stack_cost(nodes, rank, base) + walk_cost(
                        nodes,
                        rank,
                        node,
                        k as int,
                    ),
                decreases n_edges - k,
            {
                let edge = arena[frame.node].edges[k];
                let mut next = copy_chars(&frame.prefix);
                next.push(edge.label);
                let child = WalkFrame { prefix: next, node: edge.target };
                let ghost before = stack@;
                proof {
                    assert(nodes[node].edges@[k as int].target < nodes.len());
                    lemma_reads_on_child(nodes, prefix, node, k as int, edge.label, false);
                    lemma_stack_cost_push(nodes, rank, before, child);
                    assert(walk_cost(nodes, rank, node, k + 1) == walk_cost(nodes, rank, node, k as int)
                        + full_cost(nodes, rank, edge.target as int));
                }
                stack.push(child);
                proof {
                    assert forall|w: Seq<char>| #[trigger] lang_from(nodes, 0, w, false) implies listed(words@, w)
                        || stack_covers(nodes, stack@, w) || pending(
                        nodes,
                        prefix,
                        node,
                        k + 1,
                        w,
                    ) by {
                        if !listed(words@, w) {
                            if stack_covers(nodes, before, w) {
                                let l = choose|l: int|
                                    0 <= l < before.len() && #[trigger] covers(
                                        nodes,
                                        before[l].prefix@,
                                        before[l].node as int,
                                        w,
                                    );
                                assert(covers(nodes, stack@[l].prefix@, stack@[l].node as int, w));
                            } else {
                                lemma_pending_step(nodes, prefix, node, k as int, w);
                                if !pending(nodes, prefix, node, k + 1, w) {
                                    let l = before.len() as int;
                                    assert(covers(nodes, stack@[l].prefix@, stack@[l].node as int, w));
                                }
                            }
                        }
                    }
                }
                k += 1;
            }
            proof {
                assert forall|w: Seq<char>| #[trigger] lang_from(nodes, 0, w, false) implies listed(words@, w)
                    || stack_covers(nodes, stack@, w) by {
                    lemma_pending_done(nodes, prefix, node, k as int, w);
                }
                // No frame's prefix starts another's, nor is one started by a listed word.
                assert forall|a: int, b: int|
                    0 <= a < stack@.len() && 0 <= b < stack@.len() && a != b implies !starts_with(
                    (#[trigger] stack@[a]).prefix@,
                    (#[trigger] stack@[b]).prefix@,
                ) by {
                    let last = old_stack.len() - 1;
                    let pa = stack@[a].prefix@;
                    let pb = stack@[b].prefix@;
                    if starts_with(pa, pb) {
                        if a < base.len() && b < base.len() {
                            assert(!starts_with(old_stack[a].prefix@, old_stack[b].prefix@));
                        } else if a < base.len() {
                            // pb = prefix + c starts pa, so prefix starts pa
                            assert(!starts_with(old_stack[a].prefix@, old_stack[last].prefix@));
                            assert(pa.subrange(0, prefix.len() as int) =~= pb.subrange(0, prefix.len() as int));
                            assert(pb.subrange(0, prefix.len() as int) =~= prefix);
                        } else if b < base.len() {
                            // pb starts pa = prefix + c: pb starts prefix, or pb == pa
                            assert(!starts_with(old_stack[last].prefix@, old_stack[b].prefix@));
                            assert(!starts_with(old_stack[b].prefix@, old_stack[last].prefix@));
                            if pb.len() <= prefix.len() {
                                assert(prefix.subrange(0, pb.len() as int) =~= pa.subrange(0, pb.len() as int));
                            } else {
                                assert(pb =~= pa);
                                assert(pb.subrange(0, prefix.len() as int) =~= prefix);
                            }
                        } else {
                            let ia = a - base.len();
                            let ib = b - base.len();
                            assert(pa.len() == pb.len());
                            assert(pa.subrange(0, pb.len() as int) =~= pa);
                            assert(pa[prefix.len() as int] == nodes[node].edges@[ia].label);
                            assert(pb[prefix.len() as int] == nodes[node].edges@[ib].label);
                            if ia < ib {
                                assert(nodes[node].edges@[ia].label != nodes[node].edges@[ib].label);
                            } else {
                                assert(nodes[node].edges@[ib].label != nodes[node].edges@[ia].label);
                            }
                        }
                    }
                }
                assert forall|i: int, b: int| 0 <= i < words@.len() && 0 <= b < stack@.len() implies !starts_with(
                    (#[trigger] words@[i])@,
                    (#[trigger] stack@[b]).prefix@,
                ) by {
                    let last = old_stack.len() - 1;
                    let pb = stack@[b].prefix@;
                    let wi = words@[i]@;
                    if starts_with(wi, pb) {
                        if i < old_words.len() {
                            assert(words@[i] == old_words[i]);
                            if b < base.len() {
                                assert(!starts_with(old_words[i]@, old_stack[b].prefix@));
                            } else {
                                assert(!starts_with(old_words[i]@, old_stack[last].prefix@));
                                assert(wi.subrange(0, prefix.len() as int) =~= pb.subrange(0, prefix.len() as int));
                                assert(pb.subrange(0, prefix.len() as int) =~= prefix);
                            }
                        } else {
                            assert(wi == prefix);
                            if b < base.len() {
                                assert(!starts_with(old_stack[last].prefix@, old_stack[b].prefix@));
                            } else {
                                assert(pb.len() == prefix.len() + 1);
                            }
                        }
                    }
                }
            }
        }
        proof {
            assert forall|w: Seq<char>| self.accepts(w) implies listed(words@, w) by {
                if stack_covers(nodes, stack@, w) {
                    let k = choose|k: int|
                        0 <= k < stack@.len() && #[trigger] covers(nodes, stack@[k].prefix@, stack@[k].node as int, w);
                }
            }
            assert forall|w: Seq<char>| listed(words@, w) implies self.accepts(w) by {
                let i = choose|i: int| 0 <= i < words@.len() && (#[trigger] words@[i])@ == w;
            }
        }
        words
    }
}

} // verus!
