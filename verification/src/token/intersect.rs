//! Intersection of a vocabulary automaton with a query pattern.

use vstd::prelude::*;
use crate::token::{
    TokenSet, TokenSetNode, label_fits, lang_from, lemma_edge_witness, lemma_reads_on_child, lemma_reads_on_root,
    nodes_wf, ranked, reads_on, starts_with, takes_edge, WILDCARD,
};
use crate::token::trie::{
    Shape, emitted, flags_in, grows, lemma_grows_emitted, lemma_trie_language, root_shape, trie_child, trie_ok,
};

verus! {

/// A pair of states still to be expanded, with the output state that stands
/// for the string read so far.
struct PairFrame {
    pub q_node: usize,
    pub output: usize,
    pub node: usize,
}

/// `w` is a non-empty string of the vocabulary that the query matches.
spec fn in_both(vocab: Seq<TokenSetNode>, query: Seq<TokenSetNode>, w: Seq<char>) -> bool {
    w.len() > 0 && lang_from(vocab, 0, w, false) && lang_from(query, 0, w, true)
}

spec fn frame_ok(vocab: Seq<TokenSetNode>, query: Seq<TokenSetNode>, s: Shape, f: PairFrame) -> bool {
    &&& f.q_node < query.len()
    &&& f.node < vocab.len()
    &&& f.output < s.path.len()
    &&& reads_on(vocab, s.path[f.output as int], f.node as int, false)
    &&& reads_on(query, s.path[f.output as int], f.q_node as int, true)
}

/// `w` starts with `p`, and its non-empty rest is read by both automata from
/// the pair of states `(qn, vn)`.
spec fn pair_covers(
    vocab: Seq<TokenSetNode>,
    query: Seq<TokenSetNode>,
    p: Seq<char>,
    qn: int,
    vn: int,
    w: Seq<char>,
) -> bool {
    &&& starts_with(w, p)
    &&& w.len() > p.len()
    &&& lang_from(vocab, vn, w.skip(p.len() as int), false)
    &&& lang_from(query, qn, w.skip(p.len() as int), true)
}

spec fn stack_pair_covers(
    vocab: Seq<TokenSetNode>,
    query: Seq<TokenSetNode>,
    s: Shape,
    stack: Seq<PairFrame>,
    w: Seq<char>,
) -> bool {
    exists|k: int|
        0 <= k < stack.len() && stack[k].output < s.path.len() && pair_covers(
            vocab,
            query,
            s.path[(#[trigger] stack[k]).output as int],
            stack[k].q_node as int,
            stack[k].node as int,
            w,
        )
}

spec fn pair_takes(
    vocab: Seq<TokenSetNode>,
    query: Seq<TokenSetNode>,
    qn: int,
    vn: int,
    a: int,
    b: int,
    r: Seq<char>,
) -> bool {
    takes_edge(query, qn, a, r, true) && takes_edge(vocab, vn, b, r, false)
}

/// `w` starts with `p`, and its rest leaves the pair `(qn, vn)` through a pair
/// of edges that comes at or after `(qi, ni)` in the order of expansion.
spec fn pair_pending(
    vocab: Seq<TokenSetNode>,
    query: Seq<TokenSetNode>,
    p: Seq<char>,
    qn: int,
    vn: int,
    qi: int,
    ni: int,
    w: Seq<char>,
) -> bool {
    starts_with(w, p) && exists|a: int, b: int|
        #[trigger] pair_takes(vocab, query, qn, vn, a, b, w.skip(p.len() as int)) && (a > qi || (a == qi && b
            >= ni))
}

/// The number of expansions that the first `k` edges of vocabulary state `n`
/// can cause, when each pair of states is expanded at most `d` times per edge.
spec fn pair_cost(vocab: Seq<TokenSetNode>, rank: Seq<nat>, d: nat, n: int, k: int) -> nat
    decreases rank[n], k,
{
    if !(nodes_wf(vocab) && ranked(vocab, rank) && 0 <= n < vocab.len() && 0 <= k <= vocab[n].edges@.len()) {
        0
    } else if k == 0 {
        0
    } else {
        let t = vocab[n].edges@[k - 1].target as int;
        pair_cost(vocab, rank, d, n, k - 1) + 1 + d * pair_cost(vocab, rank, d, t, vocab[t].edges@.len() as int)
    }
}

spec fn pair_full_cost(vocab: Seq<TokenSetNode>, rank: Seq<nat>, d: nat, n: int) -> nat {
    1 + d * pair_cost(vocab, rank, d, n, vocab[n].edges@.len() as int)
}

/// The state of a frame in the automaton that has no cycle and so bounds
/// the walk: the vocabulary's where `by_vocab` is set, the pattern's otherwise.
spec fn guide_state(f: PairFrame, by_vocab: bool) -> int {
    if by_vocab {
        f.node as int
    } else {
        f.q_node as int
    }
}

spec fn pair_stack_cost(guide: Seq<TokenSetNode>, rank: Seq<nat>, d: nat, stack: Seq<PairFrame>, by_vocab: bool) -> nat
    decreases stack.len(),
{
    if stack.len() == 0 {
        0
    } else {
        pair_stack_cost(guide, rank, d, stack.drop_last(), by_vocab) + pair_full_cost(
            guide,
            rank,
            d,
            guide_state(stack.last(), by_vocab),
        )
    }
}

proof fn lemma_pair_stack_cost_push(
    guide: Seq<TokenSetNode>,
    rank: Seq<nat>,
    d: nat,
    stack: Seq<PairFrame>,
    f: PairFrame,
    by_vocab: bool,
)
    ensures
        pair_stack_cost(guide, rank, d, stack.push(f), by_vocab) == pair_stack_cost(guide, rank, d, stack, by_vocab)
            + pair_full_cost(guide, rank, d, guide_state(f, by_vocab)),
{
    assert(stack.push(f).drop_last() =~= stack);
}

/// What the expansion of the pair `(qn, vn)` has added to the cost of the
/// stack at most, when it has come to the pair of edges `(qi, ni)`.
spec fn spent(
    by_vocab: bool,
    guide: Seq<TokenSetNode>,
    rank: Seq<nat>,
    d: nat,
    qn: int,
    vn: int,
    nn: int,
    qi: int,
    ni: int,
) -> int {
    if by_vocab {
        qi * pair_cost(guide, rank, d, vn, nn) + pair_cost(guide, rank, d, vn, ni)
    } else {
        d * pair_cost(guide, rank, d, qn, qi) + ni * pair_full_cost(guide, rank, d, guide[qn].edges@[qi].target as int)
    }
}

proof fn lemma_spent_nothing(by_vocab: bool, guide: Seq<TokenSetNode>, rank: Seq<nat>, d: nat, qn: int, vn: int, nn: int)
    requires
        nodes_wf(guide),
        ranked(guide, rank),
    ensures
        spent(by_vocab, guide, rank, d, qn, vn, nn, 0, 0) == 0,
{
    let c = pair_cost(guide, rank, d, vn, nn);
    assert(0 * c == 0) by (nonlinear_arith);
    let f = pair_full_cost(guide, rank, d, guide[qn].edges@[0].target as int);
    assert(0 * f == 0) by (nonlinear_arith);
    assert(d * 0 == 0) by (nonlinear_arith);
}

/// One more pair of edges adds at most the cost of one new frame.
proof fn lemma_spent_step(
    by_vocab: bool,
    guide: Seq<TokenSetNode>,
    rank: Seq<nat>,
    d: nat,
    qn: int,
    vn: int,
    nn: int,
    qi: int,
    ni: int,
    child: PairFrame,
)
    requires
        nodes_wf(guide),
        ranked(guide, rank),
        0 <= ni < nn,
        0 <= qi,
        by_vocab ==> 0 <= vn < guide.len() && nn == guide[vn].edges@.len() && child.node == guide[vn].edges@[ni].target,
        !by_vocab ==> 0 <= qn < guide.len() && qi < guide[qn].edges@.len() && child.q_node == guide[qn].edges@[qi].target,
    ensures
        spent(by_vocab, guide, rank, d, qn, vn, nn, qi, ni + 1) == spent(by_vocab, guide, rank, d, qn, vn, nn, qi, ni)
            + pair_full_cost(guide, rank, d, guide_state(child, by_vocab)),
{
    if by_vocab {
        lemma_pair_cost_step(guide, rank, d, vn, ni);
    } else {
        let f = pair_full_cost(guide, rank, d, guide[qn].edges@[qi].target as int);
        assert((ni + 1) * f == ni * f + f) by (nonlinear_arith);
    }
}

/// When a row of pairs is done, no more was added than the next row starts with.
proof fn lemma_spent_row(
    by_vocab: bool,
    guide: Seq<TokenSetNode>,
    rank: Seq<nat>,
    d: nat,
    qn: int,
    vn: int,
    nn: int,
    qi: int,
)
    requires
        nodes_wf(guide),
        ranked(guide, rank),
        0 <= qi,
        0 <= nn <= d,
        by_vocab ==> 0 <= vn < guide.len() && nn == guide[vn].edges@.len(),
        !by_vocab ==> 0 <= qn < guide.len() && qi < guide[qn].edges@.len(),
    ensures
        spent(by_vocab, guide, rank, d, qn, vn, nn, qi, nn) <= spent(by_vocab, guide, rank, d, qn, vn, nn, qi + 1, 0),
{
    if by_vocab {
        let c = pair_cost(guide, rank, d, vn, nn);
        assert((qi + 1) * c == qi * c + c) by (nonlinear_arith);
    } else {
        let f = pair_full_cost(guide, rank, d, guide[qn].edges@[qi].target as int);
        let g = pair_full_cost(guide, rank, d, guide[qn].edges@[qi + 1].target as int);
        let c = pair_cost(guide, rank, d, qn, qi);
        lemma_pair_cost_step(guide, rank, d, qn, qi);
        assert(nn * f <= d * f) by (nonlinear_arith)
            requires
                0 <= nn <= d,
                f >= 0,
        ;
        assert(d * (c + f) == d * c + d * f) by (nonlinear_arith);
        assert(0 * g == 0) by (nonlinear_arith);
    }
}

/// When all rows are done, less was added than the expanded frame had cost.
proof fn lemma_spent_all(
    by_vocab: bool,
    guide: Seq<TokenSetNode>,
    rank: Seq<nat>,
    d: nat,
    frame: PairFrame,
    nq: int,
    nn: int,
)
    requires
        nodes_wf(guide),
        ranked(guide, rank),
        0 <= nq <= d,
        by_vocab ==> 0 <= frame.node < guide.len() && nn == guide[frame.node as int].edges@.len(),
        !by_vocab ==> 0 <= frame.q_node < guide.len() && nq == guide[frame.q_node as int].edges@.len(),
    ensures
        spent(by_vocab, guide, rank, d, frame.q_node as int, frame.node as int, nn, nq, 0) < pair_full_cost(
            guide,
            rank,
            d,
            guide_state(frame, by_vocab),
        ),
{
    if by_vocab {
        let c = pair_cost(guide, rank, d, frame.node as int, nn);
        assert(nq * c <= d * c) by (nonlinear_arith)
            requires
                0 <= nq <= d,
                c >= 0,
        ;
    } else {
        let g = pair_full_cost(guide, rank, d, guide[frame.q_node as int].edges@[nq].target as int);
        assert(0 * g == 0) by (nonlinear_arith);
    }
}

proof fn lemma_pair_cost_step(vocab: Seq<TokenSetNode>, rank: Seq<nat>, d: nat, n: int, k: int)
    requires
        nodes_wf(vocab),
        ranked(vocab, rank),
        0 <= n < vocab.len(),
        0 <= k < vocab[n].edges@.len(),
    ensures
        pair_cost(vocab, rank, d, n, k + 1) == pair_cost(vocab, rank, d, n, k) + pair_full_cost(
            vocab,
            rank,
            d,
            vocab[n].edges@[k].target as int,
        ),
        pair_cost(vocab, rank, d, n, k) <= pair_cost(vocab, rank, d, n, k + 1),
{
}

proof fn lemma_pair_cost_monotone(vocab: Seq<TokenSetNode>, rank: Seq<nat>, d: nat, n: int, k: int)
    requires
        nodes_wf(vocab),
        ranked(vocab, rank),
        0 <= n < vocab.len(),
        0 <= k <= vocab[n].edges@.len(),
    ensures
        pair_cost(vocab, rank, d, n, k) <= pair_cost(vocab, rank, d, n, vocab[n].edges@.len() as int),
    decreases vocab[n].edges@.len() - k,
{
    if k < vocab[n].edges@.len() {
        lemma_pair_cost_step(vocab, rank, d, n, k);
        lemma_pair_cost_monotone(vocab, rank, d, n, k + 1);
    }
}

proof fn lemma_grows_frame(
    vocab: Seq<TokenSetNode>,
    query: Seq<TokenSetNode>,
    o: Seq<TokenSetNode>,
    s: Shape,
    o2: Seq<TokenSetNode>,
    s2: Shape,
    f: PairFrame,
)
    requires
        grows(o, s, o2, s2),
        frame_ok(vocab, query, s, f),
    ensures
        frame_ok(vocab, query, s2, f),
        s2.path[f.output as int] == s.path[f.output as int],
{
    assert(s2.path[f.output as int] == s.path[f.output as int]);
}

proof fn lemma_grows_stack_covers(
    vocab: Seq<TokenSetNode>,
    query: Seq<TokenSetNode>,
    o: Seq<TokenSetNode>,
    s: Shape,
    o2: Seq<TokenSetNode>,
    s2: Shape,
    stack: Seq<PairFrame>,
    f: PairFrame,
    w: Seq<char>,
)
    requires
        grows(o, s, o2, s2),
        stack_pair_covers(vocab, query, s, stack, w),
    ensures
        stack_pair_covers(vocab, query, s2, stack, w),
        stack_pair_covers(vocab, query, s2, stack.push(f), w),
{
    let k = choose|k: int|
        0 <= k < stack.len() && stack[k].output < s.path.len() && pair_covers(
            vocab,
            query,
            s.path[(#[trigger] stack[k]).output as int],
            stack[k].q_node as int,
            stack[k].node as int,
            w,
        );
    assert(s2.path[stack[k].output as int] == s.path[stack[k].output as int]);
    assert(stack.push(f)[k] == stack[k]);
}

/// A string covered by the pair `(qn, vn)` leaves it through some pair of edges.
proof fn lemma_pair_cover_split(
    vocab: Seq<TokenSetNode>,
    query: Seq<TokenSetNode>,
    p: Seq<char>,
    qn: int,
    vn: int,
    w: Seq<char>,
)
    requires
        pair_covers(vocab, query, p, qn, vn, w),
    ensures
        pair_pending(vocab, query, p, qn, vn, 0, 0, w),
{
    let r = w.skip(p.len() as int);
    let a = lemma_edge_witness(query, qn, r, true);
    let b = lemma_edge_witness(vocab, vn, r, false);
    assert(pair_takes(vocab, query, qn, vn, a, b, r));
}

/// What a pending string does at the pair of edges `(qi, ni)`: it stays
/// pending for a later pair, or it leaves through this pair, which then
/// matches, and is either complete or covered by the pair of targets.
proof fn lemma_pair_step(
    vocab: Seq<TokenSetNode>,
    query: Seq<TokenSetNode>,
    p: Seq<char>,
    qn: int,
    vn: int,
    qi: int,
    ni: int,
    w: Seq<char>,
)
    requires
        0 <= qn < query.len(),
        0 <= vn < vocab.len(),
        0 <= qi < query[qn].edges@.len(),
        0 <= ni < vocab[vn].edges@.len(),
        pair_pending(vocab, query, p, qn, vn, qi, ni, w),
    ensures
        pair_pending(vocab, query, p, qn, vn, qi, ni + 1, w) || ({
            let qe = query[qn].edges@[qi];
            let ve = vocab[vn].edges@[ni];
            &&& label_fits(qe.label, ve.label, true)
            &&& ((w == p.push(ve.label) && 0 <= ve.target < vocab.len() && 0 <= qe.target < query.len()
                && vocab[ve.target as int].last && query[qe.target as int].last) || pair_covers(
                vocab,
                query,
                p.push(ve.label),
                qe.target as int,
                ve.target as int,
                w,
            ))
        }),
{
    let r = w.skip(p.len() as int);
    let (a, b) = choose|a: int, b: int|
        #[trigger] pair_takes(vocab, query, qn, vn, a, b, r) && (a > qi || (a == qi && b >= ni));
    if a == qi && b == ni {
        let qe = query[qn].edges@[qi];
        let ve = vocab[vn].edges@[ni];
        let c = ve.label;
        assert(r[0] == c);
        assert(w.subrange(0, (p.len() + 1) as int) =~= p.push(c));
        assert(r.drop_first() =~= w.skip((p.len() + 1) as int));
        if r.len() == 1 {
            assert(w =~= p.push(c));
        }
    } else {
        assert(pair_takes(vocab, query, qn, vn, a, b, r) && (a > qi || (a == qi && b >= ni + 1)));
    }
}

proof fn lemma_pair_row_done(
    vocab: Seq<TokenSetNode>,
    query: Seq<TokenSetNode>,
    p: Seq<char>,
    qn: int,
    vn: int,
    qi: int,
    ni: int,
    w: Seq<char>,
)
    requires
        0 <= vn < vocab.len(),
        ni >= vocab[vn].edges@.len(),
        pair_pending(vocab, query, p, qn, vn, qi, ni, w),
    ensures
        pair_pending(vocab, query, p, qn, vn, qi + 1, 0, w),
{
    let r = w.skip(p.len() as int);
    let (a, b) = choose|a: int, b: int|
        #[trigger] pair_takes(vocab, query, qn, vn, a, b, r) && (a > qi || (a == qi && b >= ni));
    assert(pair_takes(vocab, query, qn, vn, a, b, r) && (a > qi + 1 || (a == qi + 1 && b >= 0)));
}

proof fn lemma_pair_all_done(
    vocab: Seq<TokenSetNode>,
    query: Seq<TokenSetNode>,
    p: Seq<char>,
    qn: int,
    vn: int,
    qi: int,
    w: Seq<char>,
)
    requires
        0 <= qn < query.len(),
        qi >= query[qn].edges@.len(),
    ensures
        !pair_pending(vocab, query, p, qn, vn, qi, 0, w),
{
}

/// If a state reads on from `p`, and its own flag is set, `p` is read from the root.
proof fn lemma_reads_on_last(nodes: Seq<TokenSetNode>, p: Seq<char>, n: int, wild: bool)
    requires
        0 <= n < nodes.len(),
        nodes[n].last,
        reads_on(nodes, p, n, wild),
    ensures
        lang_from(nodes, 0, p, wild),
{
    assert(lang_from(nodes, n, Seq::<char>::empty(), wild));
    assert(p + Seq::<char>::empty() =~= p);
}

impl TokenSet {
    /// The strings of this vocabulary that the pattern `b` matches.
    ///
    /// The two automata are walked in step, and every pair of edges of which
    /// the pattern's can read the vocabulary's label adds that label to the
    /// output. The empty string is never part of the result. A `*` is a
    /// wildcard in the pattern only; in the receiver it is a character like
    /// any other. The walk ends because one of the two has no cycle.
    pub fn intersect(&self, b: &TokenSet) -> (out: TokenSet)
        requires
            self.wf(),
            b.wf(),
            self.is_acyclic() || b.is_acyclic(),
        ensures
            out.wf(),
            out.is_acyclic(),
            forall|w: Seq<char>| out.accepts(w) <==> (w.len() > 0 && self.accepts(w) && b.matches(w)),
    {
        let va = self.nodes();
        let qa = b.nodes();
        let ghost vocab = va@;
        let ghost query = qa@;
        let ghost by_vocab = self.is_acyclic();
        let ghost guide = if by_vocab {
            vocab
        } else {
            query
        };
        let ghost rank = choose|rank: Seq<nat>| ranked(guide, rank);
        let ghost d: nat = usize::MAX as nat;
        let ghost good = |w: Seq<char>| in_both(vocab, query, w);
        let mut out: Vec<TokenSetNode> = Vec::new();
        out.push(TokenSetNode::new());
        let mut stack: Vec<PairFrame> = Vec::new();
        stack.push(PairFrame { q_node: 0, output: 0, node: 0 });
        let ghost mut shape = root_shape();
        proof {
            lemma_reads_on_root(vocab, false);
            lemma_reads_on_root(query, true);
            assert(trie_ok(out@, shape));
            assert forall|w: Seq<char>| #[trigger] in_both(vocab, query, w) implies stack_pair_covers(
                vocab,
                query,
                shape,
                stack@,
                w,
            ) by {
                assert(w.skip(0) =~= w);
                assert(w.subrange(0, 0) =~= Seq::<char>::empty());
                assert(pair_covers(
                    vocab,
                    query,
                    shape.path[stack@[0].output as int],
                    stack@[0].q_node as int,
                    stack@[0].node as int,
                    w,
                ));
            }
        }
        while stack.len() > 0
            invariant
                vocab == va@,
                query == qa@,
                nodes_wf(vocab),
                nodes_wf(query),
                ranked(guide, rank),
                guide == (if by_vocab { vocab } else { query }),
                d == usize::MAX as nat,
                good == |w: Seq<char>| in_both(vocab, query, w),
                trie_ok(out@, shape),
                flags_in(out@, shape, good),
                forall|k: int| 0 <= k < stack@.len() ==> frame_ok(vocab, query, shape, #[trigger] stack@[k]),
                forall|w: Seq<char>| #[trigger]
                    in_both(vocab, query, w) ==> emitted(out@, shape, w) || stack_pair_covers(
                        vocab,
                        query,
                        shape,
                        stack@,
                        w,
                    ),
            decreases pair_stack_cost(guide, rank, d, stack@, by_vocab),
        {
            let ghost old_stack = stack@;
            let frame = stack.pop().unwrap();
            let ghost base = stack@;
            let ghost p = shape.path[frame.output as int];
            let ghost qn = frame.q_node as int;
            let ghost vn = frame.node as int;
            let nq = qa[frame.q_node].edges.len();
            let nn = va[frame.node].edges.len();
            let ghost base_cost = pair_stack_cost(guide, rank, d, base, by_vocab);
            proof {
                assert(base =~= old_stack.drop_last());
                assert(frame == old_stack[old_stack.len() - 1]);
                assert(old_stack =~= base.push(frame));
                lemma_pair_stack_cost_push(guide, rank, d, base, frame, by_vocab);
                assert(frame_ok(vocab, query, shape, frame));
                assert forall|k: int| 0 <= k < base.len() implies frame_ok(vocab, query, shape, #[trigger] base[k]) by {
                    assert(base[k] == old_stack[k]);
                }
                assert forall|w: Seq<char>| #[trigger] in_both(vocab, query, w) implies emitted(out@, shape, w)
                    || stack_pair_covers(vocab, query, shape, base, w) || pair_pending(
                    vocab,
                    query,
                    p,
                    qn,
                    vn,
                    0,
                    0,
                    w,
                ) by {
                    if !emitted(out@, shape, w) {
                        let k = choose|k: int|
                            0 <= k < old_stack.len() && old_stack[k].output < shape.path.len() && pair_covers(
                                vocab,
                                query,
                                shape.path[(#[trigger] old_stack[k]).output as int],
                                old_stack[k].q_node as int,
                                old_stack[k].node as int,
                                w,
                            );
                        if k == old_stack.len() - 1 {
                            lemma_pair_cover_split(vocab, query, p, qn, vn, w);
                        } else {
                            assert(base[k] == old_stack[k]);
                        }
                    }
                }
                lemma_spent_nothing(by_vocab, guide, rank, d, qn, vn, nn as int);
            }
            let mut qi: usize = 0;
            while qi < nq
                invariant
                    vocab == va@,
                    query == qa@,
                    nodes_wf(vocab),
                    nodes_wf(query),
                    ranked(guide, rank),
                guide == (if by_vocab { vocab } else { query }),
                    d == usize::MAX as nat,
                    good == |w: Seq<char>| in_both(vocab, query, w),
                    trie_ok(out@, shape),
                    flags_in(out@, shape, good),
                    frame_ok(vocab, query, shape, frame),
                    shape.path[frame.output as int] == p,
                    qn == frame.q_node,
                    vn == frame.node,
                    nq == query[qn].edges@.len(),
                    nn == vocab[vn].edges@.len(),
                    qi <= nq,
                    forall|k: int| 0 <= k < stack@.len() ==> frame_ok(vocab, query, shape, #[trigger] stack@[k]),
                    forall|w: Seq<char>| #[trigger]
                        in_both(vocab, query, w) ==> emitted(out@, shape, w) || stack_pair_covers(
                            vocab,
                            query,
                            shape,
                            stack@,
                            w,
                        ) || pair_pending(vocab, query, p, qn, vn, qi as int, 0, w),
                    pair_stack_cost(guide, rank, d, stack@, by_vocab) <= base_cost + spent(
                        by_vocab,
                        guide,
                        rank,
                        d,
                        qn,
                        vn,
                        nn as int,
                        qi as int,
                        0,
                    ),
                decreases nq - qi,
            {
                let qe = qa[frame.q_node].edges[qi];
                let mut ni: usize = 0;
                while ni < nn
                    invariant
                        vocab == va@,
                        query == qa@,
                        nodes_wf(vocab),
                        nodes_wf(query),
                        ranked(guide, rank),
                guide == (if by_vocab { vocab } else { query }),
                        d == usize::MAX as nat,
                        good == |w: Seq<char>| in_both(vocab, query, w),
                        trie_ok(out@, shape),
                        flags_in(out@, shape, good),
                        frame_ok(vocab, query, shape, frame),
                        shape.path[frame.output as int] == p,
                        qn == frame.q_node,
                        vn == frame.node,
                        nq == query[qn].edges@.len(),
                        nn == vocab[vn].edges@.len(),
                        qi < nq,
                        qe == query[qn].edges@[qi as int],
                        ni <= nn,
                        forall|k: int| 0 <= k < stack@.len() ==> frame_ok(vocab, query, shape, #[trigger] stack@[k]),
                        forall|w: Seq<char>| #[trigger]
                            in_both(vocab, query, w) ==> emitted(out@, shape, w) || stack_pair_covers(
                                vocab,
                                query,
                                shape,
                                stack@,
                                w,
                            ) || pair_pending(vocab, query, p, qn, vn, qi as int, ni as int, w),
                        pair_stack_cost(guide, rank, d, stack@, by_vocab) <= base_cost + spent(
                            by_vocab,
                            guide,
                            rank,
                            d,
                            qn,
                            vn,
                            nn as int,
                            qi as int,
                            ni as int,
                        ),
                    decreases nn - ni,
                {
                    let ve = va[frame.node].edges[ni];
                    let ghost o_before = out@;
                    let ghost s_before = shape;
                    let ghost stack_before = stack@;
                    proof {
                        assert(vocab[vn].edges@[ni as int].target < vocab.len());
                        assert(query[qn].edges@[qi as int].target < query.len());
                        lemma_spent_step(
                            by_vocab,
                            guide,
                            rank,
                            d,
                            qn,
                            vn,
                            nn as int,
                            qi as int,
                            ni as int,
                            PairFrame { q_node: qe.target, output: 0, node: ve.target },
                        );
                    }
                    if ve.label == qe.label || qe.label == WILDCARD {
                        let last = va[ve.target].last && qa[qe.target].last;
                        proof {
                            lemma_reads_on_child(vocab, p, vn, ni as int, ve.label, false);
                            lemma_reads_on_child(query, p, qn, qi as int, ve.label, true);
                            if last {
                                lemma_reads_on_last(vocab, p.push(ve.label), ve.target as int, false);
                                lemma_reads_on_last(query, p.push(ve.label), qe.target as int, true);
                            }
                        }
                        let res = trie_child(&mut out, frame.output, ve.label, last, Ghost(shape), Ghost(good));
                        let next = res.0;
                        let child = PairFrame { q_node: qe.target, output: next, node: ve.target };
                        proof {
                            shape = res.1@;
                            lemma_grows_frame(vocab, query, o_before, s_before, out@, shape, frame);
                            assert forall|k: int| 0 <= k < stack_before.len() implies frame_ok(
                                vocab,
                                query,
                                shape,
                                #[trigger] stack_before[k],
                            ) by {
                                lemma_grows_frame(vocab, query, o_before, s_before, out@, shape, stack_before[k]);
                            }
                            assert(frame_ok(vocab, query, shape, child));
                            lemma_pair_stack_cost_push(guide, rank, d, stack_before, child, by_vocab);
                        }
                        stack.push(child);
                        proof {
                            assert forall|w: Seq<char>| #[trigger] in_both(vocab, query, w) implies emitted(
                                out@,
                                shape,
                                w,
                            ) || stack_pair_covers(vocab, query, shape, stack@, w) || pair_pending(
                                vocab,
                                query,
                                p,
                                qn,
                                vn,
                                qi as int,
                                ni + 1,
                                w,
                            ) by {
                                if emitted(o_before, s_before, w) {
                                    lemma_grows_emitted(o_before, s_before, out@, shape, w);
                                } else if stack_pair_covers(vocab, query, s_before, stack_before, w) {
                                    lemma_grows_stack_covers(
                                        vocab,
                                        query,
                                        o_before,
                                        s_before,
                                        out@,
                                        shape,
                                        stack_before,
                                        child,
                                        w,
                                    );
                                } else {
                                    lemma_pair_step(vocab, query, p, qn, vn, qi as int, ni as int, w);
                                    if !pair_pending(vocab, query, p, qn, vn, qi as int, ni + 1, w) {
                                        if w == p.push(ve.label) && last {
                                            assert(shape.path[next as int] == w);
                                            assert(emitted(out@, shape, w));
                                        } else {
                                            let k = stack_before.len() as int;
                                            assert(stack@[k] == child);
                                            assert(pair_covers(
                                                vocab,
                                                query,
                                                shape.path[stack@[k].output as int],
                                                stack@[k].q_node as int,
                                                stack@[k].node as int,
                                                w,
                                            ));
                                        }
                                    }
                                }
                            }
                            assert forall|k: int| 0 <= k < stack@.len() implies frame_ok(
                                vocab,
                                query,
                                shape,
                                #[trigger] stack@[k],
                            ) by {
                                if k < stack_before.len() {
                                    assert(stack@[k] == stack_before[k]);
                                }
                            }
                        }
                    } else {
                        proof {
                            assert forall|w: Seq<char>| #[trigger] in_both(vocab, query, w) implies emitted(
                                out@,
                                shape,
                                w,
                            ) || stack_pair_covers(vocab, query, shape, stack@, w) || pair_pending(
                                vocab,
                                query,
                                p,
                                qn,
                                vn,
                                qi as int,
                                ni + 1,
                                w,
                            ) by {
                                if pair_pending(vocab, query, p, qn, vn, qi as int, ni as int, w) {
                                    lemma_pair_step(vocab, query, p, qn, vn, qi as int, ni as int, w);
                                }
                            }
                        }
                    }
                    ni += 1;
                }
                proof {
                    assert forall|w: Seq<char>| #[trigger] in_both(vocab, query, w) implies emitted(out@, shape, w)
                        || stack_pair_covers(vocab, query, shape, stack@, w) || pair_pending(
                        vocab,
                        query,
                        p,
                        qn,
                        vn,
                        qi + 1,
                        0,
                        w,
                    ) by {
                        if pair_pending(vocab, query, p, qn, vn, qi as int, ni as int, w) {
                            lemma_pair_row_done(vocab, query, p, qn, vn, qi as int, ni as int, w);
                        }
                    }
                    lemma_spent_row(by_vocab, guide, rank, d, qn, vn, nn as int, qi as int);
                }
                qi += 1;
            }
            proof {
                assert forall|w: Seq<char>| #[trigger] in_both(vocab, query, w) implies emitted(out@, shape, w)
                    || stack_pair_covers(vocab, query, shape, stack@, w) by {
                    lemma_pair_all_done(vocab, query, p, qn, vn, qi as int, w);
                }
                lemma_spent_all(by_vocab, guide, rank, d, frame, nq as int, nn as int);
            }
        }
        let ghost o = out@;
        let result = TokenSet::from_nodes(out);
        proof {
            lemma_trie_language(o, shape);
            assert forall|w: Seq<char>| result.accepts(w) <==> (w.len() > 0 && self.accepts(w) && b.matches(w)) by {
                if emitted(o, shape, w) {
                    let n = choose|n: int|
                        0 <= n < o.len() && n < shape.path.len() && #[trigger] shape.path[n] == w && o[n].last;
                    assert(o[n].last);
                }
                if in_both(vocab, query, w) {
                    assert(!stack_pair_covers(vocab, query, shape, stack@, w));
                }
            }
        }
        result
    }
}

} // verus!
