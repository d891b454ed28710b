//! The pattern automaton of a bounded edit distance.

use vstd::prelude::*;
use crate::text::{char_at, chars_of, copy_chars};
use crate::token::{TokenSet, TokenSetNode, starts_with, WILDCARD};
use crate::token::trie::{
    Shape, emitted, flags_in, grows, lemma_grows_emitted, lemma_trie_language, root_shape, trie_child, trie_mark,
    trie_ok,
};

verus! {

/// A state still to be expanded: what is left of the source, and how many
/// edits may still be spent on it.
struct FuzzyFrame {
    pub node: usize,
    pub edits_remaining: u64,
    pub source: Vec<char>,
}

/// The source with its first two characters swapped and the second one,
/// which a transposition has just read, taken away.
pub open spec fn after_swap(s: Seq<char>) -> Seq<char> {
    seq![s[0]] + s.skip(2)
}

/// Whether the string of edge labels `p` is read from a state that stands
/// for "`s` is still to come and `k` edits are left".
///
/// One clause per kind of step: the next character as it is; an inserted
/// character, read by a `*` edge; a deleted character, which reads nothing;
/// a substituted character, read by a `*` edge; and two transposed
/// characters, of which the second is read first.
pub open spec fn fuzzy_reads(s: Seq<char>, k: nat, p: Seq<char>) -> bool
    decreases s.len() + k,
{
    ||| (s.len() >= 1 && p.len() >= 1 && p[0] == s[0] && ((s.len() == 1 && p.len() == 1) || fuzzy_reads(
        s.drop_first(),
        k,
        p.drop_first(),
    )))
    ||| (k > 0 && p.len() >= 1 && p[0] == WILDCARD && ((s.len() == 0 && p.len() == 1) || fuzzy_reads(
        s,
        (k - 1) as nat,
        p.drop_first(),
    )))
    ||| (k > 0 && s.len() > 1 && fuzzy_reads(s.drop_first(), (k - 1) as nat, p))
    ||| (k > 0 && s.len() == 1 && p.len() == 0)
    ||| (k > 0 && s.len() >= 1 && p.len() >= 1 && p[0] == WILDCARD && ((s.len() == 1 && p.len() == 1)
        || fuzzy_reads(s.drop_first(), (k - 1) as nat, p.drop_first())))
    ||| (k > 0 && s.len() > 1 && p.len() >= 1 && p[0] == s[1] && fuzzy_reads(
        after_swap(s),
        (k - 1) as nat,
        p.drop_first(),
    ))
}

/// Every string read from the state `(s, k)`, put behind `q`, is read from
/// the start `(src, k0)`.
spec fn fuzzy_sound(src: Seq<char>, k0: nat, q: Seq<char>, s: Seq<char>, k: nat) -> bool {
    forall|r: Seq<char>| #[trigger] fuzzy_reads(s, k, r) ==> fuzzy_reads(src, k0, q + r)
}

/// `p` starts with `q` and its rest is read from the state `(s, k)`.
spec fn fuzzy_covers(q: Seq<char>, s: Seq<char>, k: nat, p: Seq<char>) -> bool {
    starts_with(p, q) && fuzzy_reads(s, k, p.skip(q.len() as int))
}

spec fn fuzzy_frame_ok(src: Seq<char>, k0: nat, shape: Shape, f: FuzzyFrame) -> bool {
    f.node < shape.path.len() && fuzzy_sound(src, k0, shape.path[f.node as int], f.source@, f.edits_remaining as nat)
}

spec fn fuzzy_stack_covers(shape: Shape, stack: Seq<FuzzyFrame>, p: Seq<char>) -> bool {
    exists|i: int|
        0 <= i < stack.len() && stack[i].node < shape.path.len() && fuzzy_covers(
            shape.path[(#[trigger] stack[i]).node as int],
            stack[i].source@,
            stack[i].edits_remaining as nat,
            p,
        )
}

/// The number of expansions that a state with `m` characters and edits left
/// can cause: each expansion adds at most five states, each with less left.
spec fn fuzzy_cost(m: nat) -> nat
    decreases m,
{
    if m == 0 {
        1
    } else {
        1 + 5 * fuzzy_cost((m - 1) as nat)
    }
}

spec fn fuzzy_frame_cost(f: FuzzyFrame) -> nat {
    fuzzy_cost(f.source@.len() + f.edits_remaining as nat)
}

spec fn fuzzy_stack_cost(stack: Seq<FuzzyFrame>) -> nat
    decreases stack.len(),
{
    if stack.len() == 0 {
        0
    } else {
        fuzzy_stack_cost(stack.drop_last()) + fuzzy_frame_cost(stack.last())
    }
}

proof fn lemma_fuzzy_cost_monotone(a: nat, b: nat)
    requires
        a <= b,
    ensures
        fuzzy_cost(a) <= fuzzy_cost(b),
    decreases b,
{
    if a < b {
        lemma_fuzzy_cost_monotone(a, (b - 1) as nat);
    }
}

proof fn lemma_fuzzy_sound_root(src: Seq<char>, k0: nat)
    ensures
        fuzzy_sound(src, k0, Seq::<char>::empty(), src, k0),
{
    assert forall|r: Seq<char>| #[trigger] fuzzy_reads(src, k0, r) implies fuzzy_reads(
        src,
        k0,
        Seq::<char>::empty() + r,
    ) by {
        assert(Seq::<char>::empty() + r =~= r);
    }
}

/// What the state `(s, k)` hands on through an edge labelled `c` to the state
/// `(s2, k2)`, given that every string `c` followed by a string of `(s2, k2)`
/// is one of `(s, k)`.
proof fn lemma_fuzzy_sound_child(
    src: Seq<char>,
    k0: nat,
    q: Seq<char>,
    s: Seq<char>,
    k: nat,
    c: char,
    s2: Seq<char>,
    k2: nat,
)
    requires
        fuzzy_sound(src, k0, q, s, k),
        forall|r: Seq<char>| #[trigger] fuzzy_reads(s2, k2, r) ==> fuzzy_reads(s, k, seq![c] + r),
    ensures
        fuzzy_sound(src, k0, q.push(c), s2, k2),
{
    assert forall|r: Seq<char>| #[trigger] fuzzy_reads(s2, k2, r) implies fuzzy_reads(src, k0, q.push(c) + r) by {
        assert(fuzzy_reads(s, k, seq![c] + r));
        assert(q + (seq![c] + r) =~= q.push(c) + r);
    }
}

/// If `(s, k)` reads the one-character string `c`, then `q` followed by `c` is read from the start.
proof fn lemma_fuzzy_sound_last(src: Seq<char>, k0: nat, q: Seq<char>, s: Seq<char>, k: nat, c: char)
    requires
        fuzzy_sound(src, k0, q, s, k),
        fuzzy_reads(s, k, seq![c]),
    ensures
        fuzzy_reads(src, k0, q.push(c)),
{
    assert(q + seq![c] =~= q.push(c));
}

proof fn lemma_no_edit(s: Seq<char>, k: nat)
    requires
        s.len() >= 1,
    ensures
        forall|r: Seq<char>| #[trigger] fuzzy_reads(s.drop_first(), k, r) ==> fuzzy_reads(s, k, seq![s[0]] + r),
        s.len() == 1 ==> fuzzy_reads(s, k, seq![s[0]]),
{
    assert forall|r: Seq<char>| #[trigger] fuzzy_reads(s.drop_first(), k, r) implies fuzzy_reads(
        s,
        k,
        seq![s[0]] + r,
    ) by {
        assert((seq![s[0]] + r).drop_first() =~= r);
    }
}

proof fn lemma_insertion(s: Seq<char>, k: nat)
    requires
        k > 0,
    ensures
        forall|r: Seq<char>| #[trigger] fuzzy_reads(s, (k - 1) as nat, r) ==> fuzzy_reads(s, k, seq![WILDCARD] + r),
        s.len() == 0 ==> fuzzy_reads(s, k, seq![WILDCARD]),
{
    assert forall|r: Seq<char>| #[trigger] fuzzy_reads(s, (k - 1) as nat, r) implies fuzzy_reads(
        s,
        k,
        seq![WILDCARD] + r,
    ) by {
        assert((seq![WILDCARD] + r).drop_first() =~= r);
    }
}

proof fn lemma_deletion(src: Seq<char>, k0: nat, q: Seq<char>, s: Seq<char>, k: nat)
    requires
        k > 0,
        s.len() >= 1,
        fuzzy_sound(src, k0, q, s, k),
    ensures
        s.len() > 1 ==> fuzzy_sound(src, k0, q, s.drop_first(), (k - 1) as nat),
        s.len() == 1 ==> fuzzy_reads(src, k0, q),
{
    if s.len() > 1 {
        assert forall|r: Seq<char>| #[trigger] fuzzy_reads(s.drop_first(), (k - 1) as nat, r) implies fuzzy_reads(
            src,
            k0,
            q + r,
        ) by {
            assert(fuzzy_reads(s, k, r));
        }
    } else {
        assert(fuzzy_reads(s, k, Seq::<char>::empty()));
        assert(q + Seq::<char>::empty() =~= q);
    }
}

proof fn lemma_substitution(s: Seq<char>, k: nat)
    requires
        k > 0,
        s.len() >= 1,
    ensures
        forall|r: Seq<char>| #[trigger]
            fuzzy_reads(s.drop_first(), (k - 1) as nat, r) ==> fuzzy_reads(s, k, seq![WILDCARD] + r),
        s.len() == 1 ==> fuzzy_reads(s, k, seq![WILDCARD]),
{
    assert forall|r: Seq<char>| #[trigger] fuzzy_reads(s.drop_first(), (k - 1) as nat, r) implies fuzzy_reads(
        s,
        k,
        seq![WILDCARD] + r,
    ) by {
        assert((seq![WILDCARD] + r).drop_first() =~= r);
    }
}

proof fn lemma_transposition(s: Seq<char>, k: nat)
    requires
        k > 0,
        s.len() > 1,
    ensures
        forall|r: Seq<char>| #[trigger]
            fuzzy_reads(after_swap(s), (k - 1) as nat, r) ==> fuzzy_reads(s, k, seq![s[1]] + r),
{
    assert forall|r: Seq<char>| #[trigger] fuzzy_reads(after_swap(s), (k - 1) as nat, r) implies fuzzy_reads(
        s,
        k,
        seq![s[1]] + r,
    ) by {
        assert((seq![s[1]] + r).drop_first() =~= r);
    }
}

/// A string behind `q` whose rest begins with `c` and goes on with a string
/// of `(s2, k2)` is covered from `q` followed by `c`.
proof fn lemma_cover_child(q: Seq<char>, p: Seq<char>, c: char, s2: Seq<char>, k2: nat)
    requires
        starts_with(p, q),
        p.len() > q.len(),
        p[q.len() as int] == c,
        fuzzy_reads(s2, k2, p.skip(q.len() as int).drop_first()),
    ensures
        fuzzy_covers(q.push(c), s2, k2, p),
{
    assert(p.subrange(0, (q.len() + 1) as int) =~= q.push(c));
    assert(p.skip(q.len() as int).drop_first() =~= p.skip((q.len() + 1) as int));
}

proof fn lemma_cover_exact(q: Seq<char>, p: Seq<char>, c: char)
    requires
        starts_with(p, q),
        p.len() == q.len() + 1,
        p[q.len() as int] == c,
    ensures
        p == q.push(c),
{
    assert(p =~= q.push(c));
}

/// The five ways in which a string covered by the state `(s, k)` behind `q`
/// goes on, numbered in the order in which the state's expansion provides
/// for them.
spec fn fuzzy_case(j: int, q: Seq<char>, s: Seq<char>, k: nat, p: Seq<char>) -> bool {
    if j == 1 {
        (s.len() == 1 && p == q.push(s[0])) || (s.len() >= 1 && fuzzy_covers(q.push(s[0]), s.drop_first(), k, p))
    } else if j == 2 {
        k > 0 && ((s.len() == 0 && p == q.push(WILDCARD)) || fuzzy_covers(q.push(WILDCARD), s, (k - 1) as nat, p))
    } else if j == 3 {
        k > 0 && ((s.len() > 1 && fuzzy_covers(q, s.drop_first(), (k - 1) as nat, p)) || (s.len() == 1 && p == q))
    } else if j == 4 {
        k > 0 && s.len() >= 1 && ((s.len() == 1 && p == q.push(WILDCARD)) || fuzzy_covers(
            q.push(WILDCARD),
            s.drop_first(),
            (k - 1) as nat,
            p,
        ))
    } else if j == 5 {
        k > 0 && s.len() > 1 && fuzzy_covers(q.push(s[1]), after_swap(s), (k - 1) as nat, p)
    } else {
        false
    }
}

/// One of the ways numbered `j` or higher applies to `p`.
spec fn fuzzy_pending(j: int, q: Seq<char>, s: Seq<char>, k: nat, p: Seq<char>) -> bool {
    ||| (j <= 1 && fuzzy_case(1, q, s, k, p))
    ||| (j <= 2 && fuzzy_case(2, q, s, k, p))
    ||| (j <= 3 && fuzzy_case(3, q, s, k, p))
    ||| (j <= 4 && fuzzy_case(4, q, s, k, p))
    ||| (j <= 5 && fuzzy_case(5, q, s, k, p))
}

/// A string covered by the state `(s, k)` behind `q` goes on in one of the five ways.
proof fn lemma_fuzzy_split(q: Seq<char>, s: Seq<char>, k: nat, p: Seq<char>)
    requires
        fuzzy_covers(q, s, k, p),
    ensures
        fuzzy_pending(1, q, s, k, p),
{
    let r = p.skip(q.len() as int);
    if r.len() == 0 {
        assert(p =~= q);
    } else {
        let c = r[0];
        assert(p[q.len() as int] == c);
        if r.len() == 1 {
            lemma_cover_exact(q, p, c);
        }
        if s.len() >= 1 && r[0] == s[0] && fuzzy_reads(s.drop_first(), k, r.drop_first()) {
            lemma_cover_child(q, p, c, s.drop_first(), k);
        }
        if k > 0 && r[0] == WILDCARD && fuzzy_reads(s, (k - 1) as nat, r.drop_first()) {
            lemma_cover_child(q, p, c, s, (k - 1) as nat);
        }
        if k > 0 && s.len() >= 1 && r[0] == WILDCARD && fuzzy_reads(s.drop_first(), (k - 1) as nat, r.drop_first()) {
            lemma_cover_child(q, p, c, s.drop_first(), (k - 1) as nat);
        }
        if k > 0 && s.len() > 1 && r[0] == s[1] && fuzzy_reads(after_swap(s), (k - 1) as nat, r.drop_first()) {
            lemma_cover_child(q, p, c, after_swap(s), (k - 1) as nat);
        }
    }
}

proof fn lemma_fuzzy_grows_frame(src: Seq<char>, k0: nat, o: Seq<TokenSetNode>, s: Shape, o2: Seq<TokenSetNode>, s2: Shape, f: FuzzyFrame)
    requires
        grows(o, s, o2, s2),
        fuzzy_frame_ok(src, k0, s, f),
    ensures
        fuzzy_frame_ok(src, k0, s2, f),
        s2.path[f.node as int] == s.path[f.node as int],
{
    assert(s2.path[f.node as int] == s.path[f.node as int]);
}

proof fn lemma_fuzzy_grows_stack(src: Seq<char>, k0: nat, o: Seq<TokenSetNode>, s: Shape, o2: Seq<TokenSetNode>, s2: Shape, stack: Seq<FuzzyFrame>)
    requires
        grows(o, s, o2, s2),
        forall|i: int| 0 <= i < stack.len() ==> fuzzy_frame_ok(src, k0, s, #[trigger] stack[i]),
    ensures
        forall|i: int| 0 <= i < stack.len() ==> fuzzy_frame_ok(src, k0, s2, #[trigger] stack[i]),
{
    assert forall|i: int| 0 <= i < stack.len() implies fuzzy_frame_ok(src, k0, s2, #[trigger] stack[i]) by {
        lemma_fuzzy_grows_frame(src, k0, o, s, o2, s2, stack[i]);
    }
}

proof fn lemma_fuzzy_grows_covers(o: Seq<TokenSetNode>, s: Shape, o2: Seq<TokenSetNode>, s2: Shape, stack: Seq<FuzzyFrame>, p: Seq<char>)
    requires
        grows(o, s, o2, s2),
        fuzzy_stack_covers(s, stack, p),
    ensures
        fuzzy_stack_covers(s2, stack, p),
{
    let i = choose|i: int|
        0 <= i < stack.len() && stack[i].node < s.path.len() && fuzzy_covers(
            s.path[(#[trigger] stack[i]).node as int],
            stack[i].source@,
            stack[i].edits_remaining as nat,
            p,
        );
    assert(s2.path[stack[i].node as int] == s.path[stack[i].node as int]);
}

/// `cs` without its first character.
fn rest_of(cs: &Vec<char>) -> (out: Vec<char>)
    requires
        cs@.len() >= 1,
    ensures
        out@ == cs@.drop_first(),
{
    let mut out: Vec<char> = Vec::new();
    let mut i: usize = 1;
    while i < cs.len()
        invariant
            1 <= i <= cs.len(),
            out@ == cs@.subrange(1, i as int),
        decreases cs.len() - i,
    {
        out.push(char_at(cs, i));
        i += 1;
        assert(out@ =~= cs@.subrange(1, i as int));
    }
    assert(out@ =~= cs@.drop_first());
    out
}

/// The first character of `cs` followed by all but its first two.
fn swapped_rest_of(cs: &Vec<char>) -> (out: Vec<char>)
    requires
        cs@.len() >= 2,
    ensures
        out@ == after_swap(cs@),
{
    let mut out: Vec<char> = Vec::new();
    out.push(char_at(cs, 0));
    let mut i: usize = 2;
    while i < cs.len()
        invariant
            2 <= i <= cs.len(),
            out@ == seq![cs@[0]] + cs@.subrange(2, i as int),
        decreases cs.len() - i,
    {
        out.push(char_at(cs, i));
        i += 1;
        assert(out@ =~= seq![cs@[0]] + cs@.subrange(2, i as int));
    }
    assert(out@ =~= after_swap(cs@));
    out
}

/// The whole of what holds between two expansions: the tree is sound, every
/// waiting state is sound, and every string to be accepted is either
/// accepted already, covered by a waiting state, or among `rest`.
spec fn fuzzy_inv(
    src: Seq<char>,
    k0: nat,
    o: Seq<TokenSetNode>,
    shape: Shape,
    stack: Seq<FuzzyFrame>,
    rest: spec_fn(Seq<char>) -> bool,
) -> bool {
    &&& trie_ok(o, shape)
    &&& flags_in(o, shape, |w: Seq<char>| fuzzy_reads(src, k0, w))
    &&& forall|i: int| 0 <= i < stack.len() ==> fuzzy_frame_ok(src, k0, shape, #[trigger] stack[i])
    &&& forall|p: Seq<char>| #[trigger]
        fuzzy_reads(src, k0, p) ==> emitted(o, shape, p) || fuzzy_stack_covers(shape, stack, p) || rest(p)
}

/// One branch of an expansion: the child of `parent` for `c`, made if need
/// be and marked terminal if `last` is set, and a new waiting state for it.
fn fuzzy_branch(
    out: &mut Vec<TokenSetNode>,
    stack: &mut Vec<FuzzyFrame>,
    parent: usize,
    c: char,
    last: bool,
    edits: u64,
    source: Vec<char>,
    Ghost(shape): Ghost<Shape>,
    Ghost(src): Ghost<Seq<char>>,
    Ghost(k0): Ghost<nat>,
    Ghost(s): Ghost<Seq<char>>,
    Ghost(k): Ghost<nat>,
    Ghost(before): Ghost<spec_fn(Seq<char>) -> bool>,
    Ghost(after): Ghost<spec_fn(Seq<char>) -> bool>,
) -> (res: Ghost<Shape>)
    requires
        fuzzy_inv(src, k0, old(out)@, shape, old(stack)@, before),
        parent < old(out)@.len(),
        fuzzy_sound(src, k0, shape.path[parent as int], s, k),
        forall|r: Seq<char>| #[trigger] fuzzy_reads(source@, edits as nat, r) ==> fuzzy_reads(s, k, seq![c] + r),
        last ==> fuzzy_reads(s, k, seq![c]),
        forall|p: Seq<char>| #[trigger]
            before(p) ==> after(p) || (last && p == shape.path[parent as int].push(c)) || fuzzy_covers(
                shape.path[parent as int].push(c),
                source@,
                edits as nat,
                p,
            ),
    ensures
        fuzzy_inv(src, k0, final(out)@, res@, final(stack)@, after),
        grows(old(out)@, shape, final(out)@, res@),
        final(stack)@.len() == old(stack)@.len() + 1,
        fuzzy_stack_cost(final(stack)@) == fuzzy_stack_cost(old(stack)@) + fuzzy_cost(source@.len() + edits as nat),
{
    let ghost o0 = out@;
    let ghost st0 = stack@;
    let ghost q = shape.path[parent as int];
    let ghost good = |w: Seq<char>| fuzzy_reads(src, k0, w);
    proof {
        if last {
            lemma_fuzzy_sound_last(src, k0, q, s, k, c);
        }
    }
    let res = trie_child(out, parent, c, last, Ghost(shape), Ghost(good));
    let next = res.0;
    let ghost shape2 = res.1@;
    let child = FuzzyFrame { node: next, edits_remaining: edits, source };
    proof {
        lemma_fuzzy_grows_stack(src, k0, o0, shape, out@, shape2, st0);
        lemma_fuzzy_sound_child(src, k0, q, s, k, c, source@, edits as nat);
        assert(fuzzy_frame_ok(src, k0, shape2, child));
        assert(st0.push(child).drop_last() =~= st0);
    }
    stack.push(child);
    proof {
        let st = stack@;
        assert forall|i: int| 0 <= i < st.len() implies fuzzy_frame_ok(src, k0, shape2, #[trigger] st[i]) by {
            if i < st0.len() {
                assert(st[i] == st0[i]);
            }
        }
        assert forall|p: Seq<char>| #[trigger] fuzzy_reads(src, k0, p) implies emitted(out@, shape2, p)
            || fuzzy_stack_covers(shape2, st, p) || after(p) by {
            if emitted(o0, shape, p) {
                lemma_grows_emitted(o0, shape, out@, shape2, p);
            } else if fuzzy_stack_covers(shape, st0, p) {
                lemma_fuzzy_grows_covers(o0, shape, out@, shape2, st0, p);
                let i = choose|i: int|
                    0 <= i < st0.len() && st0[i].node < shape2.path.len() && fuzzy_covers(
                        shape2.path[(#[trigger] st0[i]).node as int],
                        st0[i].source@,
                        st0[i].edits_remaining as nat,
                        p,
                    );
                assert(st[i] == st0[i]);
            } else {
                assert(before(p));
                if !after(p) {
                    if last && p == q.push(c) {
                        assert(shape2.path[next as int] == p);
                        assert(out@[next as int].last);
                    } else {
                        let i = st0.len() as int;
                        assert(st[i] == child);
                        assert(fuzzy_covers(
                            shape2.path[st[i].node as int],
                            st[i].source@,
                            st[i].edits_remaining as nat,
                            p,
                        ));
                    }
                }
            }
        }
    }
    Ghost(shape2)
}

impl TokenSet {
    /// The pattern automaton of all strings within `edit_distance` edits of
    /// `source`, where an edit is an insertion, a deletion, a substitution or
    /// a transposition of two neighbours.
    ///
    /// The automaton has no cycle. Inserted and substituted characters are
    /// read by `*` edges, so the automaton is meant to be used as a pattern.
    pub fn from_fuzzy_string(source: &str, edit_distance: u64) -> (set: TokenSet)
        ensures
            set.wf(),
            set.is_acyclic(),
            forall|p: Seq<char>| set.accepts(p) <==> fuzzy_reads(source@, edit_distance as nat, p),
    {
        let chars = chars_of(source);
        let ghost src = source@;
        let ghost k0 = edit_distance as nat;
        let ghost none = |p: Seq<char>| false;
        let mut out: Vec<TokenSetNode> = Vec::new();
        out.push(TokenSetNode::new());
        let mut stack: Vec<FuzzyFrame> = Vec::new();
        stack.push(FuzzyFrame { node: 0, edits_remaining: edit_distance, source: chars });
        let ghost mut shape = root_shape();
        proof {
            lemma_fuzzy_sound_root(src, k0);
            assert(trie_ok(out@, shape));
            assert(fuzzy_frame_ok(src, k0, shape, stack@[0]));
            assert forall|p: Seq<char>| #[trigger] fuzzy_reads(src, k0, p) implies fuzzy_stack_covers(
                shape,
                stack@,
                p,
            ) by {
                assert(p.skip(0) =~= p);
                assert(p.subrange(0, 0) =~= Seq::<char>::empty());
                assert(fuzzy_covers(
                    shape.path[stack@[0].node as int],
                    stack@[0].source@,
                    stack@[0].edits_remaining as nat,
                    p,
                ));
            }
        }
        while stack.len() > 0
            invariant
                none == |p: Seq<char>| false,
                fuzzy_inv(src, k0, out@, shape, stack@, none),
            decreases fuzzy_stack_cost(stack@),
        {
            let ghost old_stack = stack@;
            let frame = stack.pop().unwrap();
            let ghost base = stack@;
            let ghost q = shape.path[frame.node as int];
            let ghost s = frame.source@;
            let ghost k = frame.edits_remaining as nat;
            let ghost m = s.len() + k;
            let ghost base_cost = fuzzy_stack_cost(base);
            let ghost unit = if m > 0 {
                fuzzy_cost((m - 1) as nat)
            } else {
                0
            };
            let ghost pend1 = |p: Seq<char>| fuzzy_pending(1, q, s, k, p);
            let ghost pend2 = |p: Seq<char>| fuzzy_pending(2, q, s, k, p);
            let ghost pend3 = |p: Seq<char>| fuzzy_pending(3, q, s, k, p);
            let ghost pend4 = |p: Seq<char>| fuzzy_pending(4, q, s, k, p);
            let ghost pend5 = |p: Seq<char>| fuzzy_pending(5, q, s, k, p);
            let len = frame.source.len();
            let edits = frame.edits_remaining;
            proof {
                assert(base =~= old_stack.drop_last());
                assert(frame == old_stack[old_stack.len() - 1]);
                assert(fuzzy_stack_cost(old_stack) == base_cost + fuzzy_cost(m));
                assert(fuzzy_frame_ok(src, k0, shape, frame));
                assert forall|i: int| 0 <= i < base.len() implies fuzzy_frame_ok(src, k0, shape, #[trigger] base[i]) by {
                    assert(base[i] == old_stack[i]);
                }
                assert forall|p: Seq<char>| #[trigger] fuzzy_reads(src, k0, p) implies emitted(out@, shape, p)
                    || fuzzy_stack_covers(shape, base, p) || pend1(p) by {
                    if !emitted(out@, shape, p) {
                        let i = choose|i: int|
                            0 <= i < old_stack.len() && old_stack[i].node < shape.path.len() && fuzzy_covers(
                                shape.path[(#[trigger] old_stack[i]).node as int],
                                old_stack[i].source@,
                                old_stack[i].edits_remaining as nat,
                                p,
                            );
                        if i == old_stack.len() - 1 {
                            lemma_fuzzy_split(q, s, k, p);
                        } else {
                            assert(base[i] == old_stack[i]);
                        }
                    }
                }
                assert(fuzzy_inv(src, k0, out@, shape, base, pend1));
            }
            if len > 0 {
                let c = char_at(&frame.source, 0);
                let rest = rest_of(&frame.source);
                proof {
                    lemma_no_edit(s, k);
                    lemma_fuzzy_cost_monotone(rest@.len() + k, (m - 1) as nat);
                }
                let ghost o1 = out@;
                let ghost s1 = shape;
                let res = fuzzy_branch(
                    &mut out,
                    &mut stack,
                    frame.node,
                    c,
                    len == 1,
                    edits,
                    rest,
                    Ghost(shape),
                    Ghost(src),
                    Ghost(k0),
                    Ghost(s),
                    Ghost(k),
                    Ghost(pend1),
                    Ghost(pend2),
                );
                proof {
                    shape = res@;
                    lemma_fuzzy_grows_frame(src, k0, o1, s1, out@, shape, frame);
                }
            } else {
                proof {
                    assert(fuzzy_inv(src, k0, out@, shape, stack@, pend2));
                }
            }
            assert(fuzzy_stack_cost(stack@) <= base_cost + unit);
            if edits > 0 {
                // an inserted character
                let same = copy_chars(&frame.source);
                proof {
                    lemma_insertion(s, k);
                    lemma_fuzzy_cost_monotone(same@.len() + (k - 1) as nat, (m - 1) as nat);
                }
                let ghost o1 = out@;
                let ghost s1 = shape;
                let res = fuzzy_branch(
                    &mut out,
                    &mut stack,
                    frame.node,
                    WILDCARD,
                    len == 0,
                    edits - 1,
                    same,
                    Ghost(shape),
                    Ghost(src),
                    Ghost(k0),
                    Ghost(s),
                    Ghost(k),
                    Ghost(pend2),
                    Ghost(pend3),
                );
                proof {
                    shape = res@;
                    lemma_fuzzy_grows_frame(src, k0, o1, s1, out@, shape, frame);
                }
                assert(fuzzy_stack_cost(stack@) <= base_cost + 2 * unit);
                // a deleted character
                if len > 1 {
                    let rest = rest_of(&frame.source);
                    let child = FuzzyFrame { node: frame.node, edits_remaining: edits - 1, source: rest };
                    let ghost st0 = stack@;
                    proof {
                        lemma_deletion(src, k0, q, s, k);
                        lemma_fuzzy_cost_monotone(rest@.len() + (k - 1) as nat, (m - 1) as nat);
                        assert(fuzzy_frame_ok(src, k0, shape, child));
                        assert(st0.push(child).drop_last() =~= st0);
                    }
                    stack.push(child);
                    proof {
                        let st = stack@;
                        assert forall|i: int| 0 <= i < st.len() implies fuzzy_frame_ok(
                            src,
                            k0,
                            shape,
                            #[trigger] st[i],
                        ) by {
                            if i < st0.len() {
                                assert(st[i] == st0[i]);
                            }
                        }
                        assert forall|p: Seq<char>| #[trigger] fuzzy_reads(src, k0, p) implies emitted(
                            out@,
                            shape,
                            p,
                        ) || fuzzy_stack_covers(shape, st, p) || pend4(p) by {
                            if emitted(out@, shape, p) {
                            } else if fuzzy_stack_covers(shape, st0, p) {
                                let i = choose|i: int|
                                    0 <= i < st0.len() && st0[i].node < shape.path.len() && fuzzy_covers(
                                        shape.path[(#[trigger] st0[i]).node as int],
                                        st0[i].source@,
                                        st0[i].edits_remaining as nat,
                                        p,
                                    );
                                assert(st[i] == st0[i]);
                            } else {
                                assert(pend3(p));
                                if !pend4(p) {
                                    let i = st0.len() as int;
                                    assert(st[i] == child);
                                    assert(fuzzy_covers(
                                        shape.path[st[i].node as int],
                                        st[i].source@,
                                        st[i].edits_remaining as nat,
                                        p,
                                    ));
                                }
                            }
                        }
                        assert(fuzzy_inv(src, k0, out@, shape, stack@, pend4));
                    }
                } else if len == 1 {
                    let ghost o1 = out@;
                    proof {
                        lemma_deletion(src, k0, q, s, k);
                    }
                    trie_mark(&mut out, frame.node, Ghost(shape), Ghost(|w: Seq<char>| fuzzy_reads(src, k0, w)));
                    proof {
                        lemma_fuzzy_grows_stack(src, k0, o1, shape, out@, shape, stack@);
                        assert forall|p: Seq<char>| #[trigger] fuzzy_reads(src, k0, p) implies emitted(
                            out@,
                            shape,
                            p,
                        ) || fuzzy_stack_covers(shape, stack@, p) || pend4(p) by {
                            if emitted(o1, shape, p) {
                                lemma_grows_emitted(o1, shape, out@, shape, p);
                            } else if fuzzy_stack_covers(shape, stack@, p) {
                            } else {
                                assert(pend3(p));
                                if !pend4(p) {
                                    assert(p == q);
                                    assert(shape.path[frame.node as int] == p);
                                }
                            }
                        }
                        assert(fuzzy_inv(src, k0, out@, shape, stack@, pend4));
                    }
                } else {
                    proof {
                        assert(fuzzy_inv(src, k0, out@, shape, stack@, pend4));
                    }
                }
                assert(fuzzy_stack_cost(stack@) <= base_cost + 3 * unit);
                // a substituted character
                if len >= 1 {
                    let rest = rest_of(&frame.source);
                    proof {
                        lemma_substitution(s, k);
                        lemma_fuzzy_cost_monotone(rest@.len() + (k - 1) as nat, (m - 1) as nat);
                    }
                    let ghost o1 = out@;
                    let ghost s1 = shape;
                    let res = fuzzy_branch(
                        &mut out,
                        &mut stack,
                        frame.node,
                        WILDCARD,
                        len == 1,
                        edits - 1,
                        rest,
                        Ghost(shape),
                        Ghost(src),
                        Ghost(k0),
                        Ghost(s),
                        Ghost(k),
                        Ghost(pend4),
                        Ghost(pend5),
                    );
                    proof {
                        shape = res@;
                        lemma_fuzzy_grows_frame(src, k0, o1, s1, out@, shape, frame);
                    }
                } else {
                    proof {
                        assert(fuzzy_inv(src, k0, out@, shape, stack@, pend5));
                    }
                }
                assert(fuzzy_stack_cost(stack@) <= base_cost + 4 * unit);
                // two transposed characters
                if len > 1 {
                    let c2 = char_at(&frame.source, 1);
                    let swapped = swapped_rest_of(&frame.source);
                    proof {
                        lemma_transposition(s, k);
                        lemma_fuzzy_cost_monotone(swapped@.len() + (k - 1) as nat, (m - 1) as nat);
                    }
                    let res = fuzzy_branch(
                        &mut out,
                        &mut stack,
                        frame.node,
                        c2,
                        false,
                        edits - 1,
                        swapped,
                        Ghost(shape),
                        Ghost(src),
                        Ghost(k0),
                        Ghost(s),
                        Ghost(k),
                        Ghost(pend5),
                        Ghost(none),
                    );
                    proof {
                        shape = res@;
                    }
                } else {
                    proof {
                        assert(fuzzy_inv(src, k0, out@, shape, stack@, none));
                    }
                }
                assert(fuzzy_stack_cost(stack@) <= base_cost + 5 * unit);
            } else {
                proof {
                    assert(fuzzy_inv(src, k0, out@, shape, stack@, none));
                }
            }
            proof {
                assert(fuzzy_stack_cost(stack@) < base_cost + fuzzy_cost(m));
            }
        }
        let ghost o = out@;
        let set = TokenSet::from_nodes(out);
        proof {
            lemma_trie_language(o, shape);
            assert forall|p: Seq<char>| set.accepts(p) <==> fuzzy_reads(src, k0, p) by {
                if emitted(o, shape, p) {
                    let n = choose|n: int|
                        0 <= n < o.len() && n < shape.path.len() && #[trigger] shape.path[n] == p && o[n].last;
                    assert(o[n].last);
                }
                if fuzzy_reads(src, k0, p) {
                    assert(!fuzzy_stack_covers(shape, stack@, p));
                }
            }
        }
        set
    }
}

} // verus!
