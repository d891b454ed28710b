//! Evaluation of a query against the index.
//!
//! The clauses of a query are taken in their order. Each is expanded to the
//! terms of the vocabulary that its pattern matches, and changes, for each
//! declared field in its scope, what is required of a document, what is
//! prohibited, which documents matched, and the weights of the query. What
//! is said here of sets of documents is said first as plain mathematics,
//! then computed.

use vstd::hash_map::StringHashMap;
use vstd::prelude::*;
use crate::builder::{lemma_term_slot, term_slot};
use crate::index::{
    FieldVector, Index, TermEntry, entries_ok, entry_position, entry_terms, lemma_same_entry, posted, slots_ok,
    vectors_ok,
};
use crate::query::{Clause, Presence, Query};
use crate::set::{StringSet, distinct, texts};
use crate::text::same_text;
use crate::token::{TokenSet, pattern_fits};
use crate::token::laws::lemma_matches_fitting;
use crate::token::pattern::glob_reads;
use crate::token::walk::listed;
use crate::vector::{Element, Vector, bounded_sum, dot_below, holds, lemma_value_absent, value_at};

verus! {

/// Whether the glob `pattern` matches `t`: `t` is the pattern with each `*`
/// replaced by any characters.
pub open spec fn glob_matches(pattern: Seq<char>, t: Seq<char>) -> bool {
    pattern.len() > 0 && exists|p: Seq<char>| glob_reads(pattern, 0, p) && #[trigger] pattern_fits(p, t)
}

/// Whether `t` is one of the terms that `pattern` expands to: a term of the
/// vocabulary, not empty, that the pattern matches.
pub open spec fn expands(entries: Seq<TermEntry>, pattern: Seq<char>, t: Seq<char>) -> bool {
    t.len() > 0 && entry_terms(entries).contains(t) && glob_matches(pattern, t)
}

/// Whether field `f` lies in the scope `fields` of a clause. A clause
/// without a scope reaches all fields.
pub open spec fn in_scope(fields: Option<Vec<String>>, f: Seq<char>) -> bool {
    fields is None || texts(fields->0@).contains(f)
}

/// The documents that hold, in field `f`, a term that `pattern` expands to.
pub open spec fn hit_docs(entries: Seq<TermEntry>, pattern: Seq<char>, f: Seq<char>) -> Set<Seq<char>> {
    Set::new(|d: Seq<char>| exists|t: Seq<char>| #[trigger] expands(entries, pattern, t) && posted(entries, t, f, d))
}

/// The documents that hold a term of the clause in a declared field of its scope.
pub open spec fn clause_docs(entries: Seq<TermEntry>, declared: Seq<Seq<char>>, clause: Clause) -> Set<Seq<char>> {
    Set::new(
        |d: Seq<char>|
            exists|fi: int|
                0 <= fi < declared.len() && in_scope(clause.fields, #[trigger] declared[fi]) && hit_docs(
                    entries,
                    clause.term@,
                    declared[fi],
                ).contains(d),
    )
}

/// The number of term `t`, which is its dimension: one more than its
/// position in the vocabulary.
pub open spec fn term_number(entries: Seq<TermEntry>, t: Seq<char>) -> int {
    term_slot(entry_terms(entries), t) + 1
}

/// Whether `dim` is the dimension of a term that `pattern` expands to.
pub open spec fn hit_dim(entries: Seq<TermEntry>, pattern: Seq<char>, dim: int) -> bool {
    exists|t: Seq<char>| #[trigger] expands(entries, pattern, t) && term_number(entries, t) == dim
}

/// The boost of a clause as a value of a vector.
pub open spec fn boost_value(boost: u64) -> i32 {
    if boost > i32::MAX as u64 {
        i32::MAX
    } else {
        boost as i32
    }
}

/// The weights of the query in one field: the value of each dimension that
/// has one.
pub type Weights = Map<int, int>;

/// The value of dimension `d`, zero where there is none.
pub open spec fn weight_at(w: Weights, d: int) -> int {
    if w.dom().contains(d) {
        w[d]
    } else {
        0
    }
}

/// The weights after `boost` was added in the dimension of each term that
/// `pattern` expands to.
pub open spec fn boosted(w: Weights, entries: Seq<TermEntry>, pattern: Seq<char>, boost: int) -> Weights {
    Map::new(
        |d: int| w.dom().contains(d) || hit_dim(entries, pattern, d),
        |d: int|
            if hit_dim(entries, pattern, d) {
                bounded_sum(weight_at(w, d), boost)
            } else {
                weight_at(w, d)
            },
    )
}

/// The weights that a vector stands for.
pub open spec fn weights_of(elems: Seq<Element>) -> Weights {
    Map::new(|d: int| holds(elems, d), |d: int| value_at(elems, d))
}

/// What the clauses taken so far say of one declared field.
pub struct FieldState {
    /// The documents that every required clause so far allows, if there was one.
    pub required: Option<Set<Seq<char>>>,
    /// The documents that hold a prohibited term in this field.
    pub prohibited: Set<Seq<char>>,
    /// The documents that hold a term of a clause that is not prohibited.
    pub matching: Set<Seq<char>>,
    /// The weights of the query.
    pub weights: Weights,
}

/// What the clauses taken so far say, field by declared field, and whether
/// a required clause without terms has ended the evaluation.
pub struct EvalState {
    pub fields: Seq<FieldState>,
    pub stopped: bool,
}

/// The state before the first clause.
pub open spec fn start_state(n: int) -> EvalState {
    EvalState {
        fields: Seq::new(
            n as nat,
            |fi: int|
                FieldState {
                    required: None,
                    prohibited: Set::empty(),
                    matching: Set::empty(),
                    weights: Map::empty(),
                },
        ),
        stopped: false,
    }
}

/// All documents of the index, as a set.
pub open spec fn all_docs(docs: Seq<Seq<char>>) -> Set<Seq<char>> {
    Set::new(|d: Seq<char>| docs.contains(d))
}

/// What a clause with terms makes of a field in its scope.
pub open spec fn field_step(
    entries: Seq<TermEntry>,
    declared: Seq<Seq<char>>,
    docs: Seq<Seq<char>>,
    fs: FieldState,
    clause: Clause,
    f: Seq<char>,
) -> FieldState {
    let hits = hit_docs(entries, clause.term@, f);
    match clause.presence {
        Presence::Prohibited => FieldState { prohibited: fs.prohibited.union(hits), ..fs },
        Presence::Required => FieldState {
            required: Some(
                (match fs.required {
                    Some(r) => r,
                    None => all_docs(docs),
                }).intersect(clause_docs(entries, declared, clause)),
            ),
            matching: fs.matching.union(hits),
            weights: boosted(fs.weights, entries, clause.term@, boost_value(clause.boost) as int),
            ..fs
        },
        Presence::Optional => FieldState {
            matching: fs.matching.union(hits),
            weights: boosted(fs.weights, entries, clause.term@, boost_value(clause.boost) as int),
            ..fs
        },
    }
}

/// Whether `pattern` expands to no term at all.
pub open spec fn expands_to_nothing(entries: Seq<TermEntry>, pattern: Seq<char>) -> bool {
    forall|t: Seq<char>| !#[trigger] expands(entries, pattern, t)
}

/// The state after one more clause.
///
/// A required clause that expands to no term leaves nothing required in the
/// fields of its scope and ends the evaluation: no later clause is looked
/// at. A clause of another kind that expands to no term changes nothing.
pub open spec fn clause_step(
    entries: Seq<TermEntry>,
    declared: Seq<Seq<char>>,
    docs: Seq<Seq<char>>,
    st: EvalState,
    clause: Clause,
) -> EvalState {
    if st.stopped {
        st
    } else if expands_to_nothing(entries, clause.term@) {
        if clause.presence == Presence::Required {
            EvalState {
                fields: Seq::new(
                    st.fields.len(),
                    |fi: int|
                        if in_scope(clause.fields, declared[fi]) {
                            FieldState { required: Some(Set::empty()), ..st.fields[fi] }
                        } else {
                            st.fields[fi]
                        },
                ),
                stopped: true,
            }
        } else {
            st
        }
    } else {
        EvalState {
            fields: Seq::new(
                st.fields.len(),
                |fi: int|
                    if in_scope(clause.fields, declared[fi]) {
                        field_step(entries, declared, docs, st.fields[fi], clause, declared[fi])
                    } else {
                        st.fields[fi]
                    },
            ),
            stopped: false,
        }
    }
}

/// The state after the clauses, taken in their order.
pub open spec fn eval_clauses(
    entries: Seq<TermEntry>,
    declared: Seq<Seq<char>>,
    docs: Seq<Seq<char>>,
    clauses: Seq<Clause>,
) -> EvalState
    decreases clauses.len(),
{
    if clauses.len() == 0 {
        start_state(declared.len() as int)
    } else {
        clause_step(entries, declared, docs, eval_clauses(entries, declared, docs, clauses.drop_last()), clauses.last())
    }
}

/// Whether document `d` passes: every field that has something required
/// allows it, and no field prohibits it.
pub open spec fn passes(st: EvalState, docs: Seq<Seq<char>>, d: Seq<char>) -> bool {
    &&& docs.contains(d)
    &&& forall|fi: int|
        0 <= fi < st.fields.len() && (#[trigger] st.fields[fi]).required is Some ==> st.fields[fi].required->0.contains(d)
    &&& forall|fi: int| 0 <= fi < st.fields.len() ==> !(#[trigger] st.fields[fi]).prohibited.contains(d)
}

/// Whether document `d` matched in some field.
pub open spec fn matched(st: EvalState, d: Seq<char>) -> bool {
    exists|fi: int| 0 <= fi < st.fields.len() && (#[trigger] st.fields[fi]).matching.contains(d)
}

/// Whether document `d` is among the results: it passes, and it matched in
/// some field, unless the query only prohibits.
pub open spec fn selected(st: EvalState, docs: Seq<Seq<char>>, negated: bool, d: Seq<char>) -> bool {
    passes(st, docs, d) && (negated || matched(st, d))
}

/// Whether `name` lies in the scope `fields` of a clause.
pub fn scope_has(fields: &Option<Vec<String>>, name: &str) -> (found: bool)
    ensures
        found == in_scope(*fields, name@),
{
    match fields {
        None => true,
        Some(list) => {
            assert(*fields == Some(*list));
            assert(list@ == fields->0@);
            let mut i: usize = 0;
            while i < list.len()
                invariant
                    i <= list@.len(),
                    list@ == fields->0@,
                    forall|j: int| 0 <= j < i ==> texts(list@)[j] != name@,
                decreases list@.len() - i,
            {
                if same_text(list[i].as_str(), name) {
                    assert(texts(list@).len() == list@.len());
                    assert(0 <= i < texts(list@).len() && texts(list@)[i as int] == name@);
                    assert(texts(list@).contains(name@));
                    assert(in_scope(*fields, name@));
                    return true;
                }
                i += 1;
            }
            proof {
                if texts(list@).contains(name@) {
                    let j = choose|j: int| 0 <= j < texts(list@).len() && texts(list@)[j] == name@;
                    assert(texts(list@)[j] != name@);
                }
            }
            false
        },
    }
}

/// The position of a term of the vocabulary, which is one less than its number.
fn position_of(entries: &Vec<TermEntry>, slots: &StringHashMap<usize>, term: &str) -> (pos: usize)
    requires
        entries_ok(entries@),
        slots_ok(entries@, slots@),
        entry_terms(entries@).contains(term@),
    ensures
        pos < entries@.len(),
        entries@[pos as int].term@ == term@,
        term_number(entries@, term@) == pos + 1,
{
    match entry_position(entries, slots, term) {
        Some(i) => {
            proof {
                assert forall|j: int| 0 <= j < i implies #[trigger] entry_terms(entries@)[j] != term@ by {
                    assert(entry_terms(entries@)[j] != entry_terms(entries@)[i as int]);
                }
                assert(entry_terms(entries@)[i as int] == term@);
                lemma_term_slot(entry_terms(entries@), term@, i as int);
            }
            i
        },
        None => {
            assert(false);
            0
        },
    }
}

/// Whether some term of `terms` is posted for document `d` in field `f`.
spec fn posted_any(entries: Seq<TermEntry>, terms: Seq<String>, upto: int, f: Seq<char>, d: Seq<char>) -> bool {
    exists|j: int| 0 <= j < upto && j < terms.len() && posted(entries, (#[trigger] terms[j])@, f, d)
}

/// The documents that hold one of `terms` in field `field`.
fn docs_hit(entries: &Vec<TermEntry>, slots: &StringHashMap<usize>, terms: &Vec<String>, field: &str) -> (hits: StringSet)
    requires
        entries_ok(entries@),
        slots_ok(entries@, slots@),
        forall|j: int| 0 <= j < terms@.len() ==> entry_terms(entries@).contains((#[trigger] terms@[j])@),
    ensures
        hits.wf(),
        forall|d: Seq<char>| #![trigger hits.has(d)]
            hits.has(d) == posted_any(entries@, terms@, terms@.len() as int, field@, d),
{
    let mut hits = StringSet::new();
    let mut j: usize = 0;
    proof {
        assert(hits.list() =~= Seq::<Seq<char>>::empty());
    }
    while j < terms.len()
        invariant
            j <= terms@.len(),
            entries_ok(entries@),
            slots_ok(entries@, slots@),
            forall|k: int| 0 <= k < terms@.len() ==> entry_terms(entries@).contains((#[trigger] terms@[k])@),
            hits.wf(),
            forall|d: Seq<char>| #![trigger hits.has(d)] hits.has(d) == posted_any(entries@, terms@, j as int, field@, d),
        decreases terms@.len() - j,
    {
        let ghost prior = hits;
        let pos = position_of(entries, slots, terms[j].as_str());
        let ghost term = terms@[j as int]@;
        assert(entries@[pos as int].postings.wf());
        match entries[pos].postings.docs_in(field) {
            Some(set) => {
                hits.union_with(set);
                proof {
                    assert forall|d: Seq<char>| #![trigger hits.has(d)]
                        hits.has(d) == posted_any(entries@, terms@, j + 1, field@, d) by {
                        assert(prior.has(d) == posted_any(entries@, terms@, j as int, field@, d));
                        assert(hits.has(d) == (prior.has(d) || set.has(d)));
                        assert(set.has(d) == entries@[pos as int].postings.posts(field@, d));
                        lemma_posted_here(entries@, pos as int, field@, d);
                        assert(entries@[pos as int].term@ == term);
                        lemma_posted_any_step(entries@, terms@, j as int, field@, d);
                    }
                }
            },
            None => {
                proof {
                    assert forall|d: Seq<char>| #![trigger hits.has(d)]
                        hits.has(d) == posted_any(entries@, terms@, j + 1, field@, d) by {
                        assert(prior.has(d) == posted_any(entries@, terms@, j as int, field@, d));
                        assert(!entries@[pos as int].postings.posts(field@, d));
                        lemma_posted_here(entries@, pos as int, field@, d);
                        assert(entries@[pos as int].term@ == term);
                        lemma_posted_any_step(entries@, terms@, j as int, field@, d);
                    }
                }
            },
        }
        j += 1;
    }
    hits
}

/// A term is posted exactly as its own entry posts.
proof fn lemma_posted_here(entries: Seq<TermEntry>, pos: int, f: Seq<char>, d: Seq<char>)
    requires
        entries_ok(entries),
        0 <= pos < entries.len(),
    ensures
        posted(entries, entries[pos].term@, f, d) == entries[pos].postings.posts(f, d),
{
    if posted(entries, entries[pos].term@, f, d) {
        let i = choose|i: int|
            0 <= i < entries.len() && (#[trigger] entries[i]).term@ == entries[pos].term@ && entries[i].postings.posts(f, d);
        lemma_same_entry(entries, i, pos);
    }
}

proof fn lemma_posted_any_step(entries: Seq<TermEntry>, terms: Seq<String>, j: int, f: Seq<char>, d: Seq<char>)
    requires
        0 <= j < terms.len(),
    ensures
        posted_any(entries, terms, j + 1, f, d) == (posted_any(entries, terms, j, f, d) || posted(entries, terms[j]@, f, d)),
{
    if posted_any(entries, terms, j + 1, f, d) {
        let k = choose|k: int| 0 <= k < j + 1 && k < terms.len() && posted(entries, (#[trigger] terms[k])@, f, d);
        if k < j {
            assert(0 <= k < j && posted(entries, terms[k]@, f, d));
        }
    }
    if posted_any(entries, terms, j, f, d) {
        let k = choose|k: int| 0 <= k < j && k < terms.len() && posted(entries, (#[trigger] terms[k])@, f, d);
        assert(0 <= k < j + 1 && posted(entries, terms[k]@, f, d));
    }
    if posted(entries, terms[j]@, f, d) {
        assert(0 <= j < j + 1 && posted(entries, terms[j]@, f, d));
    }
}

/// Whether `dim` is the number of one of the first `upto` of `terms`.
spec fn numbered_any(entries: Seq<TermEntry>, terms: Seq<String>, upto: int, dim: int) -> bool {
    exists|j: int| 0 <= j < upto && j < terms.len() && term_number(entries, (#[trigger] terms[j])@) == dim
}

proof fn lemma_numbered_any_step(entries: Seq<TermEntry>, terms: Seq<String>, j: int, dim: int)
    requires
        0 <= j < terms.len(),
    ensures
        numbered_any(entries, terms, j + 1, dim) == (numbered_any(entries, terms, j, dim) || term_number(
            entries,
            terms[j]@,
        ) == dim),
{
    if numbered_any(entries, terms, j + 1, dim) {
        let k = choose|k: int| 0 <= k < j + 1 && k < terms.len() && term_number(entries, (#[trigger] terms[k])@) == dim;
        if k < j {
            assert(0 <= k < j && term_number(entries, terms[k]@) == dim);
        }
    }
    if numbered_any(entries, terms, j, dim) {
        let k = choose|k: int| 0 <= k < j && k < terms.len() && term_number(entries, (#[trigger] terms[k])@) == dim;
        assert(0 <= k < j + 1 && term_number(entries, terms[k]@) == dim);
    }
    if term_number(entries, terms[j]@) == dim {
        assert(0 <= j < j + 1 && term_number(entries, terms[j]@) == dim);
    }
}

/// Two terms of the vocabulary with one number are one term.
proof fn lemma_number_names_term(entries: Seq<TermEntry>, a: Seq<char>, b: Seq<char>)
    requires
        entry_terms(entries).contains(a),
        entry_terms(entries).contains(b),
        term_number(entries, a) == term_number(entries, b),
    ensures
        a == b,
{
    lemma_slot_holds(entry_terms(entries), a);
    lemma_slot_holds(entry_terms(entries), b);
}

/// The slot of a text of the list is a position at which the list holds it.
proof fn lemma_slot_holds(terms: Seq<Seq<char>>, t: Seq<char>)
    requires
        terms.contains(t),
    ensures
        0 <= term_slot(terms, t) < terms.len(),
        terms[term_slot(terms, t)] == t,
    decreases terms.len(),
{
    let i = choose|i: int| 0 <= i < terms.len() && terms[i] == t;
    if terms[0] != t {
        assert(terms.drop_first()[i - 1] == t);
        lemma_slot_holds(terms.drop_first(), t);
    }
}

/// Adds `boost` to the weight of each of `terms`.
fn boost_terms(
    vector: &mut Vector,
    entries: &Vec<TermEntry>,
    slots: &StringHashMap<usize>,
    terms: &Vec<String>,
    boost: i32,
)
    requires
        old(vector).wf(),
        entries_ok(entries@),
        slots_ok(entries@, slots@),
        forall|j: int| 0 <= j < terms@.len() ==> entry_terms(entries@).contains((#[trigger] terms@[j])@),
        forall|i: int, j: int| 0 <= i < j < terms@.len() ==> terms@[i]@ != terms@[j]@,
    ensures
        final(vector).wf(),
        forall|d: int| holds(final(vector)@, d) == (holds(old(vector)@, d) || numbered_any(
            entries@,
            terms@,
            terms@.len() as int,
            d,
        )),
        forall|d: int|
            value_at(final(vector)@, d) == if numbered_any(entries@, terms@, terms@.len() as int, d) {
                bounded_sum(value_at(old(vector)@, d), boost as int)
            } else {
                value_at(old(vector)@, d)
            },
{
    let ghost start = vector@;
    let mut j: usize = 0;
    while j < terms.len()
        invariant
            j <= terms@.len(),
            vector.wf(),
            entries_ok(entries@),
            slots_ok(entries@, slots@),
            forall|k: int| 0 <= k < terms@.len() ==> entry_terms(entries@).contains((#[trigger] terms@[k])@),
            forall|i: int, k: int| 0 <= i < k < terms@.len() ==> terms@[i]@ != terms@[k]@,
            forall|d: int| #![trigger holds(vector@, d)]
                holds(vector@, d) == (holds(start, d) || numbered_any(entries@, terms@, j as int, d)),
            forall|d: int| #![trigger value_at(vector@, d)]
                value_at(vector@, d) == if numbered_any(entries@, terms@, j as int, d) {
                    bounded_sum(value_at(start, d), boost as int)
                } else {
                    value_at(start, d)
                },
        decreases terms@.len() - j,
    {
        let ghost before = vector@;
        let pos = position_of(entries, slots, terms[j].as_str());
        let n = entries.len();
        assert(pos < n);
        let dim = pos + 1;
        proof {
            // this term's dimension was not boosted before
            if numbered_any(entries@, terms@, j as int, dim as int) {
                let k = choose|k: int|
                    0 <= k < j && k < terms@.len() && term_number(entries@, (#[trigger] terms@[k])@) == dim;
                lemma_number_names_term(entries@, terms@[k]@, terms@[j as int]@);
            }
        }
        vector.upsert(dim, boost);
        proof {
            assert forall|d: int| #![trigger holds(vector@, d)]
                holds(vector@, d) == (holds(start, d) || numbered_any(entries@, terms@, j + 1, d)) by {
                assert(holds(before, d) == (holds(start, d) || numbered_any(entries@, terms@, j as int, d)));
                lemma_numbered_any_step(entries@, terms@, j as int, d);
            }
            assert forall|d: int| #![trigger value_at(vector@, d)]
                value_at(vector@, d) == if numbered_any(entries@, terms@, j + 1, d) {
                    bounded_sum(value_at(start, d), boost as int)
                } else {
                    value_at(start, d)
                } by {
                assert(value_at(before, d) == if numbered_any(entries@, terms@, j as int, d) {
                    bounded_sum(value_at(start, d), boost as int)
                } else {
                    value_at(start, d)
                });
                assert(value_at(before, dim as int) == value_at(start, dim as int));
                lemma_numbered_any_step(entries@, terms@, j as int, d);
            }
        }
        j += 1;
    }
}

/// What the clauses taken so far say of one declared field, as computed.
pub struct FieldEval {
    pub required: Option<StringSet>,
    pub prohibited: StringSet,
    pub matching: StringSet,
    pub vector: Vector,
}

impl FieldEval {
    /// The sets hold no document twice, and the dimensions of the vector ascend.
    pub open spec fn wf(&self) -> bool {
        &&& self.required is Some ==> self.required->0.wf()
        &&& self.prohibited.wf()
        &&& self.matching.wf()
        &&& self.vector.wf()
    }

    /// What this stands for.
    pub open spec fn model(&self) -> FieldState {
        FieldState {
            required: if self.required is Some {
                Some(self.required->0.members())
            } else {
                None
            },
            prohibited: self.prohibited.members(),
            matching: self.matching.members(),
            weights: weights_of(self.vector@),
        }
    }

    /// The state of a field before the first clause.
    pub fn new() -> (fe: FieldEval)
        ensures
            fe.wf(),
            fe.model() == (FieldState {
                required: None,
                prohibited: Set::empty(),
                matching: Set::empty(),
                weights: Map::empty(),
            }),
    {
        let fe = FieldEval {
            required: None,
            prohibited: StringSet::new(),
            matching: StringSet::new(),
            vector: Vector::new(),
        };
        proof {
            assert(fe.prohibited.members() =~= Set::<Seq<char>>::empty());
            assert(fe.matching.members() =~= Set::<Seq<char>>::empty());
            assert(weights_of(fe.vector@) =~= Map::<int, int>::empty());
        }
        fe
    }
}

/// What the terms of a clause are: the terms of the vocabulary that its
/// pattern expands to, each once.
pub open spec fn expansion_of(entries: Seq<TermEntry>, pattern: Seq<char>, terms: Seq<String>) -> bool {
    &&& forall|t: Seq<char>| listed(terms, t) == #[trigger] expands(entries, pattern, t)
    &&& forall|i: int, j: int| 0 <= i < j < terms.len() ==> terms[i]@ != terms[j]@
}

proof fn lemma_expansion_known(entries: Seq<TermEntry>, pattern: Seq<char>, terms: Seq<String>)
    requires
        expansion_of(entries, pattern, terms),
    ensures
        forall|j: int| 0 <= j < terms.len() ==> entry_terms(entries).contains((#[trigger] terms[j])@),
{
    assert forall|j: int| 0 <= j < terms.len() implies entry_terms(entries).contains((#[trigger] terms[j])@) by {
        assert(listed(terms, terms[j]@));
        assert(expands(entries, pattern, terms[j]@));
    }
}

proof fn lemma_hits_bridge(entries: Seq<TermEntry>, pattern: Seq<char>, terms: Seq<String>, f: Seq<char>, d: Seq<char>)
    requires
        expansion_of(entries, pattern, terms),
    ensures
        posted_any(entries, terms, terms.len() as int, f, d) == hit_docs(entries, pattern, f).contains(d),
{
    if posted_any(entries, terms, terms.len() as int, f, d) {
        let j = choose|j: int| 0 <= j < terms.len() && j < terms.len() && posted(entries, (#[trigger] terms[j])@, f, d);
        assert(listed(terms, terms[j]@));
        assert(expands(entries, pattern, terms[j]@) && posted(entries, terms[j]@, f, d));
    }
    if hit_docs(entries, pattern, f).contains(d) {
        let t = choose|t: Seq<char>| #[trigger] expands(entries, pattern, t) && posted(entries, t, f, d);
        assert(listed(terms, t));
        let j = choose|j: int| 0 <= j < terms.len() && (#[trigger] terms[j])@ == t;
        assert(0 <= j < terms.len() && posted(entries, terms[j]@, f, d));
    }
}

proof fn lemma_dims_bridge(entries: Seq<TermEntry>, pattern: Seq<char>, terms: Seq<String>, d: int)
    requires
        expansion_of(entries, pattern, terms),
    ensures
        numbered_any(entries, terms, terms.len() as int, d) == hit_dim(entries, pattern, d),
{
    if numbered_any(entries, terms, terms.len() as int, d) {
        let j = choose|j: int|
            0 <= j < terms.len() && j < terms.len() && term_number(entries, (#[trigger] terms[j])@) == d;
        assert(listed(terms, terms[j]@));
        assert(expands(entries, pattern, terms[j]@) && term_number(entries, terms[j]@) == d);
    }
    if hit_dim(entries, pattern, d) {
        let t = choose|t: Seq<char>| #[trigger] expands(entries, pattern, t) && term_number(entries, t) == d;
        assert(listed(terms, t));
        let j = choose|j: int| 0 <= j < terms.len() && (#[trigger] terms[j])@ == t;
        assert(0 <= j < terms.len() && term_number(entries, terms[j]@) == d);
    }
}

/// The boost of a clause as a value of a vector.
fn boost_of(boost: u64) -> (value: i32)
    ensures
        value == boost_value(boost),
{
    if boost > i32::MAX as u64 {
        i32::MAX
    } else {
        boost as i32
    }
}

/// What a clause with the terms `terms` makes of the field `field`, which
/// lies in its scope.
fn step_field(
    fe: &mut FieldEval,
    index: &Index,
    clause: &Clause,
    terms: &Vec<String>,
    clause_matches: &StringSet,
    field: &str,
)
    requires
        old(fe).wf(),
        index.wf(),
        clause_matches.wf(),
        expansion_of(index.entries(), clause.term@, terms@),
        clause.presence == Presence::Required ==> clause_matches.members() == clause_docs(
            index.entries(),
            index.declared(),
            *clause,
        ),
    ensures
        final(fe).wf(),
        final(fe).model() == field_step(index.entries(), index.declared(), index.docs(), old(fe).model(), *clause, field@),
{
    let ghost entries = index.entries();
    let ghost pattern = clause.term@;
    proof {
        lemma_expansion_known(entries, pattern, terms@);
    }
    let hits = docs_hit(index.inverted_index(), index.term_slots(), terms, field);
    proof {
        assert(hits.members() =~= hit_docs(entries, pattern, field@)) by {
            assert forall|d: Seq<char>| hits.members().contains(d) == hit_docs(entries, pattern, field@).contains(d) by {
                assert(hits.has(d) == posted_any(entries, terms@, terms@.len() as int, field@, d));
                lemma_hits_bridge(entries, pattern, terms@, field@, d);
            }
        }
    }
    match clause.presence {
        Presence::Prohibited => {
            fe.prohibited.union_with(&hits);
        },
        _ => {
            if clause.presence == Presence::Required {
                let allowed = match &fe.required {
                    Some(r) => r.intersection(clause_matches),
                    None => {
                        let all = index.doc_refs();
                        proof {
                            assert(all.members() =~= all_docs(index.docs()));
                            assert(all.wf());
                        }
                        all.intersection(clause_matches)
                    },
                };
                fe.required = Some(allowed);
            }
            fe.matching.union_with(&hits);
            let ghost before = fe.vector@;
            let boost = boost_of(clause.boost);
            boost_terms(&mut fe.vector, index.inverted_index(), index.term_slots(), terms, boost);
            proof {
                assert(weights_of(fe.vector@) =~= boosted(weights_of(before), entries, pattern, boost as int)) by {
                    assert forall|d: int|
                        weights_of(fe.vector@).dom().contains(d) == boosted(
                            weights_of(before),
                            entries,
                            pattern,
                            boost as int,
                        ).dom().contains(d) by {
                        assert(holds(fe.vector@, d) == (holds(before, d) || numbered_any(
                            entries,
                            terms@,
                            terms@.len() as int,
                            d,
                        )));
                        lemma_dims_bridge(entries, pattern, terms@, d);
                    }
                    assert forall|d: int| #[trigger]
                        weights_of(fe.vector@).dom().contains(d) implies weights_of(fe.vector@)[d] == boosted(
                        weights_of(before),
                        entries,
                        pattern,
                        boost as int,
                    )[d] by {
                        assert(value_at(fe.vector@, d) == if numbered_any(entries, terms@, terms@.len() as int, d) {
                            bounded_sum(value_at(before, d), boost as int)
                        } else {
                            value_at(before, d)
                        });
                        lemma_dims_bridge(entries, pattern, terms@, d);
                        if !holds(before, d) {
                            crate::vector::lemma_value_absent(before, d);
                        }
                    }
                }
            }
        },
    }
}

/// What the states of the fields stand for, in their order.
pub open spec fn models(fields: Seq<FieldEval>) -> Seq<FieldState> {
    fields.map_values(|f: FieldEval| f.model())
}

/// The evaluation of a query, clause by clause.
pub struct Evaluation {
    pub fields: Vec<FieldEval>,
    pub stopped: bool,
}

impl Evaluation {
    /// Every field is in order.
    pub open spec fn wf(&self) -> bool {
        forall|fi: int| 0 <= fi < self.fields@.len() ==> (#[trigger] self.fields@[fi]).wf()
    }

    /// What the evaluation stands for.
    pub open spec fn model(&self) -> EvalState {
        EvalState { fields: models(self.fields@), stopped: self.stopped }
    }

    /// The evaluation before the first clause, for `n` declared fields.
    pub fn new(n: usize) -> (ev: Evaluation)
        ensures
            ev.wf(),
            ev.fields@.len() == n,
            ev.model() == start_state(n as int),
    {
        let mut fields: Vec<FieldEval> = Vec::new();
        let mut i: usize = 0;
        while i < n
            invariant
                i <= n,
                fields@.len() == i,
                forall|fi: int| 0 <= fi < i ==> (#[trigger] fields@[fi]).wf() && fields@[fi].model() == (FieldState {
                    required: None,
                    prohibited: Set::empty(),
                    matching: Set::empty(),
                    weights: Map::empty(),
                }),
            decreases n - i,
        {
            fields.push(FieldEval::new());
            i += 1;
        }
        let ev = Evaluation { fields, stopped: false };
        proof {
            assert(models(ev.fields@) =~= start_state(n as int).fields);
        }
        ev
    }

    /// The documents that hold a term of the clause in a declared field of its scope.
    fn matches_of(index: &Index, clause: &Clause, terms: &Vec<String>) -> (docs: StringSet)
        requires
            index.wf(),
            expansion_of(index.entries(), clause.term@, terms@),
        ensures
            docs.wf(),
            docs.members() == clause_docs(index.entries(), index.declared(), *clause),
    {
        let ghost entries = index.entries();
        let ghost declared = index.declared();
        let names = index.field_names();
        let mut docs = StringSet::new();
        let mut fi: usize = 0;
        proof {
            lemma_expansion_known(entries, clause.term@, terms@);
            assert(docs.list() =~= Seq::<Seq<char>>::empty());
        }
        while fi < names.len()
            invariant
                index.wf(),
                entries == index.entries(),
                declared == index.declared(),
                names.list() == declared,
                expansion_of(entries, clause.term@, terms@),
                forall|j: int| 0 <= j < terms@.len() ==> entry_terms(entries).contains((#[trigger] terms@[j])@),
                fi <= declared.len(),
                docs.wf(),
                forall|d: Seq<char>| #![trigger docs.has(d)]
                    docs.has(d) == exists|fj: int|
                        0 <= fj < fi && in_scope(clause.fields, #[trigger] declared[fj]) && hit_docs(
                            entries,
                            clause.term@,
                            declared[fj],
                        ).contains(d),
            decreases declared.len() - fi,
        {
            let name = names.get(fi);
            let ghost prior = docs;
            if scope_has(&clause.fields, name.as_str()) {
                let hits = docs_hit(index.inverted_index(), index.term_slots(), terms, name.as_str());
                docs.union_with(&hits);
                proof {
                    assert forall|d: Seq<char>| #![trigger docs.has(d)]
                        docs.has(d) == exists|fj: int|
                            0 <= fj < fi + 1 && in_scope(clause.fields, #[trigger] declared[fj]) && hit_docs(
                                entries,
                                clause.term@,
                                declared[fj],
                            ).contains(d) by {
                        assert(docs.has(d) == (prior.has(d) || hits.has(d)));
                        assert(hits.has(d) == posted_any(entries, terms@, terms@.len() as int, name@, d));
                        lemma_hits_bridge(entries, clause.term@, terms@, name@, d);
                        lemma_scope_step(entries, declared, *clause, fi as int, d);
                    }
                }
            } else {
                proof {
                    assert forall|d: Seq<char>| #![trigger docs.has(d)]
                        docs.has(d) == exists|fj: int|
                            0 <= fj < fi + 1 && in_scope(clause.fields, #[trigger] declared[fj]) && hit_docs(
                                entries,
                                clause.term@,
                                declared[fj],
                            ).contains(d) by {
                        lemma_scope_step(entries, declared, *clause, fi as int, d);
                    }
                }
            }
            fi += 1;
        }
        proof {
            assert(docs.members() =~= clause_docs(entries, declared, *clause));
        }
        docs
    }

    /// Takes the next clause.
    pub fn apply(&mut self, index: &Index, clause: &Clause)
        requires
            old(self).wf(),
            index.wf(),
            old(self).fields@.len() == index.declared().len(),
        ensures
            final(self).wf(),
            final(self).fields@.len() == index.declared().len(),
            final(self).model() == clause_step(index.entries(), index.declared(), index.docs(), old(self).model(), *clause),
    {
        if self.stopped {
            return ;
        }
        let ghost entries = index.entries();
        let ghost declared = index.declared();
        let ghost before = self.fields@;
        let ghost st = self.model();
        let pattern = TokenSet::from_clause(clause);
        let found = index.token_set().intersect(&pattern);
        let terms = found.to_vec();
        proof {
            assert forall|t: Seq<char>| listed(terms@, t) == #[trigger] expands(entries, clause.term@, t) by {
                lemma_matches_fitting(pattern, t);
                if pattern.matches(t) {
                    let p = choose|p: Seq<char>| pattern.accepts(p) && #[trigger] pattern_fits(p, t);
                    assert(glob_reads(clause.term@, 0, p) && pattern_fits(p, t));
                }
                if glob_matches(clause.term@, t) {
                    let p = choose|p: Seq<char>| glob_reads(clause.term@, 0, p) && #[trigger] pattern_fits(p, t);
                    assert(pattern.accepts(p) && pattern_fits(p, t));
                }
            }
            assert(expansion_of(entries, clause.term@, terms@));
        }
        let names = index.field_names();
        let n = names.len();
        if terms.len() == 0 {
            proof {
                assert forall|t: Seq<char>| !#[trigger] expands(entries, clause.term@, t) by {
                    if expands(entries, clause.term@, t) {
                        assert(listed(terms@, t));
                    }
                }
            }
            if clause.presence == Presence::Required {
                let mut fi: usize = 0;
                while fi < n
                    invariant
                        n == declared.len(),
                        names.list() == declared,
                        !st.stopped,
                        st.fields == models(before),
                        expands_to_nothing(entries, clause.term@),
                        clause.presence == Presence::Required,
                        fi <= n,
                        self.fields@.len() == n,
                        before.len() == n,
                        forall|fj: int| 0 <= fj < n ==> (#[trigger] before[fj]).wf(),
                        forall|fj: int| 0 <= fj < n ==> (#[trigger] self.fields@[fj]).wf(),
                        forall|fj: int| fi <= fj < n ==> #[trigger] self.fields@[fj] == before[fj],
                        forall|fj: int|
                            0 <= fj < fi ==> (#[trigger] self.fields@[fj]).model() == if in_scope(
                                clause.fields,
                                declared[fj],
                            ) {
                                FieldState { required: Some(Set::empty()), ..before[fj].model() }
                            } else {
                                before[fj].model()
                            },
                    decreases n - fi,
                {
                    if scope_has(&clause.fields, names.get(fi).as_str()) {
                        let nothing = StringSet::new();
                        proof {
                            assert(nothing.members() =~= Set::<Seq<char>>::empty());
                        }
                        self.fields[fi].required = Some(nothing);
                    }
                    fi += 1;
                }
                self.stopped = true;
                proof {
                    assert(models(self.fields@) =~= clause_step(entries, declared, index.docs(), st, *clause).fields) by {
                        assert forall|fj: int| 0 <= fj < n implies models(self.fields@)[fj] == clause_step(
                            entries,
                            declared,
                            index.docs(),
                            st,
                            *clause,
                        ).fields[fj] by {
                            assert(models(before)[fj] == before[fj].model());
                        }
                    }
                    assert(expands_to_nothing(entries, clause.term@));
                    assert(self.model() == clause_step(entries, declared, index.docs(), st, *clause));
                }
            } else {
                proof {
                    assert(expands_to_nothing(entries, clause.term@));
                    assert(self.model() == clause_step(entries, declared, index.docs(), st, *clause));
                }
            }
        } else {
            proof {
                assert(listed(terms@, terms@[0]@));
                assert(expands(entries, clause.term@, terms@[0]@));
                assert(!expands_to_nothing(entries, clause.term@));
            }
            let clause_matches = if clause.presence == Presence::Required {
                Evaluation::matches_of(index, clause, &terms)
            } else {
                StringSet::new()
            };
            let mut fi: usize = 0;
            while fi < n
                invariant
                    index.wf(),
                    entries == index.entries(),
                    declared == index.declared(),
                    n == declared.len(),
                    names.list() == declared,
                    expansion_of(entries, clause.term@, terms@),
                    clause_matches.wf(),
                    clause.presence == Presence::Required ==> clause_matches.members() == clause_docs(
                        entries,
                        declared,
                        *clause,
                    ),
                    !expands_to_nothing(entries, clause.term@),
                    !self.stopped,
                    !st.stopped,
                    st.fields == models(before),
                    fi <= n,
                    self.fields@.len() == n,
                    before.len() == n,
                    forall|fj: int| 0 <= fj < n ==> (#[trigger] before[fj]).wf(),
                    forall|fj: int| 0 <= fj < n ==> (#[trigger] self.fields@[fj]).wf(),
                    forall|fj: int| fi <= fj < n ==> #[trigger] self.fields@[fj] == before[fj],
                    forall|fj: int|
                        0 <= fj < fi ==> (#[trigger] self.fields@[fj]).model() == if in_scope(clause.fields, declared[fj]) {
                            field_step(entries, declared, index.docs(), before[fj].model(), *clause, declared[fj])
                        } else {
                            before[fj].model()
                        },
                decreases n - fi,
            {
                let name = names.get(fi);
                if scope_has(&clause.fields, name.as_str()) {
                    step_field(&mut self.fields[fi], index, clause, &terms, &clause_matches, name.as_str());
                }
                fi += 1;
            }
            proof {
                assert(models(self.fields@) =~= clause_step(entries, declared, index.docs(), st, *clause).fields) by {
                    assert forall|fj: int| 0 <= fj < n implies models(self.fields@)[fj] == clause_step(
                        entries,
                        declared,
                        index.docs(),
                        st,
                        *clause,
                    ).fields[fj] by {
                        assert(models(before)[fj] == before[fj].model());
                    }
                }
                assert(self.model() == clause_step(entries, declared, index.docs(), st, *clause));
            }
        }
    }
}

proof fn lemma_scope_step(entries: Seq<TermEntry>, declared: Seq<Seq<char>>, clause: Clause, fi: int, d: Seq<char>)
    requires
        0 <= fi < declared.len(),
    ensures
        (exists|fj: int|
            0 <= fj < fi + 1 && in_scope(clause.fields, #[trigger] declared[fj]) && hit_docs(
                entries,
                clause.term@,
                declared[fj],
            ).contains(d)) == ((exists|fj: int|
            0 <= fj < fi && in_scope(clause.fields, #[trigger] declared[fj]) && hit_docs(
                entries,
                clause.term@,
                declared[fj],
            ).contains(d)) || (in_scope(clause.fields, declared[fi]) && hit_docs(entries, clause.term@, declared[fi]).contains(
            d,
        ))),
{
    if exists|fj: int|
        0 <= fj < fi + 1 && in_scope(clause.fields, #[trigger] declared[fj]) && hit_docs(
            entries,
            clause.term@,
            declared[fj],
        ).contains(d) {
        let fj = choose|fj: int|
            0 <= fj < fi + 1 && in_scope(clause.fields, #[trigger] declared[fj]) && hit_docs(
                entries,
                clause.term@,
                declared[fj],
            ).contains(d);
        if fj < fi {
            assert(0 <= fj < fi && in_scope(clause.fields, declared[fj]) && hit_docs(
                entries,
                clause.term@,
                declared[fj],
            ).contains(d));
        }
    }
    if exists|fj: int|
        0 <= fj < fi && in_scope(clause.fields, #[trigger] declared[fj]) && hit_docs(
            entries,
            clause.term@,
            declared[fj],
        ).contains(d) {
        let fj = choose|fj: int|
            0 <= fj < fi && in_scope(clause.fields, #[trigger] declared[fj]) && hit_docs(
                entries,
                clause.term@,
                declared[fj],
            ).contains(d);
        assert(0 <= fj < fi + 1 && in_scope(clause.fields, declared[fj]) && hit_docs(
            entries,
            clause.term@,
            declared[fj],
        ).contains(d));
    }
    if in_scope(clause.fields, declared[fi]) && hit_docs(entries, clause.term@, declared[fi]).contains(d) {
        assert(0 <= fi < fi + 1 && in_scope(clause.fields, declared[fi]) && hit_docs(
            entries,
            clause.term@,
            declared[fi],
        ).contains(d));
    }
}

/// The sum, over the dimensions below `bound`, of the products of the two weights.
pub open spec fn weights_dot_below(a: Weights, b: Weights, bound: int) -> int
    decreases bound,
{
    if bound <= 0 {
        0
    } else {
        weights_dot_below(a, b, bound - 1) + weight_at(a, bound - 1) * weight_at(b, bound - 1)
    }
}

/// The dot product of two lists of weights.
pub open spec fn weights_dot(a: Weights, b: Weights) -> int {
    weights_dot_below(a, b, usize::MAX + 1)
}

/// The dot product of two vectors is the dot product of their weights.
pub proof fn lemma_weights_dot(x: Seq<Element>, y: Seq<Element>, bound: int)
    ensures
        dot_below(x, y, bound) == weights_dot_below(weights_of(x), weights_of(y), bound),
    decreases bound,
{
    if bound > 0 {
        lemma_weights_dot(x, y, bound - 1);
        if !holds(x, bound - 1) {
            lemma_value_absent(x, bound - 1);
        }
        if !holds(y, bound - 1) {
            lemma_value_absent(y, bound - 1);
        }
    }
}

/// Whether vector `i` is that of field `f` of document `d`.
pub open spec fn vector_of(vectors: Seq<FieldVector>, i: int, d: Seq<char>, f: Seq<char>) -> bool {
    0 <= i < vectors.len() && vectors[i].field_ref.doc() == d && vectors[i].field_ref.field() == f
}

/// The weights of field `f` of document `d`; none if the index has no
/// vector for it.
pub open spec fn field_weights(vectors: Seq<FieldVector>, d: Seq<char>, f: Seq<char>) -> Weights {
    if exists|i: int| vector_of(vectors, i, d, f) {
        weights_of(vectors[choose|i: int| vector_of(vectors, i, d, f)].vector@)
    } else {
        Map::empty()
    }
}

/// What one field adds to the score of a document: the dot product of the
/// query's weights with the field's, and the dot product of the query's
/// weights with themselves.
pub struct PartModel {
    pub field: Seq<char>,
    pub dot: int,
    pub norm: int,
}

/// What one field adds to the score of a document. The field's share of the
/// score is `dot` over the root of `norm`, in thousandths, and zero where
/// `norm` is zero.
#[derive(Debug, Clone, PartialEq, Eq)]
pub struct ScorePart {
    pub field_name: String,
    pub dot: i128,
    pub norm: i128,
}

impl ScorePart {
    pub open spec fn model(&self) -> PartModel {
        PartModel { field: self.field_name@, dot: self.dot as int, norm: self.norm as int }
    }
}

/// A document of the result, with what each of its matching fields adds to
/// its score.
#[derive(Debug, Clone, PartialEq, Eq)]
pub struct MatchResult {
    pub doc_ref: String,
    pub parts: Vec<ScorePart>,
}

impl MatchResult {
    pub fn doc_ref(&self) -> (doc_ref: &str)
        ensures
            doc_ref@ == self.doc_ref@,
    {
        self.doc_ref.as_str()
    }

    pub fn parts(&self) -> (parts: &Vec<ScorePart>)
        ensures
            *parts == self.parts,
    {
        &self.parts
    }
}

/// The parts as plain values, in their order.
pub open spec fn part_models(parts: Seq<ScorePart>) -> Seq<PartModel> {
    parts.map_values(|p: ScorePart| p.model())
}

/// The documents of the results, in their order.
pub open spec fn result_docs(out: Seq<MatchResult>) -> Seq<Seq<char>> {
    out.map_values(|r: MatchResult| r.doc_ref@)
}

/// What declared field `fi` adds to the score of document `d`.
pub open spec fn part_of(st: EvalState, vectors: Seq<FieldVector>, declared: Seq<Seq<char>>, d: Seq<char>, fi: int) -> PartModel {
    PartModel {
        field: declared[fi],
        dot: weights_dot(st.fields[fi].weights, field_weights(vectors, d, declared[fi])),
        norm: weights_dot(st.fields[fi].weights, st.fields[fi].weights),
    }
}

/// What the first `n` declared fields add to the score of document `d`:
/// one part for each field in which the document matched.
pub open spec fn parts_upto(st: EvalState, vectors: Seq<FieldVector>, declared: Seq<Seq<char>>, d: Seq<char>, n: int) -> Seq<
    PartModel,
>
    decreases n,
{
    if n <= 0 {
        Seq::empty()
    } else if st.fields[n - 1].matching.contains(d) {
        parts_upto(st, vectors, declared, d, n - 1).push(part_of(st, vectors, declared, d, n - 1))
    } else {
        parts_upto(st, vectors, declared, d, n - 1)
    }
}

/// The test of being among the results.
pub open spec fn chooser(st: EvalState, docs: Seq<Seq<char>>, negated: bool) -> spec_fn(Seq<char>) -> bool {
    |d: Seq<char>| selected(st, docs, negated, d)
}

/// Whether `out` answers the query: it lists the selected documents in the
/// order of the index, each with the parts of its score. A query that only
/// prohibits gives no document any part.
pub open spec fn answers(
    st: EvalState,
    vectors: Seq<FieldVector>,
    declared: Seq<Seq<char>>,
    docs: Seq<Seq<char>>,
    negated: bool,
    out: Seq<MatchResult>,
) -> bool {
    &&& result_docs(out) == docs.filter(chooser(st, docs, negated))
    &&& forall|k: int|
        0 <= k < out.len() ==> part_models((#[trigger] out[k]).parts@) == if negated {
            Seq::<PartModel>::empty()
        } else {
            parts_upto(st, vectors, declared, out[k].doc_ref@, declared.len() as int)
        }
}

proof fn lemma_filter_step(docs: Seq<Seq<char>>, pred: spec_fn(Seq<char>) -> bool, i: int)
    requires
        0 <= i < docs.len(),
    ensures
        docs.subrange(0, i + 1).filter(pred) == if pred(docs[i]) {
            docs.subrange(0, i).filter(pred).push(docs[i])
        } else {
            docs.subrange(0, i).filter(pred)
        },
{
    reveal(Seq::filter);
    assert(docs.subrange(0, i + 1).drop_last() =~= docs.subrange(0, i));
}

impl Evaluation {
    /// Whether document `doc` is among the results.
    fn selects(&self, index: &Index, negated: bool, doc: &str) -> (chosen: bool)
        requires
            self.wf(),
            index.docs().contains(doc@),
        ensures
            chosen == selected(self.model(), index.docs(), negated, doc@),
    {
        let ghost st = self.model();
        let mut matched_any = false;
        let mut fi: usize = 0;
        while fi < self.fields.len()
            invariant
                self.wf(),
                st == self.model(),
                fi <= self.fields@.len(),
                forall|fj: int|
                    0 <= fj < fi && (#[trigger] st.fields[fj]).required is Some ==> st.fields[fj].required->0.contains(doc@),
                forall|fj: int| 0 <= fj < fi ==> !(#[trigger] st.fields[fj]).prohibited.contains(doc@),
                matched_any == exists|fj: int| 0 <= fj < fi && (#[trigger] st.fields[fj]).matching.contains(doc@),
            decreases self.fields@.len() - fi,
        {
            let field = &self.fields[fi];
            assert(st.fields[fi as int] == field.model());
            assert(field.wf());
            let allowed = match &field.required {
                Some(r) => r.contains(doc),
                None => true,
            };
            if !allowed || field.prohibited.contains(doc) {
                proof {
                    if selected(st, index.docs(), negated, doc@) {
                        assert(st.fields[fi as int].required is Some ==> st.fields[fi as int].required->0.contains(doc@));
                        assert(!st.fields[fi as int].prohibited.contains(doc@));
                    }
                }
                return false;
            }
            let here = field.matching.contains(doc);
            proof {
                let was = matched_any;
                assert((was || here) == exists|fj: int|
                    0 <= fj < fi + 1 && (#[trigger] st.fields[fj]).matching.contains(doc@)) by {
                    if exists|fj: int| 0 <= fj < fi + 1 && (#[trigger] st.fields[fj]).matching.contains(doc@) {
                        let fj = choose|fj: int| 0 <= fj < fi + 1 && (#[trigger] st.fields[fj]).matching.contains(doc@);
                        if fj < fi {
                            assert(0 <= fj < fi && st.fields[fj].matching.contains(doc@));
                        }
                    }
                    if was {
                        let fj = choose|fj: int| 0 <= fj < fi && (#[trigger] st.fields[fj]).matching.contains(doc@);
                        assert(0 <= fj < fi + 1 && st.fields[fj].matching.contains(doc@));
                    }
                    if here {
                        assert(0 <= fi < fi + 1 && st.fields[fi as int].matching.contains(doc@));
                    }
                }
            }
            matched_any = matched_any || here;
            fi += 1;
        }
        negated || matched_any
    }

    /// What the declared fields add to the score of document `doc`.
    fn parts_for(&self, index: &Index, doc: &str) -> (parts: Vec<ScorePart>)
        requires
            self.wf(),
            index.wf(),
            self.fields@.len() == index.declared().len(),
        ensures
            part_models(parts@) == parts_upto(
                self.model(),
                index.vectors(),
                index.declared(),
                doc@,
                index.declared().len() as int,
            ),
    {
        let ghost st = self.model();
        let ghost vectors = index.vectors();
        let ghost declared = index.declared();
        let names = index.field_names();
        let mut parts: Vec<ScorePart> = Vec::new();
        let mut fi: usize = 0;
        proof {
            assert(part_models(parts@) =~= parts_upto(st, vectors, declared, doc@, 0));
        }
        while fi < self.fields.len()
            invariant
                self.wf(),
                index.wf(),
                st == self.model(),
                vectors == index.vectors(),
                declared == index.declared(),
                names.list() == declared,
                self.fields@.len() == declared.len(),
                fi <= self.fields@.len(),
                part_models(parts@) == parts_upto(st, vectors, declared, doc@, fi as int),
            decreases self.fields@.len() - fi,
        {
            let field = &self.fields[fi];
            assert(st.fields[fi as int] == field.model());
            assert(field.wf());
            if field.matching.contains(doc) {
                let name = names.get(fi);
                let norm = field.vector.magnitude_squared();
                let dot = match index.vector_position(doc, name.as_str()) {
                    Some(vi) => {
                        let other = &index.field_vectors()[vi].vector;
                        proof {
                            assert(vector_of(vectors, vi as int, doc@, name@));
                            let chosen = choose|i: int| vector_of(vectors, i, doc@, name@);
                            if chosen < vi {
                                assert(!(vectors[chosen].field_ref.doc() == vectors[vi as int].field_ref.doc()
                                    && vectors[chosen].field_ref.field() == vectors[vi as int].field_ref.field()));
                            }
                            if vi < chosen {
                                assert(!(vectors[vi as int].field_ref.doc() == vectors[chosen].field_ref.doc()
                                    && vectors[vi as int].field_ref.field() == vectors[chosen].field_ref.field()));
                            }
                            lemma_weights_dot(field.vector@, other@, usize::MAX + 1);
                        }
                        field.vector.dot(other)
                    },
                    None => {
                        proof {
                            if exists|i: int| vector_of(vectors, i, doc@, name@) {
                                let i = choose|i: int| vector_of(vectors, i, doc@, name@);
                                assert(!(vectors[i].field_ref.doc() == doc@ && vectors[i].field_ref.field() == name@));
                            }
                            lemma_dot_nothing(st.fields[fi as int].weights, usize::MAX + 1);
                        }
                        0
                    },
                };
                proof {
                    lemma_weights_dot(field.vector@, field.vector@, usize::MAX + 1);
                }
                let ghost before = parts@;
                let part = ScorePart { field_name: name.clone(), dot, norm };
                assert(part.model() == part_of(st, vectors, declared, doc@, fi as int));
                parts.push(part);
                proof {
                    assert(part_models(parts@) =~= part_models(before).push(part.model()));
                }
            }
            fi += 1;
        }
        parts
    }

    /// The documents that the query selects, in the order of the index,
    /// each with the parts of its score.
    pub fn results(&self, index: &Index, negated: bool) -> (out: Vec<MatchResult>)
        requires
            self.wf(),
            index.wf(),
            self.fields@.len() == index.declared().len(),
        ensures
            answers(self.model(), index.vectors(), index.declared(), index.docs(), negated, out@),
    {
        let ghost st = self.model();
        let ghost docs = index.docs();
        let ghost pred = chooser(st, docs, negated);
        let all = index.doc_refs();
        let mut out: Vec<MatchResult> = Vec::new();
        let mut i: usize = 0;
        proof {
            assert(docs.subrange(0, 0) =~= Seq::<Seq<char>>::empty());
            assert(result_docs(out@) =~= docs.subrange(0, 0).filter(pred));
        }
        while i < all.len()
            invariant
                self.wf(),
                index.wf(),
                self.fields@.len() == index.declared().len(),
                st == self.model(),
                docs == index.docs(),
                all.list() == docs,
                pred == chooser(st, docs, negated),
                i <= docs.len(),
                result_docs(out@) == docs.subrange(0, i as int).filter(pred),
                forall|k: int|
                    0 <= k < out@.len() ==> part_models((#[trigger] out@[k]).parts@) == if negated {
                        Seq::<PartModel>::empty()
                    } else {
                        parts_upto(st, index.vectors(), index.declared(), out@[k].doc_ref@, index.declared().len() as int)
                    },
            decreases docs.len() - i,
        {
            let doc = all.get(i);
            proof {
                assert(docs[i as int] == doc@);
                assert(docs.contains(doc@));
                lemma_filter_step(docs, pred, i as int);
            }
            if self.selects(index, negated, doc.as_str()) {
                let parts = if negated {
                    let none: Vec<ScorePart> = Vec::new();
                    proof {
                        assert(part_models(none@) =~= Seq::<PartModel>::empty());
                    }
                    none
                } else {
                    self.parts_for(index, doc.as_str())
                };
                let ghost before = out@;
                let result = MatchResult { doc_ref: doc.clone(), parts };
                out.push(result);
                proof {
                    assert(result_docs(out@) =~= result_docs(before).push(doc@));
                    assert forall|k: int| 0 <= k < out@.len() implies part_models((#[trigger] out@[k]).parts@) == if negated {
                        Seq::<PartModel>::empty()
                    } else {
                        parts_upto(st, index.vectors(), index.declared(), out@[k].doc_ref@, index.declared().len() as int)
                    } by {
                        if k < before.len() {
                            assert(out@[k] == before[k]);
                        }
                    }
                }
            }
            i += 1;
        }
        proof {
            assert(docs.subrange(0, i as int) =~= docs);
        }
        out
    }
}

/// The dot product with no weights at all is zero.
proof fn lemma_dot_nothing(a: Weights, bound: int)
    ensures
        weights_dot_below(a, Map::<int, int>::empty(), bound) == 0,
    decreases bound,
{
    if bound > 0 {
        lemma_dot_nothing(a, bound - 1);
        assert(weight_at(Map::<int, int>::empty(), bound - 1) == 0);
        assert(weight_at(a, bound - 1) * 0 == 0) by (nonlinear_arith);
    }
}

impl Index {
    /// The state of the evaluation after the clauses of a query.
    pub open spec fn evaluated(&self, clauses: Seq<Clause>) -> EvalState {
        eval_clauses(self.entries(), self.declared(), self.docs(), clauses)
    }

    /// Evaluates a query: the documents that it selects, in the order of
    /// the index, each with the parts of its score.
    pub fn query(&self, query: &Query) -> (out: Vec<MatchResult>)
        requires
            self.wf(),
        ensures
            answers(
                self.evaluated(query.clauses@),
                self.vectors(),
                self.declared(),
                self.docs(),
                query.negated(),
                out@,
            ),
    {
        let n = self.field_names().len();
        let mut ev = Evaluation::new(n);
        let mut i: usize = 0;
        proof {
            assert(query.clauses@.subrange(0, 0) =~= Seq::<Clause>::empty());
        }
        while i < query.clauses.len()
            invariant
                self.wf(),
                i <= query.clauses@.len(),
                ev.wf(),
                ev.fields@.len() == self.declared().len(),
                ev.model() == self.evaluated(query.clauses@.subrange(0, i as int)),
            decreases query.clauses@.len() - i,
        {
            proof {
                let now = query.clauses@.subrange(0, i + 1);
                assert(now.drop_last() =~= query.clauses@.subrange(0, i as int));
                assert(now.last() == query.clauses@[i as int]);
            }
            ev.apply(self, &query.clauses[i]);
            i += 1;
        }
        proof {
            assert(query.clauses@.subrange(0, i as int) =~= query.clauses@);
        }
        let negated = query.is_negated();
        ev.results(self, negated)
    }
}

} // verus!
