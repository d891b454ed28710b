//! Building twice gives the same index.

use vstd::prelude::*;
use crate::builder::{
    Builder, FieldSummary, absorb_fields, b_set, built_from, counts_ok, document_added, document_terms, field_added,
    field_names, k1_set, lemma_document_terms_unique, lemma_weighs_determined, same_entries, summarizes, summed_up,
};
use crate::document::Document;
use crate::index::{Index, entry_terms, lemma_count_determined, lemma_same_entry};

verus! {

/// A call that changes what a builder holds.
pub enum Call {
    /// Declares a field name.
    AddField(String),
    /// Sets the length normalization, in thousandths.
    SetB(i64),
    /// Sets the term frequency saturation, in thousandths.
    SetK1(i64),
    /// Adds a document.
    AddDocument(Document),
}

/// Whether `after` is what `call` makes of `before`.
pub open spec fn made_by(before: Builder, call: Call, after: Builder) -> bool {
    match call {
        Call::AddField(name) => field_added(before, name@, after),
        Call::SetB(value) => b_set(before, value, after),
        Call::SetK1(value) => k1_set(before, value, after),
        Call::AddDocument(doc) => document_added(before, doc, after),
    }
}

/// Whether `states` are the states of a builder that takes the calls
/// `calls` one after the other: the state before the first call, and the
/// state after each.
pub open spec fn made_in_turn(states: Seq<Builder>, calls: Seq<Call>) -> bool {
    &&& states.len() == calls.len() + 1
    &&& forall|k: int| 0 <= k < calls.len() ==> made_by(#[trigger] states[k], calls[k], states[k + 1])
}

/// Whether two builders hold the same: the same declared names, the same
/// terms in the same order, the same documents for each term in each
/// field, the same tallies, the same number of documents and the same
/// parameters.
pub open spec fn agree(a: Builder, b: Builder) -> bool {
    &&& a.declared() == b.declared()
    &&& a.terms() == b.terms()
    &&& a.tallies() == b.tallies()
    &&& forall|t: Seq<char>, f: Seq<char>, d: Seq<char>| a.holds(t, f, d) == b.holds(t, f, d)
    &&& a.documents() == b.documents()
    &&& a.b_value() == b.b_value()
    &&& a.k1_value() == b.k1_value()
}

/// Whether two lists of summaries give the same names and numbers.
pub open spec fn same_summaries(a: Seq<FieldSummary>, b: Seq<FieldSummary>) -> bool {
    &&& a.len() == b.len()
    &&& forall|s: int|
        0 <= s < a.len() ==> (#[trigger] a[s]).doc_ref@ == b[s].doc_ref@ && a[s].field_name@ == b[s].field_name@
            && a[s].length == b[s].length && a[s].length_sum == b[s].length_sum && a[s].instances == b[s].instances
            && a[s].terms@ == b[s].terms@
}

/// Whether two indexes hold the same: the same declared names, the same
/// terms with the same numbers and postings, for the same fields of the
/// same documents the same vectors, and automata that accept the same
/// strings.
pub open spec fn same_index(a: Index, b: Index) -> bool {
    &&& a.declared() == b.declared()
    &&& same_entries(a.entries(), b.entries())
    &&& a.vectors().len() == b.vectors().len()
    &&& forall|s: int|
        0 <= s < a.vectors().len() ==> (#[trigger] a.vectors()[s]).field_ref.doc() == b.vectors()[s].field_ref.doc()
            && a.vectors()[s].field_ref.field() == b.vectors()[s].field_ref.field() && a.vectors()[s].vector@
            == b.vectors()[s].vector@
    &&& forall|w: Seq<char>| a.automaton().accepts(w) == b.automaton().accepts(w)
}

/// Two builders that hold the same have, term by term, the same postings.
pub proof fn lemma_agreed_entries(a: Builder, b: Builder)
    requires
        a.wf(),
        b.wf(),
        agree(a, b),
    ensures
        same_entries(a.entries(), b.entries()),
{
    let ea = a.entries();
    let eb = b.entries();
    assert(ea.len() == entry_terms(ea).len());
    assert(eb.len() == entry_terms(eb).len());
    assert forall|i: int, f: Seq<char>, d: Seq<char>| 0 <= i < eb.len() implies (#[trigger] ea[i].postings.posts(f, d))
        == eb[i].postings.posts(f, d) by {
        let t = entry_terms(ea)[i];
        assert(ea[i].term@ == t);
        assert(entry_terms(eb)[i] == t);
        assert(eb[i].term@ == t);
        assert(a.holds(t, f, d) == b.holds(t, f, d));
        if ea[i].postings.posts(f, d) {
            assert(a.holds(t, f, d));
            let k = choose|k: int| 0 <= k < eb.len() && (#[trigger] eb[k]).term@ == t && eb[k].postings.posts(f, d);
            lemma_same_entry(eb, i, k);
        }
        if eb[i].postings.posts(f, d) {
            assert(b.holds(t, f, d));
            let k = choose|k: int| 0 <= k < ea.len() && (#[trigger] ea[k]).term@ == t && ea[k].postings.posts(f, d);
            lemma_same_entry(ea, i, k);
        }
    }
    assert forall|i: int| 0 <= i < eb.len() implies (#[trigger] ea[i]).postings.index == eb[i].postings.index
        && ea[i].postings.count() == eb[i].postings.count() by {
        assert forall|f: Seq<char>, d: Seq<char>| ea[i].postings.posts(f, d) == eb[i].postings.posts(f, d) by {
            assert(ea[i].postings.posts(f, d) == eb[i].postings.posts(f, d));
        }
        lemma_count_determined(ea[i].postings, eb[i].postings);
    }
}

/// One call keeps two builders that hold the same holding the same.
pub proof fn lemma_call_agrees(a: Builder, b: Builder, call: Call, next_a: Builder, next_b: Builder)
    requires
        a.wf(),
        b.wf(),
        agree(a, b),
        made_by(a, call, next_a),
        made_by(b, call, next_b),
    ensures
        next_a.wf(),
        next_b.wf(),
        agree(next_a, next_b),
{
    match call {
        Call::AddDocument(doc) => {
            let la = choose|lists: Seq<Seq<Seq<char>>>|
                {
                    &&& #[trigger] document_terms(doc.fields(), lists)
                    &&& next_a.tallied() == absorb_fields(a.tallied(), doc.reference(), field_names(doc.fields()), lists)
                    &&& forall|t: Seq<char>, f: Seq<char>, d: Seq<char>|
                        next_a.holds(t, f, d) == (a.holds(t, f, d) || (d == doc.reference() && exists|i: int|
                            0 <= i < lists.len() && field_names(doc.fields())[i] == f && (#[trigger] lists[i]).contains(t)))
                };
            let lb = choose|lists: Seq<Seq<Seq<char>>>|
                {
                    &&& #[trigger] document_terms(doc.fields(), lists)
                    &&& next_b.tallied() == absorb_fields(b.tallied(), doc.reference(), field_names(doc.fields()), lists)
                    &&& forall|t: Seq<char>, f: Seq<char>, d: Seq<char>|
                        next_b.holds(t, f, d) == (b.holds(t, f, d) || (d == doc.reference() && exists|i: int|
                            0 <= i < lists.len() && field_names(doc.fields())[i] == f && (#[trigger] lists[i]).contains(t)))
                };
            lemma_document_terms_unique(doc.fields(), la, lb);
            assert(a.tallied() == b.tallied());
            assert(next_a.tallied() == next_b.tallied());
            assert forall|t: Seq<char>, f: Seq<char>, d: Seq<char>| next_a.holds(t, f, d) == next_b.holds(t, f, d) by {
                assert(a.holds(t, f, d) == b.holds(t, f, d));
            }
        },
        _ => {
            assert forall|t: Seq<char>, f: Seq<char>, d: Seq<char>| next_a.holds(t, f, d) == next_b.holds(t, f, d) by {
                assert(a.holds(t, f, d) == b.holds(t, f, d));
            }
        },
    }
}

/// The same calls keep two builders that hold the same holding the same.
pub proof fn lemma_calls_agree(a: Seq<Builder>, b: Seq<Builder>, calls: Seq<Call>)
    requires
        made_in_turn(a, calls),
        made_in_turn(b, calls),
        a[0].wf(),
        b[0].wf(),
        agree(a[0], b[0]),
    ensures
        a.last().wf(),
        b.last().wf(),
        agree(a.last(), b.last()),
    decreases calls.len(),
{
    if calls.len() > 0 {
        let n = calls.len() - 1;
        let shorter_a = a.drop_last();
        let shorter_b = b.drop_last();
        let shorter = calls.drop_last();
        assert forall|k: int| 0 <= k < shorter.len() implies made_by(#[trigger] shorter_a[k], shorter[k], shorter_a[k + 1]) by {
            assert(made_by(a[k], calls[k], a[k + 1]));
        }
        assert forall|k: int| 0 <= k < shorter.len() implies made_by(#[trigger] shorter_b[k], shorter[k], shorter_b[k + 1]) by {
            assert(made_by(b[k], calls[k], b[k + 1]));
        }
        lemma_calls_agree(shorter_a, shorter_b, shorter);
        assert(made_by(a[n], calls[n], a[n + 1]));
        assert(made_by(b[n], calls[n], b[n + 1]));
        lemma_call_agrees(a[n], b[n], calls[n], a[n + 1], b[n + 1]);
    }
}

/// Two builders that hold the same give the same statistics: every
/// number that a weight depends on is the same.
pub proof fn lemma_agreed_statistics(a: Builder, b: Builder, sa: Seq<FieldSummary>, sb: Seq<FieldSummary>)
    requires
        a.wf(),
        b.wf(),
        agree(a, b),
        summed_up(a, sa),
        summed_up(b, sb),
    ensures
        same_summaries(sa, sb),
{
    lemma_agreed_entries(a, b);
    let tallies = a.tallies();
    assert forall|s: int| 0 <= s < sa.len() implies (#[trigger] sa[s]).doc_ref@ == sb[s].doc_ref@ && sa[s].field_name@
        == sb[s].field_name@ && sa[s].length == sb[s].length && sa[s].length_sum == sb[s].length_sum && sa[s].instances
        == sb[s].instances && sa[s].terms@ == sb[s].terms@ by {
        assert(summarizes(a.entries(), tallies, s, sa[s]));
        assert(summarizes(b.entries(), tallies, s, sb[s]));
        assert(counts_ok(tallies[s].counts, a.entries().len() as int));
        assert forall|c: int| 0 <= c < tallies[s].counts.len() implies sa[s].terms@[c] == sb[s].terms@[c] by {
            let t = tallies[s].counts[c].term as int;
            assert(t < a.entries().len());
            assert(a.entries()[t].postings.count() == b.entries()[t].postings.count());
        }
        assert(sa[s].terms@ =~= sb[s].terms@);
    }
}

/// Two builders that hold the same give, with the same weights, the same
/// index.
pub proof fn lemma_agreed_index(a: Builder, b: Builder, weights: Seq<Vec<i32>>, ia: Index, ib: Index)
    requires
        a.wf(),
        b.wf(),
        agree(a, b),
        built_from(a, weights, ia),
        built_from(b, weights, ib),
    ensures
        same_index(ia, ib),
{
    lemma_agreed_entries(a, b);
    let ea = a.entries();
    let eb = b.entries();
    let xa = ia.entries();
    let xb = ib.entries();
    assert(same_entries(xa, xb)) by {
        assert forall|i: int| 0 <= i < xb.len() implies (#[trigger] xa[i]).postings.index == xb[i].postings.index
            && xa[i].postings.count() == xb[i].postings.count() by {
            assert(xa[i].postings.index == ea[i].postings.index);
            assert(ea[i].postings.index == eb[i].postings.index);
            assert(xb[i].postings.index == eb[i].postings.index);
        }
        assert forall|i: int, f: Seq<char>, d: Seq<char>| 0 <= i < xb.len() implies (#[trigger] xa[i].postings.posts(f, d))
            == xb[i].postings.posts(f, d) by {
            assert(xa[i].postings.posts(f, d) == ea[i].postings.posts(f, d));
            assert(ea[i].postings.posts(f, d) == eb[i].postings.posts(f, d));
            assert(xb[i].postings.posts(f, d) == eb[i].postings.posts(f, d));
        }
    }
    let tallies = a.tallies();
    assert forall|s: int| 0 <= s < ia.vectors().len() implies (#[trigger] ia.vectors()[s]).field_ref.doc()
        == ib.vectors()[s].field_ref.doc() && ia.vectors()[s].field_ref.field() == ib.vectors()[s].field_ref.field()
        && ia.vectors()[s].vector@ == ib.vectors()[s].vector@ by {
        assert(ia.vectors()[s].vector.wf());
        assert(ib.vectors()[s].vector.wf());
        assert(counts_ok(tallies[s].counts, ea.len() as int));
        lemma_weighs_determined(
            ia.vectors()[s].vector@,
            ib.vectors()[s].vector@,
            tallies[s].counts,
            weights[s]@,
            ea.len() as int,
        );
    }
}

/// Building twice gives the same index. Two builders that start out
/// holding the same and take the same calls give the same statistics, from
/// which the weights are computed, and with the same weights they give
/// the same index: the same terms with the same numbers and postings, and
/// for every field of every document the same weights, term by term.
pub proof fn lemma_building_twice(
    a: Seq<Builder>,
    b: Seq<Builder>,
    calls: Seq<Call>,
    sa: Seq<FieldSummary>,
    sb: Seq<FieldSummary>,
    weights: Seq<Vec<i32>>,
    ia: Index,
    ib: Index,
)
    requires
        made_in_turn(a, calls),
        made_in_turn(b, calls),
        a[0].wf(),
        b[0].wf(),
        agree(a[0], b[0]),
        summed_up(a.last(), sa),
        summed_up(b.last(), sb),
        built_from(a.last(), weights, ia),
        built_from(b.last(), weights, ib),
    ensures
        same_summaries(sa, sb),
        a.last().documents() == b.last().documents(),
        a.last().b_value() == b.last().b_value(),
        a.last().k1_value() == b.last().k1_value(),
        same_index(ia, ib),
{
    lemma_calls_agree(a, b, calls);
    lemma_agreed_statistics(a.last(), b.last(), sa, sb);
    lemma_agreed_index(a.last(), b.last(), weights, ia, ib);
}

} // verus!
