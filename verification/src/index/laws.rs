//! What holds of the evaluation of every query.

use vstd::prelude::*;
use crate::index::TermEntry;
use crate::index::eval::{
    EvalState, clause_step, eval_clauses, expands, expands_to_nothing, hit_docs, in_scope, matched, passes, selected,
    start_state,
};
use crate::query::{Clause, Presence};

verus! {

/// The evaluation keeps one state for each declared field.
pub proof fn lemma_one_state_per_field(
    entries: Seq<TermEntry>,
    declared: Seq<Seq<char>>,
    docs: Seq<Seq<char>>,
    clauses: Seq<Clause>,
)
    ensures
        eval_clauses(entries, declared, docs, clauses).fields.len() == declared.len(),
    decreases clauses.len(),
{
    if clauses.len() > 0 {
        lemma_one_state_per_field(entries, declared, docs, clauses.drop_last());
    }
}

/// Whether some clause prohibits document `d`: the document holds, in a
/// declared field of the clause's scope, a term that the clause expands to.
pub open spec fn prohibited_by(
    entries: Seq<TermEntry>,
    declared: Seq<Seq<char>>,
    clauses: Seq<Clause>,
    fi: int,
    d: Seq<char>,
) -> bool {
    exists|k: int|
        0 <= k < clauses.len() && in_scope((#[trigger] clauses[k]).fields, declared[fi]) && hit_docs(
            entries,
            clauses[k].term@,
            declared[fi],
        ).contains(d)
}

/// What clauses that all prohibit leave behind: nothing is required, the
/// evaluation has not ended, and each field prohibits what some clause
/// prohibits in it.
proof fn lemma_prohibiting_state(
    entries: Seq<TermEntry>,
    declared: Seq<Seq<char>>,
    docs: Seq<Seq<char>>,
    clauses: Seq<Clause>,
)
    requires
        forall|k: int| 0 <= k < clauses.len() ==> (#[trigger] clauses[k]).presence == Presence::Prohibited,
    ensures
        !eval_clauses(entries, declared, docs, clauses).stopped,
        eval_clauses(entries, declared, docs, clauses).fields.len() == declared.len(),
        forall|fi: int|
            0 <= fi < declared.len() ==> (#[trigger] eval_clauses(entries, declared, docs, clauses).fields[fi]).required
                is None,
        forall|fi: int, d: Seq<char>|
            0 <= fi < declared.len() ==> (#[trigger] eval_clauses(entries, declared, docs, clauses).fields[fi].prohibited.contains(
                d,
            )) == prohibited_by(entries, declared, clauses, fi, d),
    decreases clauses.len(),
{
    let st = eval_clauses(entries, declared, docs, clauses);
    if clauses.len() == 0 {
        assert forall|fi: int, d: Seq<char>| 0 <= fi < declared.len() implies (#[trigger] st.fields[fi].prohibited.contains(d))
            == prohibited_by(entries, declared, clauses, fi, d) by {}
    } else {
        let before = clauses.drop_last();
        let last = clauses.last();
        let prev = eval_clauses(entries, declared, docs, before);
        assert forall|k: int| 0 <= k < before.len() implies (#[trigger] before[k]).presence == Presence::Prohibited by {
            assert(before[k] == clauses[k]);
        }
        lemma_prohibiting_state(entries, declared, docs, before);
        assert(last == clauses[clauses.len() - 1]);
        assert(st == clause_step(entries, declared, docs, prev, last));
        assert forall|fi: int, d: Seq<char>| 0 <= fi < declared.len() implies (#[trigger] st.fields[fi].prohibited.contains(d))
            == prohibited_by(entries, declared, clauses, fi, d) by {
            assert(prev.fields[fi].prohibited.contains(d) == prohibited_by(entries, declared, before, fi, d));
            let here = in_scope(last.fields, declared[fi]) && hit_docs(entries, last.term@, declared[fi]).contains(d);
            if expands_to_nothing(entries, last.term@) {
                if hit_docs(entries, last.term@, declared[fi]).contains(d) {
                    let t = choose|t: Seq<char>|
                        #[trigger] expands(entries, last.term@, t) && crate::index::posted(entries, t, declared[fi], d);
                    assert(!expands(entries, last.term@, t));
                }
            }
            assert(st.fields[fi].prohibited.contains(d) == (prev.fields[fi].prohibited.contains(d) || here));
            if prohibited_by(entries, declared, clauses, fi, d) {
                let k = choose|k: int|
                    0 <= k < clauses.len() && in_scope((#[trigger] clauses[k]).fields, declared[fi]) && hit_docs(
                        entries,
                        clauses[k].term@,
                        declared[fi],
                    ).contains(d);
                if k < before.len() {
                    assert(before[k] == clauses[k]);
                    assert(prohibited_by(entries, declared, before, fi, d));
                }
            }
            if prohibited_by(entries, declared, before, fi, d) {
                let k = choose|k: int|
                    0 <= k < before.len() && in_scope((#[trigger] before[k]).fields, declared[fi]) && hit_docs(
                        entries,
                        before[k].term@,
                        declared[fi],
                    ).contains(d);
                assert(clauses[k] == before[k]);
            }
            if here {
                assert(in_scope(clauses[clauses.len() - 1].fields, declared[fi]));
            }
        }
    }
}

/// A query that only prohibits selects every document of the index but
/// those that some clause prohibits: those that hold, in a declared field
/// of the clause's scope, a term that the clause expands to.
pub proof fn lemma_only_prohibited(
    entries: Seq<TermEntry>,
    declared: Seq<Seq<char>>,
    docs: Seq<Seq<char>>,
    clauses: Seq<Clause>,
    d: Seq<char>,
)
    requires
        forall|k: int| 0 <= k < clauses.len() ==> (#[trigger] clauses[k]).presence == Presence::Prohibited,
    ensures
        selected(eval_clauses(entries, declared, docs, clauses), docs, true, d) == (docs.contains(d) && forall|fi: int|
            0 <= fi < declared.len() ==> !#[trigger] prohibited_by(entries, declared, clauses, fi, d)),
{
    lemma_prohibiting_state(entries, declared, docs, clauses);
    let st = eval_clauses(entries, declared, docs, clauses);
    if selected(st, docs, true, d) {
        assert forall|fi: int| 0 <= fi < declared.len() implies !#[trigger] prohibited_by(entries, declared, clauses, fi, d) by {
            assert(!st.fields[fi].prohibited.contains(d));
        }
    }
    if docs.contains(d) && forall|fi: int|
        0 <= fi < declared.len() ==> !#[trigger] prohibited_by(entries, declared, clauses, fi, d) {
        assert forall|fi: int| 0 <= fi < st.fields.len() implies !(#[trigger] st.fields[fi]).prohibited.contains(d) by {
            assert(!prohibited_by(entries, declared, clauses, fi, d));
        }
    }
}

/// Whether a clause ends the evaluation: it is required and expands to no term.
pub open spec fn ends_evaluation(entries: Seq<TermEntry>, clause: Clause) -> bool {
    clause.presence == Presence::Required && expands_to_nothing(entries, clause.term@)
}

/// While no clause ends the evaluation, it goes on.
proof fn lemma_goes_on(entries: Seq<TermEntry>, declared: Seq<Seq<char>>, docs: Seq<Seq<char>>, clauses: Seq<Clause>)
    requires
        forall|k: int| 0 <= k < clauses.len() ==> !ends_evaluation(entries, #[trigger] clauses[k]),
    ensures
        !eval_clauses(entries, declared, docs, clauses).stopped,
    decreases clauses.len(),
{
    if clauses.len() > 0 {
        let before = clauses.drop_last();
        assert forall|k: int| 0 <= k < before.len() implies !ends_evaluation(entries, #[trigger] before[k]) by {
            assert(before[k] == clauses[k]);
        }
        lemma_goes_on(entries, declared, docs, before);
        assert(!ends_evaluation(entries, clauses[clauses.len() - 1]));
    }
}

/// Once the evaluation has ended, later clauses change nothing.
proof fn lemma_ended_stays(
    entries: Seq<TermEntry>,
    declared: Seq<Seq<char>>,
    docs: Seq<Seq<char>>,
    clauses: Seq<Clause>,
    upto: int,
)
    requires
        0 <= upto <= clauses.len(),
        eval_clauses(entries, declared, docs, clauses.subrange(0, upto)).stopped,
    ensures
        eval_clauses(entries, declared, docs, clauses) == eval_clauses(entries, declared, docs, clauses.subrange(0, upto)),
    decreases clauses.len() - upto,
{
    if upto < clauses.len() {
        let next = clauses.subrange(0, upto + 1);
        assert(next.drop_last() =~= clauses.subrange(0, upto));
        lemma_ended_stays(entries, declared, docs, clauses, upto + 1);
    } else {
        assert(clauses.subrange(0, upto) =~= clauses);
    }
}

/// A required clause that expands to no term, and whose scope reaches a
/// declared field, leaves no result at all, whatever the other clauses
/// say, as long as the evaluation has not ended before it.
pub proof fn lemma_required_without_terms(
    entries: Seq<TermEntry>,
    declared: Seq<Seq<char>>,
    docs: Seq<Seq<char>>,
    clauses: Seq<Clause>,
    k: int,
    fi: int,
    negated: bool,
    d: Seq<char>,
)
    requires
        0 <= k < clauses.len(),
        ends_evaluation(entries, clauses[k]),
        forall|j: int| 0 <= j < k ==> !ends_evaluation(entries, #[trigger] clauses[j]),
        0 <= fi < declared.len(),
        in_scope(clauses[k].fields, declared[fi]),
    ensures
        !selected(eval_clauses(entries, declared, docs, clauses), docs, negated, d),
{
    let before = clauses.subrange(0, k);
    let upto = clauses.subrange(0, k + 1);
    assert forall|j: int| 0 <= j < before.len() implies !ends_evaluation(entries, #[trigger] before[j]) by {
        assert(before[j] == clauses[j]);
    }
    lemma_goes_on(entries, declared, docs, before);
    lemma_one_state_per_field(entries, declared, docs, before);
    assert(upto.drop_last() =~= before);
    assert(upto.last() == clauses[k]);
    let st = eval_clauses(entries, declared, docs, upto);
    assert(st.stopped);
    assert(st.fields[fi].required == Some(Set::<Seq<char>>::empty()));
    lemma_ended_stays(entries, declared, docs, clauses, k + 1);
    let end = eval_clauses(entries, declared, docs, clauses);
    assert(end == st);
    if selected(end, docs, negated, d) {
        assert(end.fields[fi].required is Some ==> end.fields[fi].required->0.contains(d));
    }
}

} // verus!
