//! The built index and its parts.

use vstd::hash_map::StringHashMap;
use vstd::prelude::*;
use crate::field::FieldRef;
use crate::pairs::PairIndex;
use crate::set::{StringSet, distinct, texts};
use crate::text::same_text;
use crate::token::TokenSet;
use crate::token::walk::listed;
use crate::vector::Vector;

pub mod eval;
pub mod laws;

verus! {

/// The documents that hold a term in one field.
pub struct Posting {
    pub field_name: String,
    pub doc_refs: StringSet,
}

/// What the index knows of one term: its number, which is its dimension in
/// all vectors, and for each field the documents that hold the term there.
pub struct InvertedIndex {
    pub index: u64,
    pub documents: Vec<Posting>,
}

/// A term of the vocabulary, with what the index knows of it.
pub struct TermEntry {
    pub term: String,
    pub postings: InvertedIndex,
}

/// The terms of `entries`, in their order.
pub open spec fn entry_terms(entries: Seq<TermEntry>) -> Seq<Seq<char>> {
    entries.map_values(|e: TermEntry| e.term@)
}

/// The terms are numbered from 1 in their order, and no term comes twice.
pub open spec fn entries_ok(entries: Seq<TermEntry>) -> bool {
    &&& distinct(entry_terms(entries))
    &&& forall|i: int|
        0 <= i < entries.len() ==> (#[trigger] entries[i]).postings.wf() && entries[i].postings.index == i + 1
}

/// Whether document `doc` holds `term` in field `field`.
pub open spec fn posted(entries: Seq<TermEntry>, term: Seq<char>, field: Seq<char>, doc: Seq<char>) -> bool {
    exists|i: int| 0 <= i < entries.len() && (#[trigger] entries[i]).term@ == term && entries[i].postings.posts(field, doc)
}

/// Whether `slots` finds every term at its position, and nothing else.
pub open spec fn slots_ok(entries: Seq<TermEntry>, slots: Map<Seq<char>, usize>) -> bool {
    &&& forall|i: int|
        0 <= i < entries.len() ==> slots.dom().contains((#[trigger] entries[i]).term@) && slots[entries[i].term@] == i
    &&& forall|k: Seq<char>| #[trigger]
        slots.dom().contains(k) ==> slots[k] < entries.len() && entries[slots[k] as int].term@ == k
}

/// The position of `term` among the entries, if it is one of them.
pub fn entry_position(entries: &Vec<TermEntry>, slots: &StringHashMap<usize>, term: &str) -> (found: Option<usize>)
    requires
        slots_ok(entries@, slots@),
    ensures
        match found {
            Some(i) => i < entries@.len() && entries@[i as int].term@ == term@,
            None => !entry_terms(entries@).contains(term@),
        },
{
    match slots.get(term) {
        Some(i) => Some(*i),
        None => {
            proof {
                if entry_terms(entries@).contains(term@) {
                    let j = choose|j: int| 0 <= j < entry_terms(entries@).len() && entry_terms(entries@)[j] == term@;
                    assert(entries@[j].term@ == term@);
                }
            }
            None
        },
    }
}

/// The positions of the terms, by their texts.
pub fn term_positions(entries: &Vec<TermEntry>) -> (slots: StringHashMap<usize>)
    requires
        distinct(entry_terms(entries@)),
    ensures
        slots_ok(entries@, slots@),
{
    let mut slots: StringHashMap<usize> = StringHashMap::new();
    let mut i: usize = 0;
    while i < entries.len()
        invariant
            i <= entries@.len(),
            distinct(entry_terms(entries@)),
            forall|j: int| 0 <= j < i ==> slots@.dom().contains((#[trigger] entries@[j]).term@) && slots@[entries@[j].term@] == j,
            forall|k: Seq<char>| #[trigger]
                slots@.dom().contains(k) ==> slots@[k] < i && entries@[slots@[k] as int].term@ == k,
        decreases entries@.len() - i,
    {
        let ghost before = slots@;
        slots.insert(entries[i].term.clone(), i);
        proof {
            assert forall|j: int| 0 <= j < i + 1 implies slots@.dom().contains((#[trigger] entries@[j]).term@)
                && slots@[entries@[j].term@] == j by {
                if j < i {
                    assert(entry_terms(entries@)[j] != entry_terms(entries@)[i as int]);
                }
            }
        }
        i += 1;
    }
    slots
}

/// Two entries of one term are the same entry.
pub proof fn lemma_same_entry(entries: Seq<TermEntry>, i: int, j: int)
    requires
        distinct(entry_terms(entries)),
        0 <= i < entries.len(),
        0 <= j < entries.len(),
        entries[i].term@ == entries[j].term@,
    ensures
        i == j,
{
    if i < j {
        assert(entry_terms(entries)[i] != entry_terms(entries)[j]);
    }
    if j < i {
        assert(entry_terms(entries)[j] != entry_terms(entries)[i]);
    }
}

/// The names of the fields of `documents`, in their order.
pub open spec fn posting_fields(documents: Seq<Posting>) -> Seq<Seq<char>> {
    documents.map_values(|p: Posting| p.field_name@)
}

impl InvertedIndex {
    /// No field comes twice, and no document comes twice within a field.
    pub open spec fn wf(&self) -> bool {
        &&& distinct(posting_fields(self.documents@))
        &&& forall|p: int| 0 <= p < self.documents@.len() ==> (#[trigger] self.documents@[p]).doc_refs.wf()
    }

    /// Whether document `doc` holds the term in field `field`.
    pub open spec fn posts(&self, field: Seq<char>, doc: Seq<char>) -> bool {
        exists|p: int|
            0 <= p < self.documents@.len() && (#[trigger] self.documents@[p]).field_name@ == field
                && self.documents@[p].doc_refs.has(doc)
    }

    /// The number of pairs of a field and a document that hold the term.
    pub open spec fn count(&self) -> nat {
        posting_count(self.documents@)
    }

    /// What is known of a term with number `index` that no document holds yet.
    pub fn new(index: u64) -> (entry: InvertedIndex)
        ensures
            entry.wf(),
            entry.index == index,
            entry.documents@.len() == 0,
    {
        InvertedIndex { index, documents: Vec::new() }
    }

    /// The position of the posting of `field`, if there is one.
    pub fn position(&self, field: &str) -> (found: Option<usize>)
        ensures
            match found {
                Some(p) => p < self.documents@.len() && self.documents@[p as int].field_name@ == field@,
                None => forall|p: int| 0 <= p < self.documents@.len() ==> (#[trigger] self.documents@[p]).field_name@ != field@,
            },
    {
        let mut p: usize = 0;
        while p < self.documents.len()
            invariant
                p <= self.documents@.len(),
                forall|q: int| 0 <= q < p ==> (#[trigger] self.documents@[q]).field_name@ != field@,
            decreases self.documents@.len() - p,
        {
            if same_text(self.documents[p].field_name.as_str(), field) {
                return Some(p);
            }
            p += 1;
        }
        None
    }

    /// The documents that hold the term in `field`; none if no posting of
    /// that field is there.
    pub fn docs_in(&self, field: &str) -> (found: Option<&StringSet>)
        requires
            self.wf(),
        ensures
            match found {
                Some(set) => set.wf() && forall|d: Seq<char>| #![trigger set.has(d)] set.has(d) == self.posts(field@, d),
                None => forall|d: Seq<char>| !#[trigger] self.posts(field@, d),
            },
    {
        match self.position(field) {
            Some(p) => {
                let set = &self.documents[p].doc_refs;
                proof {
                    assert forall|d: Seq<char>| set.has(d) == self.posts(field@, d) by {
                        if self.posts(field@, d) {
                            let q = choose|q: int|
                                0 <= q < self.documents@.len() && (#[trigger] self.documents@[q]).field_name@ == field@
                                    && self.documents@[q].doc_refs.has(d);
                            lemma_same_posting(self.documents@, p as int, q);
                        }
                    }
                }
                Some(set)
            },
            None => None,
        }
    }

    /// Whether document `doc` holds the term in field `field`.
    pub fn contains(&self, field: &str, doc: &str) -> (found: bool)
        requires
            self.wf(),
        ensures
            found == self.posts(field@, doc@),
    {
        match self.docs_in(field) {
            Some(set) => set.contains(doc),
            None => false,
        }
    }

    /// Takes note that document `doc` holds the term in field `field`.
    pub fn add(&mut self, field: &str, doc: &str)
        requires
            old(self).wf(),
        ensures
            final(self).wf(),
            final(self).index == old(self).index,
            forall|f: Seq<char>, d: Seq<char>|
                final(self).posts(f, d) == (old(self).posts(f, d) || (f == field@ && d == doc@)),
    {
        let ghost before = self.documents@;
        let ghost old_self = *self;
        match self.position(field) {
            Some(p) => {
                let ghost old_set = self.documents[p as int].doc_refs;
                let added = self.documents[p].doc_refs.insert(doc.to_owned());
                proof {
                    let after = self.documents@;
                    assert(posting_fields(after) =~= posting_fields(before));
                    assert forall|q: int| 0 <= q < after.len() implies (#[trigger] after[q]).doc_refs.wf() by {
                        if q != p {
                            assert(after[q] == before[q]);
                        }
                    }
                    assert forall|f: Seq<char>, d: Seq<char>|
                        self.posts(f, d) == (old_self.posts(f, d) || (f == field@ && d == doc@)) by {
                        crate::set::lemma_push_contains(old_set.list(), doc@, d);
                        if self.posts(f, d) {
                            let q = choose|q: int|
                                0 <= q < after.len() && (#[trigger] after[q]).field_name@ == f && after[q].doc_refs.has(d);
                            if q != p {
                                assert(after[q] == before[q]);
                                assert(before[q].field_name@ == f && before[q].doc_refs.has(d));
                            } else if !(d == doc@) {
                                assert(before[p as int].field_name@ == f && before[p as int].doc_refs.has(d));
                            }
                        }
                        if old_self.posts(f, d) {
                            let q = choose|q: int|
                                0 <= q < before.len() && (#[trigger] before[q]).field_name@ == f && before[q].doc_refs.has(
                                    d,
                                );
                            if q != p {
                                assert(after[q] == before[q]);
                            }
                            assert(after[q].field_name@ == f && after[q].doc_refs.has(d));
                        }
                        if f == field@ && d == doc@ {
                            assert(after[p as int].field_name@ == f && after[p as int].doc_refs.has(d));
                        }
                    }
                }
            },
            None => {
                let mut doc_refs = StringSet::new();
                let ghost empty = doc_refs.list();
                proof {
                    assert(empty =~= Seq::<Seq<char>>::empty());
                    assert(!doc_refs.has(doc@));
                }
                let added = doc_refs.insert(doc.to_owned());
                assert(doc_refs.list() == Seq::<Seq<char>>::empty().push(doc@));
                let posting = Posting { field_name: field.to_owned(), doc_refs };
                self.documents.push(posting);
                proof {
                    let after = self.documents@;
                    assert(posting_fields(after) =~= posting_fields(before).push(field@));
                    assert forall|i: int, j: int| 0 <= i < j < posting_fields(after).len() implies #[trigger] posting_fields(
                        after,
                    )[i] != #[trigger] posting_fields(after)[j] by {
                        if j == before.len() {
                            assert(before[i].field_name@ != field@);
                        } else {
                            assert(posting_fields(before)[i] != posting_fields(before)[j]);
                        }
                    }
                    assert forall|q: int| 0 <= q < after.len() implies (#[trigger] after[q]).doc_refs.wf() by {
                        if q < before.len() {
                            assert(after[q] == before[q]);
                        }
                    }
                    assert forall|f: Seq<char>, d: Seq<char>|
                        self.posts(f, d) == (old_self.posts(f, d) || (f == field@ && d == doc@)) by {
                        crate::set::lemma_push_contains(Seq::<Seq<char>>::empty(), doc@, d);
                        let last = before.len() as int;
                        if self.posts(f, d) {
                            let q = choose|q: int|
                                0 <= q < after.len() && (#[trigger] after[q]).field_name@ == f && after[q].doc_refs.has(d);
                            if q < before.len() {
                                assert(after[q] == before[q]);
                                assert(before[q].field_name@ == f && before[q].doc_refs.has(d));
                            }
                        }
                        if old_self.posts(f, d) {
                            let q = choose|q: int|
                                0 <= q < before.len() && (#[trigger] before[q]).field_name@ == f && before[q].doc_refs.has(
                                    d,
                                );
                            assert(after[q] == before[q]);
                            assert(after[q].field_name@ == f && after[q].doc_refs.has(d));
                        }
                        if f == field@ && d == doc@ {
                            assert(after[last].field_name@ == f && after[last].doc_refs.has(d));
                        }
                    }
                }
            },
        }
    }

    /// The number of pairs of a field and a document that hold the term.
    pub fn total(&self) -> (total: u128)
        ensures
            total == self.count(),
    {
        let mut total: u128 = 0;
        let mut p: usize = 0;
        assert(self.documents@.subrange(0, 0) =~= Seq::<Posting>::empty());
        while p < self.documents.len()
            invariant
                p <= self.documents@.len(),
                total == posting_count(self.documents@.subrange(0, p as int)),
                total <= p * usize::MAX,
            decreases self.documents@.len() - p,
        {
            let n = self.documents[p].doc_refs.len();
            proof {
                let now = self.documents@.subrange(0, p + 1);
                assert(now.drop_last() =~= self.documents@.subrange(0, p as int));
                assert(now.last() == self.documents@[p as int]);
                assert((p + 1) * usize::MAX == p * usize::MAX + usize::MAX) by (nonlinear_arith);
                assert(p * usize::MAX <= usize::MAX * usize::MAX) by (nonlinear_arith)
                    requires
                        p <= usize::MAX,
                ;
                assert(usize::MAX * usize::MAX + usize::MAX < u128::MAX) by (nonlinear_arith);
            }
            total = total + n as u128;
            p += 1;
        }
        assert(self.documents@.subrange(0, p as int) =~= self.documents@);
        total
    }

    /// A copy.
    pub fn copy(&self) -> (entry: InvertedIndex)
        requires
            self.wf(),
        ensures
            entry.wf(),
            entry.index == self.index,
            forall|f: Seq<char>, d: Seq<char>| entry.posts(f, d) == self.posts(f, d),
            entry.count() == self.count(),
    {
        let mut documents: Vec<Posting> = Vec::new();
        let mut p: usize = 0;
        while p < self.documents.len()
            invariant
                self.wf(),
                p <= self.documents@.len(),
                documents@.len() == p,
                forall|q: int|
                    0 <= q < p ==> (#[trigger] documents@[q]).field_name@ == self.documents@[q].field_name@
                        && documents@[q].doc_refs.list() == self.documents@[q].doc_refs.list() && documents@[q].doc_refs.wf(),
            decreases self.documents@.len() - p,
        {
            assert(self.documents@[p as int].doc_refs.wf());
            let posting = Posting {
                field_name: self.documents[p].field_name.clone(),
                doc_refs: self.documents[p].doc_refs.copy(),
            };
            documents.push(posting);
            p += 1;
        }
        let entry = InvertedIndex { index: self.index, documents };
        proof {
            assert(posting_fields(entry.documents@) =~= posting_fields(self.documents@));
            assert forall|q: int| 0 <= q < entry.documents@.len() implies (#[trigger] entry.documents@[q]).doc_refs.wf() by {
                assert(documents@[q].doc_refs.wf());
            }
            assert forall|f: Seq<char>, d: Seq<char>| entry.posts(f, d) == self.posts(f, d) by {
                if entry.posts(f, d) {
                    let q = choose|q: int|
                        0 <= q < entry.documents@.len() && (#[trigger] entry.documents@[q]).field_name@ == f
                            && entry.documents@[q].doc_refs.has(d);
                    assert(self.documents@[q].field_name@ == f && self.documents@[q].doc_refs.has(d));
                }
                if self.posts(f, d) {
                    let q = choose|q: int|
                        0 <= q < self.documents@.len() && (#[trigger] self.documents@[q]).field_name@ == f
                            && self.documents@[q].doc_refs.has(d);
                    assert(entry.documents@[q].field_name@ == f && entry.documents@[q].doc_refs.has(d));
                }
            }
            lemma_posting_count_same(entry.documents@, self.documents@);
        }
        entry
    }
}

/// The number of documents over all postings.
pub open spec fn posting_count(documents: Seq<Posting>) -> nat
    decreases documents.len(),
{
    if documents.len() == 0 {
        0
    } else {
        posting_count(documents.drop_last()) + documents.last().doc_refs.list().len()
    }
}

proof fn lemma_posting_count_same(a: Seq<Posting>, b: Seq<Posting>)
    requires
        a.len() == b.len(),
        forall|q: int| 0 <= q < a.len() ==> (#[trigger] a[q]).doc_refs.list() == b[q].doc_refs.list(),
    ensures
        posting_count(a) == posting_count(b),
    decreases a.len(),
{
    if a.len() > 0 {
        assert forall|q: int| 0 <= q < a.drop_last().len() implies (#[trigger] a.drop_last()[q]).doc_refs.list()
            == b.drop_last()[q].doc_refs.list() by {
            assert(a[q].doc_refs.list() == b[q].doc_refs.list());
        }
        lemma_posting_count_same(a.drop_last(), b.drop_last());
        assert(a[a.len() - 1].doc_refs.list() == b[a.len() - 1].doc_refs.list());
    }
}

/// The pairs of a field and a document that the postings hold, posting by
/// posting.
pub open spec fn posting_pairs(documents: Seq<Posting>) -> Seq<(Seq<char>, Seq<char>)>
    decreases documents.len(),
{
    if documents.len() == 0 {
        Seq::empty()
    } else {
        posting_pairs(documents.drop_last()) + Seq::new(
            documents.last().doc_refs.list().len(),
            |i: int| (documents.last().field_name@, documents.last().doc_refs.list()[i]),
        )
    }
}

/// The pairs of the postings are as many as the postings count, none of
/// them comes twice, and they are the pairs of a field and a document that
/// holds the term there.
pub proof fn lemma_posting_pairs(documents: Seq<Posting>)
    requires
        distinct(posting_fields(documents)),
        forall|p: int| 0 <= p < documents.len() ==> distinct((#[trigger] documents[p]).doc_refs.list()),
    ensures
        posting_pairs(documents).len() == posting_count(documents),
        posting_pairs(documents).no_duplicates(),
        forall|f: Seq<char>, d: Seq<char>| #[trigger]
            posting_pairs(documents).contains((f, d)) <==> exists|q: int|
                0 <= q < documents.len() && (#[trigger] documents[q]).field_name@ == f && documents[q].doc_refs.has(d),
    decreases documents.len(),
{
    if documents.len() > 0 {
        let before = documents.drop_last();
        let last = documents.last();
        let n = documents.len() - 1;
        let list = last.doc_refs.list();
        let row = Seq::new(list.len(), |i: int| (last.field_name@, list[i]));
        let pairs = posting_pairs(before);
        let all = posting_pairs(documents);
        assert(all == pairs + row);
        assert forall|i: int, j: int| 0 <= i < j < before.len() implies #[trigger] posting_fields(before)[i]
            != #[trigger] posting_fields(before)[j] by {
            assert(posting_fields(documents)[i] != posting_fields(documents)[j]);
        }
        assert forall|p: int| 0 <= p < before.len() implies distinct((#[trigger] before[p]).doc_refs.list()) by {
            assert(before[p] == documents[p]);
        }
        lemma_posting_pairs(before);
        assert forall|f: Seq<char>, d: Seq<char>| #[trigger]
            all.contains((f, d)) <==> exists|q: int|
                0 <= q < documents.len() && (#[trigger] documents[q]).field_name@ == f && documents[q].doc_refs.has(d) by {
            if all.contains((f, d)) {
                let k = choose|k: int| 0 <= k < all.len() && all[k] == (f, d);
                if k < pairs.len() {
                    assert(pairs[k] == (f, d));
                    assert(pairs.contains((f, d)));
                    let q = choose|q: int|
                        0 <= q < before.len() && (#[trigger] before[q]).field_name@ == f && before[q].doc_refs.has(d);
                    assert(documents[q] == before[q]);
                } else {
                    assert(row[k - pairs.len()] == (f, d));
                    assert(list[k - pairs.len()] == d);
                    assert(documents[n].field_name@ == f && documents[n].doc_refs.has(d));
                }
            }
            if exists|q: int|
                0 <= q < documents.len() && (#[trigger] documents[q]).field_name@ == f && documents[q].doc_refs.has(d) {
                let q = choose|q: int|
                    0 <= q < documents.len() && (#[trigger] documents[q]).field_name@ == f && documents[q].doc_refs.has(d);
                if q < n {
                    assert(before[q] == documents[q]);
                    assert(pairs.contains((f, d)));
                    let k = choose|k: int| 0 <= k < pairs.len() && pairs[k] == (f, d);
                    assert(all[k] == (f, d));
                } else {
                    let i = choose|i: int| 0 <= i < list.len() && list[i] == d;
                    assert(row[i] == (f, d));
                    assert(all[pairs.len() + i] == (f, d));
                }
            }
        }
        assert forall|i: int, j: int| 0 <= i < all.len() && 0 <= j < all.len() && i != j implies all[i] != all[j] by {
            if i < pairs.len() && j < pairs.len() {
                assert(pairs[i] != pairs[j]);
            } else if i >= pairs.len() && j >= pairs.len() {
                let a = i - pairs.len();
                let b = j - pairs.len();
                assert(row[a] == all[i] && row[b] == all[j]);
                if a < b {
                    assert(list[a] != list[b]);
                } else {
                    assert(list[b] != list[a]);
                }
            } else {
                let (lo, hi) = if i < pairs.len() {
                    (i, j)
                } else {
                    (j, i)
                };
                let old_pair = pairs[lo];
                assert(all[lo] == old_pair);
                assert(row[hi - pairs.len()] == all[hi]);
                if all[lo] == all[hi] {
                    assert(pairs.contains((old_pair.0, old_pair.1)));
                    let q = choose|q: int|
                        0 <= q < before.len() && (#[trigger] before[q]).field_name@ == old_pair.0 && before[q].doc_refs.has(
                            old_pair.1,
                        );
                    assert(posting_fields(documents)[q] != posting_fields(documents)[n]);
                }
            }
        }
    }
}

/// The pairs of a field and a document that hold the term of `entry`.
pub open spec fn posted_pairs(entry: InvertedIndex) -> Set<(Seq<char>, Seq<char>)> {
    Set::new(|pair: (Seq<char>, Seq<char>)| entry.posts(pair.0, pair.1))
}

/// What an entry counts is the number of pairs of a field and a document
/// that hold its term.
pub proof fn lemma_count_of_pairs(entry: InvertedIndex)
    requires
        entry.wf(),
    ensures
        posted_pairs(entry).finite(),
        entry.count() == posted_pairs(entry).len(),
{
    lemma_posting_pairs(entry.documents@);
    let pairs = posting_pairs(entry.documents@);
    assert forall|x: (Seq<char>, Seq<char>)| pairs.to_set().contains(x) == posted_pairs(entry).contains(x) by {
        assert(pairs.contains((x.0, x.1)) == entry.posts(x.0, x.1));
    }
    assert(pairs.to_set() =~= posted_pairs(entry));
    pairs.unique_seq_to_set();
    vstd::seq_lib::seq_to_set_is_finite(pairs);
}

/// How many pairs of a field and a document hold a term is fixed by which
/// pairs hold it: two entries that post the same pairs count the same.
pub proof fn lemma_count_determined(a: InvertedIndex, b: InvertedIndex)
    requires
        a.wf(),
        b.wf(),
        forall|f: Seq<char>, d: Seq<char>| a.posts(f, d) == b.posts(f, d),
    ensures
        a.count() == b.count(),
{
    lemma_count_of_pairs(a);
    lemma_count_of_pairs(b);
    assert(posted_pairs(a) =~= posted_pairs(b));
}

/// Two postings of one field are the same posting.
proof fn lemma_same_posting(documents: Seq<Posting>, p: int, q: int)
    requires
        distinct(posting_fields(documents)),
        0 <= p < documents.len(),
        0 <= q < documents.len(),
        documents[p].field_name@ == documents[q].field_name@,
    ensures
        p == q,
{
    if p < q {
        assert(posting_fields(documents)[p] != posting_fields(documents)[q]);
    }
    if q < p {
        assert(posting_fields(documents)[q] != posting_fields(documents)[p]);
    }
}

/// The weights of the terms of one field of one document.
#[derive(Debug)]
pub struct FieldVector {
    pub field_ref: FieldRef,
    pub vector: Vector,
}

/// Whether some field of document `doc` holds the term of `entry`.
pub open spec fn entry_names(entry: InvertedIndex, doc: Seq<char>) -> bool {
    exists|p: int| 0 <= p < entry.documents@.len() && (#[trigger] entry.documents@[p]).doc_refs.has(doc)
}

/// Whether some field of document `doc` holds one of the first `upto` terms.
pub open spec fn named_upto(entries: Seq<TermEntry>, upto: int, doc: Seq<char>) -> bool {
    exists|i: int| 0 <= i < upto && i < entries.len() && entry_names((#[trigger] entries[i]).postings, doc)
}

/// Whether the index knows document `doc`: some field of it holds some term.
pub open spec fn named(entries: Seq<TermEntry>, doc: Seq<char>) -> bool {
    named_upto(entries, entries.len() as int, doc)
}

/// No field of a document has two vectors, and the dimensions of each ascend.
pub open spec fn vectors_ok(vectors: Seq<FieldVector>) -> bool {
    &&& forall|i: int| 0 <= i < vectors.len() ==> (#[trigger] vectors[i]).vector.wf()
    &&& forall|i: int, j: int|
        0 <= i < j < vectors.len() ==> !((#[trigger] vectors[i]).field_ref.doc() == (#[trigger] vectors[j]).field_ref.doc()
            && vectors[i].field_ref.field() == vectors[j].field_ref.field())
}

/// Whether `table` finds the vector of every field of every document at
/// its position, and nothing else.
pub open spec fn vectors_found(vectors: Seq<FieldVector>, table: PairIndex) -> bool {
    &&& table.wf()
    &&& forall|i: int|
        0 <= i < vectors.len() ==> table.lookup((#[trigger] vectors[i]).field_ref.doc(), vectors[i].field_ref.field())
            == Some(i as usize)
    &&& forall|a: Seq<char>, b: Seq<char>|
        (#[trigger] table.lookup(a, b)) is Some ==> table.lookup(a, b)->0 < vectors.len() && vectors[table.lookup(
            a,
            b,
        )->0 as int].field_ref.doc() == a && vectors[table.lookup(a, b)->0 as int].field_ref.field() == b
}

/// The positions of the vectors, by document and field.
pub fn vector_positions(vectors: &Vec<FieldVector>) -> (table: PairIndex)
    requires
        vectors_ok(vectors@),
    ensures
        vectors_found(vectors@, table),
{
    let mut table = PairIndex::new();
    let mut i: usize = 0;
    while i < vectors.len()
        invariant
            vectors_ok(vectors@),
            i <= vectors@.len(),
            table.wf(),
            forall|j: int|
                0 <= j < i ==> table.lookup((#[trigger] vectors@[j]).field_ref.doc(), vectors@[j].field_ref.field()) == Some(
                    j as usize,
                ),
            forall|a: Seq<char>, b: Seq<char>|
                (#[trigger] table.lookup(a, b)) is Some ==> table.lookup(a, b)->0 < i && vectors@[table.lookup(a, b)->0 as int].field_ref.doc()
                    == a && vectors@[table.lookup(a, b)->0 as int].field_ref.field() == b,
        decreases vectors@.len() - i,
    {
        let ghost before = table;
        let key = &vectors[i].field_ref;
        proof {
            if table.lookup(key.doc(), key.field()) is Some {
                let v = table.lookup(key.doc(), key.field())->0 as int;
                assert(!(vectors@[v].field_ref.doc() == vectors@[i as int].field_ref.doc() && vectors@[v].field_ref.field()
                    == vectors@[i as int].field_ref.field()));
            }
        }
        table.insert(key.doc_ref(), key.field_name(), i);
        proof {
            assert forall|j: int| 0 <= j < i + 1 implies table.lookup(
                (#[trigger] vectors@[j]).field_ref.doc(),
                vectors@[j].field_ref.field(),
            ) == Some(j as usize) by {
                if j < i {
                    assert(before.lookup(vectors@[j].field_ref.doc(), vectors@[j].field_ref.field()) == Some(j as usize));
                    assert(!(vectors@[j].field_ref.doc() == vectors@[i as int].field_ref.doc() && vectors@[j].field_ref.field()
                        == vectors@[i as int].field_ref.field()));
                }
            }
            assert forall|a: Seq<char>, b: Seq<char>| (#[trigger] table.lookup(a, b)) is Some implies table.lookup(a, b)->0
                < i + 1 && vectors@[table.lookup(a, b)->0 as int].field_ref.doc() == a && vectors@[table.lookup(
                a,
                b,
            )->0 as int].field_ref.field() == b by {
                if !(a == key.doc() && b == key.field()) {
                    assert(before.lookup(a, b) is Some);
                }
            }
        }
        i += 1;
    }
    table
}

/// The documents that the entries name, each once.
pub fn named_documents(entries: &Vec<TermEntry>) -> (docs: StringSet)
    ensures
        docs.wf(),
        forall|d: Seq<char>| #![trigger docs.has(d)] docs.has(d) == named(entries@, d),
{
    let mut docs = StringSet::new();
    let mut i: usize = 0;
    proof {
        assert(docs.list() =~= Seq::<Seq<char>>::empty());
    }
    while i < entries.len()
        invariant
            i <= entries@.len(),
            docs.wf(),
            forall|d: Seq<char>| docs.has(d) == named_upto(entries@, i as int, d),
        decreases entries@.len() - i,
    {
        let ghost at_entry = docs.list();
        let ghost entry = entries@[i as int].postings;
        proof {
            assert forall|d: Seq<char>| at_entry.contains(d) == named_upto(entries@, i as int, d) by {
                assert(docs.has(d) == named_upto(entries@, i as int, d));
            }
        }
        let mut p: usize = 0;
        while p < entries[i].postings.documents.len()
            invariant
                i < entries@.len(),
                entry == entries@[i as int].postings,
                p <= entry.documents@.len(),
                docs.wf(),
                forall|d: Seq<char>| at_entry.contains(d) == named_upto(entries@, i as int, d),
                forall|d: Seq<char>|
                    docs.has(d) == (at_entry.contains(d) || exists|q: int|
                        0 <= q < p && (#[trigger] entry.documents@[q]).doc_refs.has(d)),
            decreases entry.documents@.len() - p,
        {
            let ghost at_posting = docs.list();
            let set = &entries[i].postings.documents[p].doc_refs;
            proof {
                assert forall|d: Seq<char>|
                    at_posting.contains(d) == (at_entry.contains(d) || exists|q: int|
                        0 <= q < p && (#[trigger] entry.documents@[q]).doc_refs.has(d)) by {
                    assert(docs.has(d) == at_posting.contains(d));
                }
            }
            let mut k: usize = 0;
            while k < set.len()
                invariant
                    k <= set.list().len(),
                    docs.wf(),
                    i < entries@.len(),
                    entry == entries@[i as int].postings,
                    p < entry.documents@.len(),
                    *set == entry.documents@[p as int].doc_refs,
                    forall|d: Seq<char>| at_entry.contains(d) == named_upto(entries@, i as int, d),
                    forall|d: Seq<char>|
                        at_posting.contains(d) == (at_entry.contains(d) || exists|q: int|
                            0 <= q < p && (#[trigger] entry.documents@[q]).doc_refs.has(d)),
                    forall|d: Seq<char>|
                        docs.has(d) == (at_posting.contains(d) || exists|m: int| 0 <= m < k && #[trigger] set.list()[m] == d),
                decreases set.list().len() - k,
            {
                let ghost before = docs.list();
                let item = set.get(k).clone();
                assert(item@ == set.list()[k as int]);
                let added = docs.insert(item);
                proof {
                    assert forall|d: Seq<char>|
                        docs.has(d) == (at_posting.contains(d) || exists|m: int|
                            0 <= m < k + 1 && #[trigger] set.list()[m] == d) by {
                        crate::set::lemma_push_contains(before, set.list()[k as int], d);
                        assert(before.contains(d) == (at_posting.contains(d) || exists|m: int|
                            0 <= m < k && #[trigger] set.list()[m] == d));
                        if before.contains(set.list()[k as int]) {
                            assert(docs.list() == before);
                        } else {
                            assert(docs.list() == before.push(set.list()[k as int]));
                        }
                        if exists|m: int| 0 <= m < k + 1 && #[trigger] set.list()[m] == d {
                            let m = choose|m: int| 0 <= m < k + 1 && #[trigger] set.list()[m] == d;
                            if m < k {
                                assert(0 <= m < k && set.list()[m] == d);
                            }
                        }
                        if exists|m: int| 0 <= m < k && #[trigger] set.list()[m] == d {
                            let m = choose|m: int| 0 <= m < k && #[trigger] set.list()[m] == d;
                            assert(0 <= m < k + 1 && set.list()[m] == d);
                        }
                        if d == set.list()[k as int] {
                            assert(0 <= k < k + 1 && set.list()[k as int] == d);
                        }
                    }
                }
                k += 1;
            }
            proof {
                assert forall|d: Seq<char>|
                    docs.has(d) == (at_entry.contains(d) || exists|q: int|
                        0 <= q < p + 1 && (#[trigger] entry.documents@[q]).doc_refs.has(d)) by {
                    if exists|m: int| 0 <= m < k && #[trigger] set.list()[m] == d {
                        assert(set.has(d));
                        assert(entry.documents@[p as int].doc_refs.has(d));
                    }
                    if exists|q: int| 0 <= q < p + 1 && (#[trigger] entry.documents@[q]).doc_refs.has(d) {
                        let q = choose|q: int| 0 <= q < p + 1 && (#[trigger] entry.documents@[q]).doc_refs.has(d);
                        if q == p {
                            let m = choose|m: int| 0 <= m < set.list().len() && set.list()[m] == d;
                            assert(0 <= m < k && set.list()[m] == d);
                        } else {
                            assert(0 <= q < p && entry.documents@[q].doc_refs.has(d));
                        }
                    }
                    if exists|q: int| 0 <= q < p && (#[trigger] entry.documents@[q]).doc_refs.has(d) {
                        let q = choose|q: int| 0 <= q < p && (#[trigger] entry.documents@[q]).doc_refs.has(d);
                        assert(0 <= q < p + 1 && entry.documents@[q].doc_refs.has(d));
                    }
                }
            }
            p += 1;
        }
        proof {
            assert forall|d: Seq<char>| docs.has(d) == named_upto(entries@, i + 1, d) by {
                if named_upto(entries@, i + 1, d) {
                    let j = choose|j: int|
                        0 <= j < i + 1 && j < entries@.len() && entry_names((#[trigger] entries@[j]).postings, d);
                    if j < i {
                        assert(named_upto(entries@, i as int, d));
                    } else {
                        let q = choose|q: int| 0 <= q < entry.documents@.len() && (#[trigger] entry.documents@[q]).doc_refs.has(d);
                        assert(0 <= q < p && entry.documents@[q].doc_refs.has(d));
                    }
                }
                if named_upto(entries@, i as int, d) {
                    let j = choose|j: int|
                        0 <= j < i && j < entries@.len() && entry_names((#[trigger] entries@[j]).postings, d);
                    assert(0 <= j < i + 1 && entry_names(entries@[j].postings, d));
                }
                if exists|q: int| 0 <= q < p && (#[trigger] entry.documents@[q]).doc_refs.has(d) {
                    let q = choose|q: int| 0 <= q < p && (#[trigger] entry.documents@[q]).doc_refs.has(d);
                    assert(entry_names(entry, d));
                    assert(0 <= i < i + 1 && entry_names(entries@[i as int].postings, d));
                }
            }
        }
        i += 1;
    }
    docs
}

/// The built index: the vocabulary with its postings, the weight vectors of
/// all fields of all documents, the automaton of the vocabulary, the
/// declared field names and the documents that the postings name.
pub struct Index {
    inverted_index: Vec<TermEntry>,
    field_vectors: Vec<FieldVector>,
    token_set: TokenSet,
    field_names: StringSet,
    complete_doc_refs: StringSet,
    term_slots: StringHashMap<usize>,
    vector_slots: PairIndex,
}

impl Index {
    /// The terms with their postings, in the order of their numbers.
    pub closed spec fn entries(&self) -> Seq<TermEntry> {
        self.inverted_index@
    }

    /// The weight vectors.
    pub closed spec fn vectors(&self) -> Seq<FieldVector> {
        self.field_vectors@
    }

    /// The automaton of the vocabulary.
    pub closed spec fn automaton(&self) -> TokenSet {
        self.token_set
    }

    /// The declared field names.
    pub closed spec fn declared(&self) -> Seq<Seq<char>> {
        self.field_names.list()
    }

    /// The documents that the postings name.
    pub closed spec fn docs(&self) -> Seq<Seq<char>> {
        self.complete_doc_refs.list()
    }

    /// The declared field names, the documents, the terms and the vectors
    /// are found by their texts.
    pub closed spec fn sets_ok(&self) -> bool {
        &&& self.field_names.wf()
        &&& self.complete_doc_refs.wf()
        &&& slots_ok(self.inverted_index@, self.term_slots@)
        &&& vectors_found(self.field_vectors@, self.vector_slots)
    }

    /// The parts of the index fit together: the automaton accepts the
    /// vocabulary, and the documents are those that the postings name.
    pub open spec fn wf(&self) -> bool {
        &&& self.sets_ok()
        &&& entries_ok(self.entries())
        &&& vectors_ok(self.vectors())
        &&& self.automaton().wf()
        &&& self.automaton().is_acyclic()
        &&& forall|w: Seq<char>| self.automaton().accepts(w) <==> entry_terms(self.entries()).contains(w)
        &&& distinct(self.declared())
        &&& distinct(self.docs())
        &&& forall|d: Seq<char>| self.docs().contains(d) <==> named(self.entries(), d)
    }

    /// The index of the given parts. The documents are gathered from the postings.
    pub fn new(
        inverted_index: Vec<TermEntry>,
        field_vectors: Vec<FieldVector>,
        token_set: TokenSet,
        field_names: StringSet,
    ) -> (index: Index)
        requires
            entries_ok(inverted_index@),
            vectors_ok(field_vectors@),
            token_set.wf(),
            token_set.is_acyclic(),
            forall|w: Seq<char>| token_set.accepts(w) <==> entry_terms(inverted_index@).contains(w),
            field_names.wf(),
        ensures
            index.wf(),
            index.entries() == inverted_index@,
            index.vectors() == field_vectors@,
            index.automaton() == token_set,
            index.declared() == field_names.list(),
    {
        let complete_doc_refs = named_documents(&inverted_index);
        let term_slots = term_positions(&inverted_index);
        let vector_slots = vector_positions(&field_vectors);
        let index = Index {
            inverted_index,
            field_vectors,
            token_set,
            field_names,
            complete_doc_refs,
            term_slots,
            vector_slots,
        };
        proof {
            assert forall|d: Seq<char>| index.docs().contains(d) <==> named(index.entries(), d) by {
                assert(complete_doc_refs.has(d) == named(inverted_index@, d));
            }
            assert forall|w: Seq<char>| index.automaton().accepts(w) <==> entry_terms(index.entries()).contains(w) by {
                assert(token_set.accepts(w) <==> entry_terms(inverted_index@).contains(w));
            }
        }
        index
    }

    /// The terms with their postings, in the order of their numbers.
    pub fn inverted_index(&self) -> (entries: &Vec<TermEntry>)
        ensures
            entries@ == self.entries(),
    {
        &self.inverted_index
    }

    /// The weight vectors.
    pub fn field_vectors(&self) -> (vectors: &Vec<FieldVector>)
        ensures
            vectors@ == self.vectors(),
    {
        &self.field_vectors
    }

    /// The automaton of the vocabulary.
    pub fn token_set(&self) -> (set: &TokenSet)
        ensures
            *set == self.automaton(),
    {
        &self.token_set
    }

    /// The declared field names.
    pub fn field_names(&self) -> (names: &StringSet)
        ensures
            names.list() == self.declared(),
            self.wf() ==> names.wf(),
    {
        &self.field_names
    }

    /// The documents that the postings name.
    pub fn doc_refs(&self) -> (docs: &StringSet)
        ensures
            docs.list() == self.docs(),
            self.wf() ==> docs.wf(),
    {
        &self.complete_doc_refs
    }

    /// The positions of the terms, by their texts.
    pub fn term_slots(&self) -> (slots: &StringHashMap<usize>)
        ensures
            self.wf() ==> slots_ok(self.entries(), slots@),
    {
        &self.term_slots
    }

    /// What the index knows of `term`, if it is in the vocabulary.
    pub fn entry(&self, term: &str) -> (found: Option<&InvertedIndex>)
        requires
            self.wf(),
        ensures
            match found {
                Some(e) => exists|i: int|
                    0 <= i < self.entries().len() && (#[trigger] self.entries()[i]).term@ == term@ && *e
                        == self.entries()[i].postings,
                None => !entry_terms(self.entries()).contains(term@),
            },
    {
        match entry_position(&self.inverted_index, &self.term_slots, term) {
            Some(i) => {
                assert(self.entries()[i as int].term@ == term@);
                Some(&self.inverted_index[i].postings)
            },
            None => None,
        }
    }

    /// The position of the weight vector of field `field` of document `doc`.
    pub fn vector_position(&self, doc: &str, field: &str) -> (found: Option<usize>)
        requires
            self.wf(),
        ensures
            match found {
                Some(i) => i < self.vectors().len() && self.vectors()[i as int].field_ref.doc() == doc@
                    && self.vectors()[i as int].field_ref.field() == field@,
                None => forall|i: int|
                    0 <= i < self.vectors().len() ==> !((#[trigger] self.vectors()[i]).field_ref.doc() == doc@
                        && self.vectors()[i].field_ref.field() == field@),
            },
    {
        let found = self.vector_slots.get(doc, field);
        proof {
            if found is None {
                assert forall|i: int| 0 <= i < self.vectors().len() implies !((#[trigger] self.vectors()[i]).field_ref.doc()
                    == doc@ && self.vectors()[i].field_ref.field() == field@) by {
                    assert(self.vector_slots.lookup(self.vectors()[i].field_ref.doc(), self.vectors()[i].field_ref.field())
                        == Some(i as usize));
                }
            }
        }
        found
    }

    /// The weight vector of the field that `key` names, if there is one.
    pub fn field_vector(&self, key: &FieldRef) -> (found: Option<&Vector>)
        requires
            self.wf(),
        ensures
            match found {
                Some(v) => exists|i: int|
                    0 <= i < self.vectors().len() && (#[trigger] self.vectors()[i]).field_ref.doc() == key.doc()
                        && self.vectors()[i].field_ref.field() == key.field() && *v == self.vectors()[i].vector,
                None => forall|i: int|
                    0 <= i < self.vectors().len() ==> !((#[trigger] self.vectors()[i]).field_ref.doc() == key.doc()
                        && self.vectors()[i].field_ref.field() == key.field()),
            },
    {
        match self.vector_position(key.doc_ref(), key.field_name()) {
            Some(i) => {
                assert(self.vectors()[i as int].field_ref.doc() == key.doc());
                Some(&self.field_vectors[i].vector)
            },
            None => None,
        }
    }
}

/// Which terms matched in which fields.
pub struct MatchData {
    metadata: InvertedIndex,
}

impl MatchData {
    /// Whether `term` matched in `field`.
    pub closed spec fn knows(&self, term: Seq<char>, field: Seq<char>) -> bool {
        self.metadata.posts(term, field)
    }

    /// No term comes twice, and no field comes twice for a term.
    pub closed spec fn wf(&self) -> bool {
        self.metadata.wf()
    }

    /// The record of no match.
    pub fn new() -> (data: MatchData)
        ensures
            data.wf(),
            forall|t: Seq<char>, f: Seq<char>| !data.knows(t, f),
    {
        MatchData { metadata: InvertedIndex::new(0) }
    }

    /// Takes note that `term` matched in `field`.
    pub fn add(&mut self, term: String, field: String)
        requires
            old(self).wf(),
        ensures
            final(self).wf(),
            forall|t: Seq<char>, f: Seq<char>|
                final(self).knows(t, f) == (old(self).knows(t, f) || (t == term@ && f == field@)),
    {
        self.metadata.add(term.as_str(), field.as_str());
    }

    /// Whether `term` matched in `field`.
    pub fn contains(&self, term: &str, field: &str) -> (found: bool)
        requires
            self.wf(),
        ensures
            found == self.knows(term@, field@),
    {
        self.metadata.contains(term, field)
    }

    /// Takes note of all matches of `other`.
    pub fn combine(&mut self, other: &MatchData)
        requires
            old(self).wf(),
            other.wf(),
        ensures
            final(self).wf(),
            forall|t: Seq<char>, f: Seq<char>| #![trigger final(self).knows(t, f)]
                final(self).knows(t, f) == (old(self).knows(t, f) || other.knows(t, f)),
    {
        let ghost theirs = other.metadata.documents@;
        let mut p: usize = 0;
        while p < other.metadata.documents.len()
            invariant
                self.wf(),
                other.wf(),
                theirs == other.metadata.documents@,
                p <= theirs.len(),
                forall|t: Seq<char>, f: Seq<char>| #![trigger self.knows(t, f)]
                    self.knows(t, f) == (old(self).knows(t, f) || exists|q: int|
                        0 <= q < p && (#[trigger] theirs[q]).field_name@ == t && theirs[q].doc_refs.has(f)),
            decreases theirs.len() - p,
        {
            let posting = &other.metadata.documents[p];
            let ghost at_term = *self;
            let mut k: usize = 0;
            while k < posting.doc_refs.len()
                invariant
                    self.wf(),
                    *posting == theirs[p as int],
                    p < theirs.len(),
                    k <= posting.doc_refs.list().len(),
                    forall|t: Seq<char>, f: Seq<char>| #![trigger self.knows(t, f)]
                        self.knows(t, f) == (at_term.knows(t, f) || (t == posting.field_name@ && exists|m: int|
                            0 <= m < k && #[trigger] posting.doc_refs.list()[m] == f)),
                decreases posting.doc_refs.list().len() - k,
            {
                let ghost prior = *self;
                let field = posting.doc_refs.get(k).clone();
                let term = posting.field_name.clone();
                self.add(term, field);
                proof {
                    assert forall|t: Seq<char>, f: Seq<char>| #![trigger self.knows(t, f)]
                        self.knows(t, f) == (at_term.knows(t, f) || (t == posting.field_name@ && exists|m: int|
                            0 <= m < k + 1 && #[trigger] posting.doc_refs.list()[m] == f)) by {
                        assert(prior.knows(t, f) == (at_term.knows(t, f) || (t == posting.field_name@ && exists|m: int|
                            0 <= m < k && #[trigger] posting.doc_refs.list()[m] == f)));
                        if exists|m: int| 0 <= m < k + 1 && #[trigger] posting.doc_refs.list()[m] == f {
                            let m = choose|m: int| 0 <= m < k + 1 && #[trigger] posting.doc_refs.list()[m] == f;
                            if m < k {
                                assert(0 <= m < k && posting.doc_refs.list()[m] == f);
                            }
                        }
                        if exists|m: int| 0 <= m < k && #[trigger] posting.doc_refs.list()[m] == f {
                            let m = choose|m: int| 0 <= m < k && #[trigger] posting.doc_refs.list()[m] == f;
                            assert(0 <= m < k + 1 && posting.doc_refs.list()[m] == f);
                        }
                        if t == posting.field_name@ && f == posting.doc_refs.list()[k as int] {
                            assert(0 <= k < k + 1 && posting.doc_refs.list()[k as int] == f);
                        }
                    }
                }
                k += 1;
            }
            proof {
                assert forall|t: Seq<char>, f: Seq<char>| #![trigger self.knows(t, f)]
                    self.knows(t, f) == (old(self).knows(t, f) || exists|q: int|
                        0 <= q < p + 1 && (#[trigger] theirs[q]).field_name@ == t && theirs[q].doc_refs.has(f)) by {
                    assert(at_term.knows(t, f) == (old(self).knows(t, f) || exists|q: int|
                        0 <= q < p && (#[trigger] theirs[q]).field_name@ == t && theirs[q].doc_refs.has(f)));
                    if exists|q: int| 0 <= q < p + 1 && (#[trigger] theirs[q]).field_name@ == t && theirs[q].doc_refs.has(f) {
                        let q = choose|q: int|
                            0 <= q < p + 1 && (#[trigger] theirs[q]).field_name@ == t && theirs[q].doc_refs.has(f);
                        if q < p {
                            assert(0 <= q < p && theirs[q].field_name@ == t && theirs[q].doc_refs.has(f));
                        } else {
                            let m = choose|m: int| 0 <= m < posting.doc_refs.list().len() && posting.doc_refs.list()[m] == f;
                            assert(0 <= m < k && posting.doc_refs.list()[m] == f);
                        }
                    }
                    if exists|q: int| 0 <= q < p && (#[trigger] theirs[q]).field_name@ == t && theirs[q].doc_refs.has(f) {
                        let q = choose|q: int|
                            0 <= q < p && (#[trigger] theirs[q]).field_name@ == t && theirs[q].doc_refs.has(f);
                        assert(0 <= q < p + 1 && theirs[q].field_name@ == t && theirs[q].doc_refs.has(f));
                    }
                    if t == posting.field_name@ && exists|m: int| 0 <= m < k && #[trigger] posting.doc_refs.list()[m] == f {
                        assert(posting.doc_refs.has(f));
                        assert(0 <= p < p + 1 && theirs[p as int].field_name@ == t && theirs[p as int].doc_refs.has(f));
                    }
                }
            }
            p += 1;
        }
        proof {
            assert forall|t: Seq<char>, f: Seq<char>| #![trigger self.knows(t, f)]
                self.knows(t, f) == (old(self).knows(t, f) || other.knows(t, f)) by {
                if other.knows(t, f) {
                    let q = choose|q: int|
                        0 <= q < theirs.len() && (#[trigger] theirs[q]).field_name@ == t && theirs[q].doc_refs.has(f);
                    assert(0 <= q < p && theirs[q].field_name@ == t && theirs[q].doc_refs.has(f));
                }
            }
        }
    }
}

} // verus!
