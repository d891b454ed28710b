//! Collecting documents into the statistics that an index is built from.

use vstd::hash_map::StringHashMap;
use vstd::prelude::*;
use crate::document::Document;
use crate::field::FieldRef;
use crate::index::{
    FieldVector, Index, InvertedIndex, TermEntry, entries_ok, entry_position, entry_terms, lemma_same_entry, posted,
    slots_ok, vectors_ok,
};
use crate::token::TokenSet;
use crate::token::builder::sorted;
use crate::token::walk::listed;
use crate::vector::{Vector, holds, value_at};
use crate::pairs::PairIndex;
use crate::pipeline::Pipeline;
use crate::set::{StringSet, distinct, lemma_push_contains};
use crate::text::same_text;
use crate::token::Token;
use crate::tokenizer::{Tokenizer, lemma_tokens_unique, lowercase_of, tokens_of, without_trailing_space};

pub mod laws;

verus! {

/// How often one field of one document holds a term. The term is given by
/// its position in the vocabulary.
#[derive(Debug, Clone, Copy)]
pub struct TermCount {
    pub term: usize,
    pub count: usize,
}

/// What was counted in one field of one document: the number of its tokens,
/// and how often it holds each of its terms.
#[derive(Debug)]
pub struct FieldStatistics {
    pub field_ref: FieldRef,
    pub length: usize,
    pub counts: Vec<TermCount>,
}

/// One more than `n`, as far as the machine can count.
pub open spec fn counted_up(n: usize) -> usize {
    if n < usize::MAX {
        (n + 1) as usize
    } else {
        n
    }
}

/// What was counted in one field of one document, with the names as plain text.
pub struct FieldTally {
    pub doc: Seq<char>,
    pub field: Seq<char>,
    pub length: usize,
    pub counts: Seq<TermCount>,
}

impl FieldStatistics {
    /// The statistics with the names as plain text.
    pub open spec fn tally(&self) -> FieldTally {
        FieldTally { doc: self.field_ref.doc(), field: self.field_ref.field(), length: self.length, counts: self.counts@ }
    }
}

/// The statistics with the names as plain text, in their order.
pub open spec fn tallies_of(stats: Seq<FieldStatistics>) -> Seq<FieldTally> {
    stats.map_values(|s: FieldStatistics| s.tally())
}

/// No term is counted twice, and all counted terms lie in a vocabulary of `n` terms.
pub open spec fn counts_ok(counts: Seq<TermCount>, n: int) -> bool {
    &&& forall|i: int| 0 <= i < counts.len() ==> (#[trigger] counts[i]).term < n
    &&& forall|i: int, j: int| 0 <= i < j < counts.len() ==> (#[trigger] counts[i]).term != (#[trigger] counts[j]).term
}

/// No field of a document has two tallies, and the counts of each are in order.
pub open spec fn tallies_ok(tallies: Seq<FieldTally>, n: int) -> bool {
    &&& forall|i: int| 0 <= i < tallies.len() ==> counts_ok((#[trigger] tallies[i]).counts, n)
    &&& forall|i: int, j: int|
        0 <= i < j < tallies.len() ==> !((#[trigger] tallies[i]).doc == (#[trigger] tallies[j]).doc && tallies[i].field
            == tallies[j].field)
}

/// The position of the count of `term`, or the length of `counts` if it has none.
pub open spec fn count_slot(counts: Seq<TermCount>, term: usize) -> int
    decreases counts.len(),
{
    if counts.len() == 0 {
        0
    } else if counts[0].term == term {
        0
    } else {
        1 + count_slot(counts.drop_first(), term)
    }
}

/// The counts after one more token of `term`: its count goes up by one, or
/// it is counted for the first time.
pub open spec fn counts_after(counts: Seq<TermCount>, term: usize) -> Seq<TermCount> {
    let c = count_slot(counts, term);
    if 0 <= c < counts.len() {
        counts.update(c, TermCount { term, count: counted_up(counts[c].count) })
    } else {
        counts.push(TermCount { term, count: 1 })
    }
}

/// The position of the tally of field `field` of document `doc`, or the
/// length of `tallies` if there is none.
pub open spec fn tally_slot(tallies: Seq<FieldTally>, doc: Seq<char>, field: Seq<char>) -> int
    decreases tallies.len(),
{
    if tallies.len() == 0 {
        0
    } else if tallies[0].doc == doc && tallies[0].field == field {
        0
    } else {
        1 + tally_slot(tallies.drop_first(), doc, field)
    }
}

/// The tallies after one more token of `term` in field `field` of document `doc`.
pub open spec fn tallies_after(tallies: Seq<FieldTally>, doc: Seq<char>, field: Seq<char>, term: usize) -> Seq<
    FieldTally,
> {
    let s = tally_slot(tallies, doc, field);
    if 0 <= s < tallies.len() {
        tallies.update(
            s,
            FieldTally {
                doc,
                field,
                length: counted_up(tallies[s].length),
                counts: counts_after(tallies[s].counts, term),
            },
        )
    } else {
        tallies.push(FieldTally { doc, field, length: 1, counts: seq![TermCount { term, count: 1 }] })
    }
}

/// The tallies with one for field `field` of document `doc`: a field that
/// has none yet gets one without tokens.
pub open spec fn tallies_touched(tallies: Seq<FieldTally>, doc: Seq<char>, field: Seq<char>) -> Seq<FieldTally> {
    let s = tally_slot(tallies, doc, field);
    if 0 <= s < tallies.len() {
        tallies
    } else {
        tallies.push(FieldTally { doc, field, length: 0, counts: Seq::empty() })
    }
}

/// The position of `term` in the vocabulary, or its length if it is not there.
pub open spec fn term_slot(terms: Seq<Seq<char>>, term: Seq<char>) -> int
    decreases terms.len(),
{
    if terms.len() == 0 {
        0
    } else if terms[0] == term {
        0
    } else {
        1 + term_slot(terms.drop_first(), term)
    }
}

/// The vocabulary after `term` was seen: a new term comes last.
pub open spec fn terms_after(terms: Seq<Seq<char>>, term: Seq<char>) -> Seq<Seq<char>> {
    if terms.contains(term) {
        terms
    } else {
        terms.push(term)
    }
}

pub proof fn lemma_count_slot(counts: Seq<TermCount>, term: usize, c: int)
    requires
        0 <= c <= counts.len(),
        forall|i: int| 0 <= i < c ==> (#[trigger] counts[i]).term != term,
        c < counts.len() ==> counts[c].term == term,
    ensures
        count_slot(counts, term) == c,
    decreases counts.len(),
{
    if counts.len() > 0 && c > 0 {
        assert(counts[0].term != term);
        assert forall|i: int| 0 <= i < c - 1 implies (#[trigger] counts.drop_first()[i]).term != term by {
            assert(counts[i + 1].term != term);
        }
        lemma_count_slot(counts.drop_first(), term, c - 1);
    }
}

pub proof fn lemma_tally_slot(tallies: Seq<FieldTally>, doc: Seq<char>, field: Seq<char>, s: int)
    requires
        0 <= s <= tallies.len(),
        forall|i: int| 0 <= i < s ==> !((#[trigger] tallies[i]).doc == doc && tallies[i].field == field),
        s < tallies.len() ==> tallies[s].doc == doc && tallies[s].field == field,
    ensures
        tally_slot(tallies, doc, field) == s,
    decreases tallies.len(),
{
    if tallies.len() > 0 && s > 0 {
        assert(!(tallies[0].doc == doc && tallies[0].field == field));
        assert forall|i: int| 0 <= i < s - 1 implies !((#[trigger] tallies.drop_first()[i]).doc == doc
            && tallies.drop_first()[i].field == field) by {
            assert(!(tallies[i + 1].doc == doc && tallies[i + 1].field == field));
        }
        lemma_tally_slot(tallies.drop_first(), doc, field, s - 1);
    }
}

pub proof fn lemma_term_slot(terms: Seq<Seq<char>>, term: Seq<char>, s: int)
    requires
        0 <= s <= terms.len(),
        forall|i: int| 0 <= i < s ==> #[trigger] terms[i] != term,
        s < terms.len() ==> terms[s] == term,
    ensures
        term_slot(terms, term) == s,
    decreases terms.len(),
{
    if terms.len() > 0 && s > 0 {
        assert(terms[0] != term);
        assert forall|i: int| 0 <= i < s - 1 implies #[trigger] terms.drop_first()[i] != term by {
            assert(terms[i + 1] != term);
        }
        lemma_term_slot(terms.drop_first(), term, s - 1);
    }
}

/// The sum of the lengths of all instances of field `field`.
pub open spec fn length_sum(stats: Seq<FieldTally>, field: Seq<char>) -> nat
    decreases stats.len(),
{
    if stats.len() == 0 {
        0
    } else {
        length_sum(stats.drop_last(), field) + if stats.last().field == field {
            stats.last().length as nat
        } else {
            0
        }
    }
}

/// The number of instances of field `field`.
pub open spec fn instance_count(stats: Seq<FieldTally>, field: Seq<char>) -> nat
    decreases stats.len(),
{
    if stats.len() == 0 {
        0
    } else {
        instance_count(stats.drop_last(), field) + if stats.last().field == field {
            1nat
        } else {
            0
        }
    }
}

/// Whether `table` finds the statistics of every field of every document
/// at their position, and nothing else.
pub open spec fn stats_found(stats: Seq<FieldStatistics>, table: PairIndex) -> bool {
    &&& table.wf()
    &&& forall|s: int|
        0 <= s < stats.len() ==> table.lookup((#[trigger] stats[s]).field_ref.doc(), stats[s].field_ref.field()) == Some(
            s as usize,
        )
    &&& forall|a: Seq<char>, b: Seq<char>|
        (#[trigger] table.lookup(a, b)) is Some ==> table.lookup(a, b)->0 < stats.len() && stats[table.lookup(
            a,
            b,
        )->0 as int].field_ref.doc() == a && stats[table.lookup(a, b)->0 as int].field_ref.field() == b
}

/// The position of the statistics of field `field` of document `doc`.
fn stat_position(stats: &Vec<FieldStatistics>, table: &PairIndex, doc: &str, field: &str) -> (found: Option<usize>)
    requires
        stats_found(stats@, *table),
        forall|i: int, j: int|
            0 <= i < j < stats@.len() ==> !((#[trigger] tallies_of(stats@)[i]).doc == (#[trigger] tallies_of(stats@)[j]).doc
                && tallies_of(stats@)[i].field == tallies_of(stats@)[j].field),
    ensures
        match found {
            Some(i) => i < stats@.len() && i == tally_slot(tallies_of(stats@), doc@, field@) && stats@[i as int].field_ref.doc()
                == doc@ && stats@[i as int].field_ref.field() == field@,
            None => stats@.len() == tally_slot(tallies_of(stats@), doc@, field@) && forall|i: int|
                0 <= i < stats@.len() ==> !((#[trigger] tallies_of(stats@)[i]).doc == doc@ && tallies_of(stats@)[i].field
                    == field@),
        },
{
    match table.get(doc, field) {
        Some(i) => {
            proof {
                assert(stats@[i as int].field_ref.doc() == doc@ && stats@[i as int].field_ref.field() == field@);
                assert forall|j: int| 0 <= j < i implies !((#[trigger] tallies_of(stats@)[j]).doc == doc@ && tallies_of(
                    stats@,
                )[j].field == field@) by {
                    assert(!(tallies_of(stats@)[j].doc == tallies_of(stats@)[i as int].doc && tallies_of(stats@)[j].field
                        == tallies_of(stats@)[i as int].field));
                }
                lemma_tally_slot(tallies_of(stats@), doc@, field@, i as int);
            }
            Some(i)
        },
        None => {
            proof {
                assert forall|i: int| 0 <= i < stats@.len() implies !((#[trigger] tallies_of(stats@)[i]).doc == doc@
                    && tallies_of(stats@)[i].field == field@) by {
                    if tallies_of(stats@)[i].doc == doc@ && tallies_of(stats@)[i].field == field@ {
                        assert(table.lookup(stats@[i].field_ref.doc(), stats@[i].field_ref.field()) == Some(i as usize));
                    }
                }
                lemma_tally_slot(tallies_of(stats@), doc@, field@, stats@.len() as int);
            }
            None
        },
    }
}

/// The position of the count of the term at position `term`.
fn count_position(counts: &Vec<TermCount>, term: usize) -> (found: Option<usize>)
    ensures
        match found {
            Some(i) => i < counts@.len() && counts@[i as int].term == term && i == count_slot(counts@, term),
            None => counts@.len() == count_slot(counts@, term) && forall|i: int|
                0 <= i < counts@.len() ==> (#[trigger] counts@[i]).term != term,
        },
{
    let mut i: usize = 0;
    while i < counts.len()
        invariant
            i <= counts@.len(),
            forall|j: int| 0 <= j < i ==> (#[trigger] counts@[j]).term != term,
        decreases counts@.len() - i,
    {
        if counts[i].term == term {
            proof {
                lemma_count_slot(counts@, term, i as int);
            }
            return Some(i);
        }
        i += 1;
    }
    proof {
        lemma_count_slot(counts@, term, i as int);
    }
    None
}

/// Counts one more token that is the term at position `term`.
fn count_term(stat: &mut FieldStatistics, term: usize, Ghost(n): Ghost<int>)
    requires
        counts_ok(old(stat).counts@, n),
        term < n,
    ensures
        counts_ok(final(stat).counts@, n),
        final(stat).field_ref == old(stat).field_ref,
        final(stat).length == counted_up(old(stat).length),
        final(stat).counts@ == counts_after(old(stat).counts@, term),
{
    if stat.length < usize::MAX {
        stat.length = stat.length + 1;
    }
    match count_position(&stat.counts, term) {
        Some(c) => {
            let old_count = stat.counts[c].count;
            let count = if old_count < usize::MAX {
                old_count + 1
            } else {
                old_count
            };
            stat.counts.set(c, TermCount { term, count });
        },
        None => {
            stat.counts.push(TermCount { term, count: 1 });
        },
    }
}

/// Collects documents and counts what an index is built from.
pub struct Builder {
    field_names: StringSet,
    inverted_index: Vec<TermEntry>,
    term_slots: StringHashMap<usize>,
    field_term_frequencies: Vec<FieldStatistics>,
    stat_slots: PairIndex,
    tokenizer: Tokenizer,
    pipeline: Pipeline,
    b: i64,
    k1: i64,
    document_count: usize,
}

/// The length normalization that a new builder starts with, in thousandths.
pub const DEFAULT_B: i64 = 750;

/// The term frequency saturation that a new builder starts with, in thousandths.
pub const DEFAULT_K1: i64 = 1200;

/// Whether `after` is `before` with the field name `name` declared: a name
/// that was declared already changes nothing.
pub open spec fn field_added(before: Builder, name: Seq<char>, after: Builder) -> bool {
    &&& after.wf()
    &&& after.declared() == if before.declared().contains(name) {
        before.declared()
    } else {
        before.declared().push(name)
    }
    &&& after.entries() == before.entries()
    &&& after.statistics() == before.statistics()
    &&& after.documents() == before.documents()
    &&& after.b_value() == before.b_value()
    &&& after.k1_value() == before.k1_value()
}

/// Whether `after` is `before` with the length normalization set to
/// `value`: a value below 0 counts as 0, a value above 1000 as 1000.
pub open spec fn b_set(before: Builder, value: i64, after: Builder) -> bool {
    &&& after.b_value() == if value < 0 {
        0
    } else if value > 1000 {
        1000
    } else {
        value
    }
    &&& after.k1_value() == before.k1_value()
    &&& after.declared() == before.declared()
    &&& after.entries() == before.entries()
    &&& after.statistics() == before.statistics()
    &&& after.documents() == before.documents()
    &&& before.wf() ==> after.wf()
}

/// Whether `after` is `before` with the term frequency saturation set to
/// `value`.
pub open spec fn k1_set(before: Builder, value: i64, after: Builder) -> bool {
    &&& after.k1_value() == value
    &&& after.b_value() == before.b_value()
    &&& after.declared() == before.declared()
    &&& after.entries() == before.entries()
    &&& after.statistics() == before.statistics()
    &&& after.documents() == before.documents()
    &&& before.wf() ==> after.wf()
}

impl Builder {
    /// The declared field names, in the order in which they were declared.
    pub closed spec fn declared(&self) -> Seq<Seq<char>> {
        self.field_names.list()
    }

    /// The terms seen so far with what is known of them, in the order in
    /// which they were first seen.
    pub closed spec fn entries(&self) -> Seq<TermEntry> {
        self.inverted_index@
    }

    /// The statistics of the fields seen so far, in the order in which they
    /// were first seen.
    pub closed spec fn statistics(&self) -> Seq<FieldStatistics> {
        self.field_term_frequencies@
    }

    /// The statistics with the names as plain text.
    pub open spec fn tallies(&self) -> Seq<FieldTally> {
        tallies_of(self.statistics())
    }

    /// The terms seen so far, in the order in which they were first seen. A
    /// term's number is one more than its position.
    pub open spec fn terms(&self) -> Seq<Seq<char>> {
        entry_terms(self.entries())
    }

    /// Whether document `doc` holds `term` in field `field`.
    pub open spec fn holds(&self, term: Seq<char>, field: Seq<char>, doc: Seq<char>) -> bool {
        posted(self.entries(), term, field, doc)
    }

    /// The number of documents added, as far as the machine can count.
    pub closed spec fn documents(&self) -> usize {
        self.document_count
    }

    /// The length normalization, in thousandths.
    pub closed spec fn b_value(&self) -> i64 {
        self.b
    }

    /// The term frequency saturation, in thousandths.
    pub closed spec fn k1_value(&self) -> i64 {
        self.k1
    }

    /// The declared field names, the terms and the statistics are found by
    /// their texts.
    pub closed spec fn names_ok(&self) -> bool {
        self.field_names.wf() && slots_ok(self.inverted_index@, self.term_slots@) && stats_found(
            self.field_term_frequencies@,
            self.stat_slots,
        )
    }

    /// The builder's lists are in order.
    pub open spec fn wf(&self) -> bool {
        &&& self.names_ok()
        &&& distinct(self.declared())
        &&& entries_ok(self.entries())
        &&& tallies_ok(self.tallies(), self.entries().len() as int)
    }

    /// The builder that holds no document.
    pub fn new() -> (builder: Builder)
        ensures
            builder.wf(),
            builder.declared().len() == 0,
            builder.entries().len() == 0,
            builder.statistics().len() == 0,
            builder.documents() == 0,
            builder.b_value() == DEFAULT_B,
            builder.k1_value() == DEFAULT_K1,
    {
        Builder {
            field_names: StringSet::new(),
            inverted_index: Vec::new(),
            term_slots: StringHashMap::new(),
            field_term_frequencies: Vec::new(),
            stat_slots: PairIndex::new(),
            tokenizer: Tokenizer::new(),
            pipeline: Pipeline::new(),
            b: DEFAULT_B,
            k1: DEFAULT_K1,
            document_count: 0,
        }
    }

    /// Declares a field name that queries can be scoped to.
    pub fn add_field(&mut self, name: String)
        requires
            old(self).wf(),
        ensures
            field_added(*old(self), name@, *final(self)),
    {
        let added = self.field_names.insert(name);
    }

    /// Sets the length normalization, in thousandths. A value below 0 counts
    /// as 0, a value above 1000 as 1000.
    pub fn b(&mut self, value: i64)
        ensures
            b_set(*old(self), value, *final(self)),
    {
        self.b = if value < 0 {
            0
        } else if value > 1000 {
            1000
        } else {
            value
        };
    }

    /// Sets the term frequency saturation, in thousandths.
    pub fn k1(&mut self, value: i64)
        ensures
            k1_set(*old(self), value, *final(self)),
    {
        self.k1 = value;
    }

    /// The length normalization, in thousandths.
    pub fn b_milli(&self) -> (value: i64)
        ensures
            value == self.b_value(),
    {
        self.b
    }

    /// The term frequency saturation, in thousandths.
    pub fn k1_milli(&self) -> (value: i64)
        ensures
            value == self.k1_value(),
    {
        self.k1
    }

    /// The number of documents added.
    pub fn document_count(&self) -> (count: usize)
        ensures
            count == self.documents(),
    {
        self.document_count
    }

    /// What is known of `term`, if it was seen.
    pub fn postings(&self, term: &str) -> (found: Option<&InvertedIndex>)
        requires
            self.wf(),
        ensures
            match found {
                Some(e) => exists|i: int|
                    0 <= i < self.entries().len() && (#[trigger] self.entries()[i]).term@ == term@ && *e
                        == self.entries()[i].postings,
                None => !self.terms().contains(term@),
            },
    {
        match entry_position(&self.inverted_index, &self.term_slots, term) {
            Some(i) => {
                assert(self.entries()[i as int].term@ == term@);
                Some(&self.inverted_index[i].postings)
            },
            None => None,
        }
    }

    /// Whether `name` was declared.
    pub fn has_field(&self, name: &str) -> (found: bool)
        requires
            self.wf(),
        ensures
            found == self.declared().contains(name@),
    {
        self.field_names.contains(name)
    }
}

/// The entry of `term`, made if the term is new. Says where the entry is.
fn entry_of(entries: &mut Vec<TermEntry>, slots: &mut StringHashMap<usize>, term: &str) -> (pos: usize)
    requires
        entries_ok(old(entries)@),
        slots_ok(old(entries)@, old(slots)@),
    ensures
        entries_ok(final(entries)@),
        slots_ok(final(entries)@, final(slots)@),
        entry_terms(final(entries)@) == terms_after(entry_terms(old(entries)@), term@),
        pos < final(entries)@.len(),
        pos == term_slot(entry_terms(final(entries)@), term@),
        final(entries)@[pos as int].term@ == term@,
        final(entries)@.len() == old(entries)@.len() || (final(entries)@.len() == old(entries)@.len() + 1 && pos
            == old(entries)@.len()),
        forall|i: int| 0 <= i < old(entries)@.len() ==> final(entries)@[i] == old(entries)@[i],
        forall|f: Seq<char>, d: Seq<char>| !old(entries)@.map_values(|e: TermEntry| e.term@).contains(term@) ==> !(
        #[trigger] final(entries)@[pos as int].postings.posts(f, d)),
{
    let ghost before = entries@;
    let ghost old_slots = slots@;
    match entry_position(entries, slots, term) {
        Some(i) => {
            proof {
                assert(entry_terms(before)[i as int] == term@);
                assert forall|j: int| 0 <= j < i implies #[trigger] entry_terms(before)[j] != term@ by {
                    assert(entry_terms(before)[j] != entry_terms(before)[i as int]);
                }
                lemma_term_slot(entry_terms(before), term@, i as int);
            }
            i
        },
        None => {
            let i = entries.len();
            entries.push(TermEntry { term: term.to_owned(), postings: InvertedIndex::new(0) });
            let number = entries.len() as u64;
            entries[i].postings.index = number;
            slots.insert(term.to_owned(), i);
            proof {
                let after = entries@;
                assert forall|j: int| 0 <= j < after.len() implies slots@.dom().contains((#[trigger] after[j]).term@)
                    && slots@[after[j].term@] == j by {
                    if j < before.len() {
                        assert(after[j].term@ == before[j].term@);
                        assert(old_slots.dom().contains(before[j].term@));
                        if before[j].term@ == term@ {
                            assert(entry_terms(before)[j] == term@);
                        }
                    }
                }
                assert forall|k: Seq<char>| #[trigger] slots@.dom().contains(k) implies slots@[k] < after.len()
                    && after[slots@[k] as int].term@ == k by {
                    if k != term@ {
                        assert(old_slots.dom().contains(k));
                        assert(after[old_slots[k] as int].term@ == before[old_slots[k] as int].term@);
                    }
                }
                assert(entry_terms(after) =~= entry_terms(before).push(term@));
                assert forall|a: int, b: int| 0 <= a < b < entry_terms(after).len() implies #[trigger] entry_terms(after)[a]
                    != #[trigger] entry_terms(after)[b] by {
                    if b == before.len() {
                        if entry_terms(before)[a] == term@ {
                            assert(entry_terms(before).contains(term@));
                        }
                    } else {
                        assert(entry_terms(before)[a] != entry_terms(before)[b]);
                    }
                }
                assert forall|j: int| 0 <= j < i implies #[trigger] entry_terms(after)[j] != term@ by {
                    if entry_terms(before)[j] == term@ {
                        assert(entry_terms(before).contains(term@));
                    }
                }
                lemma_term_slot(entry_terms(after), term@, i as int);
                assert forall|j: int| 0 <= j < after.len() implies (#[trigger] after[j]).postings.wf() && after[j].postings.index
                    == j + 1 by {
                    if j < before.len() {
                        assert(after[j] == before[j]);
                    }
                }
            }
            i
        },
    }
}

/// Makes sure that field `field` of document `doc` has a tally: a field
/// without tokens is counted as a field all the same.
fn tally_ready(
    stats: &mut Vec<FieldStatistics>,
    table: &mut PairIndex,
    doc: &str,
    field: &str,
    Ghost(n): Ghost<int>,
)
    requires
        tallies_ok(tallies_of(old(stats)@), n),
        stats_found(old(stats)@, *old(table)),
    ensures
        tallies_ok(tallies_of(final(stats)@), n),
        stats_found(final(stats)@, *final(table)),
        tallies_of(final(stats)@) == tallies_touched(tallies_of(old(stats)@), doc@, field@),
{
    let ghost before = tallies_of(stats@);
    let ghost stats0 = stats@;
    let ghost table0 = *table;
    match stat_position(stats, table, doc, field) {
        Some(s) => {},
        None => {
            let stat = FieldStatistics {
                field_ref: FieldRef::new(doc.to_owned(), field.to_owned()),
                length: 0,
                counts: Vec::new(),
            };
            let at = stats.len();
            proof {
                if table.lookup(doc@, field@) is Some {
                    let v = table.lookup(doc@, field@)->0 as int;
                    assert(tallies_of(stats0)[v].doc == doc@ && tallies_of(stats0)[v].field == field@);
                }
            }
            stats.push(stat);
            table.insert(doc, field, at);
            proof {
                let after = tallies_of(stats@);
                assert(stat.counts@ =~= Seq::<TermCount>::empty());
                assert(after =~= tallies_touched(before, doc@, field@));
                assert forall|i: int| 0 <= i < after.len() implies counts_ok((#[trigger] after[i]).counts, n) by {
                    if i < before.len() {
                        assert(after[i] == before[i]);
                    }
                }
                assert forall|i: int, j: int| 0 <= i < j < after.len() implies !((#[trigger] after[i]).doc == (
                #[trigger] after[j]).doc && after[i].field == after[j].field) by {
                    assert(after[i] == before[i]);
                    if j < before.len() {
                        assert(after[j] == before[j]);
                    }
                }
                assert(stats_found(stats@, *table)) by {
                    assert forall|k: int| 0 <= k < stats@.len() implies table.lookup(
                        (#[trigger] stats@[k]).field_ref.doc(),
                        stats@[k].field_ref.field(),
                    ) == Some(k as usize) by {
                        if k < stats0.len() {
                            assert(stats@[k] == stats0[k]);
                            assert(table0.lookup(stats0[k].field_ref.doc(), stats0[k].field_ref.field()) == Some(k as usize));
                            assert(!(tallies_of(stats0)[k].doc == doc@ && tallies_of(stats0)[k].field == field@));
                        }
                    }
                    assert forall|a: Seq<char>, b: Seq<char>| (#[trigger] table.lookup(a, b)) is Some implies table.lookup(
                        a,
                        b,
                    )->0 < stats@.len() && stats@[table.lookup(a, b)->0 as int].field_ref.doc() == a && stats@[table.lookup(
                        a,
                        b,
                    )->0 as int].field_ref.field() == b by {
                        if !(a == doc@ && b == field@) {
                            assert(table0.lookup(a, b) is Some);
                            let v = table0.lookup(a, b)->0 as int;
                            assert(stats@[v] == stats0[v]);
                        }
                    }
                }
            }
        },
    }
}

/// The tally of field `field` of document `doc`, with one more token of
/// the term at position `term` counted.
fn tally_of(
    stats: &mut Vec<FieldStatistics>,
    table: &mut PairIndex,
    doc: &str,
    field: &str,
    term: usize,
    Ghost(n): Ghost<int>,
)
    requires
        tallies_ok(tallies_of(old(stats)@), n),
        stats_found(old(stats)@, *old(table)),
        term < n,
    ensures
        tallies_ok(tallies_of(final(stats)@), n),
        stats_found(final(stats)@, *final(table)),
        tallies_of(final(stats)@) == tallies_after(tallies_of(old(stats)@), doc@, field@, term),
{
    let ghost before = tallies_of(stats@);
    let ghost stats0 = stats@;
    let ghost table0 = *table;
    match stat_position(stats, table, doc, field) {
        Some(s) => {
            assert(counts_ok(before[s as int].counts, n));
            count_term(&mut stats[s], term, Ghost(n));
            proof {
                let after = tallies_of(stats@);
                assert forall|k: int| 0 <= k < stats@.len() implies (#[trigger] stats@[k]).field_ref == stats0[k].field_ref by {}
                assert(stats_found(stats@, *table)) by {
                    assert forall|k: int| 0 <= k < stats@.len() implies table.lookup(
                        (#[trigger] stats@[k]).field_ref.doc(),
                        stats@[k].field_ref.field(),
                    ) == Some(k as usize) by {
                        assert(stats@[k].field_ref == stats0[k].field_ref);
                        assert(table.lookup(stats0[k].field_ref.doc(), stats0[k].field_ref.field()) == Some(k as usize));
                    }
                    assert forall|a: Seq<char>, b: Seq<char>| (#[trigger] table.lookup(a, b)) is Some implies table.lookup(
                        a,
                        b,
                    )->0 < stats@.len() && stats@[table.lookup(a, b)->0 as int].field_ref.doc() == a && stats@[table.lookup(
                        a,
                        b,
                    )->0 as int].field_ref.field() == b by {
                        let v = table.lookup(a, b)->0 as int;
                        assert(stats@[v].field_ref == stats0[v].field_ref);
                    }
                }
                assert(after =~= tallies_after(before, doc@, field@, term));
                assert forall|i: int| 0 <= i < after.len() implies counts_ok((#[trigger] after[i]).counts, n) by {
                    if i != s {
                        assert(after[i] == before[i]);
                    }
                }
                assert forall|i: int, j: int| 0 <= i < j < after.len() implies !((#[trigger] after[i]).doc == (
                #[trigger] after[j]).doc && after[i].field == after[j].field) by {
                    assert(after[i].doc == before[i].doc && after[i].field == before[i].field);
                    assert(after[j].doc == before[j].doc && after[j].field == before[j].field);
                }
            }
        },
        None => {
            let mut counts: Vec<TermCount> = Vec::new();
            counts.push(TermCount { term, count: 1 });
            let stat = FieldStatistics { field_ref: FieldRef::new(doc.to_owned(), field.to_owned()), length: 1, counts };
            let at = stats.len();
            proof {
                if table.lookup(doc@, field@) is Some {
                    let v = table.lookup(doc@, field@)->0 as int;
                    assert(tallies_of(stats0)[v].doc == doc@ && tallies_of(stats0)[v].field == field@);
                }
            }
            stats.push(stat);
            table.insert(doc, field, at);
            proof {
                let after = tallies_of(stats@);
                assert(stats_found(stats@, *table)) by {
                    assert forall|k: int| 0 <= k < stats@.len() implies table.lookup(
                        (#[trigger] stats@[k]).field_ref.doc(),
                        stats@[k].field_ref.field(),
                    ) == Some(k as usize) by {
                        if k < stats0.len() {
                            assert(stats@[k] == stats0[k]);
                            assert(table0.lookup(stats0[k].field_ref.doc(), stats0[k].field_ref.field()) == Some(k as usize));
                            assert(!(tallies_of(stats0)[k].doc == doc@ && tallies_of(stats0)[k].field == field@));
                        }
                    }
                    assert forall|a: Seq<char>, b: Seq<char>| (#[trigger] table.lookup(a, b)) is Some implies table.lookup(
                        a,
                        b,
                    )->0 < stats@.len() && stats@[table.lookup(a, b)->0 as int].field_ref.doc() == a && stats@[table.lookup(
                        a,
                        b,
                    )->0 as int].field_ref.field() == b by {
                        if !(a == doc@ && b == field@) {
                            assert(table0.lookup(a, b) is Some);
                            let v = table0.lookup(a, b)->0 as int;
                            assert(stats@[v] == stats0[v]);
                        }
                    }
                }
                assert(counts@ =~= seq![TermCount { term, count: 1 }]);
                assert(after =~= tallies_after(before, doc@, field@, term));
                assert forall|i: int| 0 <= i < after.len() implies counts_ok((#[trigger] after[i]).counts, n) by {
                    if i < before.len() {
                        assert(after[i] == before[i]);
                    }
                }
                assert forall|i: int, j: int| 0 <= i < j < after.len() implies !((#[trigger] after[i]).doc == (
                #[trigger] after[j]).doc && after[i].field == after[j].field) by {
                    assert(after[i] == before[i]);
                    if j < before.len() {
                        assert(after[j] == before[j]);
                    }
                }
            }
        },
    }
}

proof fn lemma_tallies_wider(tallies: Seq<FieldTally>, n: int, m: int)
    requires
        tallies_ok(tallies, n),
        n <= m,
    ensures
        tallies_ok(tallies, m),
{
    assert forall|i: int| 0 <= i < tallies.len() implies counts_ok((#[trigger] tallies[i]).counts, m) by {
        assert(counts_ok(tallies[i].counts, n));
    }
}

impl Builder {
    /// Takes note of one token: field `field_name` of document `doc_ref`
    /// holds `term` once more.
    pub fn add_term(&mut self, doc_ref: &str, field_name: &str, term: &str)
        requires
            old(self).wf(),
        ensures
            final(self).wf(),
            final(self).declared() == old(self).declared(),
            final(self).documents() == old(self).documents(),
            final(self).b_value() == old(self).b_value(),
            final(self).k1_value() == old(self).k1_value(),
            final(self).terms() == terms_after(old(self).terms(), term@),
            forall|t: Seq<char>, f: Seq<char>, d: Seq<char>|
                final(self).holds(t, f, d) == (old(self).holds(t, f, d) || (t == term@ && f == field_name@ && d
                    == doc_ref@)),
            final(self).tallies() == tallies_after(
                old(self).tallies(),
                doc_ref@,
                field_name@,
                term_slot(final(self).terms(), term@) as usize,
            ),
    {
        let ghost before = self.inverted_index@;
        let ghost old_tallies = self.tallies();
        let pos = entry_of(&mut self.inverted_index, &mut self.term_slots, term);
        let ghost middle = self.inverted_index@;
        self.inverted_index[pos].postings.add(field_name, doc_ref);
        let ghost after = self.inverted_index@;
        proof {
            assert(entry_terms(after) =~= entry_terms(middle));
            assert forall|j: int| 0 <= j < after.len() implies (#[trigger] after[j]).term@ == middle[j].term@ by {
                assert(entry_terms(after)[j] == entry_terms(middle)[j]);
            }
            assert(slots_ok(after, self.term_slots@));
            assert forall|j: int| 0 <= j < after.len() implies (#[trigger] after[j]).postings.wf() && after[j].postings.index
                == j + 1 by {
                if j != pos {
                    assert(after[j] == middle[j]);
                }
            }
            assert forall|t: Seq<char>, f: Seq<char>, d: Seq<char>|
                posted(after, t, f, d) == (posted(before, t, f, d) || (t == term@ && f == field_name@ && d == doc_ref@)) by {
                if posted(after, t, f, d) {
                    let i = choose|i: int|
                        0 <= i < after.len() && (#[trigger] after[i]).term@ == t && after[i].postings.posts(f, d);
                    if i != pos {
                        assert(after[i] == middle[i]);
                        if i < before.len() {
                            assert(middle[i] == before[i]);
                            assert(before[i].term@ == t && before[i].postings.posts(f, d));
                        }
                    } else if !(f == field_name@ && d == doc_ref@) {
                        assert(middle[pos as int].postings.posts(f, d));
                        if pos < before.len() {
                            assert(middle[pos as int] == before[pos as int]);
                            assert(before[pos as int].term@ == t && before[pos as int].postings.posts(f, d));
                        } else {
                            assert(!entry_terms(before).contains(term@)) by {
                                if entry_terms(before).contains(term@) {
                                    assert(entry_terms(middle) == entry_terms(before));
                                }
                            }
                        }
                    }
                }
                if posted(before, t, f, d) {
                    let i = choose|i: int|
                        0 <= i < before.len() && (#[trigger] before[i]).term@ == t && before[i].postings.posts(f, d);
                    assert(middle[i] == before[i]);
                    if i != pos {
                        assert(after[i] == middle[i]);
                    }
                    assert(after[i].term@ == t && after[i].postings.posts(f, d));
                }
                if t == term@ && f == field_name@ && d == doc_ref@ {
                    assert(after[pos as int].term@ == t && after[pos as int].postings.posts(f, d));
                }
            }
            lemma_tallies_wider(old_tallies, before.len() as int, after.len() as int);
        }
        tally_of(
            &mut self.field_term_frequencies,
            &mut self.stat_slots,
            doc_ref,
            field_name,
            pos,
            Ghost(after.len() as int),
        );
    }
}

/// The vocabulary and the tallies, which change together.
pub struct Tallied {
    pub terms: Seq<Seq<char>>,
    pub tallies: Seq<FieldTally>,
}

/// The vocabulary and the tallies after one more token of `term` in field
/// `field` of document `doc`.
pub open spec fn absorb_term(s: Tallied, doc: Seq<char>, field: Seq<char>, term: Seq<char>) -> Tallied {
    let terms = terms_after(s.terms, term);
    Tallied { terms, tallies: tallies_after(s.tallies, doc, field, term_slot(terms, term) as usize) }
}

/// The vocabulary and the tallies after the tokens `values` of field `field`
/// of document `doc`, taken from left to right. The field is tallied even
/// if it has no token at all.
pub open spec fn absorb_terms(s: Tallied, doc: Seq<char>, field: Seq<char>, values: Seq<Seq<char>>) -> Tallied
    decreases values.len(),
{
    if values.len() == 0 {
        Tallied { terms: s.terms, tallies: tallies_touched(s.tallies, doc, field) }
    } else {
        absorb_term(absorb_terms(s, doc, field, values.drop_last()), doc, field, values.last())
    }
}

/// The vocabulary and the tallies after the fields `names` of document
/// `doc`, of which field `i` has the tokens `lists[i]`.
pub open spec fn absorb_fields(s: Tallied, doc: Seq<char>, names: Seq<Seq<char>>, lists: Seq<Seq<Seq<char>>>) -> Tallied
    decreases names.len(),
{
    if names.len() == 0 || lists.len() == 0 {
        s
    } else {
        absorb_terms(absorb_fields(s, doc, names.drop_last(), lists.drop_last()), doc, names.last(), lists.last())
    }
}

/// The texts of the tokens, in their order.
pub open spec fn token_values(tokens: Seq<Token>) -> Seq<Seq<char>> {
    tokens.map_values(|t: Token| t.value@)
}

/// Whether `values` are the terms of a field with the text `text`: the
/// tokens of the text in lower case, without the white space at its end.
pub open spec fn field_terms(text: Seq<char>, values: Seq<Seq<char>>) -> bool {
    exists|tokens: Seq<Token>|
        tokens_of(lowercase_of(without_trailing_space(text)), tokens) && values == #[trigger] token_values(tokens)
}

/// The names of the fields, in their order.
pub open spec fn field_names(fields: Seq<crate::field::Field>) -> Seq<Seq<char>> {
    fields.map_values(|f: crate::field::Field| f.name_view())
}

/// Whether `lists` holds, for each field, the terms of its value.
pub open spec fn document_terms(fields: Seq<crate::field::Field>, lists: Seq<Seq<Seq<char>>>) -> bool {
    &&& lists.len() == fields.len()
    &&& forall|i: int| 0 <= i < fields.len() ==> field_terms((#[trigger] fields[i]).value_view().text(), lists[i])
}

/// A text has one list of terms only.
pub proof fn lemma_field_terms_unique(text: Seq<char>, a: Seq<Seq<char>>, b: Seq<Seq<char>>)
    requires
        field_terms(text, a),
        field_terms(text, b),
    ensures
        a == b,
{
    let lowered = lowercase_of(without_trailing_space(text));
    let ta = choose|tokens: Seq<Token>| tokens_of(lowered, tokens) && a == #[trigger] token_values(tokens);
    let tb = choose|tokens: Seq<Token>| tokens_of(lowered, tokens) && b == #[trigger] token_values(tokens);
    lemma_tokens_unique(lowered, ta, tb);
    assert(a =~= b);
}

/// A document has one list of terms for each of its fields only: what
/// [`Builder::add_document`] makes of a builder depends on the builder and
/// the document alone.
pub proof fn lemma_document_terms_unique(
    fields: Seq<crate::field::Field>,
    a: Seq<Seq<Seq<char>>>,
    b: Seq<Seq<Seq<char>>>,
)
    requires
        document_terms(fields, a),
        document_terms(fields, b),
    ensures
        a == b,
{
    assert forall|i: int| 0 <= i < a.len() implies a[i] == b[i] by {
        lemma_field_terms_unique(fields[i].value_view().text(), a[i], b[i]);
    }
    assert(a =~= b);
}

/// Whether `after` is `before` with the document `doc` added: each field
/// of the document is cut into its terms, and the terms are counted field
/// by field, in their order.
pub open spec fn document_added(before: Builder, doc: Document, after: Builder) -> bool {
    &&& after.wf()
    &&& after.declared() == before.declared()
    &&& after.documents() == counted_up(before.documents())
    &&& after.b_value() == before.b_value()
    &&& after.k1_value() == before.k1_value()
    &&& exists|lists: Seq<Seq<Seq<char>>>|
        {
            &&& #[trigger] document_terms(doc.fields(), lists)
            &&& after.tallied() == absorb_fields(before.tallied(), doc.reference(), field_names(doc.fields()), lists)
            &&& forall|t: Seq<char>, f: Seq<char>, d: Seq<char>|
                after.holds(t, f, d) == (before.holds(t, f, d) || (d == doc.reference() && exists|i: int|
                    0 <= i < lists.len() && field_names(doc.fields())[i] == f && (#[trigger] lists[i]).contains(t)))
        }
}

impl Builder {
    /// The vocabulary and the tallies.
    pub open spec fn tallied(&self) -> Tallied {
        Tallied { terms: self.terms(), tallies: self.tallies() }
    }

    /// Takes note of the tokens of one field of one document. A field
    /// without tokens is taken note of too: it counts among the fields of
    /// its name, with the length 0.
    pub fn add_field_terms(&mut self, doc_ref: &str, field_name: &str, tokens: &Vec<Token>)
        requires
            old(self).wf(),
        ensures
            final(self).wf(),
            final(self).declared() == old(self).declared(),
            final(self).documents() == old(self).documents(),
            final(self).b_value() == old(self).b_value(),
            final(self).k1_value() == old(self).k1_value(),
            final(self).tallied() == absorb_terms(old(self).tallied(), doc_ref@, field_name@, token_values(tokens@)),
            forall|t: Seq<char>, f: Seq<char>, d: Seq<char>|
                final(self).holds(t, f, d) == (old(self).holds(t, f, d) || (f == field_name@ && d == doc_ref@
                    && token_values(tokens@).contains(t))),
    {
        let ghost values = token_values(tokens@);
        let ghost n = self.inverted_index@.len() as int;
        tally_ready(&mut self.field_term_frequencies, &mut self.stat_slots, doc_ref, field_name, Ghost(n));
        let mut i: usize = 0;
        proof {
            assert(values.subrange(0, 0) =~= Seq::<Seq<char>>::empty());
        }
        while i < tokens.len()
            invariant
                i <= tokens@.len(),
                values == token_values(tokens@),
                self.wf(),
                self.declared() == old(self).declared(),
                self.documents() == old(self).documents(),
                self.b_value() == old(self).b_value(),
                self.k1_value() == old(self).k1_value(),
                self.tallied() == absorb_terms(old(self).tallied(), doc_ref@, field_name@, values.subrange(0, i as int)),
                forall|t: Seq<char>, f: Seq<char>, d: Seq<char>|
                    self.holds(t, f, d) == (old(self).holds(t, f, d) || (f == field_name@ && d == doc_ref@
                        && values.subrange(0, i as int).contains(t))),
            decreases tokens@.len() - i,
        {
            let ghost before = *self;
            let ghost seen = values.subrange(0, i as int);
            self.add_term(doc_ref, field_name, tokens[i].value.as_str());
            proof {
                let now = values.subrange(0, i + 1);
                assert(now.drop_last() =~= seen);
                assert(now.last() == tokens@[i as int].value@);
                assert(now =~= seen.push(tokens@[i as int].value@));
                assert forall|t: Seq<char>, f: Seq<char>, d: Seq<char>|
                    self.holds(t, f, d) == (old(self).holds(t, f, d) || (f == field_name@ && d == doc_ref@
                        && now.contains(t))) by {
                    lemma_push_contains(seen, tokens@[i as int].value@, t);
                }
            }
            i += 1;
        }
        proof {
            assert(values.subrange(0, i as int) =~= values);
        }
    }

    /// Adds a document: each of its fields is put in lower case, cut into
    /// tokens, and counted token by token.
    pub fn add_document(&mut self, doc: Document)
        requires
            old(self).wf(),
        ensures
            document_added(*old(self), doc, *final(self)),
    {
        if self.document_count < usize::MAX {
            self.document_count = self.document_count + 1;
        }
        let fields = doc.get_all_fields();
        let ghost all = doc.fields();
        let ghost names = field_names(all);
        let ghost mut lists: Seq<Seq<Seq<char>>> = Seq::empty();
        let mut i: usize = 0;
        proof {
            assert(names.subrange(0, 0) =~= Seq::<Seq<char>>::empty());
        }
        while i < fields.len()
            invariant
                i <= fields@.len(),
                fields@.map_values(|f: &crate::field::Field| *f) == all,
                all == doc.fields(),
                names == field_names(all),
                lists.len() == i,
                self.wf(),
                self.declared() == old(self).declared(),
                self.documents() == counted_up(old(self).documents()),
                self.b_value() == old(self).b_value(),
                self.k1_value() == old(self).k1_value(),
                forall|j: int| 0 <= j < i ==> field_terms((#[trigger] all[j]).value_view().text(), lists[j]),
                self.tallied() == absorb_fields(old(self).tallied(), doc.reference(), names.subrange(0, i as int), lists),
                forall|t: Seq<char>, f: Seq<char>, d: Seq<char>|
                    self.holds(t, f, d) == (old(self).holds(t, f, d) || (d == doc.reference() && exists|j: int|
                        0 <= j < lists.len() && names[j] == f && (#[trigger] lists[j]).contains(t))),
            decreases fields@.len() - i,
        {
            let field = fields[i];
            assert(*field == all[i as int]) by {
                assert(fields@.map_values(|f: &crate::field::Field| *f)[i as int] == all[i as int]);
            }
            let text = field.value().to_string();
            let tokens = self.tokenizer.tokenize(text);
            let terms = self.pipeline.run(tokens);
            let ghost before = *self;
            let ghost old_lists = lists;
            self.add_field_terms(doc.doc_ref(), field.name(), &terms);
            proof {
                let values = token_values(terms@);
                lists = old_lists.push(values);
                let now = names.subrange(0, i + 1);
                assert(now.drop_last() =~= names.subrange(0, i as int));
                assert(lists.drop_last() =~= old_lists);
                assert(now.last() == field.name_view());
                assert(field_terms(all[i as int].value_view().text(), values));
                assert forall|j: int| 0 <= j < i + 1 implies field_terms((#[trigger] all[j]).value_view().text(), lists[j]) by {
                    if j < i {
                        assert(lists[j] == old_lists[j]);
                    }
                }
                assert forall|t: Seq<char>, f: Seq<char>, d: Seq<char>|
                    self.holds(t, f, d) == (old(self).holds(t, f, d) || (d == doc.reference() && exists|j: int|
                        0 <= j < lists.len() && names[j] == f && (#[trigger] lists[j]).contains(t))) by {
                    if exists|j: int| 0 <= j < lists.len() && names[j] == f && (#[trigger] lists[j]).contains(t) {
                        let j = choose|j: int| 0 <= j < lists.len() && names[j] == f && (#[trigger] lists[j]).contains(t);
                        if j < i {
                            assert(old_lists[j] == lists[j]);
                            assert(0 <= j < old_lists.len() && names[j] == f && old_lists[j].contains(t));
                        }
                    }
                    if exists|j: int| 0 <= j < old_lists.len() && names[j] == f && (#[trigger] old_lists[j]).contains(t) {
                        let j = choose|j: int|
                            0 <= j < old_lists.len() && names[j] == f && (#[trigger] old_lists[j]).contains(t);
                        assert(lists[j] == old_lists[j]);
                    }
                    if f == field.name_view() && values.contains(t) {
                        assert(lists[i as int] == values);
                        assert(names[i as int] == f);
                    }
                }
            }
            i += 1;
        }
        proof {
            assert(names.subrange(0, i as int) =~= names);
            assert(document_terms(doc.fields(), lists));
        }
    }
}

/// What the weight of one term in one field of one document depends on,
/// besides the field.
#[derive(Debug, Clone, Copy, PartialEq, Eq)]
pub struct TermStatistic {
    /// The number of the term, which is its dimension.
    pub term_index: u64,
    /// How often the field holds the term.
    pub frequency: usize,
    /// In how many fields of documents the term occurs, over all fields.
    pub documents_with_term: u128,
}

/// What the weights of the terms of one field of one document depend on.
#[derive(Debug)]
pub struct FieldSummary {
    pub doc_ref: String,
    pub field_name: String,
    /// The number of tokens of the field.
    pub length: usize,
    /// The number of tokens of all fields of this name.
    pub length_sum: u128,
    /// The number of fields of this name.
    pub instances: usize,
    /// One entry for each term of the field.
    pub terms: Vec<TermStatistic>,
}

/// Whether `summary` sums up the tally at position `s`.
pub open spec fn summarizes(entries: Seq<TermEntry>, tallies: Seq<FieldTally>, s: int, summary: FieldSummary) -> bool {
    &&& summary.doc_ref@ == tallies[s].doc
    &&& summary.field_name@ == tallies[s].field
    &&& summary.length == tallies[s].length
    &&& summary.length_sum == length_sum(tallies, tallies[s].field)
    &&& summary.instances == instance_count(tallies, tallies[s].field)
    &&& summary.terms@.len() == tallies[s].counts.len()
    &&& forall|c: int|
        0 <= c < tallies[s].counts.len() ==> (#[trigger] summary.terms@[c]) == (TermStatistic {
            term_index: (tallies[s].counts[c].term + 1) as u64,
            frequency: tallies[s].counts[c].count,
            documents_with_term: entries[tallies[s].counts[c].term as int].postings.count() as u128,
        })
}

/// What the weights depend on is fixed by what the builder holds: two
/// summaries of one tally agree in every number and every name.
pub proof fn lemma_summary_determined(
    entries: Seq<TermEntry>,
    tallies: Seq<FieldTally>,
    s: int,
    a: FieldSummary,
    b: FieldSummary,
)
    requires
        0 <= s < tallies.len(),
        summarizes(entries, tallies, s, a),
        summarizes(entries, tallies, s, b),
    ensures
        a.doc_ref@ == b.doc_ref@,
        a.field_name@ == b.field_name@,
        a.length == b.length,
        a.length_sum == b.length_sum,
        a.instances == b.instances,
        a.terms@ == b.terms@,
{
    assert(a.terms@ =~= b.terms@);
}

/// Where no field of the first `upto` tallies is called `field`, nothing is
/// summed up for it.
proof fn lemma_no_field_yet(tallies: Seq<FieldTally>, upto: int, field: Seq<char>)
    requires
        0 <= upto <= tallies.len(),
        forall|s: int| 0 <= s < upto ==> (#[trigger] tallies[s]).field != field,
    ensures
        length_sum(tallies.subrange(0, upto), field) == 0,
        instance_count(tallies.subrange(0, upto), field) == 0,
    decreases upto,
{
    if upto > 0 {
        lemma_no_field_yet(tallies, upto - 1, field);
        assert(tallies.subrange(0, upto).drop_last() =~= tallies.subrange(0, upto - 1));
        assert(tallies.subrange(0, upto).last() == tallies[upto - 1]);
    }
}

proof fn lemma_sums_bounded(tallies: Seq<FieldTally>, field: Seq<char>)
    ensures
        instance_count(tallies, field) <= tallies.len(),
        length_sum(tallies, field) <= tallies.len() * usize::MAX,
    decreases tallies.len(),
{
    if tallies.len() > 0 {
        lemma_sums_bounded(tallies.drop_last(), field);
        assert((tallies.len() - 1) * usize::MAX + usize::MAX == tallies.len() * usize::MAX) by (nonlinear_arith);
    }
}

/// Whether `copy` holds the terms of `entries` with the same numbers and
/// the same postings.
pub open spec fn same_entries(copy: Seq<TermEntry>, entries: Seq<TermEntry>) -> bool {
    &&& copy.len() == entries.len()
    &&& entry_terms(copy) == entry_terms(entries)
    &&& forall|i: int|
        0 <= i < entries.len() ==> (#[trigger] copy[i]).postings.index == entries[i].postings.index && copy[i].postings.count()
            == entries[i].postings.count()
    &&& forall|i: int, f: Seq<char>, d: Seq<char>|
        0 <= i < entries.len() ==> (#[trigger] copy[i].postings.posts(f, d)) == entries[i].postings.posts(f, d)
}

/// Whether `vector` holds, for each counted term, the weight given for it,
/// in the dimension of the term's number.
pub open spec fn weighs(vector: Seq<crate::vector::Element>, counts: Seq<TermCount>, weights: Seq<i32>) -> bool {
    &&& vector.len() == counts.len()
    &&& forall|c: int|
        0 <= c < counts.len() ==> holds(vector, (#[trigger] counts[c]).term + 1) && value_at(vector, counts[c].term + 1)
            == weights[c]
}

/// A vector that weighs the counts holds the dimensions of the counted
/// terms and no other.
pub proof fn lemma_weighs_counted(vector: Seq<crate::vector::Element>, counts: Seq<TermCount>, weights: Seq<i32>, n: int)
    requires
        crate::vector::ascending(vector),
        counts_ok(counts, n),
        weighs(vector, counts, weights),
    ensures
        forall|d: int| holds(vector, d) <==> exists|c: int| 0 <= c < counts.len() && (#[trigger] counts[c]).term + 1 == d,
{
    let dims = Seq::new(counts.len(), |c: int| counts[c].term + 1);
    let held = Seq::new(vector.len(), |i: int| vector[i].index as int);
    assert forall|i: int, j: int| 0 <= i < dims.len() && 0 <= j < dims.len() && i != j implies dims[i] != dims[j] by {
        if i < j {
            assert(counts[i].term != counts[j].term);
        } else {
            assert(counts[j].term != counts[i].term);
        }
    }
    assert forall|i: int, j: int| 0 <= i < held.len() && 0 <= j < held.len() && i != j implies held[i] != held[j] by {
        if i < j {
            assert(vector[i].index < vector[j].index);
        } else {
            assert(vector[j].index < vector[i].index);
        }
    }
    dims.unique_seq_to_set();
    held.unique_seq_to_set();
    vstd::seq_lib::seq_to_set_is_finite(dims);
    vstd::seq_lib::seq_to_set_is_finite(held);
    assert forall|d: int| dims.to_set().contains(d) implies held.to_set().contains(d) by {
        let c = choose|c: int| 0 <= c < dims.len() && dims[c] == d;
        assert(holds(vector, counts[c].term + 1));
        let i = choose|i: int| 0 <= i < vector.len() && (#[trigger] vector[i]).index == d;
        assert(held[i] == d);
    }
    vstd::set_lib::lemma_subset_equality(dims.to_set(), held.to_set());
    assert forall|d: int| holds(vector, d) <==> exists|c: int|
        0 <= c < counts.len() && (#[trigger] counts[c]).term + 1 == d by {
        if holds(vector, d) {
            let i = choose|i: int| 0 <= i < vector.len() && (#[trigger] vector[i]).index == d;
            assert(held[i] == d);
            assert(held.to_set().contains(d));
            assert(dims.to_set().contains(d));
            let c = choose|c: int| 0 <= c < dims.len() && dims[c] == d;
            assert(counts[c].term + 1 == d);
        }
    }
}

/// The counts and the weights fix the vector: two vectors that weigh the
/// same counts with the same weights are the same.
pub proof fn lemma_weighs_determined(
    a: Seq<crate::vector::Element>,
    b: Seq<crate::vector::Element>,
    counts: Seq<TermCount>,
    weights: Seq<i32>,
    n: int,
)
    requires
        crate::vector::ascending(a),
        crate::vector::ascending(b),
        counts_ok(counts, n),
        weighs(a, counts, weights),
        weighs(b, counts, weights),
    ensures
        a == b,
{
    lemma_weighs_counted(a, counts, weights, n);
    lemma_weighs_counted(b, counts, weights, n);
    assert forall|d: int| holds(a, d) implies value_at(a, d) == value_at(b, d) by {
        let c = choose|c: int| 0 <= c < counts.len() && (#[trigger] counts[c]).term + 1 == d;
        assert(value_at(a, counts[c].term + 1) == weights[c]);
        assert(value_at(b, counts[c].term + 1) == weights[c]);
    }
    crate::vector::lemma_same_values(a, b);
}

/// Whether `out` holds, for each field of each document that `builder`
/// has seen, in the order in which they were first seen, what the weights
/// of its terms depend on.
pub open spec fn summed_up(builder: Builder, out: Seq<FieldSummary>) -> bool {
    &&& out.len() == builder.tallies().len()
    &&& forall|s: int|
        0 <= s < builder.tallies().len() ==> summarizes(builder.entries(), builder.tallies(), s, #[trigger] out[s])
}

/// Whether `index` is the index of what `builder` holds, with the weights
/// `weights`: the declared names and the terms of the builder, each term
/// with its number and its postings, for each field of each document a
/// vector that holds the weight of each of its terms, and the automaton of
/// the terms.
pub open spec fn built_from(builder: Builder, weights: Seq<Vec<i32>>, index: Index) -> bool {
    &&& index.wf()
    &&& index.declared() == builder.declared()
    &&& same_entries(index.entries(), builder.entries())
    &&& index.vectors().len() == builder.tallies().len()
    &&& forall|s: int|
        0 <= s < builder.tallies().len() ==> (#[trigger] index.vectors()[s]).field_ref.doc() == builder.tallies()[s].doc
            && index.vectors()[s].field_ref.field() == builder.tallies()[s].field && weighs(
            index.vectors()[s].vector@,
            builder.tallies()[s].counts,
            weights[s]@,
        )
    &&& forall|w: Seq<char>| index.automaton().accepts(w) <==> builder.terms().contains(w)
}

impl Builder {
    /// For each field name, the sum of the lengths and the number of all
    /// fields of that name.
    fn field_totals(&self) -> (totals: (StringSet, Vec<u128>, Vec<usize>))
        ensures
            totals.0.wf(),
            totals.1@.len() == totals.0.list().len(),
            totals.2@.len() == totals.0.list().len(),
            forall|p: int|
                0 <= p < totals.0.list().len() ==> (#[trigger] totals.1@[p]) == length_sum(
                    self.tallies(),
                    totals.0.list()[p],
                ) && totals.2@[p] == instance_count(self.tallies(), totals.0.list()[p]),
            forall|s: int| 0 <= s < self.tallies().len() ==> totals.0.has((#[trigger] self.tallies()[s]).field),
    {
        let ghost tallies = self.tallies();
        let mut names = StringSet::new();
        let mut sums: Vec<u128> = Vec::new();
        let mut counts: Vec<usize> = Vec::new();
        let mut i: usize = 0;
        proof {
            assert(tallies.subrange(0, 0) =~= Seq::<FieldTally>::empty());
        }
        while i < self.field_term_frequencies.len()
            invariant
                tallies == self.tallies(),
                i <= tallies.len(),
                names.wf(),
                sums@.len() == names.list().len(),
                counts@.len() == names.list().len(),
                forall|p: int|
                    0 <= p < names.list().len() ==> (#[trigger] sums@[p]) == length_sum(
                        tallies.subrange(0, i as int),
                        names.list()[p],
                    ) && counts@[p] == instance_count(tallies.subrange(0, i as int), names.list()[p]),
                forall|s: int| 0 <= s < i ==> names.has((#[trigger] tallies[s]).field),
            decreases tallies.len() - i,
        {
            let stat = &self.field_term_frequencies[i];
            let ghost prefix = tallies.subrange(0, i as int);
            let ghost now = tallies.subrange(0, i + 1);
            let ghost field = tallies[i as int].field;
            let ghost list0 = names.list();
            let ghost sums0 = sums@;
            let ghost counts0 = counts@;
            proof {
                assert(stat.tally() == tallies[i as int]);
                assert(now.drop_last() =~= prefix);
                assert(now.last() == tallies[i as int]);
                lemma_sums_bounded(prefix, field);
                assert(i * usize::MAX + usize::MAX <= usize::MAX * usize::MAX + usize::MAX) by (nonlinear_arith)
                    requires
                        i <= usize::MAX,
                ;
                assert(usize::MAX * usize::MAX + usize::MAX < u128::MAX) by (nonlinear_arith);
            }
            match names.position(stat.field_ref.field_name()) {
                Some(p) => {
                    let sum = sums[p] + stat.length as u128;
                    let count = counts[p] + 1;
                    sums.set(p, sum);
                    counts.set(p, count);
                    proof {
                        assert forall|q: int| 0 <= q < names.list().len() implies (#[trigger] sums@[q]) == length_sum(
                            now,
                            names.list()[q],
                        ) && counts@[q] == instance_count(now, names.list()[q]) by {
                            if q != p {
                                if q < p {
                                    assert(list0[q] != list0[p as int]);
                                } else {
                                    assert(list0[p as int] != list0[q]);
                                }
                                assert(sums@[q] == sums0[q]);
                            }
                        }
                    }
                },
                None => {
                    proof {
                        assert forall|s: int| 0 <= s < i implies (#[trigger] tallies[s]).field != field by {
                            assert(names.has(tallies[s].field));
                        }
                        lemma_no_field_yet(tallies, i as int, field);
                    }
                    let added = names.insert(stat.field_ref.field_name().to_owned());
                    sums.push(stat.length as u128);
                    counts.push(1);
                    proof {
                        assert forall|q: int| 0 <= q < names.list().len() implies (#[trigger] sums@[q]) == length_sum(
                            now,
                            names.list()[q],
                        ) && counts@[q] == instance_count(now, names.list()[q]) by {
                            if q < list0.len() {
                                assert(names.list()[q] == list0[q]);
                                assert(list0.contains(list0[q]));
                                assert(sums@[q] == sums0[q]);
                            }
                        }
                        assert forall|s: int| 0 <= s < i implies names.has((#[trigger] tallies[s]).field) by {
                            lemma_push_contains(list0, field, tallies[s].field);
                        }
                    }
                },
            }
            proof {
                assert(names.has(field)) by {
                    lemma_push_contains(list0, field, field);
                }
            }
            i += 1;
        }
        proof {
            assert(tallies.subrange(0, i as int) =~= tallies);
        }
        (names, sums, counts)
    }

    /// For each field of each document, in the order in which they were
    /// first seen, what the weights of its terms depend on.
    pub fn term_statistics(&self) -> (out: Vec<FieldSummary>)
        requires
            self.wf(),
        ensures
            summed_up(*self, out@),
    {
        let ghost tallies = self.tallies();
        let ghost entries = self.entries();
        let (names, sums, counts) = self.field_totals();
        let mut out: Vec<FieldSummary> = Vec::new();
        let mut s: usize = 0;
        while s < self.field_term_frequencies.len()
            invariant
                self.wf(),
                tallies == self.tallies(),
                entries == self.entries(),
                names.wf(),
                sums@.len() == names.list().len(),
                counts@.len() == names.list().len(),
                forall|p: int|
                    0 <= p < names.list().len() ==> (#[trigger] sums@[p]) == length_sum(tallies, names.list()[p])
                        && counts@[p] == instance_count(tallies, names.list()[p]),
                forall|k: int| 0 <= k < tallies.len() ==> names.has((#[trigger] tallies[k]).field),
                s <= tallies.len(),
                out@.len() == s,
                forall|k: int| 0 <= k < s ==> summarizes(entries, tallies, k, #[trigger] out@[k]),
            decreases tallies.len() - s,
        {
            let stat = &self.field_term_frequencies[s];
            assert(stat.tally() == tallies[s as int]);
            assert(counts_ok(tallies[s as int].counts, entries.len() as int));
            assert(names.has(tallies[s as int].field));
            let totals = match names.position(stat.field_ref.field_name()) {
                Some(p) => (sums[p], counts[p]),
                None => (0, 0),
            };
            let mut terms: Vec<TermStatistic> = Vec::new();
            let mut c: usize = 0;
            while c < stat.counts.len()
                invariant
                    self.wf(),
                    entries == self.entries(),
                    stat.counts@ == tallies[s as int].counts,
                    counts_ok(stat.counts@, entries.len() as int),
                    c <= stat.counts@.len(),
                    terms@.len() == c,
                    forall|k: int|
                        0 <= k < c ==> (#[trigger] terms@[k]) == (TermStatistic {
                            term_index: (stat.counts@[k].term + 1) as u64,
                            frequency: stat.counts@[k].count,
                            documents_with_term: entries[stat.counts@[k].term as int].postings.count() as u128,
                        }),
                decreases stat.counts@.len() - c,
            {
                let count = stat.counts[c];
                assert(count.term < entries.len());
                let entry = &self.inverted_index[count.term];
                assert(entry.postings.index == count.term + 1);
                terms.push(
                    TermStatistic {
                        term_index: entry.postings.index,
                        frequency: count.count,
                        documents_with_term: entry.postings.total(),
                    },
                );
                c += 1;
            }
            out.push(
                FieldSummary {
                    doc_ref: stat.field_ref.doc_ref().to_owned(),
                    field_name: stat.field_ref.field_name().to_owned(),
                    length: stat.length,
                    length_sum: totals.0,
                    instances: totals.1,
                    terms,
                },
            );
            s += 1;
        }
        out
    }

    /// A copy of the terms with their postings.
    fn copy_entries(&self) -> (copy: Vec<TermEntry>)
        requires
            self.wf(),
        ensures
            entries_ok(copy@),
            same_entries(copy@, self.entries()),
    {
        let mut copy: Vec<TermEntry> = Vec::new();
        let mut i: usize = 0;
        while i < self.inverted_index.len()
            invariant
                self.wf(),
                i <= self.inverted_index@.len(),
                copy@.len() == i,
                forall|j: int|
                    0 <= j < i ==> (#[trigger] copy@[j]).term@ == self.inverted_index@[j].term@ && copy@[j].postings.wf()
                        && copy@[j].postings.index == self.inverted_index@[j].postings.index && copy@[j].postings.count()
                        == self.inverted_index@[j].postings.count(),
                forall|j: int, f: Seq<char>, d: Seq<char>|
                    0 <= j < i ==> (#[trigger] copy@[j].postings.posts(f, d)) == self.inverted_index@[j].postings.posts(
                        f,
                        d,
                    ),
            decreases self.inverted_index@.len() - i,
        {
            let entry = &self.inverted_index[i];
            assert(entry.postings.wf());
            let copied = TermEntry { term: entry.term.clone(), postings: entry.postings.copy() };
            copy.push(copied);
            i += 1;
        }
        proof {
            assert(entry_terms(copy@) =~= entry_terms(self.inverted_index@));
        }
        copy
    }

    /// The weight vector of the field at position `s`, from the weights given for its terms.
    fn create_field_vector(&self, s: usize, weights: &Vec<i32>) -> (vector: Vector)
        requires
            self.wf(),
            s < self.statistics().len(),
            weights@.len() == self.tallies()[s as int].counts.len(),
        ensures
            vector.wf(),
            weighs(vector@, self.tallies()[s as int].counts, weights@),
    {
        let stat = &self.field_term_frequencies[s];
        let ghost counts = stat.counts@;
        assert(stat.tally() == self.tallies()[s as int]);
        assert(counts_ok(counts, self.entries().len() as int));
        let mut vector = Vector::new();
        let n = self.inverted_index.len();
        let mut c: usize = 0;
        while c < stat.counts.len()
            invariant
                counts == stat.counts@,
                n == self.entries().len(),
                counts_ok(counts, self.entries().len() as int),
                weights@.len() == counts.len(),
                c <= counts.len(),
                vector.wf(),
                vector@.len() == c,
                forall|d: int| holds(vector@, d) == exists|k: int| 0 <= k < c && (#[trigger] counts[k]).term + 1 == d,
                forall|k: int| 0 <= k < c ==> value_at(vector@, (#[trigger] counts[k]).term + 1) == weights@[k],
            decreases counts.len() - c,
        {
            let count = stat.counts[c];
            let ghost before = vector@;
            assert(counts[c as int].term < n);
            proof {
                if holds(before, count.term + 1) {
                    let k = choose|k: int| 0 <= k < c && (#[trigger] counts[k]).term + 1 == count.term + 1;
                    assert(counts[k].term != counts[c as int].term);
                }
            }
            vector.insert(count.term + 1, weights[c]);
            proof {
                let pos = choose|pos: int|
                    0 <= pos <= before.len() && vector@ == #[trigger] before.insert(
                        pos,
                        crate::vector::Element { index: (count.term + 1) as usize, value: weights@[c as int] },
                    );
                assert forall|d: int| holds(vector@, d) == exists|k: int|
                    0 <= k < c + 1 && (#[trigger] counts[k]).term + 1 == d by {
                    if exists|k: int| 0 <= k < c + 1 && (#[trigger] counts[k]).term + 1 == d {
                        let k = choose|k: int| 0 <= k < c + 1 && (#[trigger] counts[k]).term + 1 == d;
                        if k < c {
                            assert(0 <= k < c && counts[k].term + 1 == d);
                        }
                    }
                    if exists|k: int| 0 <= k < c && (#[trigger] counts[k]).term + 1 == d {
                        let k = choose|k: int| 0 <= k < c && (#[trigger] counts[k]).term + 1 == d;
                        assert(0 <= k < c + 1 && counts[k].term + 1 == d);
                    }
                    if d == count.term + 1 {
                        assert(0 <= c < c + 1 && counts[c as int].term + 1 == d);
                    }
                }
                assert forall|k: int| 0 <= k < c + 1 implies value_at(vector@, (#[trigger] counts[k]).term + 1)
                    == weights@[k] by {
                    if k < c {
                        assert(counts[k].term != counts[c as int].term);
                    }
                }
            }
            c += 1;
        }
        proof {
            assert forall|k: int| 0 <= k < counts.len() implies holds(vector@, (#[trigger] counts[k]).term + 1) by {
                assert(0 <= k < c && counts[k].term + 1 == counts[k].term + 1);
            }
        }
        vector
    }

    /// The automaton of the vocabulary.
    fn create_token_set(&self) -> (set: TokenSet)
        requires
            self.wf(),
        ensures
            set.wf(),
            set.is_acyclic(),
            forall|w: Seq<char>| set.accepts(w) <==> self.terms().contains(w),
    {
        let mut tokens: Vec<String> = Vec::new();
        let mut i: usize = 0;
        while i < self.inverted_index.len()
            invariant
                i <= self.inverted_index@.len(),
                tokens@.len() == i,
                forall|j: int| 0 <= j < i ==> (#[trigger] tokens@[j])@ == self.inverted_index@[j].term@,
            decreases self.inverted_index@.len() - i,
        {
            tokens.push(self.inverted_index[i].term.clone());
            i += 1;
        }
        let ghost unsorted = tokens@;
        let tokens = sorted(&tokens);
        let set = TokenSet::from_array(&tokens);
        proof {
            assert forall|w: Seq<char>| set.accepts(w) <==> self.terms().contains(w) by {
                assert(listed(tokens@, w) == listed(unsorted, w));
                if listed(unsorted, w) {
                    let j = choose|j: int| 0 <= j < unsorted.len() && (#[trigger] unsorted[j])@ == w;
                    assert(self.terms()[j] == w);
                }
                if self.terms().contains(w) {
                    let j = choose|j: int| 0 <= j < self.terms().len() && self.terms()[j] == w;
                    assert(unsorted[j]@ == w);
                }
            }
        }
        set
    }

    /// The index of the documents added so far. `weights` holds, for each
    /// field in the order of [`Builder::term_statistics`] and for each of
    /// its terms, the weight of the term, in thousandths.
    pub fn build(&self, weights: &Vec<Vec<i32>>) -> (index: Index)
        requires
            self.wf(),
            weights@.len() == self.tallies().len(),
            forall|s: int| 0 <= s < weights@.len() ==> (#[trigger] weights@[s])@.len() == self.tallies()[s].counts.len(),
        ensures
            built_from(*self, weights@, index),
    {
        let ghost tallies = self.tallies();
        let entries = self.copy_entries();
        let mut vectors: Vec<FieldVector> = Vec::new();
        let mut s: usize = 0;
        while s < self.field_term_frequencies.len()
            invariant
                self.wf(),
                tallies == self.tallies(),
                weights@.len() == tallies.len(),
                forall|k: int| 0 <= k < weights@.len() ==> (#[trigger] weights@[k])@.len() == tallies[k].counts.len(),
                s <= tallies.len(),
                vectors@.len() == s,
                forall|k: int|
                    0 <= k < s ==> (#[trigger] vectors@[k]).vector.wf() && vectors@[k].field_ref.doc() == tallies[k].doc
                        && vectors@[k].field_ref.field() == tallies[k].field && weighs(
                        vectors@[k].vector@,
                        tallies[k].counts,
                        weights@[k]@,
                    ),
            decreases tallies.len() - s,
        {
            let stat = &self.field_term_frequencies[s];
            assert(stat.tally() == tallies[s as int]);
            let vector = self.create_field_vector(s, &weights[s]);
            let field_ref = FieldRef::new(stat.field_ref.doc_ref().to_owned(), stat.field_ref.field_name().to_owned());
            vectors.push(FieldVector { field_ref, vector });
            s += 1;
        }
        let token_set = self.create_token_set();
        let names = self.field_names.copy();
        proof {
            assert forall|i: int, j: int| 0 <= i < j < vectors@.len() implies !((#[trigger] vectors@[i]).field_ref.doc() == (
            #[trigger] vectors@[j]).field_ref.doc() && vectors@[i].field_ref.field() == vectors@[j].field_ref.field()) by {
                assert(!(tallies[i].doc == tallies[j].doc && tallies[i].field == tallies[j].field));
            }
            assert(entry_terms(entries@) == self.terms());
        }
        Index::new(entries, vectors, token_set, names)
    }
}

} // verus!
