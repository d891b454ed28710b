//! Documents: a reference chosen by the caller and an ordered list of fields.

use vstd::prelude::*;
use crate::field::{Field, FieldValue};
use crate::text::same_text;

verus! {

/// A document to be indexed.
#[derive(Debug)]
pub struct Document {
    doc_ref: String,
    fields: Vec<Field>,
}

/// Whether `field` is called `name`.
pub open spec fn named(field: Field, name: Seq<char>) -> bool {
    field.name_view() == name
}

/// The fields of `fields` that are called `name`, in their order.
pub open spec fn fields_named(fields: Seq<Field>, name: Seq<char>) -> Seq<Field> {
    fields.filter(|f: Field| named(f, name))
}

/// The position of the first field called `name`, or the length of `fields`
/// if there is none.
pub open spec fn first_named(fields: Seq<Field>, name: Seq<char>) -> int
    decreases fields.len(),
{
    if fields.len() == 0 {
        0
    } else if named(fields[0], name) {
        0
    } else {
        1 + first_named(fields.drop_first(), name)
    }
}

pub proof fn lemma_first_named(fields: Seq<Field>, name: Seq<char>, i: int)
    requires
        0 <= i <= fields.len(),
        forall|j: int| 0 <= j < i ==> !named(#[trigger] fields[j], name),
        i < fields.len() ==> named(fields[i], name),
    ensures
        first_named(fields, name) == i,
    decreases fields.len(),
{
    if fields.len() == 0 {
    } else if i == 0 {
    } else {
        assert(!named(fields[0], name));
        let rest = fields.drop_first();
        assert forall|j: int| 0 <= j < i - 1 implies !named(#[trigger] rest[j], name) by {
            assert(rest[j] == fields[j + 1]);
        }
        lemma_first_named(rest, name, i - 1);
    }
}

proof fn lemma_filter_push(fields: Seq<Field>, f: Field, name: Seq<char>)
    ensures
        fields_named(fields.push(f), name) == if named(f, name) {
            fields_named(fields, name).push(f)
        } else {
            fields_named(fields, name)
        },
{
    reveal(Seq::filter);
    assert(fields.push(f).drop_last() =~= fields);
}

impl Document {
    /// The reference of the document.
    pub closed spec fn reference(&self) -> Seq<char> {
        self.doc_ref@
    }

    /// The fields of the document, in the order in which they were added.
    pub closed spec fn fields(&self) -> Seq<Field> {
        self.fields@
    }

    /// The document `doc_ref` without fields.
    pub fn new(doc_ref: String) -> (doc: Document)
        ensures
            doc.reference() == doc_ref@,
            doc.fields().len() == 0,
    {
        Document { doc_ref, fields: Vec::new() }
    }

    pub fn doc_ref(&self) -> (doc_ref: &str)
        ensures
            doc_ref@ == self.reference(),
    {
        self.doc_ref.as_str()
    }

    /// Puts `field` behind the fields of the document.
    pub fn add_field(&mut self, field: Field)
        ensures
            final(self).fields() == old(self).fields().push(field),
            final(self).reference() == old(self).reference(),
    {
        self.fields.push(field);
    }

    /// The first field called `name`.
    pub fn get_field(&self, name: &str) -> (found: Option<&Field>)
        ensures
            match found {
                Some(f) => first_named(self.fields(), name@) < self.fields().len() && *f == self.fields()[first_named(
                    self.fields(),
                    name@,
                )],
                None => first_named(self.fields(), name@) == self.fields().len(),
            },
    {
        let mut i: usize = 0;
        while i < self.fields.len()
            invariant
                i <= self.fields@.len(),
                forall|j: int| 0 <= j < i ==> !named(#[trigger] self.fields@[j], name@),
            decreases self.fields@.len() - i,
        {
            if same_text(self.fields[i].name(), name) {
                proof {
                    lemma_first_named(self.fields@, name@, i as int);
                }
                return Some(&self.fields[i]);
            }
            i += 1;
        }
        proof {
            lemma_first_named(self.fields@, name@, i as int);
        }
        None
    }

    /// The fields called `name`, in their order.
    pub fn get_fields(&self, name: &str) -> (found: Vec<&Field>)
        ensures
            found@.map_values(|f: &Field| *f) == fields_named(self.fields(), name@),
    {
        let mut found: Vec<&Field> = Vec::new();
        let mut i: usize = 0;
        proof {
            assert(self.fields@.subrange(0, 0) =~= Seq::<Field>::empty());
            assert(found@.map_values(|f: &Field| *f) =~= fields_named(self.fields@.subrange(0, 0), name@));
        }
        while i < self.fields.len()
            invariant
                i <= self.fields@.len(),
                found@.map_values(|f: &Field| *f) == fields_named(self.fields@.subrange(0, i as int), name@),
            decreases self.fields@.len() - i,
        {
            let ghost before = found@;
            proof {
                lemma_filter_push(self.fields@.subrange(0, i as int), self.fields@[i as int], name@);
                assert(self.fields@.subrange(0, i + 1) =~= self.fields@.subrange(0, i as int).push(
                    self.fields@[i as int],
                ));
            }
            if same_text(self.fields[i].name(), name) {
                found.push(&self.fields[i]);
                assert(found@.map_values(|f: &Field| *f) =~= before.map_values(|f: &Field| *f).push(
                    self.fields@[i as int],
                ));
            }
            i += 1;
        }
        assert(self.fields@.subrange(0, i as int) =~= self.fields@);
        found
    }

    /// Takes out the first field called `name`, if there is one.
    pub fn remove_field(&mut self, name: &str)
        ensures
            final(self).reference() == old(self).reference(),
            final(self).fields() == if first_named(old(self).fields(), name@) < old(self).fields().len() {
                old(self).fields().remove(first_named(old(self).fields(), name@))
            } else {
                old(self).fields()
            },
    {
        let mut i: usize = 0;
        while i < self.fields.len()
            invariant
                self.fields@ == old(self).fields@,
                self.doc_ref@ == old(self).doc_ref@,
                i <= self.fields@.len(),
                forall|j: int| 0 <= j < i ==> !named(#[trigger] self.fields@[j], name@),
            decreases self.fields@.len() - i,
        {
            if same_text(self.fields[i].name(), name) {
                proof {
                    lemma_first_named(self.fields@, name@, i as int);
                }
                self.fields.remove(i);
                return ;
            }
            i += 1;
        }
        proof {
            lemma_first_named(self.fields@, name@, i as int);
        }
    }

    /// Keeps the fields called `name` and takes out all others.
    pub fn remove_fields(&mut self, name: &str)
        ensures
            final(self).reference() == old(self).reference(),
            final(self).fields() == fields_named(old(self).fields(), name@),
    {
        let mut kept: Vec<Field> = Vec::new();
        let ghost all = self.fields@;
        let ghost n = all.len();
        proof {
            assert(all.subrange(0, 0) =~= Seq::<Field>::empty());
            assert(kept@ =~= fields_named(all.subrange(0, 0), name@));
            assert(all.subrange(0, n as int) =~= all);
        }
        while self.fields.len() > 0
            invariant
                self.doc_ref@ == old(self).doc_ref@,
                all == old(self).fields@,
                n == all.len(),
                self.fields@.len() <= n,
                self.fields@ == all.subrange(n - self.fields@.len(), n as int),
                kept@ == fields_named(all.subrange(0, n - self.fields@.len()), name@),
            decreases self.fields@.len(),
        {
            let ghost i = n - self.fields@.len();
            let field = self.fields.remove(0);
            proof {
                assert(field == all[i]);
                assert(self.fields@ =~= all.subrange(i + 1, n as int));
                lemma_filter_push(all.subrange(0, i), field, name@);
                assert(all.subrange(0, i + 1) =~= all.subrange(0, i).push(field));
            }
            if same_text(field.name(), name) {
                kept.push(field);
            }
        }
        proof {
            assert(all.subrange(0, n as int) =~= all);
        }
        self.fields = kept;
    }

    /// All fields, in their order.
    pub fn get_all_fields(&self) -> (found: Vec<&Field>)
        ensures
            found@.map_values(|f: &Field| *f) == self.fields(),
    {
        let mut found: Vec<&Field> = Vec::new();
        let mut i: usize = 0;
        while i < self.fields.len()
            invariant
                i <= self.fields@.len(),
                found@.map_values(|f: &Field| *f) == self.fields@.subrange(0, i as int),
            decreases self.fields@.len() - i,
        {
            let ghost before = found@;
            found.push(&self.fields[i]);
            i += 1;
            assert(found@.map_values(|f: &Field| *f) =~= self.fields@.subrange(0, i as int)) by {
                assert(found@.map_values(|f: &Field| *f) =~= before.map_values(|f: &Field| *f).push(
                    self.fields@[i - 1],
                ));
            }
        }
        assert(self.fields@.subrange(0, i as int) =~= self.fields@);
        found
    }

    /// The values of the fields called `name`, in their order.
    pub fn get_values(&self, name: &str) -> (found: Vec<&FieldValue>)
        ensures
            found@.map_values(|v: &FieldValue| *v) == fields_named(self.fields(), name@).map_values(
                |f: Field| f.value_view(),
            ),
    {
        let mut found: Vec<&FieldValue> = Vec::new();
        let mut i: usize = 0;
        proof {
            assert(self.fields@.subrange(0, 0) =~= Seq::<Field>::empty());
            assert(found@.map_values(|v: &FieldValue| *v) =~= fields_named(
                self.fields@.subrange(0, 0),
                name@,
            ).map_values(|f: Field| f.value_view()));
        }
        while i < self.fields.len()
            invariant
                i <= self.fields@.len(),
                found@.map_values(|v: &FieldValue| *v) == fields_named(
                    self.fields@.subrange(0, i as int),
                    name@,
                ).map_values(|f: Field| f.value_view()),
            decreases self.fields@.len() - i,
        {
            let ghost before = found@;
            let ghost named_before = fields_named(self.fields@.subrange(0, i as int), name@);
            proof {
                lemma_filter_push(self.fields@.subrange(0, i as int), self.fields@[i as int], name@);
                assert(self.fields@.subrange(0, i + 1) =~= self.fields@.subrange(0, i as int).push(
                    self.fields@[i as int],
                ));
            }
            if same_text(self.fields[i].name(), name) {
                found.push(self.fields[i].value());
                assert(found@.map_values(|v: &FieldValue| *v) =~= named_before.push(
                    self.fields@[i as int],
                ).map_values(|f: Field| f.value_view())) by {
                    assert(found@.map_values(|v: &FieldValue| *v) =~= before.map_values(|v: &FieldValue| *v).push(
                        self.fields@[i as int].value_view(),
                    ));
                }
            }
            i += 1;
        }
        assert(self.fields@.subrange(0, i as int) =~= self.fields@);
        found
    }

    /// The value of the first field called `name`.
    pub fn get(&self, name: &str) -> (found: Option<&FieldValue>)
        ensures
            match found {
                Some(v) => first_named(self.fields(), name@) < self.fields().len() && *v == self.fields()[first_named(
                    self.fields(),
                    name@,
                )].value_view(),
                None => first_named(self.fields(), name@) == self.fields().len(),
            },
    {
        match self.get_field(name) {
            Some(field) => Some(field.value()),
            None => None,
        }
    }
}

} // verus!
