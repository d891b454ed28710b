//! Fields of a document, and the key of one document's instance of one field.

use vstd::prelude::*;
use crate::text::{char_at, chars_of, decimal, decimal_string, signed_decimal, signed_decimal_string, string_of};

verus! {

/// The character between field name and document reference in the text form
/// of a [`FieldRef`].
pub const FIELD_REF_JOINER: char = '/';

/// The value of a field.
#[derive(Debug, Clone, PartialEq, Eq, PartialOrd, Ord)]
pub enum FieldValue {
    U64(u64),
    I64(i64),
    Text(String),
}

impl FieldValue {
    /// The value as text: numbers in decimal, text as it is.
    pub open spec fn text(&self) -> Seq<char> {
        match self {
            FieldValue::U64(v) => decimal(*v as nat),
            FieldValue::I64(v) => signed_decimal(*v as int),
            FieldValue::Text(t) => t@,
        }
    }

    /// The value as text: numbers in decimal, text as it is.
    pub fn to_string(&self) -> (out: String)
        ensures
            out@ == self.text(),
    {
        match self {
            FieldValue::U64(v) => decimal_string(*v),
            FieldValue::I64(v) => signed_decimal_string(*v),
            FieldValue::Text(t) => t.clone(),
        }
    }
}

/// A named value of a document.
#[derive(Debug)]
pub struct Field {
    name: String,
    value: FieldValue,
}

impl Field {
    /// The name of the field.
    pub closed spec fn name_view(&self) -> Seq<char> {
        self.name@
    }

    /// The value of the field.
    pub closed spec fn value_view(&self) -> FieldValue {
        self.value
    }

    pub fn new_text(name: String, value: String) -> (field: Field)
        ensures
            field.name_view() == name@,
            field.value_view() == FieldValue::Text(value),
    {
        Field { name, value: FieldValue::Text(value) }
    }

    pub fn new_u64(name: String, value: u64) -> (field: Field)
        ensures
            field.name_view() == name@,
            field.value_view() == FieldValue::U64(value),
    {
        Field { name, value: FieldValue::U64(value) }
    }

    pub fn new_i64(name: String, value: i64) -> (field: Field)
        ensures
            field.name_view() == name@,
            field.value_view() == FieldValue::I64(value),
    {
        Field { name, value: FieldValue::I64(value) }
    }

    pub fn name(&self) -> (name: &str)
        ensures
            name@ == self.name_view(),
    {
        self.name.as_str()
    }

    pub fn value(&self) -> (value: &FieldValue)
        ensures
            *value == self.value_view(),
    {
        &self.value
    }
}

/// The text handed to [`FieldRef::from_string`] holds no joiner.
#[derive(Debug, Clone, Copy, PartialEq, Eq)]
pub struct FieldParseError;

/// The key of one document's instance of one field.
#[derive(Debug, Clone, PartialEq, Eq, Hash)]
pub struct FieldRef {
    doc_ref: String,
    field_name: String,
}

impl FieldRef {
    /// The reference of the document.
    pub closed spec fn doc(&self) -> Seq<char> {
        self.doc_ref@
    }

    /// The name of the field.
    pub closed spec fn field(&self) -> Seq<char> {
        self.field_name@
    }

    pub fn new(doc_ref: String, field_name: String) -> (key: FieldRef)
        ensures
            key.doc() == doc_ref@,
            key.field() == field_name@,
    {
        FieldRef { doc_ref, field_name }
    }

    pub fn doc_ref(&self) -> (doc_ref: &str)
        ensures
            doc_ref@ == self.doc(),
    {
        self.doc_ref.as_str()
    }

    pub fn field_name(&self) -> (field_name: &str)
        ensures
            field_name@ == self.field(),
    {
        self.field_name.as_str()
    }

    /// Whether `self` and `other` name the same field of the same document.
    pub fn same(&self, other: &FieldRef) -> (same: bool)
        ensures
            same == (self.doc() == other.doc() && self.field() == other.field()),
    {
        self.doc_ref == other.doc_ref && self.field_name == other.field_name
    }

    /// Reads the text form: the field name, the joiner, the document
    /// reference. The text is cut at its first joiner, so the field name
    /// holds none; a text without a joiner is refused.
    pub fn from_string(s: String) -> (parsed: Result<FieldRef, FieldParseError>)
        ensures
            parsed is Ok <==> s@.contains(FIELD_REF_JOINER),
            parsed matches Ok(key) ==> s@ == key.field() + seq![FIELD_REF_JOINER] + key.doc() && !key.field().contains(
                FIELD_REF_JOINER,
            ),
    {
        let chars = chars_of(s.as_str());
        let n = chars.len();
        let mut i: usize = 0;
        while i < n
            invariant
                n == chars@.len(),
                chars@ == s@,
                i <= n,
                forall|j: int| 0 <= j < i ==> chars@[j] != FIELD_REF_JOINER,
            decreases n - i,
        {
            if char_at(&chars, i) == FIELD_REF_JOINER {
                let mut name: Vec<char> = Vec::new();
                let mut doc: Vec<char> = Vec::new();
                let mut j: usize = 0;
                while j < i
                    invariant
                        j <= i,
                        i < n,
                        n == chars@.len(),
                        chars@ == s@,
                        chars@[i as int] == FIELD_REF_JOINER,
                        forall|j: int| 0 <= j < i ==> chars@[j] != FIELD_REF_JOINER,
                        name@ == chars@.subrange(0, j as int),
                    decreases i - j,
                {
                    name.push(char_at(&chars, j));
                    j += 1;
                    assert(name@ =~= chars@.subrange(0, j as int));
                }
                let mut j: usize = i + 1;
                while j < n
                    invariant
                        i < j <= n,
                        n == chars@.len(),
                        chars@ == s@,
                        chars@[i as int] == FIELD_REF_JOINER,
                        forall|j: int| 0 <= j < i ==> chars@[j] != FIELD_REF_JOINER,
                        name@ == chars@.subrange(0, i as int),
                        doc@ == chars@.subrange(i + 1, j as int),
                    decreases n - j,
                {
                    doc.push(char_at(&chars, j));
                    j += 1;
                    assert(doc@ =~= chars@.subrange(i + 1, j as int));
                }
                let key = FieldRef { field_name: string_of(&name), doc_ref: string_of(&doc) };
                proof {
                    assert(s@ =~= key.field() + seq![FIELD_REF_JOINER] + key.doc());
                    assert(s@[i as int] == FIELD_REF_JOINER);
                    assert(!key.field().contains(FIELD_REF_JOINER)) by {
                        if key.field().contains(FIELD_REF_JOINER) {
                            let j = choose|j: int| 0 <= j < key.field().len() && key.field()[j] == FIELD_REF_JOINER;
                            assert(chars@[j] == FIELD_REF_JOINER);
                        }
                    }
                }
                return Ok(key);
            }
            i += 1;
        }
        proof {
            if s@.contains(FIELD_REF_JOINER) {
                let j = choose|j: int| 0 <= j < s@.len() && s@[j] == FIELD_REF_JOINER;
                assert(chars@[j] != FIELD_REF_JOINER);
            }
        }
        Err(FieldParseError)
    }

    /// The text form: the field name, the joiner, the document reference.
    pub fn to_str(&self) -> (out: String)
        ensures
            out@ == self.field() + seq![FIELD_REF_JOINER] + self.doc(),
    {
        let mut cs = chars_of(self.field_name.as_str());
        cs.push(FIELD_REF_JOINER);
        let doc = chars_of(self.doc_ref.as_str());
        let mut j: usize = 0;
        while j < doc.len()
            invariant
                j <= doc@.len(),
                doc@ == self.doc_ref@,
                cs@ == self.field_name@ + seq![FIELD_REF_JOINER] + doc@.subrange(0, j as int),
            decreases doc@.len() - j,
        {
            cs.push(char_at(&doc, j));
            j += 1;
            assert(cs@ =~= self.field_name@ + seq![FIELD_REF_JOINER] + doc@.subrange(0, j as int));
        }
        assert(doc@.subrange(0, j as int) =~= doc@);
        string_of(&cs)
    }
}

/// The text form of a key is read back as that key, as long as the field
/// name holds no joiner: a text has one cut only at its first joiner.
pub proof fn lemma_field_ref_text_unique(a: FieldRef, b: FieldRef)
    requires
        !a.field().contains(FIELD_REF_JOINER),
        !b.field().contains(FIELD_REF_JOINER),
        a.field() + seq![FIELD_REF_JOINER] + a.doc() == b.field() + seq![FIELD_REF_JOINER] + b.doc(),
    ensures
        a.field() == b.field(),
        a.doc() == b.doc(),
{
    let ta = a.field() + seq![FIELD_REF_JOINER] + a.doc();
    let tb = b.field() + seq![FIELD_REF_JOINER] + b.doc();
    let la = a.field().len() as int;
    let lb = b.field().len() as int;
    assert(ta[la] == FIELD_REF_JOINER);
    assert(tb[lb] == FIELD_REF_JOINER);
    if la < lb {
        assert(tb[la] == b.field()[la]);
        assert(b.field().contains(FIELD_REF_JOINER));
    }
    if lb < la {
        assert(ta[lb] == a.field()[lb]);
        assert(a.field().contains(FIELD_REF_JOINER));
    }
    assert(a.field() =~= ta.subrange(0, la));
    assert(b.field() =~= tb.subrange(0, lb));
    assert(a.doc() =~= ta.subrange(la + 1, ta.len() as int));
    assert(b.doc() =~= tb.subrange(lb + 1, tb.len() as int));
}

} // verus!
