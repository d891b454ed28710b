use sagume::document::Document;
use sagume::field::{Field, FieldParseError, FieldRef, FieldValue};

fn sample() -> Document {
    let mut doc = Document::new("1".into());
    doc.add_field(Field::new_text("title".into(), "Lucene in Action".into()));
    doc.add_field(Field::new_u64("pages".into(), 421));
    doc.add_field(Field::new_text("title".into(), "Second title".into()));
    doc.add_field(Field::new_i64("delta".into(), -17));
    doc
}

#[test]
fn document_keeps_fields_in_order() {
    let doc = sample();
    assert_eq!(doc.doc_ref(), "1");
    let names: Vec<&str> = doc.get_all_fields().iter().map(|f| f.name()).collect();
    assert_eq!(names, vec!["title", "pages", "title", "delta"]);
}

#[test]
fn get_field_finds_the_first() {
    let doc = sample();
    assert_eq!(*doc.get_field("title").unwrap().value(), FieldValue::Text("Lucene in Action".into()));
    assert!(doc.get_field("isbn").is_none());
    assert_eq!(*doc.get("pages").unwrap(), FieldValue::U64(421));
    assert!(doc.get("isbn").is_none());
}

#[test]
fn get_fields_finds_all() {
    let doc = sample();
    assert_eq!(doc.get_fields("title").len(), 2);
    assert_eq!(doc.get_fields("isbn").len(), 0);
    let values = doc.get_values("title");
    assert_eq!(values.len(), 2);
    assert_eq!(*values[1], FieldValue::Text("Second title".into()));
}

#[test]
fn remove_field_takes_out_the_first() {
    let mut doc = sample();
    doc.remove_field("title");
    let names: Vec<&str> = doc.get_all_fields().iter().map(|f| f.name()).collect();
    assert_eq!(names, vec!["pages", "title", "delta"]);
    doc.remove_field("isbn");
    assert_eq!(doc.get_all_fields().len(), 3);
}

#[test]
fn remove_fields_keeps_the_named_ones() {
    let mut doc = sample();
    doc.remove_fields("title");
    let names: Vec<&str> = doc.get_all_fields().iter().map(|f| f.name()).collect();
    assert_eq!(names, vec!["title", "title"]);
}

#[test]
fn field_values_as_text() {
    assert_eq!(FieldValue::U64(0).to_string(), "0");
    assert_eq!(FieldValue::U64(18446744073709551615).to_string(), "18446744073709551615");
    assert_eq!(FieldValue::I64(-17).to_string(), "-17");
    assert_eq!(FieldValue::I64(i64::MIN).to_string(), "-9223372036854775808");
    assert_eq!(FieldValue::I64(40).to_string(), "40");
    assert_eq!(FieldValue::Text("good".into()).to_string(), "good");
}

#[test]
fn field_ref_text_form() {
    let key = FieldRef::new("42".into(), "title".into());
    assert_eq!(key.doc_ref(), "42");
    assert_eq!(key.field_name(), "title");
    assert_eq!(key.to_str(), "title/42");
    let back = FieldRef::from_string(key.to_str()).unwrap();
    assert!(back.same(&key));
    assert_eq!(back, key);
}

#[test]
fn field_ref_is_cut_at_the_first_joiner() {
    let key = FieldRef::from_string("author/age/7".into()).unwrap();
    assert_eq!(key.field_name(), "author");
    assert_eq!(key.doc_ref(), "age/7");
    let key = FieldRef::from_string("/".into()).unwrap();
    assert_eq!(key.field_name(), "");
    assert_eq!(key.doc_ref(), "");
}

#[test]
fn field_ref_without_joiner_is_refused() {
    assert_eq!(FieldRef::from_string("title".into()), Err(FieldParseError));
    assert_eq!(FieldRef::from_string("".into()), Err(FieldParseError));
}
