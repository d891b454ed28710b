use sagume::builder::{Builder, FieldSummary};
use sagume::document::Document;
use sagume::field::{Field, FieldRef};
use sagume::index::eval::MatchResult;
use sagume::index::{Index, MatchData};
use sagume::query::{Clause, Presence, Query};
use sagume::token::TokenSet;

/// The weight of each term of each field, in thousandths.
fn weights(summaries: &[FieldSummary], documents: usize, b: i64, k1: i64) -> Vec<Vec<i32>> {
    let b = b as f64 / 1000.0;
    let k1 = k1 as f64 / 1000.0;
    summaries
        .iter()
        .map(|field| {
            let average = field.length_sum as f64 / field.instances as f64;
            field
                .terms
                .iter()
                .map(|term| {
                    let with_term = term.documents_with_term as f64;
                    let x = (documents as f64 - with_term + 0.5) / (with_term + 0.5);
                    let idf = (x.abs() + 1.0).ln();
                    let tf = term.frequency as f64;
                    let score =
                        idf * ((k1 + 1.0) * tf) / (k1 * (1.0 - b + b * (field.length as f64 / average)) + tf);
                    (score * 1000.0).round() as i32
                })
                .collect()
        })
        .collect()
}

fn build(builder: &Builder) -> Index {
    let summaries = builder.term_statistics();
    let weights = weights(&summaries, builder.document_count(), builder.b_milli(), builder.k1_milli());
    builder.build(&weights)
}

fn score(result: &MatchResult) -> f64 {
    result
        .parts()
        .iter()
        .map(|part| if part.norm == 0 { 0.0 } else { part.dot as f64 / 1000.0 / (part.norm as f64).sqrt() })
        .sum()
}

/// The results with their scores, the lowest score first.
fn search(index: &Index, query: &Query) -> Vec<(String, f64)> {
    let mut results: Vec<(String, f64)> =
        index.query(query).iter().map(|r| (r.doc_ref().to_string(), score(r))).collect();
    results.sort_by(|a, b| a.1.partial_cmp(&b.1).unwrap_or(std::cmp::Ordering::Less));
    results
}

fn get_index() -> Index {
    let mut doc1 = Document::new("a".into());
    doc1.add_field(Field::new_text(
        "title".into(),
        "Mr. Green kills Colonel Mustard".into(),
    ));
    doc1.add_field(Field::new_text(
            "body".into(),
            "Mr. Green killed Colonel Mustard in the study with the candlestick. Mr. Green is not a very nice fellow.".into()));

    let mut doc2 = Document::new("b".into());
    doc2.add_field(Field::new_text("title".into(), "Plumb waters plant".into()));
    doc2.add_field(Field::new_text(
        "body".into(),
        "Professor Plumb has a green plant in his study".into(),
    ));

    let mut doc3 = Document::new("c".into());
    doc3.add_field(Field::new_text(
        "title".into(),
        "Scarlett helps Professor".into(),
    ));
    doc3.add_field(Field::new_text( "body".into(), "Miss Scarlett watered Professor Plumbs green plant while he was away from his office last week.".into()));

    let mut builder = Builder::new();
    builder.add_field("title".into());
    builder.add_field("body".into());
    for doc in vec![doc1, doc2, doc3] {
        builder.add_document(doc);
    }
    build(&builder)
}

fn names(results: &[(String, f64)]) -> Vec<&str> {
    let mut out: Vec<&str> = results.iter().map(|r| r.0.as_str()).collect();
    out.sort();
    out
}

fn clause(term: &str, presence: Presence) -> Clause {
    let mut c = Clause::new(term.into());
    c.set_presence(presence);
    c
}

#[test]
fn test_search_with_single_term() {
    // one match
    let mut q = Query::new();
    q.add_clause(Clause::new("scarlett".into()));

    let index = get_index();
    let results = search(&index, &q);

    assert_eq!(results.len(), 1);
    assert_eq!(results.first().unwrap().0, "c")
}

#[test]
fn test_search_result_order() {
    let mut q = Query::new();
    q.add_clause(Clause::new("professor".into()));

    let index = get_index();
    let results = search(&index, &q);

    assert_eq!(results.first().unwrap().0, "b");
}

#[test]
fn test_build() {
    let mut doc = Document::new("1".into());
    doc.add_field(Field::new_text("title".into(), "Lucene in Action".into()));
    doc.add_field(Field::new_text("isbn".into(), "9781932394283".into()));
    doc.add_field(Field::new_text("memo".into(), "good".into()));

    let mut b = Builder::new();
    b.add_field("title".into());
    b.add_field("isbn".into());
    b.add_document(doc);
    let index = build(&b);

    assert!(index.entry("lucene").unwrap().contains("title", "1"));
    assert!(index.field_vector(&FieldRef::new("1".into(), "title".into())).is_some());

    assert_eq!(
        index
            .token_set()
            .intersect(&TokenSet::from_string("action"))
            .to_vec(),
        vec!["action"],
    );
}

#[test]
fn test_add() {
    let mut doc = Document::new("1".into());
    doc.add_field(Field::new_text("title".into(), "constructor".into()));
    doc.add_field(Field::new_text("memo".into(), "good".into()));

    let mut b = Builder::new();
    b.add_field("title".into());
    b.add_document(doc);

    assert!(b.postings("constructor").unwrap().contains("title", "1"));
    assert!(b.postings("missing").is_none());
    let summaries = b.term_statistics();
    let title = summaries.iter().find(|s| s.doc_ref == "1" && s.field_name == "title").unwrap();
    assert_eq!(title.terms[0].frequency, 1);
    assert_eq!(title.terms[0].term_index, b.postings("constructor").unwrap().index);
    assert_eq!(b.document_count(), 1);
}

#[test]
fn test_define_field() {
    let mut b = Builder::new();
    b.add_field("title".into());
    b.add_field("isbn".into());
    b.add_field("author/age".into());
    assert!(b.has_field("title"));
    assert!(b.has_field("isbn"));
    assert!(b.has_field("author/age"));
}

#[test]
fn test_b() {
    let mut b = Builder::new();
    assert_eq!(b.b_milli(), 750);

    b.b(500);
    assert_eq!(b.b_milli(), 500);

    b.b(-1000);
    assert_eq!(b.b_milli(), 0);

    b.b(1500);
    assert_eq!(b.b_milli(), 1000);
}

#[test]
fn test_k1() {
    let mut b = Builder::new();
    assert_eq!(b.k1_milli(), 1200);

    b.k1(500);
    assert_eq!(b.k1_milli(), 500);
}

#[test]
fn terms_are_numbered_as_they_are_first_seen() {
    let mut b = Builder::new();
    b.add_term("1", "title", "zebra");
    b.add_term("1", "title", "apple");
    b.add_term("2", "title", "zebra");
    assert_eq!(b.postings("zebra").unwrap().index, 1);
    assert_eq!(b.postings("apple").unwrap().index, 2);
    assert!(b.postings("zebra").unwrap().contains("title", "2"));
    assert!(!b.postings("apple").unwrap().contains("title", "2"));
}

#[test]
fn statistics_count_tokens_fields_and_documents() {
    let mut b = Builder::new();
    let mut one = Document::new("1".into());
    one.add_field(Field::new_text("title".into(), "red red green".into()));
    one.add_field(Field::new_text("body".into(), "green".into()));
    let mut two = Document::new("2".into());
    two.add_field(Field::new_text("title".into(), "Green".into()));
    b.add_document(one);
    b.add_document(two);

    let summaries = b.term_statistics();
    assert_eq!(summaries.len(), 3);
    let first = &summaries[0];
    assert_eq!((first.doc_ref.as_str(), first.field_name.as_str()), ("1", "title"));
    assert_eq!(first.length, 3);
    assert_eq!(first.length_sum, 4);
    assert_eq!(first.instances, 2);
    assert_eq!(first.terms.len(), 2);
    assert_eq!(first.terms[0].term_index, 1);
    assert_eq!(first.terms[0].frequency, 2);
    assert_eq!(first.terms[0].documents_with_term, 1);
    assert_eq!(first.terms[1].term_index, 2);
    assert_eq!(first.terms[1].frequency, 1);
    // green: title of 1, body of 1, title of 2
    assert_eq!(first.terms[1].documents_with_term, 3);
    assert_eq!(summaries[1].length_sum, 1);
    assert_eq!(summaries[1].instances, 1);
    assert_eq!(b.document_count(), 2);
}

#[test]
fn a_field_that_comes_twice_is_counted_together() {
    let mut b = Builder::new();
    let mut doc = Document::new("1".into());
    doc.add_field(Field::new_text("title".into(), "red".into()));
    doc.add_field(Field::new_text("title".into(), "red blue".into()));
    b.add_document(doc);
    let summaries = b.term_statistics();
    assert_eq!(summaries.len(), 1);
    assert_eq!(summaries[0].length, 3);
    assert_eq!(summaries[0].terms[0].frequency, 2);
    assert_eq!(summaries[0].terms[1].frequency, 1);
}

#[test]
fn a_field_without_tokens_is_counted_with_length_zero() {
    let mut b = Builder::new();
    let mut one = Document::new("1".into());
    one.add_field(Field::new_text("title".into(), "   ".into()));
    let mut two = Document::new("2".into());
    two.add_field(Field::new_text("title".into(), "red green blue red".into()));
    b.add_document(one);
    b.add_document(two);

    let summaries = b.term_statistics();
    assert_eq!(summaries.len(), 2);
    let empty = &summaries[0];
    assert_eq!((empty.doc_ref.as_str(), empty.field_name.as_str()), ("1", "title"));
    assert_eq!(empty.length, 0);
    assert!(empty.terms.is_empty());
    assert_eq!(empty.instances, 2);
    assert_eq!(empty.length_sum, 4);
    // the average length of a title is 2, not 4
    assert_eq!(summaries[1].length, 4);
    assert_eq!(summaries[1].instances, 2);
    assert_eq!(summaries[1].length_sum, 4);

    let index = build(&b);
    let vector = index.field_vector(&FieldRef::new("1".into(), "title".into())).expect("a vector for the field without tokens");
    assert_eq!(vector.len(), 0);
    assert_eq!(index.field_vector(&FieldRef::new("2".into(), "title".into())).map(|v| v.len()), Some(3));
}

#[test]
fn adding_no_tokens_records_the_field() {
    let mut b = Builder::new();
    b.add_field_terms("7", "body", &Vec::new());
    let summaries = b.term_statistics();
    assert_eq!(summaries.len(), 1);
    assert_eq!((summaries[0].doc_ref.as_str(), summaries[0].field_name.as_str()), ("7", "body"));
    assert_eq!(summaries[0].length, 0);
    assert_eq!(summaries[0].instances, 1);
    assert_eq!(summaries[0].length_sum, 0);
}

#[test]
fn numbers_are_indexed_as_text() {
    let mut b = Builder::new();
    let mut doc = Document::new("1".into());
    doc.add_field(Field::new_u64("pages".into(), 421));
    doc.add_field(Field::new_i64("delta".into(), -17));
    b.add_document(doc);
    assert!(b.postings("421").unwrap().contains("pages", "1"));
    // the sign is a hyphen, at which the text is cut
    assert!(b.postings("17").unwrap().contains("delta", "1"));
}

#[test]
fn weights_follow_the_formula() {
    let mut b = Builder::new();
    let mut doc = Document::new("1".into());
    doc.add_field(Field::new_text("title".into(), "lucene".into()));
    b.add_document(doc);
    let index = build(&b);
    // one document, one field of one token: idf = ln(0.5 / 1.5 + 1), tf part = 2.2 / 2.2
    let vector = index.field_vector(&FieldRef::new("1".into(), "title".into())).unwrap();
    assert_eq!(vector.len(), 1);
    assert_eq!(vector.element(0).index, 1);
    assert_eq!(vector.element(0).value, 288);
}

#[test]
fn building_twice_gives_the_same_weights() {
    let first = get_index();
    let second = get_index();
    assert_eq!(first.field_vectors().len(), second.field_vectors().len());
    for (a, b) in first.field_vectors().iter().zip(second.field_vectors().iter()) {
        assert_eq!(a.field_ref, b.field_ref);
        assert_eq!(a.vector.len(), b.vector.len());
        for i in 0..a.vector.len() {
            assert_eq!(a.vector.element(i), b.vector.element(i));
        }
    }
}

#[test]
fn the_index_names_all_documents_and_terms() {
    let index = get_index();
    assert_eq!(index.doc_refs().to_vec(), vec!["a", "b", "c"]);
    assert_eq!(index.field_names().to_vec(), vec!["title", "body"]);
    let mut terms = index.token_set().to_vec();
    terms.sort();
    assert!(terms.contains(&"scarlett".to_string()));
    assert!(terms.contains(&"mr.".to_string()));
    assert_eq!(terms.len(), index.inverted_index().len());
}

#[test]
fn a_query_that_only_prohibits_returns_all_other_documents() {
    let index = get_index();
    let mut q = Query::new();
    q.add_clause(clause("green", Presence::Prohibited));
    let results = search(&index, &q);
    assert!(names(&results).is_empty());

    let mut q = Query::new();
    q.add_clause(clause("scarlett", Presence::Prohibited));
    let results = search(&index, &q);
    assert_eq!(names(&results), vec!["a", "b"]);
    assert!(results.iter().all(|r| r.1 == 0.0));

    let mut q = Query::new();
    q.add_clause(clause("scarlett", Presence::Prohibited));
    q.add_clause(clause("mustard", Presence::Prohibited));
    assert_eq!(names(&search(&index, &q)), vec!["b"]);
}

#[test]
fn a_required_term_that_nothing_holds_gives_no_result() {
    let index = get_index();
    let mut q = Query::new();
    q.add_clause(clause("nowhere", Presence::Required));
    assert!(search(&index, &q).is_empty());
}

#[test]
fn a_required_term_that_nothing_holds_ends_the_evaluation() {
    let index = get_index();
    let mut q = Query::new();
    q.add_clause(Clause::new("green".into()));
    q.add_clause(clause("nowhere", Presence::Required));
    q.add_clause(Clause::new("plant".into()));
    assert!(search(&index, &q).is_empty());
}

#[test]
fn a_required_term_keeps_the_documents_that_hold_it() {
    let index = get_index();
    let mut q = Query::new();
    q.add_clause(Clause::new("green".into()));
    q.add_clause(clause("plant", Presence::Required));
    // green is in a, b and c; plant is in b and c
    assert_eq!(names(&search(&index, &q)), vec!["b", "c"]);
}

#[test]
fn a_prohibited_term_takes_documents_out() {
    let index = get_index();
    let mut q = Query::new();
    q.add_clause(Clause::new("green".into()));
    q.add_clause(clause("plant", Presence::Prohibited));
    assert_eq!(names(&search(&index, &q)), vec!["a"]);
}

#[test]
fn a_scope_limits_a_clause_to_its_fields() {
    let index = get_index();
    let mut c = Clause::new("plumb".into());
    c.set_fields(vec!["title".into()]);
    let mut q = Query::new();
    q.add_clause(c);
    assert_eq!(names(&search(&index, &q)), vec!["b"]);

    let mut c = Clause::new("plumb".into());
    c.set_fields(vec!["summary".into()]);
    let mut q = Query::new();
    q.add_clause(c);
    assert!(search(&index, &q).is_empty());
}

#[test]
fn a_glob_is_expanded_over_the_vocabulary() {
    let index = get_index();
    let mut q = Query::new();
    q.add_clause(Clause::new("plu*".into()));
    // plumb in b, plumbs in c
    assert_eq!(names(&search(&index, &q)), vec!["b", "c"]);
}

#[test]
fn a_boost_raises_the_score() {
    let index = get_index();
    let mut plain = Query::new();
    plain.add_clause(Clause::new("scarlett".into()));
    plain.add_clause(Clause::new("office".into()));
    let mut boosted = Query::new();
    boosted.add_clause(Clause::new("scarlett".into()));
    let mut heavy = Clause::new("office".into());
    heavy.set_boost(10);
    boosted.add_clause(heavy);
    let results = index.query(&boosted);
    assert_eq!(results.len(), 1);
    let body = results[0].parts().iter().find(|p| p.field_name == "body").unwrap();
    // the weights of the query in the body: 1 for scarlett, 10 for office
    assert_eq!(body.norm, 101);
    let plain_body = index.query(&plain)[0].parts().iter().find(|p| p.field_name == "body").unwrap().clone();
    assert_eq!(plain_body.norm, 2);
    assert!(body.dot > plain_body.dot);
}

#[test]
fn the_score_is_the_dot_product_over_the_length_of_the_query() {
    let index = get_index();
    let mut q = Query::new();
    q.add_clause(Clause::new("scarlett".into()));
    let results = index.query(&q);
    assert_eq!(results.len(), 1);
    let parts = results[0].parts();
    assert_eq!(parts.len(), 2);
    assert_eq!(parts[0].field_name, "title");
    assert_eq!(parts[1].field_name, "body");
    let scarlett = index.entry("scarlett").unwrap().index as usize;
    let title = index.field_vector(&FieldRef::new("c".into(), "title".into())).unwrap();
    assert_eq!(parts[0].dot, title.get(scarlett).unwrap() as i128);
    assert_eq!(parts[0].norm, 1);
}

#[test]
fn match_data_records_terms_and_fields() {
    let mut data = MatchData::new();
    data.add("green".into(), "title".into());
    data.add("green".into(), "body".into());
    assert!(data.contains("green", "title"));
    assert!(data.contains("green", "body"));
    assert!(!data.contains("plant", "body"));

    let mut other = MatchData::new();
    other.add("plant".into(), "body".into());
    other.add("green".into(), "body".into());
    data.combine(&other);
    assert!(data.contains("plant", "body"));
    assert!(data.contains("green", "title"));
    assert!(!data.contains("plant", "title"));
}

#[test]
fn the_empty_query_returns_every_document() {
    let index = get_index();
    let results = search(&index, &Query::new());
    assert_eq!(names(&results), vec!["a", "b", "c"]);
    assert!(results.iter().all(|r| r.1 == 0.0));
}

#[test]
fn results_come_with_the_lowest_score_first() {
    let index = get_index();
    let mut q = Query::new();
    q.add_clause(Clause::new("green".into()));
    let results = search(&index, &q);
    assert_eq!(results.len(), 3);
    assert!(results[0].1 <= results[1].1 && results[1].1 <= results[2].1);
    assert!(results[0].1 > 0.0);
}
