use sagume::query::{Clause, Presence, Query, WildcardMode};

#[test]
fn test_single_string_term() {
    let mut c = Clause::new("foo".into());
    c.set_fields(vec!["title".into(), "body".into()]);

    let mut query = Query::new();
    query.add_clause(c);

    assert_eq!(query.clauses.len(), 1);
    assert_eq!(query.clauses[0].term(), "foo");
}

#[test]
fn test_is_negated() {
    let mut c1 = Clause::new("foo".into());
    c1.set_presence(Presence::Prohibited);
    let mut c2 = Clause::new("bar".into());
    c2.set_presence(Presence::Prohibited);
    let mut query = Query::new();
    query.add_clause(c1);
    query.add_clause(c2);
    assert!(query.is_negated());

    let mut c1 = Clause::new("foo".into());
    c1.set_presence(Presence::Prohibited);
    let mut c2 = Clause::new("bar".into());
    c2.set_presence(Presence::Required);
    query.add_clause(c1);
    query.add_clause(c2);
    assert!(!query.is_negated());

    let mut c1 = Clause::new("foo".into());
    c1.set_presence(Presence::Optional);
    let mut c2 = Clause::new("bar".into());
    c2.set_presence(Presence::Required);
    query.add_clause(c1);
    query.add_clause(c2);
    assert!(!query.is_negated());
}

#[test]
fn a_new_clause_is_optional_over_all_fields() {
    let c = Clause::new("foo".into());
    assert_eq!(c.term(), "foo");
    assert_eq!(*c.fields(), None);
    assert_eq!(c.boost(), 1);
    assert!(c.use_pipeline());
    assert_eq!(c.wildcard(), WildcardMode::NoWildcard);
    assert_eq!(c.presence(), Presence::Optional);
}

#[test]
fn setters_change_one_thing_each() {
    let mut c = Clause::new("foo".into());
    c.set_boost(7);
    c.set_use_pipeline(false);
    c.set_wildcard(WildcardMode::Leading);
    c.set_presence(Presence::Required);
    c.set_fields(vec!["title".into()]);
    assert_eq!(c.term(), "foo");
    assert_eq!(c.boost(), 7);
    assert!(!c.use_pipeline());
    assert_eq!(c.wildcard(), WildcardMode::Leading);
    assert_eq!(c.presence(), Presence::Required);
    assert_eq!(*c.fields(), Some(vec!["title".to_string()]));
}

#[test]
fn the_empty_query_is_negated() {
    assert!(Query::new().is_negated());
}
