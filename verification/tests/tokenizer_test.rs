use sagume::pipeline::Pipeline;
use sagume::tokenizer::Tokenizer;

#[test]
fn test_splitting_into_tokens() {
    let tokenizer = Tokenizer::new();
    let tokens = tokenizer.tokenize("foo bar baz".into());
    assert_eq!(
        tokens.iter().map(|t| &t.value).collect::<Vec<&String>>(),
        vec!["foo", "bar", "baz"]
    );

    let tokens = tokenizer.tokenize("Foo Bar BAZ".into());
    assert_eq!(
        tokens.iter().map(|t| &t.value).collect::<Vec<&String>>(),
        vec!["foo", "bar", "baz"]
    );

    let tokens = tokenizer.tokenize("foo    bar - baz".into());
    assert_eq!(
        tokens.iter().map(|t| &t.value).collect::<Vec<&String>>(),
        vec!["foo", "bar", "baz"]
    );

    let tokens = tokenizer.tokenize("foo--bar-baz".into());
    assert_eq!(
        tokens.iter().map(|t| &t.value).collect::<Vec<&String>>(),
        vec!["foo", "bar", "baz"]
    );
}

#[test]
fn test_token_index() {
    let tokenizer = Tokenizer::new();
    let tokens = tokenizer.tokenize("foo bar".into());
    assert_eq!(tokens[0].index, 0);
    assert_eq!(tokens[1].index, 1);
    assert_eq!(tokens[0].start, 0);
    assert_eq!(tokens[1].start, 4);
}

#[test]
fn tokenize_of_nothing_is_nothing() {
    let tokenizer = Tokenizer::new();
    assert!(tokenizer.tokenize("".into()).is_empty());
    assert!(tokenizer.tokenize("  - \t ".into()).is_empty());
}

#[test]
fn tokenize_drops_white_space_at_the_end() {
    let tokenizer = Tokenizer::new();
    let tokens = tokenizer.tokenize("Mr. Green \n".into());
    assert_eq!(tokens.len(), 2);
    assert_eq!(tokens[0].value(), "mr.");
    assert_eq!(tokens[1].value(), "green");
    assert_eq!(tokens[1].start, 4);
}

#[test]
fn tokenize_takes_any_characters() {
    let tokenizer = Tokenizer::new();
    let tokens = tokenizer.tokenize("Élan vital".into());
    assert_eq!(tokens[0].value(), "élan");
    assert_eq!(tokens[1].value(), "vital");
    assert_eq!(tokens[1].start, 5);
}

#[test]
fn split_leaves_case_alone() {
    let tokenizer = Tokenizer::new();
    let tokens = tokenizer.split("Foo-bar");
    assert_eq!(tokens[0].value(), "Foo");
    assert_eq!(tokens[1].value(), "bar");
    assert_eq!(tokens[1].start, 4);
}

#[test]
fn pipeline_hands_tokens_on() {
    let tokenizer = Tokenizer::new();
    let mut pipeline = Pipeline::new();
    pipeline.add(|x| x + 1);
    let tokens = tokenizer.tokenize("foo bar".into());
    let out = pipeline.run(tokens.clone());
    assert_eq!(out, tokens);
}

#[test]
fn split_cuts_at_each_white_space_of_ascii() {
    let tokenizer = Tokenizer::new();
    let tokens = tokenizer.split("a b\tc\nd\u{b}e\u{c}f\rg-h");
    let values: Vec<&str> = tokens.iter().map(|t| t.value()).collect();
    assert_eq!(values, vec!["a", "b", "c", "d", "e", "f", "g", "h"]);
    let starts: Vec<usize> = tokens.iter().map(|t| t.start).collect();
    assert_eq!(starts, vec![0, 2, 4, 6, 8, 10, 12, 14]);
}

#[test]
fn split_keeps_other_control_characters_and_signs() {
    let tokenizer = Tokenizer::new();
    let tokens = tokenizer.split("a\u{1c}b_c\u{8}d");
    assert_eq!(tokens.len(), 1);
    assert_eq!(tokens[0].value(), "a\u{1c}b_c\u{8}d");
}

#[test]
fn split_cuts_at_white_space_beyond_ascii() {
    let tokenizer = Tokenizer::new();
    let tokens = tokenizer.split("a\u{a0}b\u{3000}c");
    let values: Vec<&str> = tokens.iter().map(|t| t.value()).collect();
    assert_eq!(values, vec!["a", "b", "c"]);
    assert_eq!(tokens[2].start, 4);
}
