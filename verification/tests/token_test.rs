use sagume::query::Clause;
use sagume::token::builder::{comes_first, is_ascending, sorted, TokenSetBuilder};
use sagume::token::{Edge, TokenSet, TokenSetNode};

fn words(set: &TokenSet) -> Vec<String> {
    let mut out = set.to_vec();
    out.sort();
    out
}

#[test]
fn test_to_vec() {
    let set = TokenSet::from_string("bat");
    assert_eq!(set.to_vec(), vec!["bat"]);
}

#[test]
fn test_intersect() {
    let x = TokenSet::from_string("cat");
    let y = TokenSet::from_string("dog");
    let z = x.intersect(&y);
    assert!(z.to_vec().is_empty());

    let x = TokenSet::from_string("cat");
    let y = TokenSet::from_string("cat");
    let z = x.intersect(&y);
    assert_eq!(z.to_vec(), vec!["cat"]);

    let x = TokenSet::from_string("cat");
    let y = TokenSet::from_string("c*");
    let z = x.intersect(&y);
    assert_eq!(z.to_vec(), vec!["cat"]);

    let x = TokenSet::from_string("cat");
    let y = TokenSet::from_string("d*");
    let z = x.intersect(&y);
    assert!(z.to_vec().is_empty());

    let x = TokenSet::from_string("cat");
    let y = TokenSet::from_string("*t");
    let z = x.intersect(&y);
    assert_eq!(z.to_vec(), vec!["cat"]);

    let x = TokenSet::from_string("aaacbab");
    let y = TokenSet::from_string("*ab");
    let z = x.intersect(&y);
    assert_eq!(z.to_vec(), vec!["aaacbab"]);

    let x = TokenSet::from_string("cat");
    let y = TokenSet::from_string("*r");
    let z = x.intersect(&y);
    assert!(z.to_vec().is_empty());

    let x = TokenSet::from_string("aaabdcbc");
    let y = TokenSet::from_string("*abc");
    let z = x.intersect(&y);
    assert!(z.to_vec().is_empty());

    let x = TokenSet::from_string("foo");
    let y = TokenSet::from_string("f*o");
    let z = x.intersect(&y);
    assert_eq!(z.to_vec(), vec!["foo"]);

    let x = TokenSet::from_string("ababc");
    let y = TokenSet::from_string("a*bc");
    let z = x.intersect(&y);
    assert_eq!(z.to_vec(), vec!["ababc"]);

    let x = TokenSet::from_string("foo");
    let y = TokenSet::from_string("b*r");
    let z = x.intersect(&y);
    assert!(z.to_vec().is_empty());

    let x = TokenSet::from_string("ababc");
    let y = TokenSet::from_string("a*ac");
    let z = x.intersect(&y);
    assert!(z.to_vec().is_empty());

    let x = TokenSet::from_string("foo");
    let y = TokenSet::from_string("foo*");
    let z = x.intersect(&y);
    assert_eq!(z.to_vec(), vec!["foo"]);

    let x = TokenSet::from_string(
        "fffffffffffffffffffffffffffffffffffffffffffffffffffffffffffffffffffff",
    );
    let y = TokenSet::from_string("*ff");
    let z = x.intersect(&y);
    assert_eq!(z.to_vec().len(), 1);

    let x = TokenSet::from_string("acbaabab");
    let y = TokenSet::from_string("*ab*");
    let z = x.intersect(&y);
    assert_eq!(z.to_vec(), vec!["acbaabab"]);

    let x = TokenSet::from_string("acbaabab");
    let y = TokenSet::from_string("a*ba*b");
    let z = x.intersect(&y);
    assert_eq!(z.to_vec(), vec!["acbaabab"]);
}

#[test]
fn test_intersect_with_fuzzy_string() {
    let x1 = TokenSet::from_string("bar");
    let x2 = TokenSet::from_string("cur");
    let x3 = TokenSet::from_string("cat");
    let x4 = TokenSet::from_string("car");
    let x5 = TokenSet::from_string("for");
    let y = TokenSet::from_fuzzy_string("car", 1);
    assert_eq!(x1.intersect(&y).to_vec(), vec!["bar"]);
    assert_eq!(x2.intersect(&y).to_vec(), vec!["cur"]);
    assert_eq!(x3.intersect(&y).to_vec(), vec!["cat"]);
    assert_eq!(x4.intersect(&y).to_vec(), vec!["car"]);
    assert!(x5.intersect(&y).to_vec().is_empty());

    let x1 = TokenSet::from_string("ar");
    let x2 = TokenSet::from_string("br");
    let x3 = TokenSet::from_string("ba");
    let x4 = TokenSet::from_string("bar");
    let x5 = TokenSet::from_string("foo");
    let y = TokenSet::from_fuzzy_string("bar", 1);
    assert_eq!(x1.intersect(&y).to_vec(), vec!["ar"]);
    assert_eq!(x2.intersect(&y).to_vec(), vec!["br"]);
    assert_eq!(x3.intersect(&y).to_vec(), vec!["ba"]);
    assert_eq!(x4.intersect(&y).to_vec(), vec!["bar"]);
    assert!(x5.intersect(&y).to_vec().is_empty());

    let x1 = TokenSet::from_string("bbar");
    let x2 = TokenSet::from_string("baar");
    let x3 = TokenSet::from_string("barr");
    let x4 = TokenSet::from_string("bar");
    let x5 = TokenSet::from_string("ba");
    let x6 = TokenSet::from_string("foo");
    let x7 = TokenSet::from_string("bara");
    let y = TokenSet::from_fuzzy_string("bar", 1);
    assert_eq!(x1.intersect(&y).to_vec(), vec!["bbar"]);
    assert_eq!(x2.intersect(&y).to_vec(), vec!["baar"]);
    assert_eq!(x3.intersect(&y).to_vec(), vec!["barr"]);
    assert_eq!(x4.intersect(&y).to_vec(), vec!["bar"]);
    assert_eq!(x5.intersect(&y).to_vec(), vec!["ba"]);
    assert!(x6.intersect(&y).to_vec().is_empty());
    assert_eq!(x7.intersect(&y).to_vec(), vec!["bara"]);

    let x1 = TokenSet::from_string("abr");
    let x2 = TokenSet::from_string("bra");
    let x3 = TokenSet::from_string("foo");
    let y = TokenSet::from_fuzzy_string("bar", 1);
    assert_eq!(x1.intersect(&y).to_vec(), vec!["abr"]);
    assert_eq!(x2.intersect(&y).to_vec(), vec!["bra"]);
    assert!(x3.intersect(&y).to_vec().is_empty());

    let x = TokenSet::from_string("abcxx");
    let y = TokenSet::from_fuzzy_string("abc", 2);
    assert_eq!(x.intersect(&y).to_vec(), vec!["abcxx"]);

    let x = TokenSet::from_string("axx");
    let y = TokenSet::from_fuzzy_string("abc", 2);
    assert_eq!(x.intersect(&y).to_vec(), vec!["axx"]);

    let x = TokenSet::from_string("a");
    let y = TokenSet::from_fuzzy_string("abc", 2);
    assert_eq!(x.intersect(&y).to_vec(), vec!["a"]);

    let x = TokenSet::from_string("bca");
    let y = TokenSet::from_fuzzy_string("abc", 2);
    assert_eq!(x.intersect(&y).to_vec(), vec!["bca"]);
}

#[test]
fn test_from_string() {
    let set = TokenSet::from_string("a");
    let a = set.child(0, 'a').unwrap();
    assert!(set.is_last(a));

    let set = TokenSet::from_string("a*");
    let a = set.child(0, 'a').unwrap();
    assert!(set.is_last(a));
    let wild = set.child(a, '*').unwrap();
    assert!(set.is_last(wild));
    let wild2 = set.child(wild, '*').unwrap();
    assert_eq!(wild, wild2);
}

fn node_with(last: bool, edges: Vec<(char, usize)>) -> TokenSetNode {
    let mut node = TokenSetNode::new();
    node.last = last;
    for (label, target) in edges {
        node.edges.push(Edge { label, target });
    }
    node
}

#[test]
fn test_to_str() {
    let non_last = TokenSetNode::new();
    let last = node_with(true, vec![]);
    let other_last = node_with(true, vec![]);

    assert_ne!(non_last.to_str(), last.to_str());
    assert_eq!(last.to_str(), other_last.to_str());

    let zero_edges = TokenSetNode::new();
    let one_edge = node_with(false, vec![('a', 99999)]);
    let two_edges = node_with(false, vec![('a', 99999), ('b', 99999)]);

    assert_ne!(zero_edges.to_str(), one_edge.to_str());
    assert_ne!(two_edges.to_str(), one_edge.to_str());
    assert_ne!(two_edges.to_str(), zero_edges.to_str());

    let child_a: usize = 7;
    let child_b: usize = 8;
    let parent_a = node_with(false, vec![('a', child_a)]);
    let parent_b = node_with(false, vec![('a', child_b)]);
    let parent_c = node_with(false, vec![('a', child_b)]);

    assert_eq!(parent_b.to_str(), parent_c.to_str());
    assert_ne!(parent_a.to_str(), parent_c.to_str());
    assert_ne!(parent_a.to_str(), parent_b.to_str());
}

#[test]
fn test_from_array() {
    let s = TokenSet::from_array(&vec!["ac".to_string(), "dc".to_string()]);
    let ac_node = s.child(s.child(0, 'a').unwrap(), 'c').unwrap();
    let dc_node = s.child(s.child(0, 'd').unwrap(), 'c').unwrap();
    assert_eq!(ac_node, dc_node);
}

#[test]
fn to_str_writes_flag_labels_and_targets() {
    assert_eq!(TokenSetNode::new().to_str(), "0");
    assert_eq!(node_with(true, vec![('a', 12), ('b', 0)]).to_str(), "1a12b0");
}

#[test]
fn from_array_holds_its_words() {
    let vocabulary: Vec<String> =
        vec!["", "bar", "bat", "cat", "cats", "do", "dog"].into_iter().map(String::from).collect();
    let set = TokenSet::from_array(&vocabulary);
    assert_eq!(words(&set), vocabulary);
}

#[test]
fn from_array_takes_a_word_twice() {
    let once = TokenSet::from_array(&vec!["ab".to_string(), "b".to_string()]);
    let twice = TokenSet::from_array(&vec!["ab".to_string(), "ab".to_string(), "b".to_string()]);
    assert_eq!(words(&once), words(&twice));
    assert_eq!(words(&twice), vec!["ab", "b"]);
}

#[test]
fn from_array_shares_equal_ends() {
    let set = TokenSet::from_array(&vec!["tap".to_string(), "taps".to_string(), "top".to_string(), "tops".to_string()]);
    let t = set.child(0, 't').unwrap();
    let a = set.child(t, 'a').unwrap();
    let o = set.child(t, 'o').unwrap();
    assert_eq!(a, o);
    assert_eq!(words(&set), vec!["tap", "taps", "top", "tops"]);
}

#[test]
fn from_array_keeps_digit_labels_apart() {
    // the targets 12 and 1 followed by the label 2 look alike once written out
    let mut vocabulary: Vec<String> = Vec::new();
    for w in ["a", "b", "c", "d", "e", "f", "g", "h", "i", "j", "k", "l1", "l2x", "m12"] {
        vocabulary.push(w.to_string());
    }
    vocabulary.sort();
    let set = TokenSet::from_array(&vocabulary);
    assert_eq!(words(&set), vocabulary);
}

#[test]
fn from_string_of_nothing_accepts_nothing() {
    let set = TokenSet::from_string("");
    assert!(set.to_vec().is_empty());
    assert_eq!(set.len(), 1);
}

#[test]
fn from_string_counts_characters_not_bytes() {
    let set = TokenSet::from_string("né");
    assert_eq!(set.to_vec(), vec!["né"]);
}

#[test]
fn intersect_never_holds_the_empty_string() {
    let vocabulary = TokenSet::from_array(&vec!["".to_string(), "a".to_string()]);
    let everything = TokenSet::from_string("*");
    assert_eq!(words(&vocabulary.intersect(&everything)), vec!["a"]);
}

#[test]
fn intersect_with_itself_gives_the_same_words() {
    let a = TokenSet::from_string("cat");
    assert_eq!(a.intersect(&a).to_vec(), a.to_vec());
}

#[test]
fn intersect_expands_a_glob_over_a_vocabulary() {
    let vocabulary: Vec<String> = vec!["bar", "bat", "cat", "cats", "do"].into_iter().map(String::from).collect();
    let set = TokenSet::from_array(&vocabulary);
    assert_eq!(words(&set.intersect(&TokenSet::from_string("*at"))), vec!["bat", "cat"]);
    assert_eq!(words(&set.intersect(&TokenSet::from_string("ca*"))), vec!["cat", "cats"]);
    assert_eq!(words(&set.intersect(&TokenSet::from_string("*"))), vocabulary);
}

#[test]
fn fuzzy_distance_one_of_car() {
    let vocabulary: Vec<String> = vec!["bar", "car", "cat", "cur", "for"].into_iter().map(String::from).collect();
    let set = TokenSet::from_array(&vocabulary);
    let near = set.intersect(&TokenSet::from_fuzzy_string("car", 1));
    assert_eq!(words(&near), vec!["bar", "car", "cat", "cur"]);
}

#[test]
fn fuzzy_distance_zero_is_the_word_itself() {
    let vocabulary: Vec<String> = vec!["ca", "car", "cars"].into_iter().map(String::from).collect();
    let set = TokenSet::from_array(&vocabulary);
    assert_eq!(words(&set.intersect(&TokenSet::from_fuzzy_string("car", 0))), vec!["car"]);
}

#[test]
fn words_are_compared_as_in_the_dictionary() {
    assert!(comes_first("", ""));
    assert!(comes_first("", "a"));
    assert!(!comes_first("a", ""));
    assert!(comes_first("ab", "abc"));
    assert!(!comes_first("abc", "ab"));
    assert!(comes_first("abc", "abd"));
    assert!(!comes_first("b", "abc"));
    assert!(comes_first("z", "é"));
    assert!(comes_first("same", "same"));
}

#[test]
fn sorted_puts_words_in_order_and_keeps_them_all() {
    let words: Vec<String> = vec!["dog", "cat", "", "cats", "cat", "é", "b"].into_iter().map(String::from).collect();
    assert!(!is_ascending(&words));
    let ordered = sorted(&words);
    assert_eq!(ordered, vec!["", "b", "cat", "cat", "cats", "dog", "é"]);
    assert!(is_ascending(&ordered));
    let mut expected = words.clone();
    expected.sort();
    assert_eq!(ordered, expected);
    assert!(is_ascending(&Vec::new()));
}

#[test]
fn the_builder_takes_words_one_by_one() {
    let mut builder = TokenSetBuilder::new();
    builder.insert("car");
    builder.insert("card");
    builder.insert("core");
    builder.finish();
    assert_eq!(words(&builder.into_set()), vec!["car", "card", "core"]);
}

#[test]
fn a_glob_star_stands_for_any_characters() {
    let vocabulary: Vec<String> = vec!["a", "ab", "abc", "b", "ba", "cab"].into_iter().map(String::from).collect();
    let set = TokenSet::from_array(&vocabulary);
    assert_eq!(words(&set.intersect(&TokenSet::from_string("a*"))), vec!["a", "ab", "abc"]);
    assert_eq!(words(&set.intersect(&TokenSet::from_string("*b"))), vec!["ab", "b", "cab"]);
    assert_eq!(words(&set.intersect(&TokenSet::from_string("*a*"))), vec!["a", "ab", "abc", "ba", "cab"]);
    assert_eq!(words(&set.intersect(&TokenSet::from_string("a**c"))), vec!["abc"]);
    assert!(set.intersect(&TokenSet::from_string("")).to_vec().is_empty());
}

#[test]
fn from_clause_takes_the_term_of_the_clause() {
    let set = TokenSet::from_array(&vec!["bar".to_string(), "baz".to_string(), "foo".to_string()]);
    let clause = Clause::new("ba*".into());
    assert_eq!(words(&set.intersect(&TokenSet::from_clause(&clause))), vec!["bar", "baz"]);
}

#[test]
fn fuzzy_takes_each_kind_of_edit() {
    let vocabulary: Vec<String> =
        vec!["ab", "abc", "abcd", "abd", "acb", "axc", "bac", "xabcx"].into_iter().map(String::from).collect();
    let set = TokenSet::from_array(&vocabulary);
    let near = set.intersect(&TokenSet::from_fuzzy_string("abc", 1));
    // a deletion, the word itself, an insertion, a substitution, two transpositions, a substitution
    assert_eq!(words(&near), vec!["ab", "abc", "abcd", "abd", "acb", "axc", "bac"]);
}

#[test]
fn fuzzy_lets_other_edits_come_between_transposed_characters() {
    let vocabulary: Vec<String> = vec!["ba", "bxa", "bxya"].into_iter().map(String::from).collect();
    let set = TokenSet::from_array(&vocabulary);
    assert_eq!(words(&set.intersect(&TokenSet::from_fuzzy_string("ab", 1))), vec!["ba"]);
    assert_eq!(words(&set.intersect(&TokenSet::from_fuzzy_string("ab", 2))), vec!["ba", "bxa"]);
}

#[test]
fn fuzzy_of_nothing_takes_up_to_as_many_characters_as_edits() {
    let vocabulary: Vec<String> = vec!["", "a", "ab", "abc"].into_iter().map(String::from).collect();
    let set = TokenSet::from_array(&vocabulary);
    assert!(set.intersect(&TokenSet::from_fuzzy_string("", 0)).to_vec().is_empty());
    assert_eq!(words(&set.intersect(&TokenSet::from_fuzzy_string("", 2))), vec!["a", "ab"]);
}

#[test]
fn intersect_takes_a_glob_as_receiver() {
    let p = TokenSet::from_string("d*");
    let w = TokenSet::from_string("cat");
    assert!(p.intersect(&w).to_vec().is_empty());
    assert!(w.intersect(&p).to_vec().is_empty());
    // in the receiver a `*` is a character like any other
    let c = TokenSet::from_string("c*");
    assert!(c.intersect(&w).to_vec().is_empty());
    assert_eq!(c.intersect(&TokenSet::from_string("c")).to_vec(), vec!["c"]);
}

#[test]
fn from_string_puts_a_star_edge_on_its_own_state() {
    let set = TokenSet::from_string("a*b**");
    assert_eq!(set.len(), 3);
    let a = set.child(0, 'a').unwrap();
    assert_eq!(a, 1);
    assert_eq!(set.child(a, '*'), Some(a));
    let b = set.child(a, 'b').unwrap();
    assert_eq!(b, 2);
    assert_eq!(set.child(b, '*'), Some(b));
    assert!(!set.is_last(0) && !set.is_last(a) && set.is_last(b));
}
