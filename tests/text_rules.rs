use nlp::canonical::{
    capitalize, format_case, is_acronym, is_contraction, is_proper_noun, normalize_for_lookup,
    should_preserve_canonical,
};
use nlp::fuzzy::{char_similarity, edit_distance};

#[test]
fn test_edit_distance() {
    assert_eq!(edit_distance("kitten", "sitting"), 3);
    assert_eq!(edit_distance("hello", "hello"), 0);
    assert_eq!(edit_distance("", "abc"), 3);
}

#[test]
fn test_canonical_form_detection() {
    assert!(is_contraction("I'm"));
    assert!(is_contraction("don't"));
    assert!(!is_contraction("hello"));

    assert!(is_acronym("USA"));
    assert!(is_acronym("NASA"));
    assert!(!is_acronym("Hello"));

    assert!(is_proper_noun("Europe"));
    assert!(!is_proper_noun("hello"));
    assert!(!is_proper_noun("USA"));
}

#[test]
fn edit_distance_is_symmetric_and_counts_swaps_once() {
    assert_eq!(edit_distance("ab", "ba"), 1);
    assert_eq!(edit_distance("abc", "acb"), 1);
    assert_eq!(edit_distance("flaw", "lawn"), edit_distance("lawn", "flaw"));
    assert_eq!(edit_distance("flaw", "lawn"), 2);
    assert_eq!(edit_distance("äb", "bä"), 1);
}

#[test]
fn lookup_keys_and_case_formatting() {
    assert_eq!(normalize_for_lookup("Don't"), "dont");
    assert_eq!(normalize_for_lookup("I'M"), "im");
    assert_eq!(capitalize("hello"), "Hello");
    assert_eq!(capitalize(""), "");
    assert_eq!(format_case("hello", "HE"), "HELLO");
    assert_eq!(format_case("hello", "He"), "Hello");
    assert_eq!(format_case("HELLO", "he"), "hello");
    assert!(should_preserve_canonical("Europe"));
    assert!(!should_preserve_canonical("europe"));
    assert!(!is_acronym("ABCDEF"));
    assert!(!is_acronym("A"));
}

#[test]
fn character_similarity_in_half_points() {
    let a: Vec<char> = "hello".chars().collect();
    let b: Vec<char> = "Hello".chars().collect();
    let c: Vec<char> = "jello".chars().collect();
    assert_eq!(char_similarity(&a, &a), 10);
    assert_eq!(char_similarity(&a, &b), 9);
    assert_eq!(char_similarity(&a, &c), 4);
    assert_eq!(char_similarity(&a, &"xyzzy".chars().collect()), 0);
}
