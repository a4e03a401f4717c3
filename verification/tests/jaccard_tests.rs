use name_match::jaccard::compare::JaccardMatcher;
use name_match::prelude::{Matcher, SCORE_ONE};
use name_match::shared::compute::jaccard_index;

fn fp(score: u64) -> f64 {
    score as f64 / SCORE_ONE as f64
}

fn build_map_from_word_vec(words: Vec<&str>) -> Vec<String> {
    let mut hash_map: Vec<String> = Vec::new();
    for word in words {
        hash_map.push(word.to_owned());
    }
    hash_map
}

#[test]
fn test_jaccard_index() {
    let name1: Vec<String> = build_map_from_word_vec(vec!["AB", "BC"]);
    let name2: Vec<String> = build_map_from_word_vec(vec!["BC", "AA"]);

    let coef = jaccard_index(&name1, &name2);
    assert_eq!(fp(coef), 0.5);
}

#[test]
fn test_jaccard_index_zero() {
    let name1: Vec<String> = build_map_from_word_vec(vec!["AB", "BC"]);
    let name2: Vec<String> = build_map_from_word_vec(vec!["BB", "AA"]);

    let coef = jaccard_index(&name1, &name2);
    assert_eq!(fp(coef), 0.);
}

#[test]
fn test_jaccard_index_match() {
    let name1: Vec<String> = build_map_from_word_vec(vec![""]);
    let name2: Vec<String> = build_map_from_word_vec(vec!["BB", "AA"]);

    let coef = jaccard_index(&name1, &name2);
    assert_eq!(fp(coef), 0.);
}

#[test]
fn test_case_sensitive_match() {
    let matcher = JaccardMatcher::default();
    let name1 = "john doe";
    let name2 = "JOHN DOE";
    assert_eq!(fp(matcher.get_score(name1, name2)), 1.0);
}

#[test]
fn test_ignore_special_character_match() {
    let matcher = JaccardMatcher::default();
    let name1 = "joh^ doe";
    let name2 = "joh**doe";
    assert_eq!(fp(matcher.get_score(name1, name2)), 1.0);
}

#[test]
fn test_whitespaces_match() {
    let matcher = JaccardMatcher::default();
    let name1 = "  john    doe   ";
    let name2 = "JOHN DOE";
    assert_eq!(fp(matcher.get_score(name1, name2)), 1.0);
}

#[test]
fn test_half_weight() {
    let matcher = JaccardMatcher::new(Some(SCORE_ONE / 2));
    let name1 = "JOHN DOE";
    let name2 = "JOHN DOE";
    assert_eq!(fp(matcher.get_weighted_score(name1, name2)), 0.5);
}
