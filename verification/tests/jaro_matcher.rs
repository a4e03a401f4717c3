use name_match::jaro::compare::JaroWinklerMatcher;
use name_match::prelude::{Matcher, SCORE_ONE};

fn fp(score: u64) -> f64 {
    score as f64 / SCORE_ONE as f64
}

#[test]
fn compare_test_case_sensitive_match() {
    let matcher = JaroWinklerMatcher::default();
    let name1 = "john doe";
    let name2 = "JOHN DOE";
    assert_eq!(fp(matcher.get_score(name1, name2)), 1.0);
}

#[test]
fn compare_test_ignore_special_character_match() {
    let matcher = JaroWinklerMatcher::default();
    let name1 = "joh^ doe";
    let name2 = "joh**doe";
    assert_eq!(fp(matcher.get_score(name1, name2)), 1.0);
}

#[test]
fn compare_test_whitespaces_match() {
    let matcher = JaroWinklerMatcher::default();
    let name1 = "  john doe   ";
    let name2 = "JOHN DOE";
    assert_eq!(fp(matcher.get_score(name1, name2)), 1.0);
}

#[test]
fn compare_test_half_weight() {
    let matcher = JaroWinklerMatcher::new(None, Some(SCORE_ONE / 2));
    let name1 = "JOHN DOE";
    let name2 = "JOHN DOE";
    assert_eq!(fp(matcher.get_weighted_score(name1, name2)), 0.5);
}
