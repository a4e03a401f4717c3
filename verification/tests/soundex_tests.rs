use name_match::prelude::{Matcher, SCORE_ONE};
use name_match::soundex::compare::{SoundexJaccardMatcher, SoundexMatcher};
use name_match::soundex::encode::apply_soundex;

fn fp(score: u64) -> f64 {
    score as f64 / SCORE_ONE as f64
}

#[test]
fn test_apply_soundex_robert() {
    let name = "Robert";
    let code = apply_soundex(name);
    assert_eq!(code, "R163");
}

#[test]
fn test_apply_soundex_gutierrex() {
    let name = "Gutierrez";
    let code = apply_soundex(name);
    assert_eq!(code, "G362");
}

#[test]
fn test_apply_soundex_pfister() {
    let name = "Pfister";
    let code = apply_soundex(name);
    assert_eq!(code, "P236");
}

#[test]
fn test_apply_soundex_jackson() {
    let name = "Jackson";
    let code = apply_soundex(name);
    assert_eq!(code, "J250");
}

#[test]
fn test_apply_soundex_tymczak() {
    let name = "Tymczak";
    let code = apply_soundex(name);
    assert_eq!(code, "T522");
}

#[test]
fn test_apply_soundex_andy() {
    let name = "Andy";
    let code = apply_soundex(name);
    assert_eq!(code, "A530");
}

#[test]
fn test_soundex_matcher() {
    let matcher = SoundexMatcher::default();
    let name1 = "Jame";
    let name2 = "Jimmy";
    let score = matcher.get_score(name1, name2);
    assert_eq!(fp(score), 1.0);
}

#[test]
fn test_soundex_matcher_no_match() {
    let matcher = SoundexMatcher::default();
    let name1 = "James";
    let name2 = "Jimmy";
    let score = matcher.get_score(name1, name2);
    assert_eq!(fp(score), 0.0);
}

#[test]
fn test_soundex_case_insensitive_match() {
    let matcher = SoundexMatcher::default();
    let name1 = "james";
    let name2 = "JAMES";
    let score = matcher.get_score(name1, name2);
    assert_eq!(fp(score), 1.0);
}

#[test]
fn test_soundex_case_with_whitespaces() {
    let matcher = SoundexMatcher::default();
    let name1 = "   james    ";
    let name2 = "JAMES";
    let score = matcher.get_score(name1, name2);
    assert_eq!(fp(score), 1.0);
}

#[test]
fn test_soundex_half_weight() {
    let matcher = SoundexMatcher::new(Some(SCORE_ONE / 2));
    let name1 = "JAMES";
    let name2 = "JAMES";
    let score = matcher.get_weighted_score(name1, name2);
    assert_eq!(fp(score), 0.5);
}

#[test]
fn test_soundex_jaccard_half_match() {
    let matcher = SoundexJaccardMatcher::default();
    let name1 = "Jame Bond";
    let name2 = "Bane Jimmy";
    let score = matcher.get_score(name1, name2);
    assert_eq!(fp(score), 0.5);
}

#[test]
fn test_soundex_jaccard_longer_name() {
    let matcher = SoundexJaccardMatcher::default();
    let name1 = "Robert Downey Junior";
    let name2 = "Anthony Rupert";
    let score = matcher.get_score(name1, name2);
    assert_eq!(fp(score), 0.5);
}

#[test]
fn test_soundex_jaccard_case_insensitive_match() {
    let matcher = SoundexJaccardMatcher::default();
    let name1 = "james";
    let name2 = "JAMES";
    let score = matcher.get_score(name1, name2);
    assert_eq!(fp(score), 1.0);
}

#[test]
fn test_soundex_jaccard_case_with_whitespaces() {
    let matcher = SoundexJaccardMatcher::default();
    let name1 = "   james    Bay  ";
    let name2 = "JAMES bay";
    let score = matcher.get_score(name1, name2);
    assert_eq!(fp(score), 1.0);
}

#[test]
fn test_soundex_jaccard_half_weight() {
    let matcher = SoundexJaccardMatcher::new(Some(SCORE_ONE / 2));
    let name1 = "JAMES";
    let name2 = "JAMES";
    let score = matcher.get_weighted_score(name1, name2);
    assert_eq!(fp(score), 0.5);
}
