use name_match::ensemble::{Ensemble, MatcherKind};
use name_match::jaccard::compare::JaccardMatcher;
use name_match::jaro::compare::JaroWinklerMatcher;
use name_match::jaro::compute::{jaro_score, jaro_winkler_score};
use name_match::jaro::config::JaroWinklerConfigOptions;
use name_match::prelude::{clean_str, Matcher, SCORE_ONE};
use name_match::shared::compute::jaccard_index;
use name_match::soundex::compare::{SoundexJaccardMatcher, SoundexMatcher};
use name_match::soundex::encode::apply_soundex;

fn fp(score: u64) -> f64 {
    score as f64 / SCORE_ONE as f64
}

#[test]
fn every_matcher_scores_full_on_self_match() {
    let name = "John Doe";
    assert_eq!(JaroWinklerMatcher::default().get_score(name, name), SCORE_ONE);
    assert_eq!(SoundexMatcher::default().get_score(name, name), SCORE_ONE);
    assert_eq!(SoundexJaccardMatcher::default().get_score(name, name), SCORE_ONE);
    assert_eq!(JaccardMatcher::default().get_score(name, name), SCORE_ONE);
}

#[test]
fn jaro_is_symmetric_on_sample_pairs() {
    let pairs = vec![
        ("DWAYNE", "DUANE"),
        ("MARTHA", "MARHTA"),
        ("crate", "trace"),
        ("Jon", "John"),
        ("a", "b"),
    ];
    let config = JaroWinklerConfigOptions::default();
    for (a, b) in pairs {
        assert_eq!(jaro_score(a, b), jaro_score(b, a));
        assert_eq!(
            jaro_winkler_score(a, b, &config),
            jaro_winkler_score(b, a, &config)
        );
    }
}

#[test]
fn jaccard_is_zero_on_disjoint_and_one_on_identical_sets() {
    let a = vec!["AB".to_owned(), "CD".to_owned()];
    let b = vec!["EF".to_owned(), "GH".to_owned()];
    assert_eq!(jaccard_index(&a, &b), 0);
    assert_eq!(jaccard_index(&a, &a), SCORE_ONE);
    let c = vec!["AB".to_owned(), "EF".to_owned()];
    let mixed = jaccard_index(&a, &c);
    assert!(mixed <= SCORE_ONE);
    assert_eq!(fp(mixed), 0.5);
}

#[test]
fn soundex_ignores_case_and_punctuation() {
    let cleaned = clean_str("O'Brien");
    assert_eq!(apply_soundex(cleaned.as_str()), apply_soundex("OBRIEN"));
    assert_eq!(apply_soundex("O Brien"), apply_soundex("obrien"));
}

#[test]
fn cleaning_blanks_punctuation_and_uppercases() {
    assert_eq!(clean_str("joh^ doe"), "JOH  DOE");
    assert_eq!(clean_str("  john    doe   "), "JOHN    DOE");
    assert_eq!(clean_str(""), "");
    assert_eq!(clean_str("...!"), "");
}

#[test]
fn equal_weights_over_three_matchers_aggregate_to_one_within_tolerance() {
    let matchers: Vec<MatcherKind> = vec![
        MatcherKind::JaroWinkler(JaroWinklerMatcher::default()),
        MatcherKind::Soundex(SoundexMatcher::default()),
        MatcherKind::Jaccard(JaccardMatcher::default()),
    ];
    let mut ensemble = Ensemble::new(matchers);
    ensemble.set_equal_weight();
    let score = ensemble.get_aggregated_score("Jane Roe", "Jane Roe");
    assert_eq!(score, 999_999_999);
    assert!((fp(score) - 1.0).abs() < 2e-9);
}

#[test]
fn equal_weights_over_four_matchers_aggregate_to_exactly_one() {
    let matchers: Vec<MatcherKind> = vec![
        MatcherKind::JaroWinkler(JaroWinklerMatcher::default()),
        MatcherKind::Soundex(SoundexMatcher::default()),
        MatcherKind::SoundexJaccard(SoundexJaccardMatcher::default()),
        MatcherKind::Jaccard(JaccardMatcher::default()),
    ];
    let mut ensemble = Ensemble::new(matchers);
    ensemble.set_equal_weight();
    let score = ensemble.get_aggregated_score("Jane Roe", "Jane Roe");
    assert_eq!(fp(score), 1.0);
}

#[test]
fn concrete_scores_match_published_values() {
    assert_eq!(
        fp(jaro_winkler_score("MARTHA", "MARTHA", &JaroWinklerConfigOptions::default())),
        1.0
    );
    assert!((fp(jaro_score("DWAYNE", "DUANE")) - 0.822).abs() < 0.01);
    assert_eq!(apply_soundex("ROBERT"), "R163");
    assert_eq!(apply_soundex("TYMCZAK"), "T522");
}

#[test]
fn batch_keeps_candidate_order_and_matches_sequential_run() {
    let matchers: Vec<MatcherKind> = vec![
        MatcherKind::JaroWinkler(JaroWinklerMatcher::default()),
        MatcherKind::Soundex(SoundexMatcher::default()),
        MatcherKind::SoundexJaccard(SoundexJaccardMatcher::default()),
        MatcherKind::Jaccard(JaccardMatcher::default()),
    ];
    let mut ensemble = Ensemble::new(matchers);
    ensemble.set_equal_weight();

    let query = "John Doe";
    let candidates: Vec<&str> = vec!["Jon Doh", "Jane Roe", "John Doe", "doe john", ""];
    let parallel = ensemble.get_ensemble_result_arr(query, &candidates);
    let sequential = ensemble.get_ensemble_result_arr_seq(query, &candidates);

    assert_eq!(parallel.len(), candidates.len());
    assert_eq!(sequential.len(), candidates.len());
    for (i, candidate) in candidates.iter().enumerate() {
        let p = &parallel[i];
        let s = &sequential[i];
        assert_eq!(p.name1, query);
        assert_eq!(p.name2, *candidate);
        assert_eq!(p.name1, s.name1);
        assert_eq!(p.name2, s.name2);
        assert_eq!(p.score, s.score);
        assert_eq!(p.results.len(), s.results.len());
        let single = ensemble.get_ensemble_result(query, candidate);
        assert_eq!(p.score, single.score);
        for j in 0..p.results.len() {
            assert_eq!(p.results[j].algorithm, s.results[j].algorithm);
            assert_eq!(p.results[j].weight, s.results[j].weight);
            assert_eq!(p.results[j].absolute_score, s.results[j].absolute_score);
            assert_eq!(p.results[j].weighted_score, s.results[j].weighted_score);
        }
    }
    let exact = &parallel[2];
    assert_eq!(fp(exact.score), 1.0);
}

#[test]
fn empty_inputs_resolve_to_defined_scores() {
    assert_eq!(jaro_score("", ""), 0);
    assert_eq!(SoundexMatcher::default().get_score("", ""), SCORE_ONE);
    assert_eq!(JaccardMatcher::default().get_score("", ""), 0);
    assert_eq!(SoundexJaccardMatcher::default().get_score("", ""), 0);
    assert_eq!(JaroWinklerMatcher::default().get_score("", "John"), 0);
}

#[test]
fn ensemble_results_report_each_algorithm() {
    let matchers: Vec<MatcherKind> = vec![
        MatcherKind::JaroWinkler(JaroWinklerMatcher::default()),
        MatcherKind::Soundex(SoundexMatcher::default()),
    ];
    let ensemble = Ensemble::new(matchers);
    let result = ensemble.get_ensemble_result("John Doe", "Jon Doh");
    assert_eq!(result.results.len(), 2);
    assert_eq!(result.results[0].algorithm, "Jaro-Winkler");
    assert_eq!(result.results[1].algorithm, "Soundex");
    let sum: u64 = result.results.iter().map(|r| r.weighted_score).sum();
    assert_eq!(result.score, sum);
}
