//! The Jaro-Winkler matcher: cleans both names, then scores them with
//! the Jaro-Winkler algorithm under its configuration.
use crate::jaro::compute::{jaro_winkler_fp, jaro_winkler_score, lemma_jaro_winkler_fp_range,
    lemma_jaro_winkler_fp_reflexive};
use crate::jaro::config::JaroWinklerConfigOptions;
use crate::prelude::{clean_spec, lemma_clean_len, Clean, Matcher, Named, SCORE_ONE, Weighted};
use vstd::prelude::*;
use vstd::string::*;

verus! {

/// Scores two names with the Jaro-Winkler algorithm, after cleaning.
/// Only does well on ASCII names: cleaning blanks out everything but
/// ASCII letters, which also makes scoring case-insensitive.
pub struct JaroWinklerMatcher {
    name: String,
    config: JaroWinklerConfigOptions,
    weight: u64,
}

impl JaroWinklerMatcher {
    /// The configuration this matcher scores with.
    pub closed spec fn config_spec(&self) -> JaroWinklerConfigOptions {
        self.config
    }

    pub fn new(user_config: Option<JaroWinklerConfigOptions>, weight: Option<u64>) -> (r:
        JaroWinklerMatcher)
        requires
            match user_config {
                Some(c) => c.wf(),
                None => true,
            },
            match weight {
                Some(w) => w <= SCORE_ONE,
                None => true,
            },
        ensures
            r.wf(),
            r.name_spec() == "Jaro-Winkler"@,
            r.weight_spec() == (match weight {
                Some(w) => w,
                None => SCORE_ONE,
            }),
            r.config_spec() == (match user_config {
                Some(c) => c,
                None => (JaroWinklerConfigOptions {
                    similarity_threshold: 700_000_000u64,
                    max_prefix_length: 4i32,
                    scaling_factor: 100_000_000u64,
                }),
            }),
    {
        let configuration = match user_config {
            Some(c) => c,
            None => JaroWinklerConfigOptions::default(),
        };
        let w = match weight {
            Some(w) => w,
            None => SCORE_ONE,
        };
        JaroWinklerMatcher { name: "Jaro-Winkler".to_owned(), config: configuration, weight: w }
    }

    pub fn default() -> (r: JaroWinklerMatcher)
        ensures
            r.wf(),
            r.name_spec() == "Jaro-Winkler"@,
            r.weight_spec() == SCORE_ONE,
            r.config_spec() == (JaroWinklerConfigOptions {
                similarity_threshold: 700_000_000u64,
                max_prefix_length: 4i32,
                scaling_factor: 100_000_000u64,
            }),
    {
        let config = JaroWinklerConfigOptions::default();
        JaroWinklerMatcher { name: "Jaro-Winkler".to_owned(), config, weight: SCORE_ONE }
    }
}

impl Clean for JaroWinklerMatcher {

}

impl Named for JaroWinklerMatcher {
    closed spec fn name_spec(&self) -> Seq<char> {
        self.name@
    }

    fn get_name(&self) -> (r: &str) {
        self.name.as_str()
    }
}

impl Weighted for JaroWinklerMatcher {
    closed spec fn wf(&self) -> bool {
        self.weight <= SCORE_ONE && self.config.wf()
    }

    closed spec fn weight_spec(&self) -> u64 {
        self.weight
    }

    proof fn lemma_weight_in_range(&self) {
    }

    fn get_weight(&self) -> (r: u64) {
        self.weight
    }

    fn set_weight(&mut self, weight: u64)
        ensures
            final(self).config_spec() == old(self).config_spec(),
            final(self).name_spec() == old(self).name_spec(),
            forall|a: Seq<char>, b: Seq<char>|
                #[trigger] final(self).score_spec(a, b) == old(self).score_spec(a, b),
    {
        self.weight = weight;
    }
}

impl Matcher for JaroWinklerMatcher {
    closed spec fn score_spec(&self, s1: Seq<char>, s2: Seq<char>) -> int {
        jaro_winkler_fp(clean_spec(s1), clean_spec(s2), self.config)
    }

    proof fn lemma_score_in_range(&self, s1: Seq<char>, s2: Seq<char>) {
        lemma_jaro_winkler_fp_range(clean_spec(s1), clean_spec(s2), self.config);
    }

    fn get_score(&self, s1: &str, s2: &str) -> (r: u64) {
        let c1 = self.clean(s1);
        let c2 = self.clean(s2);
        proof {
            lemma_clean_len(s1@);
            lemma_clean_len(s2@);
        }
        jaro_winkler_score(c1.as_str(), c2.as_str(), &self.config)
    }
}

/// A name fully matches itself: after cleaning, two equal inputs score
/// 1.0 under any well-formed configuration, as long as some letter
/// survives the cleaning.
pub proof fn lemma_jaro_winkler_matcher_reflexive(m: &JaroWinklerMatcher, s: Seq<char>)
    requires
        m.wf(),
        clean_spec(s).len() > 0,
    ensures
        m.score_spec(s, s) == SCORE_ONE,
{
    lemma_jaro_winkler_fp_reflexive(clean_spec(s), m.config);
}

} // verus!
